//! Decoding an I-picture gives back the frame that its encoder reconstructed.

use crate::arith::blocks_of_16;
use crate::bits::{
    bits_of, holds_at, lemma_holds_at_split, lemma_holds_flag, value_bits, zero_padded,
};
use crate::block::value_of;
use crate::block_writes::lemma_block_written;
use crate::block_zero_runs::lemma_intra_broken_up;
use crate::coded_block_pattern::CodedBlockPattern;
use crate::dequantize::{dequantized_intra, IntraDcPredictors};
use crate::encoded_bits::{
    added, lemma_added, lemma_added_twice, lemma_one_goes_on, lemma_stands_prefix,
    lemma_stands_split, stands,
};
use crate::error::{Error, Result};
use crate::frame_assembly::{
    blocks_in_format, frame_with_block, frame_with_intra, macroblock_addressable, placement_of,
    saturated_samples, zero_frame, FrameContents,
};
use crate::macroblock_type::{
    law_type_round_trip, macroblock_type_at, type_rows, MacroblockType,
};
use crate::mb_address_increment::law_increment_round_trip;
use crate::mpeg1_block_decoder::{
    intra_bits, kind_of, law_intra_levels_round_trip, mpeg1_intra_at, mpeg1_levels,
};
use crate::mpeg1_encoder::{
    intra_block_encoded, intra_blocks_encoded, intra_levels, intra_macroblock_encoded,
    intra_picture_encoded, intra_row_encoded, intra_rows_encoded, lemma_intra_row_stops,
    lemma_intra_rows_stop, lemma_intra_stops, source_of, IntraEncoding, MacroblockSource,
};
use crate::mpeg1_picture::{intra_placed, intra_slice, mpeg1_context, Mpeg1PictureParams};
use crate::mpeg2_macroblock_blocks::{component_of, DecodedBlock};
use crate::picture::ChromaFormat;
use crate::picture_header::PictureCodingType;
use crate::picture_round_trip::{
    lemma_first_slice_found, lemma_header_len, lemma_picture_codes, lemma_picture_read,
    lemma_whole_bytes_added,
    slice_reads, WrittenSlices,
};
use crate::picture_slices::decoded_slices;
use crate::slice_header::{law_slice_header_round_trip, slice_header_of};
use crate::slice_macroblock_walk::{
    blocks_of, lemma_macroblock_advances, macroblock_at, modes_at, mpeg1_blocks_from, no_pattern,
    optional_pattern_at, optional_vectors_at, prediction_at, slice_ends, state_ok, walk_from, walk_start,
    MacroblockFields, SliceWalkContext, WalkState, MAX_ADDRESS,
};
use crate::start_codes::{holds_codes, picture_codes};
use crate::stream_writer::{lemma_slice_header_len, picture_header_bits, slice_header_bits};
use crate::zero_runs::{broken_up, lemma_flag_broken_up, lemma_joined, lemma_loosened};
use vstd::arithmetic::power2::lemma2_to64;
use vstd::prelude::*;

verus! {

/// The levels of an intra block are ones that a block can hold.
proof fn lemma_intra_levels_fit<D: Fn([[i16; 8]; 8]) -> [[i32; 8]; 8]>(
    src: MacroblockSource,
    i: int,
    dc: IntraDcPredictors,
    fdct: D,
)
    ensures
        mpeg1_levels(intra_levels(src, i, dc, fdct)),
{
}

/// An intra block that was written is decoded to what its encoder reconstructed.
proof fn lemma_intra_block_read<
    D: Fn([[i16; 8]; 8]) -> [[i32; 8]; 8],
    F: Fn([[i32; 8]; 8]) -> [[i16; 8]; 8],
>(s: Seq<bool>, base: int, src: MacroblockSource, i: int, st: IntraEncoding, fdct: D, idct: F)
    requires
        0 <= i < 6,
        0 <= base <= st.bits.len(),
        intra_block_encoded(src, i, st, fdct, idct).0 is Ok,
        stands(s, base, intra_block_encoded(src, i, st, fdct, idct).1.bits),
    ensures
        ({
            let after = intra_block_encoded(src, i, st, fdct, idct).1;
            let (block, p, dc) = mpeg1_intra_at(
                s,
                st.bits.len() - base,
                i as u8,
                true,
                src.scale,
                src.params.intra_quant,
                st.dc,
                src.address() as i32,
                idct,
            );
            &&& block is Ok
            &&& p == after.bits.len() - base
            &&& dc == after.dc
            &&& after.recon == frame_with_block(
                st.recon,
                src.placement(i),
                saturated_samples(block->Ok_0.f_pel),
            )
        }),
{
    reveal(intra_block_encoded);
    reveal(mpeg1_intra_at);
    let dct_zz = intra_levels(src, i, st.dc, fdct);
    lemma_intra_levels_fit(src, i, st.dc, fdct);
    lemma_stands_split(s, base, st.bits, intra_bits(i, dct_zz));
    law_intra_levels_round_trip(s, st.bits.len() - base, i as u8, dct_zz);
}

/// An intra block adds to the bits.
proof fn lemma_intra_block_grows<
    D: Fn([[i16; 8]; 8]) -> [[i32; 8]; 8],
    F: Fn([[i32; 8]; 8]) -> [[i16; 8]; 8],
>(src: MacroblockSource, i: int, st: IntraEncoding, fdct: D, idct: F)
    ensures
        st.bits.is_prefix_of(intra_block_encoded(src, i, st, fdct, idct).1.bits),
{
    reveal(intra_block_encoded);
    let dct_zz = intra_levels(src, i, st.dc, fdct);
    assert(st.bits.is_prefix_of(st.bits + intra_bits(i, dct_zz)));
}

/// The blocks from `k` to `n` add to the bits.
proof fn lemma_intra_blocks_grow<
    D: Fn([[i16; 8]; 8]) -> [[i32; 8]; 8],
    F: Fn([[i32; 8]; 8]) -> [[i16; 8]; 8],
>(src: MacroblockSource, k: int, n: int, st: IntraEncoding, fdct: D, idct: F)
    requires
        0 <= k <= n,
    ensures
        intra_blocks_encoded(src, k, st, fdct, idct).1.bits.is_prefix_of(
            intra_blocks_encoded(src, n, st, fdct, idct).1.bits,
        ),
    decreases n - k,
{
    if k < n {
        lemma_intra_blocks_grow(src, k, n - 1, st, fdct, idct);
        let (res, before) = intra_blocks_encoded(src, n - 1, st, fdct, idct);
        if res is Ok {
            lemma_intra_block_grows(src, n - 1, before, fdct, idct);
        }
    }
}

/// Blocks put into a frame, the first of them taken by itself.
pub proof fn lemma_frame_with_intra_head(
    frame: FrameContents,
    b: DecodedBlock,
    rest: Seq<DecodedBlock>,
    chroma: ChromaFormat,
    mb_col: int,
    mb_row: int,
    n: int,
)
    requires
        0 <= n <= rest.len(),
        b.block_index < chroma.spec_blocks_per_mb(),
    ensures
        frame_with_intra(frame, seq![b] + rest, chroma, mb_col, mb_row, false, n + 1)
            == frame_with_intra(
            frame_with_block(
                frame,
                placement_of(b.block_index as int, chroma, mb_col, mb_row, false),
                saturated_samples(b.decoded.f_pel),
            ),
            rest,
            chroma,
            mb_col,
            mb_row,
            false,
            n,
        ),
    decreases n,
{
    reveal_with_fuel(frame_with_intra, 2);
    let all = seq![b] + rest;
    assert(all[n] == if n == 0 {
        b
    } else {
        rest[n - 1]
    });
    if n > 0 {
        lemma_frame_with_intra_head(frame, b, rest, chroma, mb_col, mb_row, n - 1);
    }
}

/// The blocks of an intra macroblock from block `i` on are decoded to what their
/// encoder reconstructed.
proof fn lemma_intra_blocks_read<
    D: Fn([[i16; 8]; 8]) -> [[i32; 8]; 8],
    F: Fn([[i32; 8]; 8]) -> [[i16; 8]; 8],
>(
    s: Seq<bool>,
    base: int,
    src: MacroblockSource,
    i: int,
    st: IntraEncoding,
    mt: MacroblockType,
    pattern: CodedBlockPattern,
    fdct: D,
    idct: F,
)
    requires
        0 <= i <= 6,
        0 <= base <= st.bits.len(),
        mt.macroblock_intra,
        intra_blocks_encoded(src, 6, st, fdct, idct).0 is Ok,
        stands(s, base, intra_blocks_encoded(src, 6, st, fdct, idct).1.bits),
    ensures
        ({
            let now = intra_blocks_encoded(src, i, st, fdct, idct).1;
            let end = intra_blocks_encoded(src, 6, st, fdct, idct).1;
            let (blocks, p, dc) = mpeg1_blocks_from(
                s,
                now.bits.len() - base,
                i,
                src.params.matrices(),
                src.scale,
                now.dc,
                src.address() as i32,
                mt,
                pattern,
                idct,
            );
            &&& blocks is Ok
            &&& blocks->Ok_0.len() == 6 - i
            &&& forall|k: int|
                0 <= k < 6 - i ==> (#[trigger] blocks->Ok_0[k]).block_index == i + k
            &&& p == end.bits.len() - base
            &&& dc == end.dc
            &&& frame_with_intra(
                now.recon,
                blocks->Ok_0,
                ChromaFormat::Yuv420,
                src.mb_col,
                src.mb_row,
                false,
                6 - i,
            ) == end.recon
        }),
    decreases 6 - i,
{
    if i < 6 {
        let now = intra_blocks_encoded(src, i, st, fdct, idct).1;
        let next = intra_blocks_encoded(src, i + 1, st, fdct, idct).1;
        let end = intra_blocks_encoded(src, 6, st, fdct, idct).1;
        lemma_intra_stops(src, i, 6, st, fdct, idct);
        lemma_intra_stops(src, i + 1, 6, st, fdct, idct);
        lemma_intra_blocks_grow(src, 0, i, st, fdct, idct);
        lemma_intra_blocks_grow(src, i + 1, 6, st, fdct, idct);
        lemma_intra_blocks_grow(src, i, i + 1, st, fdct, idct);
        lemma_stands_prefix(s, base, next.bits, end.bits);
        lemma_intra_block_read(s, base, src, i, now, fdct, idct);
        lemma_intra_blocks_read(s, base, src, i + 1, st, mt, pattern, fdct, idct);
        let at = now.bits.len() - base;
        let address = src.address() as i32;
        let (block, p1, dc1) = mpeg1_intra_at(
            s,
            at,
            i as u8,
            true,
            src.scale,
            src.params.intra_quant,
            now.dc,
            address,
            idct,
        );
        let rest = mpeg1_blocks_from(
            s,
            p1,
            i + 1,
            src.params.matrices(),
            src.scale,
            dc1,
            address,
            mt,
            pattern,
            idct,
        ).0->Ok_0;
        let b = DecodedBlock {
            block_index: i as u8,
            component: component_of(i, ChromaFormat::Yuv420)->0,
            decoded: block->Ok_0,
        };
        let all = seq![b] + rest;
        assert(all[0] == b);
        assert forall|k: int| 0 <= k < 6 - i implies (#[trigger] all[k]).block_index == i + k by {
            if k > 0 {
                assert(all[k] == rest[k - 1]);
            }
        }
        lemma_frame_with_intra_head(
            now.recon,
            b,
            rest,
            ChromaFormat::Yuv420,
            src.mb_col,
            src.mb_row,
            5 - i,
        );
    }
}

/// What a slice is read with that holds the macroblocks of an MPEG-1 encoder.
pub open spec fn reads_mpeg1(
    ctx: SliceWalkContext,
    params: Mpeg1PictureParams,
    coding: PictureCodingType,
) -> bool {
    &&& ctx.mpeg1
    &&& ctx.frame_pred_frame_dct
    &&& !ctx.concealment_motion_vectors
    &&& ctx.chroma_format == ChromaFormat::Yuv420
    &&& ctx.picture_coding_type == coding
    &&& ctx.quantiser_matrices == params.matrices()
}

/// The bits that an intra macroblock starts with: an increment of 1 and its type.
pub open spec fn intra_head(coding: PictureCodingType, row: int) -> Seq<bool> {
    let entry = type_rows(coding)[row];
    seq![true] + value_bits(entry.0 as int, entry.1 as int)
}

/// Whether a row of a type table is that of an intra macroblock with the scale in
/// force.
pub open spec fn plain_intra_row(coding: PictureCodingType, row: int) -> bool {
    let entry = type_rows(coding)[row];
    &&& 0 <= row < type_rows(coding).len()
    &&& !entry.2
    &&& !entry.3
    &&& !entry.4
    &&& !entry.5
    &&& entry.6
}

/// What a decoder makes of an intra macroblock, and the state that it goes on with.
pub open spec fn intra_read(
    m: MacroblockFields,
    wst: WalkState,
    next: WalkState,
    src: MacroblockSource,
    recon: FrameContents,
    after: IntraEncoding,
) -> bool {
    &&& m.address == src.address()
    &&& m.skipped == 0
    &&& m.macroblock_type.macroblock_intra
    &&& m.dct_type is None
    &&& m.blocks.len() == 6
    &&& forall|k: int| 0 <= k < 6 ==> (#[trigger] m.blocks[k]).block_index == k
    &&& frame_with_intra(
        recon,
        m.blocks,
        ChromaFormat::Yuv420,
        src.mb_col,
        src.mb_row,
        false,
        6,
    ) == after.recon
    &&& next == (WalkState { address: src.address(), first: false, dc1: after.dc, ..wst })
}

/// An intra macroblock that was written is decoded to what its encoder
/// reconstructed.
pub proof fn lemma_intra_macroblock_read<
    D: Fn([[i16; 8]; 8]) -> [[i32; 8]; 8],
    F: Fn([[i32; 8]; 8]) -> [[i16; 8]; 8],
>(
    s: Seq<bool>,
    base: int,
    src: MacroblockSource,
    coding: PictureCodingType,
    row: int,
    st: IntraEncoding,
    ctx: SliceWalkContext,
    wst: WalkState,
    fdct: D,
    idct: F,
)
    requires
        0 <= base <= st.bits.len(),
        plain_intra_row(coding, row),
        reads_mpeg1(ctx, src.params, coding),
        0 <= src.address() <= MAX_ADDRESS,
        wst.address == src.address() - 1,
        wst.scale == src.scale,
        wst.dc1 == st.dc,
        ({
            let headed = (IntraEncoding { bits: st.bits + intra_head(coding, row), ..st });
            let (res, after) = intra_macroblock_encoded(src, headed, fdct, idct);
            res is Ok && stands(s, base, after.bits)
        }),
    ensures
        ({
            let headed = (IntraEncoding { bits: st.bits + intra_head(coding, row), ..st });
            let after = intra_macroblock_encoded(src, headed, fdct, idct).1;
            let (read, p) = macroblock_at(s, st.bits.len() - base, ctx, wst, idct);
            &&& read is Ok
            &&& p == after.bits.len() - base
            &&& intra_read(read->Ok_0.0, wst, read->Ok_0.1, src, st.recon, after)
            &&& s[st.bits.len() - base]
            &&& st.bits.len() - base < s.len()
            &&& st.bits.is_prefix_of(after.bits)
        }),
{
    reveal(macroblock_at);
    reveal(optional_vectors_at);
    reveal(optional_pattern_at);
    reveal(blocks_of);
    let head = intra_head(coding, row);
    let headed = IntraEncoding { bits: st.bits + head, ..st };
    let after = intra_macroblock_encoded(src, headed, fdct, idct).1;
    let coded = intra_blocks_encoded(src, 6, headed, fdct, idct).1;
    lemma_intra_blocks_grow(src, 0, 6, headed, fdct, idct);
    assert(st.bits.is_prefix_of(headed.bits));
    assert(st.bits.is_prefix_of(after.bits)) by {
        assert forall|k: int| 0 <= k < st.bits.len() implies st.bits[k] == after.bits[k] by {
            assert(headed.bits[k] == coded.bits[k]);
        }
    }
    lemma_stands_prefix(s, base, headed.bits, coded.bits);
    let at = st.bits.len() - base;
    lemma_stands_split(s, base, st.bits, head);
    let entry = type_rows(coding)[row];
    let code = value_bits(entry.0 as int, entry.1 as int);
    lemma_holds_flag(s, at, true, code);
    lemma_holds_at_split(s, at, seq![true], code);
    assert(value_bits(1, 1) =~= seq![true]) by {
        reveal_with_fuel(value_bits, 2);
    }
    law_increment_round_trip(s, at, true, 1);
    law_type_round_trip(s, at + 1, coding, row);
    crate::bits::lemma_value_bits_len(entry.0 as int, entry.1 as int);
    let mt = macroblock_type_at(s, at + 1, coding).0->Ok_0;
    let p = at + 1 + entry.1;
    assert(headed.bits.len() - base == p);
    lemma_intra_blocks_read(s, base, src, 0, headed, mt, no_pattern(p), fdct, idct);
    assert(modes_at(s, at + 1, ctx, wst.scale).1 == p);
    assert(prediction_at(s, p, ctx, modes_at(s, at + 1, ctx, wst.scale).0->Ok_0).1 == p);
}

/// Macroblocks put into a frame, the first of them taken by itself.
proof fn lemma_intra_placed_head(
    frame: FrameContents,
    m: MacroblockFields,
    rest: Seq<MacroblockFields>,
    mb_width: int,
    n: int,
)
    requires
        0 <= n <= rest.len(),
    ensures
        ({
            let (one, a) = intra_placed(frame, seq![m], mb_width, 1);
            let (all, b) = intra_placed(one, rest, mb_width, n);
            intra_placed(frame, seq![m] + rest, mb_width, n + 1) == (all, a + b)
        }),
    decreases n,
{
    reveal_with_fuel(intra_placed, 2);
    let ms = seq![m] + rest;
    assert(ms[n] == if n == 0 {
        m
    } else {
        rest[n - 1]
    });
    assert(seq![m][0] == m);
    if n > 0 {
        lemma_intra_placed_head(frame, m, rest, mb_width, n - 1);
    }
}

/// An intra macroblock that was read is put where it was taken from, and counts.
pub proof fn lemma_intra_macroblock_placed(
    m: MacroblockFields,
    wst: WalkState,
    next: WalkState,
    src: MacroblockSource,
    recon: FrameContents,
    after: IntraEncoding,
)
    requires
        intra_read(m, wst, next, src, recon, after),
        0 <= src.mb_col < blocks_of_16(src.params.width as int),
        0 <= src.mb_row,
    ensures
        m.address % blocks_of_16(src.params.width as int) == src.mb_col,
        m.address / blocks_of_16(src.params.width as int) == src.mb_row,
        intra_placed(recon, seq![m], blocks_of_16(src.params.width as int), 1) == (
            after.recon,
            1int,
        ),
{
    let w = blocks_of_16(src.params.width as int);
    vstd::arithmetic::div_mod::lemma_fundamental_div_mod_converse(
        m.address,
        w,
        src.mb_row,
        src.mb_col,
    );
    reveal_with_fuel(intra_placed, 2);
    assert(seq![m][0] == m);
    assert(m.blocks[5].block_index == 5);
    lemma_blocks_counted(m.blocks, 6);
}

proof fn lemma_blocks_counted(blocks: Seq<DecodedBlock>, n: int)
    requires
        0 <= n <= blocks.len(),
        forall|k: int| 0 <= k < n ==> (#[trigger] blocks[k]).block_index == k,
        n <= 6,
    ensures
        blocks_in_format(blocks, ChromaFormat::Yuv420, n) == n,
    decreases n,
{
    if n > 0 {
        assert(blocks[n - 1].block_index == n - 1);
        lemma_blocks_counted(blocks, n - 1);
    }
}

/// What the encoding of a row of an I-picture gives.
spec fn row_after<
    D: Fn([[i16; 8]; 8]) -> [[i32; 8]; 8],
    F: Fn([[i32; 8]; 8]) -> [[i16; 8]; 8],
>(src: MacroblockSource, n: int, st: IntraEncoding, fdct: D, idct: F) -> (
    Result<()>,
    IntraEncoding,
) {
    intra_row_encoded(src.current, src.params, src.scale, src.mb_row, n, st, fdct, idct)
}

/// The macroblocks from `k` to `n` of a row add to the bits.
proof fn lemma_intra_row_grows<
    D: Fn([[i16; 8]; 8]) -> [[i32; 8]; 8],
    F: Fn([[i32; 8]; 8]) -> [[i16; 8]; 8],
>(src: MacroblockSource, k: int, n: int, st: IntraEncoding, fdct: D, idct: F)
    requires
        0 <= k <= n,
    ensures
        row_after(src, k, st, fdct, idct).1.bits.is_prefix_of(
            row_after(src, n, st, fdct, idct).1.bits,
        ),
    decreases n - k,
{
    if k < n {
        lemma_intra_row_grows(src, k, n - 1, st, fdct, idct);
        let (res, before) = row_after(src, n - 1, st, fdct, idct);
        if res is Ok {
            let one = source_of(src.current, src.params, src.scale, n - 1, src.mb_row);
            let headed = IntraEncoding { bits: before.bits.push(true).push(true), ..before };
            lemma_intra_blocks_grow(one, 0, 6, headed, fdct, idct);
            let after = row_after(src, n, st, fdct, idct).1;
            assert(headed.bits.is_prefix_of(after.bits));
            assert(before.bits.is_prefix_of(after.bits)) by {
                assert forall|j: int| 0 <= j < before.bits.len() implies before.bits[j]
                    == after.bits[j] by {
                    assert(headed.bits[j] == after.bits[j]);
                }
            }
        }
    }
}

/// The macroblocks of a row from `n` on are decoded to what their encoder
/// reconstructed.
proof fn lemma_intra_row_read<
    D: Fn([[i16; 8]; 8]) -> [[i32; 8]; 8],
    F: Fn([[i32; 8]; 8]) -> [[i16; 8]; 8],
>(
    s: Seq<bool>,
    base: int,
    src: MacroblockSource,
    n: int,
    st: IntraEncoding,
    ctx: SliceWalkContext,
    wst: WalkState,
    fdct: D,
    idct: F,
)
    requires
        0 <= n <= blocks_of_16(src.params.width as int),
        0 <= src.mb_row,
        0 <= base <= st.bits.len(),
        reads_mpeg1(ctx, src.params, PictureCodingType::Intra),
        (src.mb_row + 1) * blocks_of_16(src.params.width as int) - 1 <= MAX_ADDRESS,
        state_ok(wst),
        wst.address == src.mb_row * blocks_of_16(src.params.width as int) + n - 1,
        wst.scale == src.scale,
        wst.dc1 == row_after(src, n, st, fdct, idct).1.dc,
        ({
            let (res, end) = row_after(
                src,
                blocks_of_16(src.params.width as int),
                st,
                fdct,
                idct,
            );
            &&& res is Ok
            &&& stands(s, base, end.bits)
            &&& slice_ends(s, end.bits.len() - base)
        }),
    ensures
        ({
            let w = blocks_of_16(src.params.width as int);
            let now = row_after(src, n, st, fdct, idct).1;
            let end = row_after(src, w, st, fdct, idct).1;
            let read = walk_from(s, now.bits.len() - base, ctx, wst, idct);
            &&& read is Ok
            &&& read->Ok_0.len() == w - n
            &&& intra_placed(now.recon, read->Ok_0, w, w - n) == (end.recon, w - n)
        }),
    decreases blocks_of_16(src.params.width as int) - n,
{
    let w = blocks_of_16(src.params.width as int);
    let now = row_after(src, n, st, fdct, idct).1;
    let end = row_after(src, w, st, fdct, idct).1;
    let at = now.bits.len() - base;
    lemma_intra_row_grows(src, 0, n, st, fdct, idct);
    lemma_intra_row_grows(src, n, w, st, fdct, idct);
    if n < w {
        lemma_intra_row_stops(
            src.current,
            src.params,
            src.scale,
            src.mb_row,
            n,
            w,
            st,
            fdct,
            idct,
        );
        lemma_intra_row_stops(
            src.current,
            src.params,
            src.scale,
            src.mb_row,
            n + 1,
            w,
            st,
            fdct,
            idct,
        );
        lemma_intra_row_grows(src, n, n + 1, st, fdct, idct);
        lemma_intra_row_grows(src, n + 1, w, st, fdct, idct);
        let one = source_of(src.current, src.params, src.scale, n, src.mb_row);
        let next = row_after(src, n + 1, st, fdct, idct).1;
        lemma_stands_prefix(s, base, next.bits, end.bits);
        assert(now.bits.push(true).push(true) =~= now.bits + intra_head(
            PictureCodingType::Intra,
            0,
        )) by {
            reveal_with_fuel(value_bits, 2);
        }
        assert(one.address() <= MAX_ADDRESS && 0 <= one.address()) by (nonlinear_arith)
            requires
                0 <= n < w,
                0 <= src.mb_row,
                one.address() == src.mb_row * w + n,
                (src.mb_row + 1) * w - 1 <= MAX_ADDRESS,
        ;
        lemma_intra_macroblock_read(
            s,
            base,
            one,
            PictureCodingType::Intra,
            0,
            now,
            ctx,
            wst,
            fdct,
            idct,
        );
        let (read, p) = macroblock_at(s, at, ctx, wst, idct);
        let m = read->Ok_0.0;
        let after = read->Ok_0.1;
        lemma_one_goes_on(s, at);
        lemma_macroblock_advances(s, at, ctx, wst, idct);
        lemma_intra_macroblock_placed(m, wst, after, one, now.recon, next);
        lemma_intra_row_read(s, base, src, n + 1, st, ctx, after, fdct, idct);
        let rest = walk_from(s, p, ctx, after, idct)->Ok_0;
        lemma_intra_placed_head(now.recon, m, rest, w, w - n - 1);
    }
}

/// The bits of the first `n` blocks of an intra macroblock.
proof fn lemma_intra_blocks_broken_up<
    D: Fn([[i16; 8]; 8]) -> [[i32; 8]; 8],
    F: Fn([[i32; 8]; 8]) -> [[i16; 8]; 8],
>(src: MacroblockSource, n: int, st: IntraEncoding, fdct: D, idct: F)
    requires
        1 <= n,
        intra_blocks_encoded(src, n, st, fdct, idct).0 is Ok,
    ensures
        broken_up(
            added(st.bits, intra_blocks_encoded(src, n, st, fdct, idct).1.bits),
            19,
            1,
        ),
    decreases n,
{
    reveal(intra_block_encoded);
    let before = intra_blocks_encoded(src, n - 1, st, fdct, idct).1;
    let after = intra_blocks_encoded(src, n, st, fdct, idct).1;
    let dct_zz = intra_levels(src, n - 1, before.dc, fdct);
    lemma_intra_levels_fit(src, n - 1, before.dc, fdct);
    lemma_intra_broken_up(n - 1, dct_zz);
    lemma_added(before.bits, intra_bits(n - 1, dct_zz));
    if n > 1 {
        lemma_intra_blocks_broken_up(src, n - 1, st, fdct, idct);
        lemma_intra_blocks_grow(src, 0, n - 1, st, fdct, idct);
        lemma_added_twice(st.bits, before.bits, after.bits);
        lemma_joined(
            added(st.bits, before.bits),
            19,
            1,
            added(before.bits, after.bits),
            19,
            1,
        );
    }
}

/// The bits of an intra macroblock after its head.
pub proof fn lemma_intra_macroblock_broken_up<
    D: Fn([[i16; 8]; 8]) -> [[i32; 8]; 8],
    F: Fn([[i32; 8]; 8]) -> [[i16; 8]; 8],
>(src: MacroblockSource, st: IntraEncoding, fdct: D, idct: F)
    requires
        intra_macroblock_encoded(src, st, fdct, idct).0 is Ok,
    ensures
        st.bits.is_prefix_of(intra_macroblock_encoded(src, st, fdct, idct).1.bits),
        broken_up(
            added(st.bits, intra_macroblock_encoded(src, st, fdct, idct).1.bits),
            19,
            1,
        ),
{
    lemma_intra_blocks_broken_up(src, 6, st, fdct, idct);
    lemma_intra_blocks_grow(src, 0, 6, st, fdct, idct);
}

/// The bits of the first `n` macroblocks of a row.
proof fn lemma_intra_row_broken_up<
    D: Fn([[i16; 8]; 8]) -> [[i32; 8]; 8],
    F: Fn([[i32; 8]; 8]) -> [[i16; 8]; 8],
>(src: MacroblockSource, n: int, st: IntraEncoding, fdct: D, idct: F)
    requires
        1 <= n,
        row_after(src, n, st, fdct, idct).0 is Ok,
    ensures
        broken_up(added(st.bits, row_after(src, n, st, fdct, idct).1.bits), 0, 1),
    decreases n,
{
    let before = row_after(src, n - 1, st, fdct, idct).1;
    let after = row_after(src, n, st, fdct, idct).1;
    let one = source_of(src.current, src.params, src.scale, n - 1, src.mb_row);
    let headed = IntraEncoding { bits: before.bits.push(true).push(true), ..before };
    let head = seq![true] + seq![true];
    lemma_intra_macroblock_broken_up(one, headed, fdct, idct);
    assert(headed.bits =~= before.bits + head);
    lemma_added(before.bits, head);
    lemma_flag_broken_up();
    lemma_joined(seq![true], 0, 0, seq![true], 0, 0);
    lemma_added_twice(before.bits, headed.bits, after.bits);
    lemma_joined(head, 0, 0, added(headed.bits, after.bits), 19, 1);
    if n > 1 {
        lemma_intra_row_broken_up(src, n - 1, st, fdct, idct);
        lemma_intra_row_grows(src, 0, n - 1, st, fdct, idct);
        lemma_added_twice(st.bits, before.bits, after.bits);
        lemma_joined(added(st.bits, before.bits), 0, 1, added(before.bits, after.bits), 0, 1);
    }
}

/// The encoding of row `src.mb_row` as a slice, after its header.
pub open spec fn intra_slice_encoded<
    D: Fn([[i16; 8]; 8]) -> [[i32; 8]; 8],
    F: Fn([[i32; 8]; 8]) -> [[i16; 8]; 8],
>(src: MacroblockSource, bits: Seq<bool>, recon: FrameContents, fdct: D, idct: F) -> (
    Result<()>,
    IntraEncoding,
) {
    intra_row_encoded(
        src.current,
        src.params,
        src.scale,
        src.mb_row,
        blocks_of_16(src.params.width as int),
        (IntraEncoding {
            bits: bits + slice_header_bits(src.mb_row, src.scale),
            recon,
            dc: IntraDcPredictors::spec_at_slice_start(),
        }),
        fdct,
        idct,
    )
}

/// A slice of an I-picture that was written is decoded to what its encoder
/// reconstructed.
pub proof fn law_intra_slice_round_trip<
    D: Fn([[i16; 8]; 8]) -> [[i32; 8]; 8],
    F: Fn([[i32; 8]; 8]) -> [[i16; 8]; 8],
>(
    src: MacroblockSource,
    bits: Seq<bool>,
    recon: FrameContents,
    buf: Seq<u8>,
    fdct: D,
    idct: F,
)
    requires
        0 <= src.mb_row < 175,
        src.params.height <= 2800,
        1 <= src.scale <= 31,
        (src.mb_row + 1) * blocks_of_16(src.params.width as int) - 1 <= MAX_ADDRESS,
        ({
            let (res, end) = intra_slice_encoded(src, bits, recon, fdct, idct);
            let s = bits_of(buf);
            &&& res is Ok
            &&& stands(s, bits.len() as int, end.bits)
            &&& slice_ends(s, end.bits.len() - bits.len())
        }),
    ensures
        ({
            let end = intra_slice_encoded(src, bits, recon, fdct, idct).1;
            let header = slice_header_of(bits_of(buf), src.params.height as u32);
            &&& header is Ok
            &&& intra_slice(src.params, idct)(buf, header->Ok_0, recon) == Ok::<
                (FrameContents, int),
                Error,
            >((end.recon, blocks_of_16(src.params.width as int)))
        }),
{
    let w = blocks_of_16(src.params.width as int);
    let s = bits_of(buf);
    let head = slice_header_bits(src.mb_row, src.scale);
    let st = IntraEncoding {
        bits: bits + head,
        recon,
        dc: IntraDcPredictors::spec_at_slice_start(),
    };
    let end = intra_slice_encoded(src, bits, recon, fdct, idct).1;
    lemma_slice_header_len(src.mb_row, src.scale);
    lemma_intra_row_grows(src, 0, w, st, fdct, idct);
    lemma_stands_prefix(s, bits.len() as int, st.bits, end.bits);
    lemma_stands_split(s, bits.len() as int, bits, head);
    law_slice_header_round_trip(s, src.mb_row, src.scale, src.params.height as u32);
    let header = slice_header_of(s, src.params.height as u32)->Ok_0;
    let ctx = mpeg1_context(src.params, PictureCodingType::Intra, header, 7, 7);
    lemma_row_fits(src.mb_row, w);
    let wst = walk_start(ctx);
    lemma2_to64();
    lemma_intra_row_read(s, bits.len() as int, src, 0, st, ctx, wst, fdct, idct);
}

/// The row of a macroblock address that can be read is that of a picture of no
/// more macroblocks.
pub proof fn lemma_row_fits(mb_row: int, w: int)
    requires
        0 <= mb_row,
        0 <= w,
        (mb_row + 1) * w - 1 <= MAX_ADDRESS,
    ensures
        0 <= mb_row * w,
        w <= u32::MAX,
{
    assert(0 <= mb_row * w && w <= (mb_row + 1) * w) by (nonlinear_arith)
        requires
            0 <= mb_row,
            0 <= w,
    ;
}

/// The blocks of an intra macroblock keep the shape of the frame.
pub proof fn lemma_intra_keeps_shape<
    D: Fn([[i16; 8]; 8]) -> [[i32; 8]; 8],
    F: Fn([[i32; 8]; 8]) -> [[i16; 8]; 8],
>(src: MacroblockSource, n: int, st: IntraEncoding, fdct: D, idct: F)
    requires
        st.recon.wf(),
    ensures
        ({
            let after = intra_blocks_encoded(src, n, st, fdct, idct).1.recon;
            after.wf() && after.chroma_format == st.recon.chroma_format
        }),
    decreases n,
{
    if n > 0 {
        lemma_intra_keeps_shape(src, n - 1, st, fdct, idct);
        reveal(intra_block_encoded);
        let (res, before) = intra_blocks_encoded(src, n - 1, st, fdct, idct);
        if res is Ok {
            let (one, after) = intra_block_encoded(src, n - 1, before, fdct, idct);
            if one is Ok {
                let dct_zz = intra_levels(src, n - 1, before.dc, fdct);
                let recon = dequantized_intra(
                    dct_zz,
                    src.scale,
                    src.params.intra_quant,
                    kind_of((n - 1) as u8)->Ok_0,
                    before.dc,
                    src.address() as i32,
                ).0->Ok_0;
                lemma_block_written(
                    before.recon,
                    src.placement(n - 1),
                    saturated_samples(value_of(idct, recon)),
                );
            }
        }
    }
}

/// A macroblock of a row whose addresses can be read can be located.
pub proof fn lemma_located(src: MacroblockSource)
    requires
        0 <= src.mb_row < 0x0FFF_FFFF,
        0 <= src.mb_col < blocks_of_16(src.params.width as int),
        (src.mb_row + 1) * blocks_of_16(src.params.width as int) - 1 <= MAX_ADDRESS,
    ensures
        0 <= src.address() <= MAX_ADDRESS,
        macroblock_addressable(src.mb_col, src.mb_row),
{
    let w = blocks_of_16(src.params.width as int);
    let r = src.mb_row;
    assert(0 <= r * w && r * w + src.mb_col <= MAX_ADDRESS && w <= MAX_ADDRESS + 1)
        by (nonlinear_arith)
        requires
            0 <= src.mb_col < w,
            0 <= r,
            (r + 1) * w - 1 <= MAX_ADDRESS,
    ;
}

/// The slices of an I-picture as its encoder writes them.
spec fn intra_slices<
    D: Fn([[i16; 8]; 8]) -> [[i32; 8]; 8],
    F: Fn([[i32; 8]; 8]) -> [[i16; 8]; 8],
>(
    current: FrameContents,
    params: Mpeg1PictureParams,
    scale: u8,
    bits: Seq<bool>,
    recon: FrameContents,
    fdct: D,
    idct: F,
) -> WrittenSlices {
    let h = blocks_of_16(params.height as int);
    WrittenSlices {
        scale,
        starts: Seq::new(
            (h + 1) as nat,
            |r: int|
                intra_rows_encoded(current, params, scale, r, bits, recon, fdct, idct).1,
        ),
        ends: Seq::new(
            h as nat,
            |r: int|
                {
                    let (_, b, f) = intra_rows_encoded(
                        current,
                        params,
                        scale,
                        r,
                        bits,
                        recon,
                        fdct,
                        idct,
                    );
                    intra_slice_encoded(source_of(current, params, scale, 0, r), b, f, fdct, idct).1.bits
                },
        ),
    }
}

/// A row of an I-picture as its encoder writes it.
proof fn lemma_intra_slice_written<
    D: Fn([[i16; 8]; 8]) -> [[i32; 8]; 8],
    F: Fn([[i32; 8]; 8]) -> [[i16; 8]; 8],
>(
    current: FrameContents,
    params: Mpeg1PictureParams,
    scale: u8,
    r: int,
    bits: Seq<bool>,
    recon: FrameContents,
    fdct: D,
    idct: F,
)
    requires
        0 <= r < blocks_of_16(params.height as int),
        1 <= params.width,
        intra_rows_encoded(
            current,
            params,
            scale,
            blocks_of_16(params.height as int),
            bits,
            recon,
            fdct,
            idct,
        ).0 is Ok,
    ensures
        intra_slices(current, params, scale, bits, recon, fdct, idct).slice_ok(r),
        ({
            let (_, b, f) = intra_rows_encoded(
                current,
                params,
                scale,
                r,
                bits,
                recon,
                fdct,
                idct,
            );
            let (res, end) = intra_slice_encoded(
                source_of(current, params, scale, 0, r),
                b,
                f,
                fdct,
                idct,
            );
            &&& res is Ok
            &&& intra_rows_encoded(current, params, scale, r + 1, bits, recon, fdct, idct) == (
                Ok::<(), Error>(()),
                zero_padded(end.bits),
                end.recon,
            )
        }),
{
    let h = blocks_of_16(params.height as int);
    let w = blocks_of_16(params.width as int);
    lemma_intra_rows_stop(current, params, scale, r, h, bits, recon, fdct, idct);
    lemma_intra_rows_stop(current, params, scale, r + 1, h, bits, recon, fdct, idct);
    let (_, b, f) = intra_rows_encoded(current, params, scale, r, bits, recon, fdct, idct);
    let src = source_of(current, params, scale, 0, r);
    let st = IntraEncoding {
        bits: b + slice_header_bits(r, scale),
        recon: f,
        dc: IntraDcPredictors::spec_at_slice_start(),
    };
    let end = intra_slice_encoded(src, b, f, fdct, idct).1;
    lemma_intra_row_grows(src, 0, w, st, fdct, idct);
    lemma_intra_row_broken_up(src, w, st, fdct, idct);
    lemma_loosened(added(st.bits, end.bits), 0, 1, 0, 15);
}

/// The slices of an I-picture stand one after the other.
proof fn lemma_intra_slices_ok<
    D: Fn([[i16; 8]; 8]) -> [[i32; 8]; 8],
    F: Fn([[i32; 8]; 8]) -> [[i16; 8]; 8],
>(
    frame: FrameContents,
    params: Mpeg1PictureParams,
    scale: u8,
    bits: Seq<bool>,
    recon: FrameContents,
    fdct: D,
    idct: F,
)
    requires
        1 <= params.width,
        params.height <= 2880,
        1 <= scale <= 31,
        bits.len() % 8 == 0,
        intra_rows_encoded(
            frame,
            params,
            scale,
            blocks_of_16(params.height as int),
            bits,
            recon,
            fdct,
            idct,
        ).0 is Ok,
    ensures
        intra_slices(frame, params, scale, bits, recon, fdct, idct).ok(),
        intra_slices(frame, params, scale, bits, recon, fdct, idct).starts[0] == bits,
{
    let x = intra_slices(frame, params, scale, bits, recon, fdct, idct);
    assert forall|r: int| 0 <= r < x.ends.len() implies #[trigger] x.slice_ok(r) by {
        lemma_intra_slice_written(frame, params, scale, r, bits, recon, fdct, idct);
    }
    assert(x.starts[0] == bits);
}

/// An I-picture adds whole bytes to what was written before.
pub proof fn lemma_intra_picture_added<
    D: Fn([[i16; 8]; 8]) -> [[i32; 8]; 8],
    F: Fn([[i32; 8]; 8]) -> [[i16; 8]; 8],
>(
    before: Seq<bool>,
    frame: FrameContents,
    params: Mpeg1PictureParams,
    temporal_reference: u16,
    scale: u8,
    fdct: D,
    idct: F,
)
    requires
        1 <= params.width,
        params.height <= 2880,
        intra_picture_encoded(
            before,
            frame,
            params,
            temporal_reference,
            scale,
            fdct,
            idct,
        ).0 is Ok,
    ensures
        ({
            let bits = intra_picture_encoded(
                before,
                frame,
                params,
                temporal_reference,
                scale,
                fdct,
                idct,
            ).1;
            &&& before.is_prefix_of(bits)
            &&& bits.len() % 8 == 0
            &&& holds_at(
                bits,
                before.len() as int,
                picture_header_bits(temporal_reference, PictureCodingType::Intra, 7, 7),
            )
        }),
{
    let header = picture_header_bits(temporal_reference, PictureCodingType::Intra, 7, 7);
    let bits = zero_padded(before + header);
    let recon = zero_frame(params.width as int, params.height as int, ChromaFormat::Yuv420);
    lemma_intra_slices_ok(frame, params, scale, bits, recon, fdct, idct);
    let x = intra_slices(frame, params, scale, bits, recon, fdct, idct);
    lemma_whole_bytes_added(x, before, header);
}

/// An I-picture that was written holds its own start code and one for each row of
/// macroblocks. `before` is what was written before the picture, and `picture` the
/// bytes of the picture.
pub proof fn law_intra_picture_start_codes<
    D: Fn([[i16; 8]; 8]) -> [[i32; 8]; 8],
    F: Fn([[i32; 8]; 8]) -> [[i16; 8]; 8],
>(
    before: Seq<bool>,
    frame: FrameContents,
    params: Mpeg1PictureParams,
    temporal_reference: u16,
    scale: u8,
    picture: Seq<u8>,
    fdct: D,
    idct: F,
)
    requires
        1 <= params.width,
        params.height <= 2880,
        before.len() % 8 == 0,
        ({
            let (res, bits) = intra_picture_encoded(
                before,
                frame,
                params,
                temporal_reference,
                scale,
                fdct,
                idct,
            );
            &&& res is Ok
            &&& bits_of(picture) == bits.subrange(before.len() as int, bits.len() as int)
        }),
    ensures
        holds_codes(picture, picture_codes(blocks_of_16(params.height as int))),
{
    let coding = PictureCodingType::Intra;
    let bits = zero_padded(before + picture_header_bits(temporal_reference, coding, 7, 7));
    let recon = zero_frame(params.width as int, params.height as int, ChromaFormat::Yuv420);
    let x = intra_slices(frame, params, scale, bits, recon, fdct, idct);
    lemma_header_len(temporal_reference, coding, 7, 7);
    lemma_intra_slices_ok(frame, params, scale, bits, recon, fdct, idct);
    lemma_picture_codes(x, picture, before, temporal_reference, coding, 7, 7);
}

/// An I-picture that was written is decoded to the frame that its encoder
/// reconstructed, provided that the decoder can number its rows and its macroblocks.
/// `before` is what was written before the picture, and `picture` the bytes of the
/// picture.
pub proof fn law_intra_picture_round_trip<
    D: Fn([[i16; 8]; 8]) -> [[i32; 8]; 8],
    F: Fn([[i32; 8]; 8]) -> [[i16; 8]; 8],
>(
    before: Seq<bool>,
    frame: FrameContents,
    params: Mpeg1PictureParams,
    temporal_reference: u16,
    scale: u8,
    picture: Seq<u8>,
    fdct: D,
    idct: F,
)
    requires
        1 <= params.width,
        params.height <= 2800,
        macroblocks_addressable(params),
        before.len() % 8 == 0,
        ({
            let (res, bits) = intra_picture_encoded(
                before,
                frame,
                params,
                temporal_reference,
                scale,
                fdct,
                idct,
            );
            &&& res is Ok
            &&& bits_of(picture) == bits.subrange(before.len() as int, bits.len() as int)
        }),
    ensures
        decoded_slices(
            picture,
            0,
            params.height as u32,
            0,
            zero_frame(params.width as int, params.height as int, ChromaFormat::Yuv420),
            0,
            intra_slice(params, idct),
        ) == Ok::<(FrameContents, int), Error>(
            (
                intra_picture_encoded(
                    before,
                    frame,
                    params,
                    temporal_reference,
                    scale,
                    fdct,
                    idct,
                ).0->Ok_0,
                blocks_of_16(params.height as int) * blocks_of_16(params.width as int),
            ),
        ),
{
    let h = blocks_of_16(params.height as int);
    let w = blocks_of_16(params.width as int);
    let coding = PictureCodingType::Intra;
    let bits = zero_padded(before + picture_header_bits(temporal_reference, coding, 7, 7));
    let recon = zero_frame(params.width as int, params.height as int, ChromaFormat::Yuv420);
    let x = intra_slices(frame, params, scale, bits, recon, fdct, idct);
    let frames = Seq::new(
        (h + 1) as nat,
        |r: int| intra_rows_encoded(frame, params, scale, r, bits, recon, fdct, idct).2,
    );
    let vertical = params.height as u32;
    let slice = intra_slice(params, idct);
    lemma_header_len(temporal_reference, coding, 7, 7);
    lemma_intra_slices_ok(frame, params, scale, bits, recon, fdct, idct);
    assert forall|r: int, buf: Seq<u8>| 0 <= r < x.ends.len() implies #[trigger] slice_reads(
        x,
        r,
        buf,
        vertical,
        frames[r],
        frames[r + 1],
        w,
        slice,
    ) by {
        let src = source_of(frame, params, scale, 0, r);
        lemma_intra_slice_written(frame, params, scale, r, bits, recon, fdct, idct);
        lemma_rows_addressable(params, r);
        let s = bits_of(buf);
        let a = x.starts[r].len() as int;
        if stands(s, a, x.ends[r]) && slice_ends(s, x.ends[r].len() - a) {
            law_intra_slice_round_trip(src, x.starts[r], frames[r], buf, fdct, idct);
        }
    }
    lemma_first_slice_found(x, picture, before, temporal_reference, coding, 7, 7);
    lemma_picture_read(x, picture, before.len() as int, frames, vertical, 0, w, slice);
}

/// Whether a decoder can hold the addresses of all macroblocks.
pub open spec fn macroblocks_addressable(params: Mpeg1PictureParams) -> bool {
    blocks_of_16(params.height as int) * blocks_of_16(params.width as int) - 1 <= MAX_ADDRESS
}

pub proof fn lemma_rows_addressable(params: Mpeg1PictureParams, r: int)
    requires
        macroblocks_addressable(params),
        0 <= r < blocks_of_16(params.height as int),
    ensures
        (r + 1) * blocks_of_16(params.width as int) - 1 <= MAX_ADDRESS,
{
    let h = blocks_of_16(params.height as int);
    let w = blocks_of_16(params.width as int);
    assert((r + 1) * w <= h * w) by (nonlinear_arith)
        requires
            0 <= r < h,
            0 <= w,
    ;
}

} // verus!
