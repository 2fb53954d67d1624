//! Decoding a P-picture gives back the frame that its encoder reconstructed.

use crate::arith::blocks_of_16;
use crate::bits::{bits_of, holds_at, value_bits, zero_padded};
use crate::block_writes::{lemma_blocks_keep_shape, lemma_inter_macroblock_is_blocks};
use crate::dequantize::scale_valid;
use crate::encoded_bits::{
    added, lemma_added, lemma_added_twice, lemma_one_goes_on, lemma_stands_prefix,
    lemma_stands_split, stands,
};
use crate::error::{Error, Result};
use crate::frame_assembly::{
    lemma_zero_frame_wf, macroblock_addressable, zero_frame, FrameContents,
};
use crate::inter_reconstruction::{
    predicted_planes, predicted_run, MacroblockPlanes, MotionVectorPel, ReferenceContents,
};
use crate::motion_estimation::{
    best_vector, forward_motion, forward_only, law_best_vector_is_near, law_search_stays_in_range,
};
use crate::motion_vector::MotionVectorsKind;
use crate::mpeg1_block_decoder::mpeg1_levels;
use crate::mpeg1_encoder::{
    decodable_vector, decoded_residuals, lemma_p_row_stops, lemma_p_rows_stop, macroblock_levels,
    p_macroblock_encoded, p_picture_encoded, p_row_encoded, p_rows_encoded, pattern_of,
    predicted_bits, predicted_row_start, prefers_intra, search_distance, source_of, vector_ok,
    IntraEncoding, MacroblockSource, PredictedEncoding,
};
use crate::mpeg1_inter_round_trip::{
    lemma_inter_broken_up, lemma_inter_macroblock_read, lemma_residuals_read, lemma_type_broken_up,
    predictor_of, CodedInter, CodedVector,
};
use crate::mpeg1_intra_round_trip::{
    intra_head, lemma_intra_keeps_shape, lemma_intra_macroblock_broken_up,
    lemma_intra_macroblock_placed, lemma_intra_macroblock_read, lemma_located,
    lemma_row_fits, lemma_rows_addressable, macroblocks_addressable, reads_mpeg1,
};
use crate::mpeg1_picture::{
    after_skips, coded_macroblock, inter_placed, inter_slice, mpeg1_context, skip_motion,
    slice_start_state, vector_contexts, InterState, Mpeg1InterParams, Mpeg1PictureParams,
    VectorContexts,
};
use crate::picture::ChromaFormat;
use crate::picture_header::PictureCodingType;
use crate::picture_round_trip::{
    lemma_first_slice_found, lemma_header_len, lemma_picture_codes, lemma_picture_read,
    lemma_whole_bytes_added,
    slice_reads, WrittenSlices,
};
use crate::picture_slices::decoded_slices;
use crate::slice_header::{law_slice_header_round_trip, slice_header_of};
use crate::slice_macroblock_walk::{
    lemma_macroblock_advances, macroblock_at, slice_ends, state_ok, walk_from, walk_start,
    MacroblockFields, SliceWalkContext, WalkState, MAX_ADDRESS,
};
use crate::start_codes::{holds_codes, picture_codes};
use crate::stream_writer::{lemma_slice_header_len, picture_header_bits, slice_header_bits};
use crate::zero_runs::{broken_up, lemma_flag_broken_up, lemma_joined, lemma_loosened};
use vstd::arithmetic::power2::lemma2_to64;
use vstd::prelude::*;

verus! {

/// What the encoding of a P-picture depends on.
pub struct PSource {
    pub current: FrameContents,
    pub reference: FrameContents,
    pub params: Mpeg1PictureParams,
    pub scale: u8,
    pub f_code: u8,
}

impl PSource {
    /// A macroblock of the picture.
    pub open spec fn at(self, mb_col: int, mb_row: int) -> MacroblockSource {
        source_of(self.current, self.params, self.scale, mb_col, mb_row)
    }

    /// The vector of a macroblock after a last vector.
    pub open spec fn vector(self, src: MacroblockSource, last: (i32, i32)) -> MotionVectorPel {
        decodable_vector(
            best_vector(
                src.current,
                self.reference,
                src.mb_col,
                src.mb_row,
                search_distance(self.f_code),
            ),
            last,
            self.f_code,
        )
    }

    pub open spec fn intra(self, src: MacroblockSource, last: (i32, i32)) -> bool {
        prefers_intra(src.current, self.reference, src.mb_col, src.mb_row, self.vector(src, last))
    }

    pub open spec fn prediction(self, src: MacroblockSource, last: (i32, i32)) -> MacroblockPlanes {
        predicted_planes(
            forward_only(self.reference),
            forward_motion(self.vector(src, last)),
            ChromaFormat::Yuv420,
            src.mb_col,
            src.mb_row,
        )
    }

    /// A predicted macroblock as it is written.
    pub open spec fn coded<D: Fn([[i16; 8]; 8]) -> [[i32; 8]; 8]>(
        self,
        src: MacroblockSource,
        last: (i32, i32),
        fdct: D,
    ) -> CodedInter {
        let levels = macroblock_levels(src, self.prediction(src, last), fdct);
        CodedInter {
            coding: PictureCodingType::Predictive,
            row: if pattern_of(levels, 6) != 0 {
                0
            } else {
                2
            },
            forward: Some(
                CodedVector { v: self.vector(src, last), last, f_code: self.f_code },
            ),
            backward: None,
            levels,
        }
    }

    pub open spec fn ok(self) -> bool {
        1 <= self.f_code <= 7 && scale_valid(self.scale)
    }
}

/// The levels of a predicted macroblock are ones that blocks can hold.
pub proof fn lemma_levels_fit<D: Fn([[i16; 8]; 8]) -> [[i32; 8]; 8]>(
    src: MacroblockSource,
    preds: MacroblockPlanes,
    fdct: D,
)
    ensures
        macroblock_levels(src, preds, fdct).len() == 6,
        forall|k: int|
            0 <= k < 6 ==> mpeg1_levels(#[trigger] macroblock_levels(src, preds, fdct)[k]),
{
}

/// The vector of a search lies in the range of its `f_code`.
pub proof fn lemma_search_vector_ok(
    current: FrameContents,
    reference: FrameContents,
    mb_col: int,
    mb_row: int,
    f_code: u8,
)
    requires
        1 <= f_code <= 7,
    ensures
        ({
            let v = best_vector(current, reference, mb_col, mb_row, search_distance(f_code));
            vector_ok((v.horizontal, v.vertical), f_code)
        }),
{
    lemma2_to64();
    let distance = search_distance(f_code);
    law_best_vector_is_near(current, reference, mb_col, mb_row, distance);
    law_search_stays_in_range(
        best_vector(current, reference, mb_col, mb_row, distance),
        f_code,
        distance,
    );
}

/// A predicted macroblock can be read.
proof fn lemma_coded_readable<D: Fn([[i16; 8]; 8]) -> [[i32; 8]; 8]>(
    x: PSource,
    src: MacroblockSource,
    last: (i32, i32),
    fdct: D,
)
    requires
        x.ok(),
        vector_ok(last, x.f_code),
    ensures
        x.coded(src, last, fdct).readable(),
        x.coded(src, last, fdct).bits() == predicted_bits(
            x.vector(src, last),
            last,
            x.f_code,
            macroblock_levels(src, x.prediction(src, last), fdct),
        ),
{
    lemma2_to64();
    lemma_levels_fit(src, x.prediction(src, last), fdct);
    lemma_search_vector_ok(src.current, x.reference, src.mb_col, src.mb_row, x.f_code);
    let c = x.coded(src, last, fdct);
    assert(value_bits(1, 1) =~= seq![true]) by {
        reveal_with_fuel(value_bits, 2);
    }
    assert(c.bits() =~= predicted_bits(
        x.vector(src, last),
        last,
        x.f_code,
        macroblock_levels(src, x.prediction(src, last), fdct),
    ));
}

/// How a decoder's vectors are set for a P-picture.
pub open spec fn p_contexts(vc: VectorContexts, f_code: u8) -> bool {
    !vc.is_b && vc.forward.f_code == f_code && !vc.forward.full_pel
}

/// What a decoder makes of a macroblock of a P-picture.
spec fn p_read(
    m: MacroblockFields,
    wst: WalkState,
    next: WalkState,
    src: MacroblockSource,
    reference: FrameContents,
    vc: VectorContexts,
    ist: InterState,
    before: PredictedEncoding,
    after: PredictedEncoding,
) -> bool {
    let w = blocks_of_16(src.params.width as int);
    let (res, frame, last) = coded_macroblock(
        before.intra.recon,
        forward_only(reference),
        m,
        w,
        vc,
        ist,
    );
    &&& m.skipped == 0
    &&& m.address == src.address()
    &&& next == (WalkState { address: src.address(), first: false, dc1: after.intra.dc, ..wst })
    &&& res is Ok
    &&& frame == after.intra.recon
    &&& last.forward == predictor_of(after.last)
}

/// A predicted macroblock of a P-picture is decoded to what its encoder
/// reconstructed.
proof fn lemma_predicted_read<
    D: Fn([[i16; 8]; 8]) -> [[i32; 8]; 8],
    F: Fn([[i32; 8]; 8]) -> [[i16; 8]; 8],
>(
    s: Seq<bool>,
    base: int,
    x: PSource,
    src: MacroblockSource,
    st: PredictedEncoding,
    ctx: SliceWalkContext,
    wst: WalkState,
    vc: VectorContexts,
    ist: InterState,
    fdct: D,
    idct: F,
)
    requires
        x.ok(),
        !x.intra(src, st.last),
        src.scale == x.scale,
        0 <= base <= st.intra.bits.len(),
        reads_mpeg1(ctx, src.params, PictureCodingType::Predictive),
        ctx.f_codes.spec_for_kind(MotionVectorsKind::Forward) == (x.f_code, x.f_code),
        p_contexts(vc, x.f_code),
        0 <= src.address() <= MAX_ADDRESS,
        0 <= src.mb_col < blocks_of_16(src.params.width as int),
        0 <= src.mb_row,
        macroblock_addressable(src.mb_col, src.mb_row),
        wst.address == src.address() - 1,
        wst.scale == src.scale,
        wst.dc1 == st.intra.dc,
        ist.forward == predictor_of(st.last),
        vector_ok(st.last, x.f_code),
        st.intra.recon.wf(),
        st.intra.recon.chroma_format == ChromaFormat::Yuv420,
        stands(
            s,
            base,
            p_macroblock_encoded(src, x.reference, x.f_code, st, fdct, idct).1.intra.bits,
        ),
    ensures
        ({
            let after = p_macroblock_encoded(src, x.reference, x.f_code, st, fdct, idct).1;
            let at = st.intra.bits.len() - base;
            let (read, p) = macroblock_at(s, at, ctx, wst, idct);
            &&& read is Ok
            &&& p == after.intra.bits.len() - base
            &&& p_read(
                read->Ok_0.0,
                wst,
                read->Ok_0.1,
                src,
                x.reference,
                vc,
                ist,
                st,
                after,
            )
            &&& 0 <= at < s.len()
            &&& s[at]
        }),
{
    reveal(p_macroblock_encoded);
    let c = x.coded(src, st.last, fdct);
    lemma_coded_readable(x, src, st.last, fdct);
    let at = st.intra.bits.len() - base;
    lemma_stands_split(s, base, st.intra.bits, c.bits());
    lemma_inter_macroblock_read(s, at, c, src.params, ctx, wst, idct);
    let (read, p) = macroblock_at(s, at, ctx, wst, idct);
    let m = read->Ok_0.0;
    let w = blocks_of_16(src.params.width as int);
    vstd::arithmetic::div_mod::lemma_fundamental_div_mod_converse(
        m.address,
        w,
        src.mb_row,
        src.mb_col,
    );
    lemma_residuals_read(m.blocks, c.levels, src.scale, src.params.non_intra_quant, idct);
    lemma_inter_macroblock_is_blocks(
        st.intra.recon,
        forward_only(x.reference),
        src.mb_col,
        src.mb_row,
        forward_motion(x.vector(src, st.last)),
        crate::mpeg1_picture::residuals_of(m.blocks),
        decoded_residuals(c.levels, src.scale, src.params.non_intra_quant, idct),
    );
    let v = x.vector(src, st.last);
    assert(crate::inter_reconstruction::mpeg1_vector(
        Some(
            crate::mpeg1_reconstruct::split_vector(v.horizontal as int, v.vertical as int),
        ),
    ) == Some(v));
}

/// An intra macroblock of a P-picture is decoded to what its encoder reconstructed.
proof fn lemma_p_intra_read<
    D: Fn([[i16; 8]; 8]) -> [[i32; 8]; 8],
    F: Fn([[i32; 8]; 8]) -> [[i16; 8]; 8],
>(
    s: Seq<bool>,
    base: int,
    x: PSource,
    src: MacroblockSource,
    st: PredictedEncoding,
    ctx: SliceWalkContext,
    wst: WalkState,
    vc: VectorContexts,
    ist: InterState,
    fdct: D,
    idct: F,
)
    requires
        x.intra(src, st.last),
        0 <= base <= st.intra.bits.len(),
        reads_mpeg1(ctx, src.params, PictureCodingType::Predictive),
        p_contexts(vc, x.f_code),
        0 <= src.address() <= MAX_ADDRESS,
        0 <= src.mb_col < blocks_of_16(src.params.width as int),
        0 <= src.mb_row,
        wst.address == src.address() - 1,
        wst.scale == src.scale,
        wst.dc1 == st.intra.dc,
        p_macroblock_encoded(src, x.reference, x.f_code, st, fdct, idct).0 is Ok,
        stands(
            s,
            base,
            p_macroblock_encoded(src, x.reference, x.f_code, st, fdct, idct).1.intra.bits,
        ),
    ensures
        ({
            let after = p_macroblock_encoded(src, x.reference, x.f_code, st, fdct, idct).1;
            let at = st.intra.bits.len() - base;
            let (read, p) = macroblock_at(s, at, ctx, wst, idct);
            &&& read is Ok
            &&& p == after.intra.bits.len() - base
            &&& p_read(
                read->Ok_0.0,
                wst,
                read->Ok_0.1,
                src,
                x.reference,
                vc,
                ist,
                st,
                after,
            )
            &&& 0 <= at < s.len()
            &&& s[at]
        }),
{
    reveal(p_macroblock_encoded);
    let coding = PictureCodingType::Predictive;
    assert(st.intra.bits.push(true) + value_bits(0b0001_1, 5) =~= st.intra.bits + intra_head(
        coding,
        3,
    ));
    lemma_intra_macroblock_read(
        s,
        base,
        src,
        coding,
        3,
        st.intra,
        ctx,
        wst,
        fdct,
        idct,
    );
    let after = p_macroblock_encoded(src, x.reference, x.f_code, st, fdct, idct).1;
    let (read, _) = macroblock_at(s, st.intra.bits.len() - base, ctx, wst, idct);
    lemma_intra_macroblock_placed(
        read->Ok_0.0,
        wst,
        read->Ok_0.1,
        src,
        st.intra.recon,
        after.intra,
    );
}

/// What a macroblock of a P-picture leaves for the next.
pub open spec fn p_state_ok(st: PredictedEncoding, f_code: u8) -> bool {
    &&& vector_ok(st.last, f_code)
    &&& st.intra.recon.wf()
    &&& st.intra.recon.chroma_format == ChromaFormat::Yuv420
}

proof fn lemma_p_macroblock_keeps<
    D: Fn([[i16; 8]; 8]) -> [[i32; 8]; 8],
    F: Fn([[i32; 8]; 8]) -> [[i16; 8]; 8],
>(x: PSource, src: MacroblockSource, st: PredictedEncoding, fdct: D, idct: F)
    requires
        x.ok(),
        p_state_ok(st, x.f_code),
    ensures
        ({
            let (res, after) = p_macroblock_encoded(src, x.reference, x.f_code, st, fdct, idct);
            res is Ok ==> p_state_ok(after, x.f_code)
        }),
{
    reveal(p_macroblock_encoded);
    lemma2_to64();
    if x.intra(src, st.last) {
        let headed = IntraEncoding {
            bits: st.intra.bits.push(true) + value_bits(0b0001_1, 5),
            ..st.intra
        };
        lemma_intra_keeps_shape(src, 6, headed, fdct, idct);
    } else {
        lemma_search_vector_ok(src.current, x.reference, src.mb_col, src.mb_row, x.f_code);
        let levels = macroblock_levels(src, x.prediction(src, st.last), fdct);
        lemma_blocks_keep_shape(
            st.intra.recon,
            x.prediction(src, st.last),
            ChromaFormat::Yuv420,
            src.mb_col,
            src.mb_row,
            decoded_residuals(levels, src.scale, src.params.non_intra_quant, idct),
            6,
        );
    }
}

/// The bits of a macroblock of a P-picture.
proof fn lemma_p_macroblock_broken_up<
    D: Fn([[i16; 8]; 8]) -> [[i32; 8]; 8],
    F: Fn([[i32; 8]; 8]) -> [[i16; 8]; 8],
>(x: PSource, src: MacroblockSource, st: PredictedEncoding, fdct: D, idct: F)
    requires
        x.ok(),
        vector_ok(st.last, x.f_code),
        p_macroblock_encoded(src, x.reference, x.f_code, st, fdct, idct).0 is Ok,
    ensures
        ({
            let after = p_macroblock_encoded(src, x.reference, x.f_code, st, fdct, idct).1;
            &&& st.intra.bits.is_prefix_of(after.intra.bits)
            &&& broken_up(added(st.intra.bits, after.intra.bits), 0, 13)
        }),
{
    reveal(p_macroblock_encoded);
    let after = p_macroblock_encoded(src, x.reference, x.f_code, st, fdct, idct).1;
    if x.intra(src, st.last) {
        let coding = PictureCodingType::Predictive;
        let head = intra_head(coding, 3);
        let headed = IntraEncoding {
            bits: st.intra.bits.push(true) + value_bits(0b0001_1, 5),
            ..st.intra
        };
        assert(headed.bits =~= st.intra.bits + head);
        lemma_intra_macroblock_broken_up(src, headed, fdct, idct);
        lemma_added(st.intra.bits, head);
        lemma_flag_broken_up();
        lemma_type_broken_up(coding, 3);
        lemma_joined(seq![true], 0, 0, value_bits(0b0001_1, 5), 5, 1);
        lemma_added_twice(st.intra.bits, headed.bits, after.intra.bits);
        lemma_joined(head, 0, 1, added(headed.bits, after.intra.bits), 19, 1);
        lemma_loosened(added(st.intra.bits, after.intra.bits), 0, 1, 0, 13);
    } else {
        let c = x.coded(src, st.last, fdct);
        lemma_coded_readable(x, src, st.last, fdct);
        lemma_inter_broken_up(c);
        lemma_added(st.intra.bits, c.bits());
    }
}

/// The encoding of a row of a P-picture.
pub open spec fn p_row<
    D: Fn([[i16; 8]; 8]) -> [[i32; 8]; 8],
    F: Fn([[i32; 8]; 8]) -> [[i16; 8]; 8],
>(x: PSource, mb_row: int, n: int, st: PredictedEncoding, fdct: D, idct: F) -> (
    Result<()>,
    PredictedEncoding,
) {
    p_row_encoded(
        x.current,
        x.reference,
        x.params,
        x.scale,
        x.f_code,
        mb_row,
        n,
        st,
        fdct,
        idct,
    )
}

proof fn lemma_p_row_stop<
    D: Fn([[i16; 8]; 8]) -> [[i32; 8]; 8],
    F: Fn([[i32; 8]; 8]) -> [[i16; 8]; 8],
>(x: PSource, mb_row: int, k: int, n: int, st: PredictedEncoding, fdct: D, idct: F)
    requires
        0 <= k <= n,
        p_row(x, mb_row, n, st, fdct, idct).0 is Ok,
    ensures
        p_row(x, mb_row, k, st, fdct, idct).0 is Ok,
{
    lemma_p_row_stops(
        x.current,
        x.reference,
        x.params,
        x.scale,
        x.f_code,
        mb_row,
        k,
        n,
        st,
        fdct,
        idct,
    );
}

/// What holds after the first `n` macroblocks of a row of a P-picture.
proof fn lemma_p_row_keeps<
    D: Fn([[i16; 8]; 8]) -> [[i32; 8]; 8],
    F: Fn([[i32; 8]; 8]) -> [[i16; 8]; 8],
>(x: PSource, mb_row: int, n: int, st: PredictedEncoding, fdct: D, idct: F)
    requires
        0 <= n,
        x.ok(),
        p_state_ok(st, x.f_code),
        p_row(x, mb_row, n, st, fdct, idct).0 is Ok,
    ensures
        ({
            let after = p_row(x, mb_row, n, st, fdct, idct).1;
            &&& p_state_ok(after, x.f_code)
            &&& st.intra.bits.is_prefix_of(after.intra.bits)
            &&& n > 0 ==> broken_up(added(st.intra.bits, after.intra.bits), 0, 13)
        }),
    decreases n,
{
    if n > 0 {
        lemma_p_row_stop(x, mb_row, n - 1, n, st, fdct, idct);
        lemma_p_row_keeps(x, mb_row, n - 1, st, fdct, idct);
        let before = p_row(x, mb_row, n - 1, st, fdct, idct).1;
        let after = p_row(x, mb_row, n, st, fdct, idct).1;
        let src = x.at(n - 1, mb_row);
        lemma_p_macroblock_keeps(x, src, before, fdct, idct);
        lemma_p_macroblock_broken_up(x, src, before, fdct, idct);
        lemma_added_twice(st.intra.bits, before.intra.bits, after.intra.bits);
        if n > 1 {
            lemma_joined(
                added(st.intra.bits, before.intra.bits),
                0,
                13,
                added(before.intra.bits, after.intra.bits),
                0,
                13,
            );
        }
    } else {
        assert(st.intra.bits.is_prefix_of(st.intra.bits));
    }
}

/// What was written for the macroblocks from `k` to `n` of a row was added.
proof fn lemma_p_row_grows<
    D: Fn([[i16; 8]; 8]) -> [[i32; 8]; 8],
    F: Fn([[i32; 8]; 8]) -> [[i16; 8]; 8],
>(x: PSource, mb_row: int, k: int, n: int, st: PredictedEncoding, fdct: D, idct: F)
    requires
        0 <= k <= n,
        x.ok(),
        p_state_ok(st, x.f_code),
        p_row(x, mb_row, n, st, fdct, idct).0 is Ok,
    ensures
        p_row(x, mb_row, k, st, fdct, idct).1.intra.bits.is_prefix_of(
            p_row(x, mb_row, n, st, fdct, idct).1.intra.bits,
        ),
    decreases n - k,
{
    if k < n {
        lemma_p_row_stop(x, mb_row, n - 1, n, st, fdct, idct);
        lemma_p_row_grows(x, mb_row, k, n - 1, st, fdct, idct);
        lemma_p_row_keeps(x, mb_row, n - 1, st, fdct, idct);
        let at_k = p_row(x, mb_row, k, st, fdct, idct).1;
        let before = p_row(x, mb_row, n - 1, st, fdct, idct).1;
        let after = p_row(x, mb_row, n, st, fdct, idct).1;
        lemma_p_macroblock_broken_up(x, x.at(n - 1, mb_row), before, fdct, idct);
        lemma_added_twice(at_k.intra.bits, before.intra.bits, after.intra.bits);
    } else {
        let bits = p_row(x, mb_row, n, st, fdct, idct).1.intra.bits;
        assert(bits.is_prefix_of(bits));
    }
}

/// Macroblocks placed from the second on are those of the sequence without the
/// first.
pub proof fn lemma_inter_placed_tail(
    frame: FrameContents,
    refs: ReferenceContents,
    m: MacroblockFields,
    rest: Seq<MacroblockFields>,
    i: int,
    mb_width: int,
    vc: VectorContexts,
    st: InterState,
    count: int,
)
    requires
        0 <= i <= rest.len(),
    ensures
        inter_placed(frame, refs, seq![m] + rest, i + 1, mb_width, vc, st, count) == inter_placed(
            frame,
            refs,
            rest,
            i,
            mb_width,
            vc,
            st,
            count,
        ),
    decreases rest.len() - i,
{
    let all = seq![m] + rest;
    if i < rest.len() {
        assert(all[i + 1] == rest[i]);
        let one = rest[i];
        let motion = skip_motion(vc, st);
        let (coded, after, last) = coded_macroblock(
            predicted_run(frame, refs, one.address - one.skipped, one.skipped, mb_width, motion),
            refs,
            one,
            mb_width,
            vc,
            after_skips(vc, st, one.skipped),
        );
        lemma_inter_placed_tail(
            after,
            refs,
            m,
            rest,
            i + 1,
            mb_width,
            vc,
            last,
            count + one.skipped + 1,
        );
    }
}

/// The macroblocks of a row from `n` on are decoded to what their encoder
/// reconstructed.
proof fn lemma_p_row_read<
    D: Fn([[i16; 8]; 8]) -> [[i32; 8]; 8],
    F: Fn([[i32; 8]; 8]) -> [[i16; 8]; 8],
>(
    s: Seq<bool>,
    base: int,
    x: PSource,
    mb_row: int,
    n: int,
    st: PredictedEncoding,
    ctx: SliceWalkContext,
    wst: WalkState,
    vc: VectorContexts,
    ist: InterState,
    count: int,
    fdct: D,
    idct: F,
)
    requires
        x.ok(),
        p_state_ok(st, x.f_code),
        0 <= n <= blocks_of_16(x.params.width as int),
        0 <= mb_row,
        0 <= base <= st.intra.bits.len(),
        reads_mpeg1(ctx, x.params, PictureCodingType::Predictive),
        ctx.f_codes.spec_for_kind(MotionVectorsKind::Forward) == (x.f_code, x.f_code),
        p_contexts(vc, x.f_code),
        (mb_row + 1) * blocks_of_16(x.params.width as int) - 1 <= MAX_ADDRESS,
        mb_row < 175,
        state_ok(wst),
        wst.address == mb_row * blocks_of_16(x.params.width as int) + n - 1,
        wst.scale == x.scale,
        wst.dc1 == p_row(x, mb_row, n, st, fdct, idct).1.intra.dc,
        ist.forward == predictor_of(p_row(x, mb_row, n, st, fdct, idct).1.last),
        ({
            let w = blocks_of_16(x.params.width as int);
            let (res, end) = p_row(x, mb_row, w, st, fdct, idct);
            &&& res is Ok
            &&& stands(s, base, end.intra.bits)
            &&& slice_ends(s, end.intra.bits.len() - base)
        }),
    ensures
        ({
            let w = blocks_of_16(x.params.width as int);
            let now = p_row(x, mb_row, n, st, fdct, idct).1;
            let end = p_row(x, mb_row, w, st, fdct, idct).1;
            let read = walk_from(s, now.intra.bits.len() - base, ctx, wst, idct);
            &&& read is Ok
            &&& inter_placed(
                now.intra.recon,
                forward_only(x.reference),
                read->Ok_0,
                0,
                w,
                vc,
                ist,
                count,
            ) == Ok::<(FrameContents, int), Error>((end.intra.recon, count + (w - n)))
        }),
    decreases blocks_of_16(x.params.width as int) - n,
{
    let w = blocks_of_16(x.params.width as int);
    let now = p_row(x, mb_row, n, st, fdct, idct).1;
    let end = p_row(x, mb_row, w, st, fdct, idct).1;
    let at = now.intra.bits.len() - base;
    if n < w {
        let src = x.at(n, mb_row);
        let next = p_row(x, mb_row, n + 1, st, fdct, idct).1;
        lemma_p_row_stop(x, mb_row, n, w, st, fdct, idct);
        lemma_p_row_stop(x, mb_row, n + 1, w, st, fdct, idct);
        lemma_p_row_grows(x, mb_row, n + 1, w, st, fdct, idct);
        lemma_p_row_grows(x, mb_row, n, w, st, fdct, idct);
        lemma_p_row_keeps(x, mb_row, n, st, fdct, idct);
        lemma_p_row_keeps(x, mb_row, n + 1, st, fdct, idct);
        lemma_stands_prefix(s, base, next.intra.bits, end.intra.bits);
        lemma_row_fits(mb_row, w);
        lemma_located(src);
        if x.intra(src, now.last) {
            lemma_p_intra_read(s, base, x, src, now, ctx, wst, vc, ist, fdct, idct);
        } else {
            lemma_predicted_read(s, base, x, src, now, ctx, wst, vc, ist, fdct, idct);
        }
        let (read, p) = macroblock_at(s, at, ctx, wst, idct);
        let m = read->Ok_0.0;
        let after = read->Ok_0.1;
        lemma_one_goes_on(s, at);
        lemma_macroblock_advances(s, at, ctx, wst, idct);
        let (_, _, last) = coded_macroblock(
            now.intra.recon,
            forward_only(x.reference),
            m,
            w,
            vc,
            ist,
        );
        lemma_p_row_read(
            s,
            base,
            x,
            mb_row,
            n + 1,
            st,
            ctx,
            after,
            vc,
            last,
            count + 1,
            fdct,
            idct,
        );
        let rest = walk_from(s, p, ctx, after, idct)->Ok_0;
        lemma_inter_placed_tail(
            next.intra.recon,
            forward_only(x.reference),
            m,
            rest,
            0,
            w,
            vc,
            last,
            count + 1,
        );
        assert((seq![m] + rest)[0] == m);
        assert(predicted_run(
            now.intra.recon,
            forward_only(x.reference),
            m.address,
            0,
            w,
            skip_motion(vc, ist),
        ) == now.intra.recon);
    }
}

/// The bits and the frame after the first `n` slices of a P-picture.
pub open spec fn p_rows<
    D: Fn([[i16; 8]; 8]) -> [[i32; 8]; 8],
    F: Fn([[i32; 8]; 8]) -> [[i16; 8]; 8],
>(x: PSource, n: int, bits: Seq<bool>, recon: FrameContents, fdct: D, idct: F) -> (
    Result<()>,
    Seq<bool>,
    FrameContents,
) {
    p_rows_encoded(
        x.current,
        x.reference,
        x.params,
        x.scale,
        x.f_code,
        n,
        bits,
        recon,
        fdct,
        idct,
    )
}

/// The state in which row `r` is encoded.
pub open spec fn p_row_begin<
    D: Fn([[i16; 8]; 8]) -> [[i32; 8]; 8],
    F: Fn([[i32; 8]; 8]) -> [[i16; 8]; 8],
>(
    x: PSource,
    r: int,
    bits: Seq<bool>,
    recon: FrameContents,
    fdct: D,
    idct: F,
) -> PredictedEncoding {
    let (_, b, f) = p_rows(x, r, bits, recon, fdct, idct);
    predicted_row_start(b + slice_header_bits(r, x.scale), f)
}

/// A row of a P-picture as it is encoded.
proof fn lemma_p_row_written<
    D: Fn([[i16; 8]; 8]) -> [[i32; 8]; 8],
    F: Fn([[i32; 8]; 8]) -> [[i16; 8]; 8],
>(
    x: PSource,
    r: int,
    h: int,
    bits: Seq<bool>,
    recon: FrameContents,
    fdct: D,
    idct: F,
)
    requires
        0 <= r < h,
        x.ok(),
        recon.wf(),
        recon.chroma_format == ChromaFormat::Yuv420,
        p_rows(x, h, bits, recon, fdct, idct).0 is Ok,
    ensures
        ({
            let w = blocks_of_16(x.params.width as int);
            let st = p_row_begin(x, r, bits, recon, fdct, idct);
            let (res, end) = p_row(x, r, w, st, fdct, idct);
            &&& p_state_ok(st, x.f_code)
            &&& res is Ok
            &&& p_state_ok(end, x.f_code)
            &&& p_rows(x, r + 1, bits, recon, fdct, idct) == (
                Ok::<(), Error>(()),
                zero_padded(end.intra.bits),
                end.intra.recon,
            )
            &&& st.intra.bits.is_prefix_of(end.intra.bits)
            &&& w > 0 ==> broken_up(added(st.intra.bits, end.intra.bits), 0, 13)
        }),
    decreases r,
{
    let w = blocks_of_16(x.params.width as int);
    let st = p_row_begin(x, r, bits, recon, fdct, idct);
    lemma_p_rows_stop(
        x.current,
        x.reference,
        x.params,
        x.scale,
        x.f_code,
        r,
        h,
        bits,
        recon,
        fdct,
        idct,
    );
    lemma_p_rows_stop(
        x.current,
        x.reference,
        x.params,
        x.scale,
        x.f_code,
        r + 1,
        h,
        bits,
        recon,
        fdct,
        idct,
    );
    lemma2_to64();
    if r > 0 {
        lemma_p_row_written(x, r - 1, h, bits, recon, fdct, idct);
    }
    assert(vector_ok((0i32, 0i32), x.f_code));
    assert(p_state_ok(st, x.f_code));
    lemma_p_row_keeps(x, r, w, st, fdct, idct);
}

/// What a decoder of the P-pictures of an encoder is set to.
pub open spec fn p_params(x: PSource, inter: Mpeg1InterParams) -> bool {
    &&& inter.base == x.params
    &&& inter.picture_coding_type == PictureCodingType::Predictive
    &&& inter.forward_f_code == x.f_code
    &&& !inter.full_pel_forward_vector
}

/// A slice of a P-picture that was written is decoded to what its encoder
/// reconstructed.
pub proof fn law_p_slice_round_trip<
    D: Fn([[i16; 8]; 8]) -> [[i32; 8]; 8],
    F: Fn([[i32; 8]; 8]) -> [[i16; 8]; 8],
>(
    x: PSource,
    mb_row: int,
    bits: Seq<bool>,
    recon: FrameContents,
    inter: Mpeg1InterParams,
    buf: Seq<u8>,
    fdct: D,
    idct: F,
)
    requires
        x.ok(),
        p_params(x, inter),
        0 <= mb_row < 175,
        x.params.height <= 2800,
        (mb_row + 1) * blocks_of_16(x.params.width as int) - 1 <= MAX_ADDRESS,
        recon.wf(),
        recon.chroma_format == ChromaFormat::Yuv420,
        ({
            let w = blocks_of_16(x.params.width as int);
            let st = predicted_row_start(bits + slice_header_bits(mb_row, x.scale), recon);
            let (res, end) = p_row(x, mb_row, w, st, fdct, idct);
            let s = bits_of(buf);
            &&& res is Ok
            &&& stands(s, bits.len() as int, end.intra.bits)
            &&& slice_ends(s, end.intra.bits.len() - bits.len())
        }),
    ensures
        ({
            let w = blocks_of_16(x.params.width as int);
            let st = predicted_row_start(bits + slice_header_bits(mb_row, x.scale), recon);
            let end = p_row(x, mb_row, w, st, fdct, idct).1;
            let header = slice_header_of(bits_of(buf), x.params.height as u32);
            &&& header is Ok
            &&& inter_slice(inter, forward_only(x.reference), idct)(buf, header->Ok_0, recon)
                == Ok::<(FrameContents, int), Error>((end.intra.recon, w))
        }),
{
    let w = blocks_of_16(x.params.width as int);
    let s = bits_of(buf);
    let base = bits.len() as int;
    let head = slice_header_bits(mb_row, x.scale);
    let st = predicted_row_start(bits + head, recon);
    let end = p_row(x, mb_row, w, st, fdct, idct).1;
    lemma2_to64();
    assert(vector_ok((0i32, 0i32), x.f_code));
    lemma_slice_header_len(mb_row, x.scale);
    lemma_p_row_keeps(x, mb_row, w, st, fdct, idct);
    lemma_stands_prefix(s, base, st.intra.bits, end.intra.bits);
    lemma_stands_split(s, base, bits, head);
    law_slice_header_round_trip(s, mb_row, x.scale, x.params.height as u32);
    let header = slice_header_of(s, x.params.height as u32)->Ok_0;
    let ctx = mpeg1_context(
        x.params,
        PictureCodingType::Predictive,
        header,
        inter.forward_f_code,
        inter.backward_f_code,
    );
    lemma_row_fits(mb_row, w);
    lemma_p_row_read(
        s,
        base,
        x,
        mb_row,
        0,
        st,
        ctx,
        walk_start(ctx),
        vector_contexts(inter),
        slice_start_state(),
        0,
        fdct,
        idct,
    );
}

/// The slices of a P-picture as its encoder writes them.
spec fn p_slices<
    D: Fn([[i16; 8]; 8]) -> [[i32; 8]; 8],
    F: Fn([[i32; 8]; 8]) -> [[i16; 8]; 8],
>(x: PSource, bits: Seq<bool>, recon: FrameContents, fdct: D, idct: F) -> WrittenSlices {
    let h = blocks_of_16(x.params.height as int);
    let w = blocks_of_16(x.params.width as int);
    WrittenSlices {
        scale: x.scale,
        starts: Seq::new((h + 1) as nat, |r: int| p_rows(x, r, bits, recon, fdct, idct).1),
        ends: Seq::new(
            h as nat,
            |r: int|
                p_row(
                    x,
                    r,
                    w,
                    p_row_begin(x, r, bits, recon, fdct, idct),
                    fdct,
                    idct,
                ).1.intra.bits,
        ),
    }
}

/// Where the slices of a P-picture begin.
pub open spec fn p_body_begin(
    before: Seq<bool>,
    temporal_reference: u16,
    f_code: u8,
) -> Seq<bool> {
    zero_padded(
        before + picture_header_bits(
            temporal_reference,
            PictureCodingType::Predictive,
            f_code,
            7,
        ),
    )
}

/// The slices of a P-picture stand one after the other.
proof fn lemma_p_slices_ok<
    D: Fn([[i16; 8]; 8]) -> [[i32; 8]; 8],
    F: Fn([[i32; 8]; 8]) -> [[i16; 8]; 8],
>(x: PSource, bits: Seq<bool>, recon: FrameContents, fdct: D, idct: F)
    requires
        x.ok(),
        1 <= x.params.width,
        x.params.height <= 2880,
        bits.len() % 8 == 0,
        recon.wf(),
        recon.chroma_format == ChromaFormat::Yuv420,
        p_rows(x, blocks_of_16(x.params.height as int), bits, recon, fdct, idct).0 is Ok,
    ensures
        p_slices(x, bits, recon, fdct, idct).ok(),
        p_slices(x, bits, recon, fdct, idct).starts[0] == bits,
{
    let h = blocks_of_16(x.params.height as int);
    let y = p_slices(x, bits, recon, fdct, idct);
    assert forall|r: int| 0 <= r < y.ends.len() implies #[trigger] y.slice_ok(r) by {
        lemma_p_row_written(x, r, h, bits, recon, fdct, idct);
        lemma_loosened(
            added(p_row_begin(x, r, bits, recon, fdct, idct).intra.bits, y.ends[r]),
            0,
            13,
            0,
            15,
        );
    }
    assert(y.starts[0] == bits);
}

/// A P-picture adds whole bytes to what was written before.
pub proof fn lemma_p_picture_added<
    D: Fn([[i16; 8]; 8]) -> [[i32; 8]; 8],
    F: Fn([[i32; 8]; 8]) -> [[i16; 8]; 8],
>(before: Seq<bool>, x: PSource, temporal_reference: u16, fdct: D, idct: F)
    requires
        1 <= x.params.width,
        x.params.height <= 2880,
        p_picture_encoded(
            before,
            x.current,
            x.reference,
            x.params,
            temporal_reference,
            x.scale,
            x.f_code,
            fdct,
            idct,
        ).0 is Ok,
    ensures
        ({
            let bits = p_picture_encoded(
                before,
                x.current,
                x.reference,
                x.params,
                temporal_reference,
                x.scale,
                x.f_code,
                fdct,
                idct,
            ).1;
            &&& before.is_prefix_of(bits)
            &&& bits.len() % 8 == 0
            &&& holds_at(
                bits,
                before.len() as int,
                picture_header_bits(
                    temporal_reference,
                    PictureCodingType::Predictive,
                    x.f_code,
                    7,
                ),
            )
        }),
{
    let header = picture_header_bits(
        temporal_reference,
        PictureCodingType::Predictive,
        x.f_code,
        7,
    );
    let bits = p_body_begin(before, temporal_reference, x.f_code);
    let recon = zero_frame(x.params.width as int, x.params.height as int, ChromaFormat::Yuv420);
    lemma_zero_frame_wf(
        x.params.width as int,
        x.params.height as int,
        ChromaFormat::Yuv420,
    );
    lemma_p_slices_ok(x, bits, recon, fdct, idct);
    lemma_whole_bytes_added(p_slices(x, bits, recon, fdct, idct), before, header);
}

/// A P-picture that was written holds its own start code and one for each row of
/// macroblocks. `before` is what was written before the picture, and `picture` the
/// bytes of the picture.
pub proof fn law_p_picture_start_codes<
    D: Fn([[i16; 8]; 8]) -> [[i32; 8]; 8],
    F: Fn([[i32; 8]; 8]) -> [[i16; 8]; 8],
>(
    before: Seq<bool>,
    x: PSource,
    temporal_reference: u16,
    picture: Seq<u8>,
    fdct: D,
    idct: F,
)
    requires
        1 <= x.params.width,
        x.params.height <= 2880,
        before.len() % 8 == 0,
        ({
            let (res, bits) = p_picture_encoded(
                before,
                x.current,
                x.reference,
                x.params,
                temporal_reference,
                x.scale,
                x.f_code,
                fdct,
                idct,
            );
            &&& res is Ok
            &&& bits_of(picture) == bits.subrange(before.len() as int, bits.len() as int)
        }),
    ensures
        holds_codes(picture, picture_codes(blocks_of_16(x.params.height as int))),
{
    let coding = PictureCodingType::Predictive;
    let bits = p_body_begin(before, temporal_reference, x.f_code);
    let recon = zero_frame(x.params.width as int, x.params.height as int, ChromaFormat::Yuv420);
    lemma_zero_frame_wf(
        x.params.width as int,
        x.params.height as int,
        ChromaFormat::Yuv420,
    );
    let y = p_slices(x, bits, recon, fdct, idct);
    lemma_header_len(temporal_reference, coding, x.f_code, 7);
    lemma_p_slices_ok(x, bits, recon, fdct, idct);
    lemma_picture_codes(y, picture, before, temporal_reference, coding, x.f_code, 7);
}

/// A P-picture that was written is decoded to the frame that its encoder
/// reconstructed, provided that the decoder can number its rows and its macroblocks.
/// `before` is what was written before the picture, and `picture` the bytes of the
/// picture.
pub proof fn law_p_picture_round_trip<
    D: Fn([[i16; 8]; 8]) -> [[i32; 8]; 8],
    F: Fn([[i32; 8]; 8]) -> [[i16; 8]; 8],
>(
    before: Seq<bool>,
    x: PSource,
    temporal_reference: u16,
    inter: Mpeg1InterParams,
    picture: Seq<u8>,
    fdct: D,
    idct: F,
)
    requires
        1 <= x.params.width,
        x.params.height <= 2800,
        macroblocks_addressable(x.params),
        before.len() % 8 == 0,
        p_params(x, inter),
        ({
            let (res, bits) = p_picture_encoded(
                before,
                x.current,
                x.reference,
                x.params,
                temporal_reference,
                x.scale,
                x.f_code,
                fdct,
                idct,
            );
            &&& res is Ok
            &&& bits_of(picture) == bits.subrange(before.len() as int, bits.len() as int)
        }),
    ensures
        decoded_slices(
            picture,
            0,
            x.params.height as u32,
            0,
            zero_frame(x.params.width as int, x.params.height as int, ChromaFormat::Yuv420),
            0,
            inter_slice(inter, forward_only(x.reference), idct),
        ) == Ok::<(FrameContents, int), Error>(
            (
                p_picture_encoded(
                    before,
                    x.current,
                    x.reference,
                    x.params,
                    temporal_reference,
                    x.scale,
                    x.f_code,
                    fdct,
                    idct,
                ).0->Ok_0,
                blocks_of_16(x.params.height as int) * blocks_of_16(x.params.width as int),
            ),
        ),
{
    let h = blocks_of_16(x.params.height as int);
    let w = blocks_of_16(x.params.width as int);
    let coding = PictureCodingType::Predictive;
    let bits = p_body_begin(before, temporal_reference, x.f_code);
    let recon = zero_frame(x.params.width as int, x.params.height as int, ChromaFormat::Yuv420);
    lemma_zero_frame_wf(
        x.params.width as int,
        x.params.height as int,
        ChromaFormat::Yuv420,
    );
    let y = p_slices(x, bits, recon, fdct, idct);
    let frames = Seq::new((h + 1) as nat, |r: int| p_rows(x, r, bits, recon, fdct, idct).2);
    let vertical = x.params.height as u32;
    let slice = inter_slice(inter, forward_only(x.reference), idct);
    lemma_header_len(temporal_reference, coding, x.f_code, 7);
    lemma_p_slices_ok(x, bits, recon, fdct, idct);
    assert forall|r: int, buf: Seq<u8>| 0 <= r < y.ends.len() implies #[trigger] slice_reads(
        y,
        r,
        buf,
        vertical,
        frames[r],
        frames[r + 1],
        w,
        slice,
    ) by {
        lemma_p_row_written(x, r, h, bits, recon, fdct, idct);
        lemma_rows_addressable(x.params, r);
        let s = bits_of(buf);
        let a = y.starts[r].len() as int;
        if stands(s, a, y.ends[r]) && slice_ends(s, y.ends[r].len() - a) {
            law_p_slice_round_trip(x, r, y.starts[r], frames[r], inter, buf, fdct, idct);
        }
    }
    lemma_first_slice_found(y, picture, before, temporal_reference, coding, x.f_code, 7);
    lemma_picture_read(y, picture, before.len() as int, frames, vertical, 0, w, slice);
}

} // verus!
