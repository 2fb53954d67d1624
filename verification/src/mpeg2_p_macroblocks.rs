//! What a decoder makes of the macroblocks of an MPEG-2 P-picture.

use crate::bits::{
    holds_at, lemma_holds_at_split, lemma_holds_flag, lemma_value_bits_len, value_bits,
};
use crate::block_zero_runs::{
    lemma_cbp_broken_up, lemma_component_broken_up, lemma_order_broken_up,
};
use crate::coded_block_pattern::{cbp_bits, flags_value};
use crate::encoded_bits::{
    added, lemma_added, lemma_added_twice, lemma_stands_prefix, lemma_stands_split, stands,
};
use crate::error::{Error, Result};
use crate::frame_assembly::{frame_with_intra, IntraPictureParams};
use crate::inter_reconstruction::MotionVectorPel;
use crate::macroblock_modes::frame_based;
use crate::macroblock_type::{law_type_round_trip, macroblock_type_at, type_rows, MacroblockType};
use crate::mb_address_increment::law_increment_round_trip;
use crate::motion_vector::{
    component_bits, law_component_round_trip, lemma_delta_code, motion_vectors_at,
    MotionVectorsContext, MotionVectorsKind,
};
use crate::mpeg1_inter_round_trip::lemma_type_broken_up;
use crate::mpeg1_intra_round_trip::intra_head;
use crate::mpeg2_block_dc::DcPredictors;
use crate::mpeg2_block_round_trip::{coded_order, lemma_order_fits, lemma_scan_is_order};
use crate::mpeg2_dct_coeff::TableSelection;
use crate::mpeg2_dequantize::{scale_of, DEFAULT_INTRA_WEIGHT, DEFAULT_NON_INTRA_WEIGHT};
use crate::mpeg2_macroblock_round_trip::{
    block_quantised, blocks_came_back, dc_matches, default_weights, intra_source_ok,
    lemma_intra_blocks_keep, lemma_intra_blocks_read, lemma_residual_bits_read, one_block_bits,
    quantised_ok, reads_blocks,
};
use crate::p_picture_encoder::{
    any_coded, coded_blocks_bits, flags_of, intra_blocks_encoded, predicted_type_bits,
    residual_bits, vector_bits, vector_ok, BlockEncoding, InterBlock, PSource,
};
use crate::picture_header::PictureCodingType;
use crate::slice_macroblock_walk::{
    block_context, blocks_of, macroblock_at, modes_at, no_pattern, optional_pattern_at,
    optional_vectors_at, prediction_at, weights_of, MacroblockFields, SliceWalkContext, WalkState,
    MAX_ADDRESS,
};
use crate::slice_motion::{vector_from, wrapped, ReconstructedVector};
use crate::zero_runs::{
    broken_up, lemma_flag_broken_up, lemma_joined, lemma_loosened, lemma_suffixed,
};
use vstd::arithmetic::power2::lemma2_to64;
use vstd::prelude::*;

verus! {

/// What the macroblocks of a P-picture are read with.
pub open spec fn reads_predicted(
    ctx: SliceWalkContext,
    params: IntraPictureParams,
    f_code: u8,
) -> bool {
    &&& !ctx.mpeg1
    &&& ctx.frame_pred_frame_dct
    &&& !ctx.concealment_motion_vectors
    &&& ctx.chroma_format == params.chroma_format
    &&& ctx.picture_coding_type == PictureCodingType::Predictive
    &&& ctx.intra_vlc_format == params.intra_vlc_format
    &&& ctx.alternate_scan == params.alternate_scan
    &&& ctx.intra_dc_precision == params.intra_dc_precision
    &&& ctx.intra_dc_precision <= 3
    &&& ctx.q_scale_type == params.q_scale_type
    &&& ctx.f_codes.spec_for_kind(MotionVectorsKind::Forward) == (f_code, f_code)
    &&& ctx.quantiser_matrices.intra_luma == DEFAULT_INTRA_WEIGHT
    &&& ctx.quantiser_matrices.non_intra_luma == DEFAULT_NON_INTRA_WEIGHT
    &&& ctx.quantiser_matrices.intra_chroma == DEFAULT_INTRA_WEIGHT
    &&& ctx.quantiser_matrices.non_intra_chroma == DEFAULT_NON_INTRA_WEIGHT
}

/// Whether a source has the scale and the factor of its picture.
pub open spec fn source_scaled(src: PSource, scale: u8) -> bool {
    &&& scale_of(scale, src.params.q_scale_type) == Ok::<u8, Error>(src.qscale)
    &&& src.qscale != 0
    &&& src.dc_mult == crate::mpeg2_dequantize::dc_mult_of(src.params.intra_dc_precision)->0
}

/// The blocks are read with what the source was written with.
proof fn lemma_block_context(ctx: SliceWalkContext, src: PSource, scale: u8, f_code: u8)
    requires
        reads_predicted(ctx, src.params, f_code),
        source_scaled(src, scale),
    ensures
        reads_blocks(block_context(ctx, src.qscale), src),
{
    reveal(default_weights);
    let w = weights_of(ctx.quantiser_matrices);
    assert(w[0] == ctx.quantiser_matrices.intra_luma);
    assert(w[1] == ctx.quantiser_matrices.non_intra_luma);
    assert(w[2] == ctx.quantiser_matrices.intra_chroma);
    assert(w[3] == ctx.quantiser_matrices.non_intra_chroma);
}

/// Whether a vector that was read is `v`, and becomes the last.
pub open spec fn vector_is(r: Result<ReconstructedVector>, v: MotionVectorPel) -> bool {
    &&& r is Ok
    &&& r->Ok_0.horizontal.vector_prime == v.horizontal
    &&& r->Ok_0.horizontal.new_pmv == v.horizontal
    &&& r->Ok_0.vertical.vector_prime == v.vertical
    &&& r->Ok_0.vertical.new_pmv == v.vertical
}

/// A vector that was written is read back, and becomes the last.
pub proof fn lemma_vector_read(
    s: Seq<bool>,
    at: int,
    v: MotionVectorPel,
    last: (i32, i32),
    f_code: u8,
)
    requires
        1 <= f_code <= 9,
        vector_ok(last, f_code),
        vector_ok((v.horizontal, v.vertical), f_code),
        holds_at(s, at, vector_bits(v, last, f_code)),
    ensures
        ({
            let (entries, next) = motion_vectors_at(s, at, frame_based(), (f_code, f_code));
            &&& entries is Ok
            &&& next == at + vector_bits(v, last, f_code).len()
            &&& entries->Ok_0.len() > 0
            &&& vector_is(
                vector_from(entries->Ok_0[0].motion_vector, (f_code, f_code), last),
                v,
            )
        }),
{
    lemma2_to64();
    let dx = wrapped(v.horizontal - last.0, f_code);
    let dy = wrapped(v.vertical - last.1, f_code);
    let a = component_bits(dx, f_code);
    let b = component_bits(dy, f_code);
    lemma_holds_at_split(s, at, a, b);
    law_component_round_trip(s, at, dx, f_code);
    law_component_round_trip(s, at + a.len(), dy, f_code);
    lemma_delta_code(dx, f_code);
    lemma_delta_code(dy, f_code);
    assert(wrapped(last.0 + dx, f_code) == v.horizontal);
    assert(wrapped(last.1 + dy, f_code) == v.vertical);
}

/// A predicted macroblock as it is written.
pub struct PredictedMacroblock {
    pub v: MotionVectorPel,
    pub last: (i32, i32),
    pub f_code: u8,
    pub q: Seq<InterBlock>,
}

impl PredictedMacroblock {
    pub open spec fn bits(self, src: PSource) -> Seq<bool> {
        predicted_type_bits(any_coded(self.q)) + vector_bits(self.v, self.last, self.f_code)
            + residual_bits(self.q, src.params.alternate_scan)
    }

    /// The row of its type.
    pub open spec fn row(self) -> int {
        if any_coded(self.q) {
            0
        } else {
            2
        }
    }

    /// Whether its vector and its levels can be written.
    pub open spec fn ok<F: Fn([[i32; 8]; 8]) -> [[i16; 8]; 8]>(self, src: PSource, idct: F) -> bool {
        &&& 1 <= self.f_code <= 9
        &&& vector_ok(self.last, self.f_code)
        &&& vector_ok((self.v.horizontal, self.v.vertical), self.f_code)
        &&& self.q.len() == src.params.chroma_format.spec_blocks_per_mb()
        &&& quantised_ok(self.q, src.qscale, idct)
    }
}

/// The increment and the type of a predicted macroblock.
proof fn lemma_type_bits(coded: bool)
    ensures
        predicted_type_bits(coded) == intra_head(
            PictureCodingType::Predictive,
            if coded {
                0
            } else {
                2
            },
        ),
{
    reveal_with_fuel(value_bits, 2);
    assert(value_bits(1, 1) =~= seq![true]);
    assert(seq![true] + seq![true] =~= seq![true, true]);
}

/// What a decoder makes of a predicted macroblock, and the state that it goes on
/// with.
pub open spec fn predicted_read(
    m: MacroblockFields,
    wst: WalkState,
    next: WalkState,
    c: PredictedMacroblock,
    f_codes: MotionVectorsContext,
) -> bool {
    &&& m.address == wst.address + 1
    &&& m.skipped == 0
    &&& !m.macroblock_type.macroblock_intra
    &&& m.motion_type is None
    &&& m.dct_type is None
    &&& m.backward is None
    &&& m.forward is Some
    &&& m.forward->0.len() > 0
    &&& vector_is(
        vector_from(m.forward->0[0].motion_vector, (c.f_code, c.f_code), c.last),
        c.v,
    )
    &&& blocks_came_back(m.blocks, 0, c.q)
    &&& next.address == wst.address + 1
    &&& !next.first
    &&& next.scale == wst.scale
    &&& next.dc1 == wst.dc1
    &&& next.dc2 == DcPredictors::at_reset(wst.dc2.intra_dc_precision)
}

/// The start of a macroblock is read back.
proof fn lemma_head_read(s: Seq<bool>, at: int, row: int, rest: Seq<bool>)
    requires
        0 <= row < 7,
        holds_at(s, at, intra_head(PictureCodingType::Predictive, row) + rest),
    ensures
        ({
            let entry = type_rows(PictureCodingType::Predictive)[row];
            let p = at + 1 + entry.1;
            let mt = crate::macroblock_type::type_of_row(entry, p);
            &&& at < s.len()
            &&& s[at]
            &&& crate::mb_address_increment::increment_at(s, at, false) == (
                Ok::<crate::mb_address_increment::MbAddressIncrement, Error>(
                    (crate::mb_address_increment::MbAddressIncrement {
                        value: 1u32,
                        bit_position_after: (at + 1) as u64,
                    }),
                ),
                at + 1,
            )
            &&& macroblock_type_at(s, at + 1, PictureCodingType::Predictive) == (
                Ok::<MacroblockType, Error>(mt),
                p,
            )
            &&& holds_at(s, p, rest)
            &&& intra_head(PictureCodingType::Predictive, row).len() == 1 + entry.1
        }),
{
    let coding = PictureCodingType::Predictive;
    let entry = type_rows(coding)[row];
    let code = value_bits(entry.0 as int, entry.1 as int);
    lemma_holds_at_split(s, at, intra_head(coding, row), rest);
    lemma_holds_flag(s, at, true, code);
    lemma_holds_at_split(s, at, seq![true], code);
    assert(value_bits(1, 1) =~= seq![true]) by {
        reveal_with_fuel(value_bits, 2);
    }
    law_increment_round_trip(s, at, false, 1);
    lemma_value_bits_len(entry.0 as int, entry.1 as int);
    law_type_round_trip(s, at + 1, coding, row);
}

/// A predicted macroblock that was written is read back.
#[verifier::spinoff_prover]
pub proof fn lemma_predicted_read<F: Fn([[i32; 8]; 8]) -> [[i16; 8]; 8]>(
    s: Seq<bool>,
    at: int,
    c: PredictedMacroblock,
    src: PSource,
    ctx: SliceWalkContext,
    wst: WalkState,
    idct: F,
)
    requires
        c.ok(src, idct),
        reads_predicted(ctx, src.params, c.f_code),
        source_scaled(src, wst.scale),
        wst.dc2.intra_dc_precision == src.params.intra_dc_precision,
        -1 <= wst.address < MAX_ADDRESS,
        holds_at(s, at, c.bits(src)),
    ensures
        ({
            let (read, p) = macroblock_at(s, at, ctx, wst, idct);
            &&& read is Ok
            &&& p == at + c.bits(src).len()
            &&& predicted_read(read->Ok_0.0, wst, read->Ok_0.1, c, ctx.f_codes)
            &&& at < s.len()
            &&& s[at]
        }),
{
    reveal(macroblock_at);
    let row = c.row();
    let head = intra_head(PictureCodingType::Predictive, row);
    let vector = vector_bits(c.v, c.last, c.f_code);
    let rest = residual_bits(c.q, src.params.alternate_scan);
    lemma_type_bits(any_coded(c.q));
    assert(c.bits(src) =~= head + (vector + rest));
    lemma_head_read(s, at, row, vector + rest);
    let p2 = at + head.len();
    lemma_holds_at_split(s, p2, vector, rest);
    lemma_vector_read(s, p2, c.v, c.last, c.f_code);
    let p3 = p2 + vector.len();
    let mt = macroblock_type_at(s, at + 1, PictureCodingType::Predictive).0->Ok_0;
    lemma_block_context(ctx, src, wst.scale, c.f_code);
    let bctx = block_context(ctx, src.qscale);
    let dc = DcPredictors::at_reset(wst.dc2.intra_dc_precision);
    lemma_residual_bits_read(s, p3, c.q, src, bctx, dc, mt, idct);
    let modes = modes_at(s, at + 1, ctx, wst.scale);
    assert(modes.0 is Ok && modes.1 == p2);
    let prediction = prediction_at(s, p2, ctx, modes.0->Ok_0);
    assert(prediction.0 is Ok && prediction.0->Ok_0.backward is None) by {
        reveal(optional_vectors_at);
    }
    assert(prediction.0->Ok_0.forward == Some(
        motion_vectors_at(s, p2, frame_based(), (c.f_code, c.f_code)).0->Ok_0,
    )) by {
        reveal(optional_vectors_at);
    }
    assert(prediction == (prediction.0, optional_pattern_at(
        s,
        p3,
        mt.macroblock_pattern,
        src.params.chroma_format,
    ).1)) by {
        reveal(optional_vectors_at);
    }
    assert(prediction.0->Ok_0.pattern == optional_pattern_at(
        s,
        p3,
        mt.macroblock_pattern,
        src.params.chroma_format,
    ).0->Ok_0) by {
        reveal(optional_vectors_at);
    }
    reveal(blocks_of);
}

/// The bits and the DC predictions that the blocks of an intra macroblock start from.
pub open spec fn intra_headed(st: BlockEncoding) -> BlockEncoding {
    BlockEncoding { bits: st.bits + intra_head(PictureCodingType::Predictive, 3), ..st }
}

/// The encoding after an intra macroblock.
pub open spec fn intra_after<
    D: Fn([[i16; 8]; 8]) -> [[i32; 8]; 8],
    F: Fn([[i32; 8]; 8]) -> [[i16; 8]; 8],
>(src: PSource, st: BlockEncoding, fdct: D, idct: F) -> BlockEncoding {
    intra_blocks_encoded(
        src,
        src.params.chroma_format.spec_blocks_per_mb(),
        intra_headed(st),
        fdct,
        idct,
    )
}

/// What a decoder makes of an intra macroblock, and the state that it goes on with.
pub open spec fn intra_read(
    m: MacroblockFields,
    wst: WalkState,
    next: WalkState,
    src: PSource,
    st: BlockEncoding,
    after: BlockEncoding,
) -> bool {
    &&& m.address == wst.address + 1
    &&& m.skipped == 0
    &&& m.macroblock_type.macroblock_intra
    &&& m.motion_type is None
    &&& m.dct_type is None
    &&& m.forward is None
    &&& m.backward is None
    &&& frame_with_intra(
        st.recon,
        m.blocks,
        src.params.chroma_format,
        src.mb_col,
        src.mb_row,
        false,
        m.blocks.len() as int,
    ) == after.recon
    &&& next.address == wst.address + 1
    &&& !next.first
    &&& next.scale == wst.scale
    &&& dc_matches(next.dc2, after.dc, src.params.intra_dc_precision)
}

/// An intra macroblock that was written is decoded to what its encoder
/// reconstructed.
#[verifier::spinoff_prover]
pub proof fn lemma_intra_read<
    D: Fn([[i16; 8]; 8]) -> [[i32; 8]; 8],
    F: Fn([[i32; 8]; 8]) -> [[i16; 8]; 8],
>(
    s: Seq<bool>,
    base: int,
    src: PSource,
    st: BlockEncoding,
    f_code: u8,
    ctx: SliceWalkContext,
    wst: WalkState,
    fdct: D,
    idct: F,
)
    requires
        0 <= base <= st.bits.len(),
        intra_source_ok(src, st.dc),
        st.recon.wf(),
        reads_predicted(ctx, src.params, f_code),
        source_scaled(src, wst.scale),
        dc_matches(wst.dc2, st.dc, src.params.intra_dc_precision),
        -1 <= wst.address < MAX_ADDRESS,
        stands(s, base, intra_after(src, st, fdct, idct).bits),
    ensures
        ({
            let at = st.bits.len() - base;
            let after = intra_after(src, st, fdct, idct);
            let (read, p) = macroblock_at(s, at, ctx, wst, idct);
            &&& read is Ok
            &&& p == after.bits.len() - base
            &&& intra_read(read->Ok_0.0, wst, read->Ok_0.1, src, st, after)
            &&& at < s.len()
            &&& s[at]
        }),
{
    reveal(macroblock_at);
    let n = src.params.chroma_format.spec_blocks_per_mb();
    let headed = intra_headed(st);
    let after = intra_after(src, st, fdct, idct);
    let head = intra_head(PictureCodingType::Predictive, 3);
    let at = st.bits.len() - base;
    lemma_intra_blocks_keep(src, n, headed, fdct, idct);
    lemma_stands_prefix(s, base, headed.bits, after.bits);
    lemma_stands_split(s, base, st.bits, head);
    assert(head + Seq::<bool>::empty() =~= head);
    lemma_head_read(s, at, 3, Seq::empty());
    let p = at + head.len();
    let mt = macroblock_type_at(s, at + 1, PictureCodingType::Predictive).0->Ok_0;
    lemma_block_context(ctx, src, wst.scale, f_code);
    let bctx = block_context(ctx, src.qscale);
    lemma_intra_blocks_read(
        s,
        base,
        src,
        0,
        headed,
        bctx,
        wst.dc2,
        mt,
        no_pattern(p),
        fdct,
        idct,
    );
    let modes = modes_at(s, at + 1, ctx, wst.scale);
    assert(modes.0 is Ok && modes.1 == p);
    let prediction = prediction_at(s, p, ctx, modes.0->Ok_0);
    assert(prediction.0 is Ok && prediction.1 == p && prediction.0->Ok_0.forward is None
        && prediction.0->Ok_0.backward is None && prediction.0->Ok_0.pattern == no_pattern(p)) by {
        reveal(optional_vectors_at);
        reveal(optional_pattern_at);
    }
    reveal(blocks_of);
}

// ---------------------------------------------------------------------------
// Runs of zeros
// ---------------------------------------------------------------------------

/// The bits of the coded ones among the first `n` blocks after others.
proof fn lemma_coded_blocks_broken_up<F: Fn([[i32; 8]; 8]) -> [[i16; 8]; 8]>(
    head: Seq<bool>,
    q: Seq<InterBlock>,
    alternate_scan: bool,
    n: int,
    qscale: u8,
    idct: F,
)
    requires
        0 <= n <= q.len(),
        quantised_ok(q, qscale, idct),
        broken_up(head, 0, 11),
    ensures
        broken_up(head + coded_blocks_bits(q, alternate_scan, n), 0, 11),
    decreases n,
{
    if n > 0 {
        let b = q[n - 1];
        let first = coded_blocks_bits(q, alternate_scan, n - 1);
        let bits = one_block_bits(b, alternate_scan);
        lemma_coded_blocks_broken_up(head, q, alternate_scan, n - 1, qscale, idct);
        assert(head + coded_blocks_bits(q, alternate_scan, n) =~= head + first + bits);
        match b.qf {
            Some(qf) => {
                assert(block_quantised(q[n - 1], qscale, idct));
                reveal(block_quantised);
                lemma_order_fits(qf, alternate_scan);
                lemma_scan_is_order(qf, alternate_scan, TableSelection::TableZero, true, 0, 0);
                lemma_order_broken_up(
                    coded_order(qf, alternate_scan),
                    TableSelection::TableZero,
                    true,
                    0,
                    0,
                );
                lemma_joined(head + first, 0, 11, bits, 11, 1);
                lemma_loosened(head + first + bits, 0, 1, 0, 11);
            },
            None => {
                assert(head + first + bits =~= head + first);
            },
        }
    } else {
        assert(head + coded_blocks_bits(q, alternate_scan, n) =~= head);
    }
}

/// The bits of the residuals of a macroblock after others.
proof fn lemma_residual_bits_broken_up<F: Fn([[i32; 8]; 8]) -> [[i16; 8]; 8]>(
    head: Seq<bool>,
    q: Seq<InterBlock>,
    alternate_scan: bool,
    qscale: u8,
    idct: F,
)
    requires
        6 <= q.len() <= 12,
        quantised_ok(q, qscale, idct),
        broken_up(head, 0, 13),
    ensures
        broken_up(head + residual_bits(q, alternate_scan), 0, 13),
{
    if any_coded(q) {
        let flags = flags_of(q);
        let cbp = flags_value(flags, 0);
        let extra = flags.subrange(6, flags.len() as int);
        let n = q.len() as int;
        lemma_cbp_broken_up(cbp);
        lemma_joined(head, 0, 13, cbp_bits(cbp), 8, 5);
        lemma_suffixed(head + cbp_bits(cbp), 0, 5, extra);
        let patterned = head + cbp_bits(cbp) + extra;
        lemma_loosened(patterned, 0, 5 + extra.len() as int, 0, 11);
        lemma_coded_blocks_broken_up(patterned, q, alternate_scan, n, qscale, idct);
        let all = patterned + coded_blocks_bits(q, alternate_scan, n);
        assert(head + residual_bits(q, alternate_scan) =~= all);
        lemma_loosened(all, 0, 11, 0, 13);
    } else {
        assert(head + residual_bits(q, alternate_scan) =~= head);
    }
}

/// The start of a macroblock.
proof fn lemma_head_broken_up(row: int)
    requires
        0 <= row < 7,
    ensures
        broken_up(intra_head(PictureCodingType::Predictive, row), 0, 1),
{
    let entry = type_rows(PictureCodingType::Predictive)[row];
    lemma_flag_broken_up();
    lemma_type_broken_up(PictureCodingType::Predictive, row);
    lemma_joined(
        seq![true],
        0,
        0,
        value_bits(entry.0 as int, entry.1 as int),
        5,
        1,
    );
}

/// The bits of a predicted macroblock.
pub proof fn lemma_predicted_broken_up<F: Fn([[i32; 8]; 8]) -> [[i16; 8]; 8]>(
    c: PredictedMacroblock,
    src: PSource,
    idct: F,
)
    requires
        c.ok(src, idct),
    ensures
        broken_up(c.bits(src), 0, 13),
{
    lemma2_to64();
    let head = intra_head(PictureCodingType::Predictive, c.row());
    lemma_type_bits(any_coded(c.q));
    lemma_head_broken_up(c.row());
    let dx = wrapped(c.v.horizontal - c.last.0, c.f_code);
    let dy = wrapped(c.v.vertical - c.last.1, c.f_code);
    let a = component_bits(dx, c.f_code);
    let b = component_bits(dy, c.f_code);
    lemma_component_broken_up(dx, c.f_code);
    lemma_component_broken_up(dy, c.f_code);
    lemma_loosened(a, 6, 4 + c.f_code, 6, 13);
    lemma_loosened(b, 6, 4 + c.f_code, 6, 13);
    lemma_joined(a, 6, 13, b, 6, 13);
    lemma_joined(head, 0, 1, a + b, 6, 13);
    lemma_residual_bits_broken_up(
        head + (a + b),
        c.q,
        src.params.alternate_scan,
        src.qscale,
        idct,
    );
}

/// The bits of an intra macroblock.
pub proof fn lemma_intra_broken_up<
    D: Fn([[i16; 8]; 8]) -> [[i32; 8]; 8],
    F: Fn([[i32; 8]; 8]) -> [[i16; 8]; 8],
>(src: PSource, st: BlockEncoding, fdct: D, idct: F)
    requires
        intra_source_ok(src, st.dc),
        st.recon.wf(),
    ensures
        st.bits.is_prefix_of(intra_after(src, st, fdct, idct).bits),
        broken_up(added(st.bits, intra_after(src, st, fdct, idct).bits), 0, 13),
        intra_after(src, st, fdct, idct).recon.wf(),
        intra_after(src, st, fdct, idct).recon.chroma_format == st.recon.chroma_format,
        intra_source_ok(src, intra_after(src, st, fdct, idct).dc),
{
    let n = src.params.chroma_format.spec_blocks_per_mb();
    let headed = intra_headed(st);
    let after = intra_after(src, st, fdct, idct);
    let head = intra_head(PictureCodingType::Predictive, 3);
    lemma_intra_blocks_keep(src, n, headed, fdct, idct);
    lemma_head_broken_up(3);
    lemma_added(st.bits, head);
    lemma_added_twice(st.bits, headed.bits, after.bits);
    lemma_joined(head, 0, 1, added(headed.bits, after.bits), 19, 1);
    lemma_loosened(added(st.bits, after.bits), 0, 1, 0, 13);
}

} // verus!
