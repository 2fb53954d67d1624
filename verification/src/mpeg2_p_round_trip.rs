//! Decoding an MPEG-2 P-picture gives back the frame that its encoder reconstructed.

use crate::arith::blocks_of_16;
use crate::bits::{bits_of, holds_at, lemma_value_bits_len, value_bits, zero_padded};
use crate::block_writes::{lemma_blocks_keep_shape, lemma_inter_macroblock_is_blocks, residuals_are};
use crate::encoded_bits::{
    added, lemma_added, lemma_added_twice, lemma_one_goes_on, lemma_stands_prefix,
    lemma_stands_split, stands,
};
use crate::error::{Error, Result};
use crate::frame_assembly::{
    lemma_zero_frame_wf, macroblock_addressable, macroblock_rows, zero_frame, FrameContents, IntraPictureParams,
};
use crate::inter_reconstruction::{
    predicted_planes, predicted_run, zero_residual, MacroblockPlanes, MotionVectorPel,
    ReferenceContents,
};
use crate::motion_estimation::{
    best_vector, forward_motion, forward_only, law_best_vector_is_near, law_search_stays_in_range,
};
use crate::motion_vector::MotionVectorsKind;
use crate::mpeg1_intra_round_trip::lemma_row_fits;
use crate::mpeg1_picture::residuals_of;
use crate::mpeg2_dequantize::scale_of;
use crate::mpeg2_macroblock_blocks::DecodedBlock;
use crate::mpeg2_macroblock_round_trip::{
    block_quantised, blocks_came_back, dc_matches, intra_source_ok, lemma_dc_reset_matches,
    lemma_macroblock_blocks_ok, quantised_ok,
};
use crate::mpeg2_p_macroblocks::{
    intra_after, intra_headed, lemma_intra_broken_up, lemma_intra_read, lemma_predicted_broken_up,
    lemma_predicted_read, predicted_read, reads_predicted, source_scaled, PredictedMacroblock,
};
use crate::p_picture_encoder::{
    extension_of, f_pels_of, headed, intra_encoded, macroblock_blocks, macroblock_encoded,
    picture_encoded, prefers_intra, row_encoded, row_start, rows_encoded, search_distance,
    source_of, vector_ok, BlockEncoding, InterBlock, IntraDcPred, PEncoding, PSource,
};
use crate::picture_header::{
    coding_extension, picture_header_at, PictureCodingType, PictureStructure,
    EXTENSION_START_CODE, PICTURE_START_CODE,
};
use crate::picture_reconstruction::{
    f_codes_of, motion_of, one_macroblock, predicted_slice, skipped_motion, slice_placed,
    walk_context, InterDirection, PicturePredictionParams,
};
use crate::picture_round_trip::{
    lemma_extended_slice_found, lemma_picture_read, slice_reads, WrittenSlices,
};
use crate::picture_slices::{
    decoded_slices, from_first_slice, law_decoding_starts_at_the_first_slice,
};
use crate::slice_header::{law_slice_header_round_trip, slice_header_of};
use crate::slice_macroblock_walk::{
    lemma_macroblock_advances, macroblock_at, slice_ends, state_ok, walk_from, walk_start,
    MacroblockFields, SliceWalkContext, WalkState, MAX_ADDRESS,
};
use crate::slice_motion::{
    macroblock_motion, motion_start, motion_step, slice_vectors, MotionState, ReconstructedFields,
};
use crate::stream_writer::{
    extension_bits, law_coding_extension_round_trip, law_picture_header_round_trip,
    lemma_slice_header_len, picture_header_bits, slice_header_bits,
};
use crate::zero_runs::{broken_up, lemma_joined, lemma_loosened};
use vstd::arithmetic::power2::lemma2_to64;
use vstd::prelude::*;

verus! {

/// What the encoding of a P-picture depends on.
pub struct PredictedSource {
    pub current: FrameContents,
    pub reference: FrameContents,
    pub params: IntraPictureParams,
    pub scale_code: u8,
    pub qscale: u8,
    pub f_code: u8,
}

impl PredictedSource {
    /// A macroblock of the picture.
    pub open spec fn at(self, mb_col: int, mb_row: int) -> PSource {
        source_of(self.current, self.params, self.qscale, mb_col, mb_row)
    }

    /// The vector that the search gives a macroblock.
    pub open spec fn vector(self, src: PSource) -> MotionVectorPel {
        best_vector(
            src.current,
            self.reference,
            src.mb_col,
            src.mb_row,
            search_distance(self.f_code),
        )
    }

    pub open spec fn intra(self, src: PSource) -> bool {
        prefers_intra(src, self.reference, self.vector(src))
    }

    pub open spec fn prediction(self, src: PSource) -> MacroblockPlanes {
        predicted_planes(
            forward_only(self.reference),
            forward_motion(self.vector(src)),
            src.params.chroma_format,
            src.mb_col,
            src.mb_row,
        )
    }

    /// A predicted macroblock as it is written.
    pub open spec fn coded<
        D: Fn([[i16; 8]; 8]) -> [[i32; 8]; 8],
        F: Fn([[i32; 8]; 8]) -> [[i16; 8]; 8],
    >(self, src: PSource, last: (i32, i32), fdct: D, idct: F) -> PredictedMacroblock {
        PredictedMacroblock {
            v: self.vector(src),
            last,
            f_code: self.f_code,
            q: macroblock_blocks(src, self.prediction(src), fdct, idct),
        }
    }

    pub open spec fn ok(self) -> bool {
        &&& self.params.intra_dc_precision <= 3
        &&& scale_of(self.scale_code, self.params.q_scale_type) == Ok::<u8, Error>(self.qscale)
    }
}

/// A macroblock has the scale and the factor of its picture.
proof fn lemma_source_scaled(x: PredictedSource, mb_col: int, mb_row: int)
    requires
        x.ok(),
    ensures
        source_scaled(x.at(mb_col, mb_row), x.scale_code),
        1 <= x.scale_code <= 31,
{
}

/// The vector of a search lies in the range of its `f_code`, if that has one.
proof fn lemma_search_vector_ok(x: PredictedSource, src: PSource)
    ensures
        vector_ok((x.vector(src).horizontal, x.vector(src).vertical), x.f_code),
{
    lemma2_to64();
    let distance = search_distance(x.f_code);
    law_best_vector_is_near(src.current, x.reference, src.mb_col, src.mb_row, distance);
    if 1 <= x.f_code <= 9 {
        law_search_stays_in_range(x.vector(src), x.f_code, distance);
    }
}

/// A predicted macroblock can be written.
proof fn lemma_coded_ok<
    D: Fn([[i16; 8]; 8]) -> [[i32; 8]; 8],
    F: Fn([[i32; 8]; 8]) -> [[i16; 8]; 8],
>(x: PredictedSource, src: PSource, last: (i32, i32), fdct: D, idct: F)
    requires
        x.ok(),
        1 <= x.f_code <= 9,
        vector_ok(last, x.f_code),
    ensures
        x.coded(src, last, fdct, idct).ok(src, idct),
{
    lemma_search_vector_ok(x, src);
    lemma_macroblock_blocks_ok(src, x.prediction(src), fdct, idct);
}

/// The residuals of the blocks that were read are those of the quantised ones.
proof fn lemma_residuals_read<F: Fn([[i32; 8]; 8]) -> [[i16; 8]; 8]>(
    blocks: Seq<DecodedBlock>,
    q: Seq<InterBlock>,
    qscale: u8,
    idct: F,
)
    requires
        quantised_ok(q, qscale, idct),
        blocks_came_back(blocks, 0, q),
    ensures
        residuals_are(residuals_of(blocks), f_pels_of(q), q.len() as int),
{
    reveal(blocks_came_back);
    let residuals = residuals_of(blocks);
    let f_pels = f_pels_of(q);
    assert forall|a: int, b: int| 0 <= a < b < residuals.len() implies (
    #[trigger] residuals[a]).block_index < (#[trigger] residuals[b]).block_index by {
        assert(blocks[a].block_index < blocks[b].block_index);
    }
    assert forall|a: int| 0 <= a < residuals.len() implies (
    #[trigger] residuals[a]).block_index < q.len() && f_pels[residuals[a].block_index as int]
        == residuals[a].f_pel by {
        assert(blocks[a].block_index < q.len());
    }
    assert forall|i: int|
        0 <= i < q.len() && (forall|a: int|
            0 <= a < residuals.len() ==> (#[trigger] residuals[a]).block_index
                != i) implies #[trigger] f_pels[i] == zero_residual() by {
        assert(block_quantised(q[i], qscale, idct));
        if q[i].qf is Some {
            let a = choose|a: int| 0 <= a < blocks.len() && (#[trigger] blocks[a]).block_index == i;
            assert(residuals[a].block_index == i);
        } else {
            reveal(block_quantised);
        }
    }
}

/// The DC predictions that an intra macroblock starts from.
pub open spec fn dc_before(src: PSource, st: PEncoding) -> IntraDcPred {
    if src.address() - st.past_intra_address > 1 {
        IntraDcPred::at_reset(src.params.intra_dc_precision)
    } else {
        st.blocks.dc
    }
}

/// What holds before a macroblock.
pub open spec fn state_before(src: PSource, f_code: u8, st: PEncoding) -> bool {
    &&& vector_ok(st.last, f_code)
    &&& st.blocks.recon.wf()
    &&& st.blocks.recon.chroma_format == src.params.chroma_format
    &&& st.past_intra_address < src.address()
    &&& intra_source_ok(src, st.blocks.dc)
}

/// The encoding of an intra macroblock, from its bits.
proof fn lemma_intra_is<
    D: Fn([[i16; 8]; 8]) -> [[i32; 8]; 8],
    F: Fn([[i32; 8]; 8]) -> [[i16; 8]; 8],
>(src: PSource, f_code: u8, st: PEncoding, fdct: D, idct: F)
    requires
        state_before(src, f_code, st),
    ensures
        ({
            let start = (BlockEncoding { dc: dc_before(src, st), ..st.blocks });
            &&& intra_encoded(src, st, fdct, idct).blocks == intra_after(src, start, fdct, idct)
            &&& intra_source_ok(src, start.dc)
        }),
{
    let start = BlockEncoding { dc: dc_before(src, st), ..st.blocks };
    assert(st.blocks.bits.push(true) + value_bits(0b0001_1, 5) =~= intra_headed(start).bits);
    lemma_dc_reset_matches(src.params.intra_dc_precision);
}

/// What a macroblock leaves for the next.
proof fn lemma_macroblock_keeps<
    D: Fn([[i16; 8]; 8]) -> [[i32; 8]; 8],
    F: Fn([[i32; 8]; 8]) -> [[i16; 8]; 8],
>(x: PredictedSource, mb_col: int, mb_row: int, st: PEncoding, fdct: D, idct: F)
    requires
        x.ok(),
        state_before(x.at(mb_col, mb_row), x.f_code, st),
        macroblock_encoded(
            x.at(mb_col, mb_row),
            x.reference,
            x.f_code,
            st,
            fdct,
            idct,
        ).0 is Ok,
    ensures
        ({
            let src = x.at(mb_col, mb_row);
            let after = macroblock_encoded(src, x.reference, x.f_code, st, fdct, idct).1;
            &&& state_before(x.at(mb_col + 1, mb_row), x.f_code, after)
            &&& st.blocks.bits.is_prefix_of(after.blocks.bits)
            &&& broken_up(added(st.blocks.bits, after.blocks.bits), 0, 13)
        }),
{
    reveal(macroblock_encoded);
    lemma2_to64();
    let src = x.at(mb_col, mb_row);
    let after = macroblock_encoded(src, x.reference, x.f_code, st, fdct, idct).1;
    lemma_source_scaled(x, mb_col, mb_row);
    if x.intra(src) {
        let start = BlockEncoding { dc: dc_before(src, st), ..st.blocks };
        lemma_intra_is(src, x.f_code, st, fdct, idct);
        lemma_intra_broken_up(src, start, fdct, idct);
        assert(vector_ok((0i32, 0i32), x.f_code));
    } else {
        let c = x.coded(src, st.last, fdct, idct);
        lemma_coded_ok(x, src, st.last, fdct, idct);
        lemma_predicted_broken_up(c, src, idct);
        assert(after.blocks.bits =~= st.blocks.bits + c.bits(src));
        lemma_added(st.blocks.bits, c.bits(src));
        lemma_blocks_keep_shape(
            st.blocks.recon,
            x.prediction(src),
            src.params.chroma_format,
            src.mb_col,
            src.mb_row,
            f_pels_of(c.q),
            c.q.len() as int,
        );
    }
}

/// What a decoder makes of a macroblock.
pub open spec fn macroblock_came_back(
    m: MacroblockFields,
    next: WalkState,
    src: PSource,
    reference: FrameContents,
    pp: PicturePredictionParams,
    mst: MotionState,
    previous: Option<InterDirection>,
    before: PEncoding,
    after: PEncoding,
) -> bool {
    let w = blocks_of_16(src.params.width as int);
    let motion = macroblock_motion(
        m,
        PictureCodingType::Predictive,
        f_codes_of(pp),
        mst.predictors,
    );
    let (res, frame, _) = one_macroblock(
        before.blocks.recon,
        forward_only(reference),
        m,
        motion->Ok_0.0,
        w,
        src.params.chroma_format,
        previous,
    );
    &&& m.skipped == 0
    &&& m.address == src.address()
    &&& next.address == src.address()
    &&& motion is Ok
    &&& motion->Ok_0.1.of(MotionVectorsKind::Forward) == after.last
    &&& res is Ok
    &&& frame == after.blocks.recon
}

/// What the decoder of a picture is set to.
pub open spec fn decodes(x: PredictedSource, pp: PicturePredictionParams) -> bool {
    &&& pp.geometry == x.params
    &&& pp.picture_coding_type == PictureCodingType::Predictive
    &&& pp.f_code_fwd_horiz == x.f_code
    &&& pp.f_code_fwd_vert == x.f_code
    &&& !pp.concealment_motion_vectors
    &&& x.params.frame_pred_frame_dct
}

/// Where a macroblock of a picture lies.
proof fn lemma_located(x: PredictedSource, mb_col: int, mb_row: int)
    requires
        0 <= mb_row < 0x0FFF_FFFF,
        0 <= mb_col < blocks_of_16(x.params.width as int),
        (mb_row + 1) * blocks_of_16(x.params.width as int) - 1 <= MAX_ADDRESS,
    ensures
        0 <= x.at(mb_col, mb_row).address() <= MAX_ADDRESS,
        macroblock_addressable(mb_col, mb_row),
        x.at(mb_col, mb_row).address() % blocks_of_16(x.params.width as int) == mb_col,
        x.at(mb_col, mb_row).address() / blocks_of_16(x.params.width as int) == mb_row,
{
    let w = blocks_of_16(x.params.width as int);
    assert(0 <= mb_row * w && mb_row * w + mb_col <= MAX_ADDRESS && w <= MAX_ADDRESS + 1)
        by (nonlinear_arith)
        requires
            0 <= mb_col < w,
            0 <= mb_row,
            (mb_row + 1) * w - 1 <= MAX_ADDRESS,
    ;
    vstd::arithmetic::div_mod::lemma_fundamental_div_mod_converse(
        x.at(mb_col, mb_row).address(),
        w,
        mb_row,
        mb_col,
    );
}

/// A predicted macroblock that was read is put where it was taken from.
proof fn lemma_predicted_placed<F: Fn([[i32; 8]; 8]) -> [[i16; 8]; 8]>(
    x: PredictedSource,
    mb_col: int,
    mb_row: int,
    c: PredictedMacroblock,
    m: MacroblockFields,
    wst: WalkState,
    next: WalkState,
    pp: PicturePredictionParams,
    mst: MotionState,
    previous: Option<InterDirection>,
    recon: FrameContents,
    idct: F,
)
    requires
        x.ok(),
        decodes(x, pp),
        0 <= mb_row < 0x0FFF_FFFF,
        0 <= mb_col < blocks_of_16(x.params.width as int),
        (mb_row + 1) * blocks_of_16(x.params.width as int) - 1 <= MAX_ADDRESS,
        c.ok(x.at(mb_col, mb_row), idct),
        c.f_code == x.f_code,
        c.v == x.vector(x.at(mb_col, mb_row)),
        predicted_read(m, wst, next, c, f_codes_of(pp)),
        m.address == x.at(mb_col, mb_row).address(),
        mst.predictors.of(MotionVectorsKind::Forward) == c.last,
        recon.wf(),
        recon.chroma_format == x.params.chroma_format,
    ensures
        ({
            let src = x.at(mb_col, mb_row);
            let motion = macroblock_motion(
                m,
                PictureCodingType::Predictive,
                f_codes_of(pp),
                mst.predictors,
            );
            let (res, frame, _) = one_macroblock(
                recon,
                forward_only(x.reference),
                m,
                motion->Ok_0.0,
                blocks_of_16(x.params.width as int),
                x.params.chroma_format,
                previous,
            );
            &&& motion is Ok
            &&& motion->Ok_0.1.of(MotionVectorsKind::Forward) == (c.v.horizontal, c.v.vertical)
            &&& res is Ok
            &&& frame == crate::inter_reconstruction::frame_with_blocks(
                recon,
                x.prediction(src),
                x.params.chroma_format,
                mb_col,
                mb_row,
                f_pels_of(c.q),
                c.q.len() as int,
            )
        }),
{
    let src = x.at(mb_col, mb_row);
    lemma_located(x, mb_col, mb_row);
    lemma_residuals_read(m.blocks, c.q, src.qscale, idct);
    lemma_inter_macroblock_is_blocks(
        recon,
        forward_only(x.reference),
        mb_col,
        mb_row,
        forward_motion(c.v),
        residuals_of(m.blocks),
        f_pels_of(c.q),
    );
    let motion = macroblock_motion(
        m,
        PictureCodingType::Predictive,
        f_codes_of(pp),
        mst.predictors,
    );
    assert(motion is Ok);
    assert(motion_of(motion->Ok_0.0) == forward_motion(c.v));
}

/// A macroblock is decoded to what its encoder reconstructed.
proof fn lemma_macroblock_read<
    D: Fn([[i16; 8]; 8]) -> [[i32; 8]; 8],
    F: Fn([[i32; 8]; 8]) -> [[i16; 8]; 8],
>(
    s: Seq<bool>,
    base: int,
    x: PredictedSource,
    mb_col: int,
    mb_row: int,
    st: PEncoding,
    ctx: SliceWalkContext,
    wst: WalkState,
    pp: PicturePredictionParams,
    mst: MotionState,
    previous: Option<InterDirection>,
    fdct: D,
    idct: F,
)
    requires
        x.ok(),
        decodes(x, pp),
        0 <= mb_row < 0x0FFF_FFFF,
        0 <= mb_col < blocks_of_16(x.params.width as int),
        (mb_row + 1) * blocks_of_16(x.params.width as int) - 1 <= MAX_ADDRESS,
        state_before(x.at(mb_col, mb_row), x.f_code, st),
        0 <= base <= st.blocks.bits.len(),
        reads_predicted(ctx, x.params, x.f_code),
        wst.address == x.at(mb_col, mb_row).address() - 1,
        wst.scale == x.scale_code,
        dc_matches(
            wst.dc2,
            dc_before(x.at(mb_col, mb_row), st),
            x.params.intra_dc_precision,
        ),
        mst.predictors.of(MotionVectorsKind::Forward) == st.last,
        macroblock_encoded(
            x.at(mb_col, mb_row),
            x.reference,
            x.f_code,
            st,
            fdct,
            idct,
        ).0 is Ok,
        stands(
            s,
            base,
            macroblock_encoded(
                x.at(mb_col, mb_row),
                x.reference,
                x.f_code,
                st,
                fdct,
                idct,
            ).1.blocks.bits,
        ),
    ensures
        ({
            let src = x.at(mb_col, mb_row);
            let after = macroblock_encoded(src, x.reference, x.f_code, st, fdct, idct).1;
            let at = st.blocks.bits.len() - base;
            let (read, p) = macroblock_at(s, at, ctx, wst, idct);
            &&& read is Ok
            &&& p == after.blocks.bits.len() - base
            &&& macroblock_came_back(
                read->Ok_0.0,
                read->Ok_0.1,
                src,
                x.reference,
                pp,
                mst,
                previous,
                st,
                after,
            )
            &&& read->Ok_0.1.scale == wst.scale
            &&& dc_matches(
                read->Ok_0.1.dc2,
                dc_before(x.at(mb_col + 1, mb_row), after),
                x.params.intra_dc_precision,
            )
            &&& 0 <= at < s.len()
            &&& s[at]
        }),
{
    reveal(macroblock_encoded);
    let src = x.at(mb_col, mb_row);
    let at = st.blocks.bits.len() - base;
    let after = macroblock_encoded(src, x.reference, x.f_code, st, fdct, idct).1;
    lemma_source_scaled(x, mb_col, mb_row);
    lemma_located(x, mb_col, mb_row);
    lemma_dc_reset_matches(x.params.intra_dc_precision);
    if x.intra(src) {
        let start = BlockEncoding { dc: dc_before(src, st), ..st.blocks };
        lemma_intra_is(src, x.f_code, st, fdct, idct);
        lemma_intra_read(s, base, src, start, x.f_code, ctx, wst, fdct, idct);
    } else {
        let c = x.coded(src, st.last, fdct, idct);
        lemma_coded_ok(x, src, st.last, fdct, idct);
        assert(after.blocks.bits =~= st.blocks.bits + c.bits(src));
        lemma_stands_split(s, base, st.blocks.bits, c.bits(src));
        lemma_predicted_read(s, at, c, src, ctx, wst, idct);
        let (read, p) = macroblock_at(s, at, ctx, wst, idct);
        lemma_predicted_placed(
            x,
            mb_col,
            mb_row,
            c,
            read->Ok_0.0,
            wst,
            read->Ok_0.1,
            pp,
            mst,
            previous,
            st.blocks.recon,
            idct,
        );
    }
}

// ---------------------------------------------------------------------------
// Rows
// ---------------------------------------------------------------------------

/// The encoding of a row.
pub open spec fn row_of<
    D: Fn([[i16; 8]; 8]) -> [[i32; 8]; 8],
    F: Fn([[i32; 8]; 8]) -> [[i16; 8]; 8],
>(x: PredictedSource, mb_row: int, n: int, st: PEncoding, fdct: D, idct: F) -> (
    Result<()>,
    PEncoding,
) {
    row_encoded(
        x.current,
        x.reference,
        x.params,
        x.qscale,
        x.f_code,
        mb_row,
        n,
        st,
        fdct,
        idct,
    )
}

/// What holds after the first `n` macroblocks of a row.
proof fn lemma_row_keeps<
    D: Fn([[i16; 8]; 8]) -> [[i32; 8]; 8],
    F: Fn([[i32; 8]; 8]) -> [[i16; 8]; 8],
>(x: PredictedSource, mb_row: int, n: int, st: PEncoding, fdct: D, idct: F)
    requires
        0 <= n,
        x.ok(),
        state_before(x.at(0, mb_row), x.f_code, st),
        row_of(x, mb_row, n, st, fdct, idct).0 is Ok,
    ensures
        ({
            let after = row_of(x, mb_row, n, st, fdct, idct).1;
            &&& state_before(x.at(n, mb_row), x.f_code, after)
            &&& st.blocks.bits.is_prefix_of(after.blocks.bits)
            &&& n > 0 ==> broken_up(added(st.blocks.bits, after.blocks.bits), 0, 13)
        }),
    decreases n,
{
    if n > 0 {
        lemma_row_keeps(x, mb_row, n - 1, st, fdct, idct);
        let before = row_of(x, mb_row, n - 1, st, fdct, idct).1;
        let after = row_of(x, mb_row, n, st, fdct, idct).1;
        lemma_macroblock_keeps(x, n - 1, mb_row, before, fdct, idct);
        lemma_added_twice(st.blocks.bits, before.blocks.bits, after.blocks.bits);
        if n > 1 {
            lemma_joined(
                added(st.blocks.bits, before.blocks.bits),
                0,
                13,
                added(before.blocks.bits, after.blocks.bits),
                0,
                13,
            );
        }
    } else {
        assert(st.blocks.bits.is_prefix_of(st.blocks.bits));
    }
}

/// What was written for the macroblocks from `k` to `n` of a row was added.
proof fn lemma_row_grows<
    D: Fn([[i16; 8]; 8]) -> [[i32; 8]; 8],
    F: Fn([[i32; 8]; 8]) -> [[i16; 8]; 8],
>(x: PredictedSource, mb_row: int, k: int, n: int, st: PEncoding, fdct: D, idct: F)
    requires
        0 <= k <= n,
        x.ok(),
        state_before(x.at(0, mb_row), x.f_code, st),
        row_of(x, mb_row, n, st, fdct, idct).0 is Ok,
    ensures
        row_of(x, mb_row, k, st, fdct, idct).0 is Ok,
        row_of(x, mb_row, k, st, fdct, idct).1.blocks.bits.is_prefix_of(
            row_of(x, mb_row, n, st, fdct, idct).1.blocks.bits,
        ),
    decreases n - k,
{
    if k < n {
        lemma_row_grows(x, mb_row, k, n - 1, st, fdct, idct);
        lemma_row_keeps(x, mb_row, n - 1, st, fdct, idct);
        let at_k = row_of(x, mb_row, k, st, fdct, idct).1;
        let before = row_of(x, mb_row, n - 1, st, fdct, idct).1;
        let after = row_of(x, mb_row, n, st, fdct, idct).1;
        lemma_macroblock_keeps(x, n - 1, mb_row, before, fdct, idct);
        lemma_added_twice(at_k.blocks.bits, before.blocks.bits, after.blocks.bits);
    } else {
        let bits = row_of(x, mb_row, n, st, fdct, idct).1.blocks.bits;
        assert(bits.is_prefix_of(bits));
    }
}

/// How a macroblock was predicted, or the last before it.
spec fn next_direction(
    m: MacroblockFields,
    refs: ReferenceContents,
    pp: PicturePredictionParams,
    mst: MotionState,
    previous: Option<InterDirection>,
    frame: FrameContents,
    mb_width: int,
) -> Option<InterDirection> {
    let vectors = macroblock_motion(
        m,
        pp.picture_coding_type,
        f_codes_of(pp),
        mst.predictors,
    )->Ok_0.0;
    one_macroblock(
        frame,
        refs,
        m,
        vectors,
        mb_width,
        pp.geometry.chroma_format,
        previous,
    ).2
}

/// A macroblock in front of others is placed before them.
proof fn lemma_slice_placed_head(
    m: MacroblockFields,
    rest: Seq<MacroblockFields>,
    vectors: Seq<ReconstructedFields>,
    next: WalkState,
    src: PSource,
    reference: FrameContents,
    pp: PicturePredictionParams,
    mst: MotionState,
    previous: Option<InterDirection>,
    before: PEncoding,
    after: PEncoding,
    count: int,
)
    requires
        macroblock_came_back(m, next, src, reference, pp, mst, previous, before, after),
        pp.picture_coding_type == PictureCodingType::Predictive,
        pp.geometry.chroma_format == src.params.chroma_format,
        ({
            let (_, last) = motion_step(
                m,
                PictureCodingType::Predictive,
                f_codes_of(pp),
                mst,
            )->Ok_0;
            slice_vectors(rest, PictureCodingType::Predictive, f_codes_of(pp), last) == Ok::<
                Seq<ReconstructedFields>,
                Error,
            >(vectors)
        }),
    ensures
        ({
            let w = blocks_of_16(src.params.width as int);
            let refs = forward_only(reference);
            let (first, _) = motion_step(
                m,
                PictureCodingType::Predictive,
                f_codes_of(pp),
                mst,
            )->Ok_0;
            &&& slice_vectors(
                seq![m] + rest,
                PictureCodingType::Predictive,
                f_codes_of(pp),
                mst,
            ) == Ok::<Seq<ReconstructedFields>, Error>(seq![first] + vectors)
            &&& slice_placed(
                before.blocks.recon,
                refs,
                seq![m] + rest,
                seq![first] + vectors,
                w,
                pp,
                previous,
                count,
            ) == slice_placed(
                after.blocks.recon,
                refs,
                rest,
                vectors,
                w,
                pp,
                next_direction(m, refs, pp, mst, previous, before.blocks.recon, w),
                count + 1,
            )
        }),
{
    let w = blocks_of_16(src.params.width as int);
    let refs = forward_only(reference);
    let (first, _) = motion_step(m, PictureCodingType::Predictive, f_codes_of(pp), mst)->Ok_0;
    assert((seq![m] + rest)[0] == m);
    assert((seq![m] + rest).drop_first() =~= rest);
    assert((seq![first] + vectors)[0] == first);
    assert((seq![first] + vectors).drop_first() =~= vectors);
    assert(predicted_run(
        before.blocks.recon,
        refs,
        m.address,
        0,
        w,
        skipped_motion(PictureCodingType::Predictive, previous),
    ) == before.blocks.recon);
}

/// The macroblocks of a row from `n` on are decoded to what their encoder
/// reconstructed.
proof fn lemma_row_read<
    D: Fn([[i16; 8]; 8]) -> [[i32; 8]; 8],
    F: Fn([[i32; 8]; 8]) -> [[i16; 8]; 8],
>(
    s: Seq<bool>,
    base: int,
    x: PredictedSource,
    mb_row: int,
    n: int,
    st: PEncoding,
    ctx: SliceWalkContext,
    wst: WalkState,
    pp: PicturePredictionParams,
    mst: MotionState,
    previous: Option<InterDirection>,
    count: int,
    fdct: D,
    idct: F,
)
    requires
        x.ok(),
        decodes(x, pp),
        state_before(x.at(0, mb_row), x.f_code, st),
        0 <= n <= blocks_of_16(x.params.width as int),
        0 <= mb_row < 175,
        (mb_row + 1) * blocks_of_16(x.params.width as int) - 1 <= MAX_ADDRESS,
        0 <= base <= st.blocks.bits.len(),
        reads_predicted(ctx, x.params, x.f_code),
        state_ok(wst),
        wst.address == x.at(n, mb_row).address() - 1,
        wst.scale == x.scale_code,
        dc_matches(
            wst.dc2,
            dc_before(x.at(n, mb_row), row_of(x, mb_row, n, st, fdct, idct).1),
            x.params.intra_dc_precision,
        ),
        mst.predictors.of(MotionVectorsKind::Forward) == row_of(
            x,
            mb_row,
            n,
            st,
            fdct,
            idct,
        ).1.last,
        ({
            let w = blocks_of_16(x.params.width as int);
            let (res, end) = row_of(x, mb_row, w, st, fdct, idct);
            &&& res is Ok
            &&& stands(s, base, end.blocks.bits)
            &&& slice_ends(s, end.blocks.bits.len() - base)
        }),
    ensures
        ({
            let w = blocks_of_16(x.params.width as int);
            let now = row_of(x, mb_row, n, st, fdct, idct).1;
            let end = row_of(x, mb_row, w, st, fdct, idct).1;
            let read = walk_from(s, now.blocks.bits.len() - base, ctx, wst, idct);
            let vectors = slice_vectors(
                read->Ok_0,
                PictureCodingType::Predictive,
                f_codes_of(pp),
                mst,
            );
            &&& read is Ok
            &&& vectors is Ok
            &&& slice_placed(
                now.blocks.recon,
                forward_only(x.reference),
                read->Ok_0,
                vectors->Ok_0,
                w,
                pp,
                previous,
                count,
            ) == Ok::<(FrameContents, int), Error>((end.blocks.recon, count + (w - n)))
        }),
    decreases blocks_of_16(x.params.width as int) - n,
{
    let w = blocks_of_16(x.params.width as int);
    let now = row_of(x, mb_row, n, st, fdct, idct).1;
    let end = row_of(x, mb_row, w, st, fdct, idct).1;
    let at = now.blocks.bits.len() - base;
    if n < w {
        let src = x.at(n, mb_row);
        let next = row_of(x, mb_row, n + 1, st, fdct, idct).1;
        let refs = forward_only(x.reference);
        lemma_row_grows(x, mb_row, n + 1, w, st, fdct, idct);
        lemma_row_grows(x, mb_row, n, w, st, fdct, idct);
        lemma_row_keeps(x, mb_row, n, st, fdct, idct);
        lemma_row_keeps(x, mb_row, n + 1, st, fdct, idct);
        lemma_stands_prefix(s, base, next.blocks.bits, end.blocks.bits);
        lemma_macroblock_read(s, base, x, n, mb_row, now, ctx, wst, pp, mst, previous, fdct, idct);
        let (read, p) = macroblock_at(s, at, ctx, wst, idct);
        let m = read->Ok_0.0;
        let after = read->Ok_0.1;
        lemma_one_goes_on(s, at);
        lemma_macroblock_advances(s, at, ctx, wst, idct);
        let last = motion_step(m, PictureCodingType::Predictive, f_codes_of(pp), mst)->Ok_0.1;
        let direction = next_direction(m, refs, pp, mst, previous, now.blocks.recon, w);
        lemma_row_read(
            s,
            base,
            x,
            mb_row,
            n + 1,
            st,
            ctx,
            after,
            pp,
            last,
            direction,
            count + 1,
            fdct,
            idct,
        );
        let rest = walk_from(s, p, ctx, after, idct)->Ok_0;
        let vectors = slice_vectors(rest, PictureCodingType::Predictive, f_codes_of(pp), last);
        lemma_slice_placed_head(
            m,
            rest,
            vectors->Ok_0,
            after,
            src,
            x.reference,
            pp,
            mst,
            previous,
            now,
            next,
            count,
        );
    }
}

/// The state that a row starts in.
pub open spec fn begin(
    x: PredictedSource,
    mb_row: int,
    bits: Seq<bool>,
    recon: FrameContents,
) -> PEncoding {
    row_start(x.params, mb_row, bits + slice_header_bits(mb_row, x.scale_code), recon)
}

proof fn lemma_begin_ok(x: PredictedSource, mb_row: int, bits: Seq<bool>, recon: FrameContents)
    requires
        x.ok(),
        recon.wf(),
        recon.chroma_format == x.params.chroma_format,
    ensures
        state_before(x.at(0, mb_row), x.f_code, begin(x, mb_row, bits, recon)),
{
    lemma2_to64();
    lemma_source_scaled(x, 0, mb_row);
    lemma_dc_reset_matches(x.params.intra_dc_precision);
    assert(vector_ok((0i32, 0i32), x.f_code));
}

/// A slice of a P-picture that was written is decoded to what its encoder
/// reconstructed.
pub proof fn law_predicted_slice_round_trip<
    D: Fn([[i16; 8]; 8]) -> [[i32; 8]; 8],
    F: Fn([[i32; 8]; 8]) -> [[i16; 8]; 8],
>(
    x: PredictedSource,
    mb_row: int,
    bits: Seq<bool>,
    recon: FrameContents,
    pp: PicturePredictionParams,
    buf: Seq<u8>,
    fdct: D,
    idct: F,
)
    requires
        x.ok(),
        decodes(x, pp),
        0 <= mb_row < 175,
        x.params.height <= 2800,
        (mb_row + 1) * blocks_of_16(x.params.width as int) - 1 <= MAX_ADDRESS,
        recon.wf(),
        recon.chroma_format == x.params.chroma_format,
        ({
            let w = blocks_of_16(x.params.width as int);
            let (res, end) = row_of(x, mb_row, w, begin(x, mb_row, bits, recon), fdct, idct);
            let s = bits_of(buf);
            &&& res is Ok
            &&& stands(s, bits.len() as int, end.blocks.bits)
            &&& slice_ends(s, end.blocks.bits.len() - bits.len())
        }),
    ensures
        ({
            let w = blocks_of_16(x.params.width as int);
            let end = row_of(x, mb_row, w, begin(x, mb_row, bits, recon), fdct, idct).1;
            let header = slice_header_of(bits_of(buf), x.params.height as u32);
            &&& header is Ok
            &&& predicted_slice(pp, forward_only(x.reference), idct)(buf, header->Ok_0, recon)
                == Ok::<(FrameContents, int), Error>((end.blocks.recon, w))
        }),
{
    let w = blocks_of_16(x.params.width as int);
    let s = bits_of(buf);
    let base = bits.len() as int;
    let head = slice_header_bits(mb_row, x.scale_code);
    let st = begin(x, mb_row, bits, recon);
    let end = row_of(x, mb_row, w, st, fdct, idct).1;
    lemma2_to64();
    lemma_begin_ok(x, mb_row, bits, recon);
    lemma_source_scaled(x, 0, mb_row);
    lemma_slice_header_len(mb_row, x.scale_code);
    lemma_row_keeps(x, mb_row, w, st, fdct, idct);
    lemma_stands_prefix(s, base, st.blocks.bits, end.blocks.bits);
    lemma_stands_split(s, base, bits, head);
    law_slice_header_round_trip(s, mb_row, x.scale_code, x.params.height as u32);
    let header = slice_header_of(s, x.params.height as u32)->Ok_0;
    let ctx = walk_context(pp, header);
    lemma_row_fits(mb_row, w);
    lemma_dc_reset_matches(x.params.intra_dc_precision);
    lemma_row_read(
        s,
        base,
        x,
        mb_row,
        0,
        st,
        ctx,
        walk_start(ctx),
        pp,
        motion_start(),
        None,
        0,
        fdct,
        idct,
    );
}

// ---------------------------------------------------------------------------
// Pictures
// ---------------------------------------------------------------------------

/// The bits and the frame after the first `n` slices.
pub open spec fn rows_of<
    D: Fn([[i16; 8]; 8]) -> [[i32; 8]; 8],
    F: Fn([[i32; 8]; 8]) -> [[i16; 8]; 8],
>(x: PredictedSource, n: int, bits: Seq<bool>, recon: FrameContents, fdct: D, idct: F) -> (
    Result<()>,
    Seq<bool>,
    FrameContents,
) {
    rows_encoded(
        x.current,
        x.reference,
        x.params,
        x.scale_code,
        x.qscale,
        x.f_code,
        n,
        bits,
        recon,
        fdct,
        idct,
    )
}

/// Rows that could be encoded could be encoded one by one.
proof fn lemma_rows_encoded<
    D: Fn([[i16; 8]; 8]) -> [[i32; 8]; 8],
    F: Fn([[i32; 8]; 8]) -> [[i16; 8]; 8],
>(x: PredictedSource, k: int, n: int, bits: Seq<bool>, recon: FrameContents, fdct: D, idct: F)
    requires
        0 <= k <= n,
        rows_of(x, n, bits, recon, fdct, idct).0 is Ok,
    ensures
        rows_of(x, k, bits, recon, fdct, idct).0 is Ok,
    decreases n - k,
{
    if k < n {
        lemma_rows_encoded(x, k, n - 1, bits, recon, fdct, idct);
    }
}

/// A row as it is encoded.
proof fn lemma_row_written<
    D: Fn([[i16; 8]; 8]) -> [[i32; 8]; 8],
    F: Fn([[i32; 8]; 8]) -> [[i16; 8]; 8],
>(x: PredictedSource, r: int, bits: Seq<bool>, recon: FrameContents, fdct: D, idct: F)
    requires
        0 <= r,
        x.ok(),
        recon.wf(),
        recon.chroma_format == x.params.chroma_format,
        rows_of(x, r + 1, bits, recon, fdct, idct).0 is Ok,
    ensures
        ({
            let w = blocks_of_16(x.params.width as int);
            let (res, b, f) = rows_of(x, r, bits, recon, fdct, idct);
            let st = begin(x, r, b, f);
            let (row, end) = row_of(x, r, w, st, fdct, idct);
            &&& res is Ok
            &&& row is Ok
            &&& f.wf()
            &&& f.chroma_format == x.params.chroma_format
            &&& rows_of(x, r + 1, bits, recon, fdct, idct) == (
                Ok::<(), Error>(()),
                zero_padded(end.blocks.bits),
                end.blocks.recon,
            )
            &&& st.blocks.bits.is_prefix_of(end.blocks.bits)
            &&& w > 0 ==> broken_up(added(st.blocks.bits, end.blocks.bits), 0, 13)
        }),
    decreases r,
{
    let w = blocks_of_16(x.params.width as int);
    let (_, b, f) = rows_of(x, r, bits, recon, fdct, idct);
    if r > 0 {
        lemma_row_written(x, r - 1, bits, recon, fdct, idct);
        let (_, c, g) = rows_of(x, r - 1, bits, recon, fdct, idct);
        lemma_begin_ok(x, r - 1, c, g);
        lemma_row_keeps(x, r - 1, w, begin(x, r - 1, c, g), fdct, idct);
    }
    lemma_begin_ok(x, r, b, f);
    lemma_row_keeps(x, r, w, begin(x, r, b, f), fdct, idct);
}

/// The slices of a picture as its encoder writes them.
spec fn slices_of<
    D: Fn([[i16; 8]; 8]) -> [[i32; 8]; 8],
    F: Fn([[i32; 8]; 8]) -> [[i16; 8]; 8],
>(x: PredictedSource, h: int, bits: Seq<bool>, recon: FrameContents, fdct: D, idct: F) -> WrittenSlices {
    let w = blocks_of_16(x.params.width as int);
    WrittenSlices {
        scale: x.scale_code,
        starts: Seq::new((h + 1) as nat, |r: int| rows_of(x, r, bits, recon, fdct, idct).1),
        ends: Seq::new(
            h as nat,
            |r: int|
                {
                    let (_, b, f) = rows_of(x, r, bits, recon, fdct, idct);
                    row_of(x, r, w, begin(x, r, b, f), fdct, idct).1.blocks.bits
                },
        ),
    }
}

/// The slices of a picture stand one after the other.
proof fn lemma_slices_ok<
    D: Fn([[i16; 8]; 8]) -> [[i32; 8]; 8],
    F: Fn([[i32; 8]; 8]) -> [[i16; 8]; 8],
>(x: PredictedSource, h: int, bits: Seq<bool>, recon: FrameContents, fdct: D, idct: F)
    requires
        x.ok(),
        1 <= x.params.width,
        0 <= h <= 175,
        bits.len() % 8 == 0,
        recon.wf(),
        recon.chroma_format == x.params.chroma_format,
        rows_of(x, h, bits, recon, fdct, idct).0 is Ok,
    ensures
        slices_of(x, h, bits, recon, fdct, idct).ok(),
        slices_of(x, h, bits, recon, fdct, idct).starts[0] == bits,
{
    let y = slices_of(x, h, bits, recon, fdct, idct);
    lemma_source_scaled(x, 0, 0);
    assert forall|r: int| 0 <= r < y.ends.len() implies #[trigger] y.slice_ok(r) by {
        lemma_rows_encoded(x, r + 1, h, bits, recon, fdct, idct);
        lemma_row_written(x, r, bits, recon, fdct, idct);
        let (_, b, f) = rows_of(x, r, bits, recon, fdct, idct);
        lemma_loosened(added(begin(x, r, b, f).blocks.bits, y.ends[r]), 0, 13, 0, 15);
    }
}

/// A P-picture that was written is decoded to the frame that its encoder
/// reconstructed, provided that its macroblocks are predicted and transformed as
/// frames, and that a decoder can number its rows and its macroblocks. So are its bytes
/// from the first slice start code on. `before` is what was written before the picture,
/// and `picture` the bytes of the picture.
#[verifier::rlimit(40)]
pub proof fn law_predicted_picture_round_trip<
    D: Fn([[i16; 8]; 8]) -> [[i32; 8]; 8],
    F: Fn([[i32; 8]; 8]) -> [[i16; 8]; 8],
>(
    before: Seq<bool>,
    current: FrameContents,
    reference: FrameContents,
    params: IntraPictureParams,
    temporal_reference: u16,
    scale_code: u8,
    f_code: u8,
    pp: PicturePredictionParams,
    picture: Seq<u8>,
    fdct: D,
    idct: F,
)
    requires
        1 <= params.width,
        params.height <= 2800,
        macroblock_rows(params.height as int, params.progressive_sequence) <= 175,
        macroblock_rows(params.height as int, params.progressive_sequence) * blocks_of_16(
            params.width as int,
        ) - 1 <= MAX_ADDRESS,
        before.len() % 8 == 0,
        pp.geometry == params,
        params.frame_pred_frame_dct,
        pp.picture_coding_type == PictureCodingType::Predictive,
        pp.f_code_fwd_horiz == f_code,
        pp.f_code_fwd_vert == f_code,
        !pp.concealment_motion_vectors,
        ({
            let (res, bits) = picture_encoded(
                before,
                current,
                reference,
                params,
                temporal_reference,
                scale_code,
                f_code,
                fdct,
                idct,
            );
            &&& res is Ok
            &&& bits_of(picture) == bits.subrange(before.len() as int, bits.len() as int)
        }),
    ensures
        decoded_slices(
            picture,
            0,
            params.height as u32,
            4,
            zero_frame(params.width as int, params.height as int, params.chroma_format),
            0,
            predicted_slice(pp, forward_only(reference), idct),
        ) == Ok::<(FrameContents, int), Error>(
            (
                picture_encoded(
                    before,
                    current,
                    reference,
                    params,
                    temporal_reference,
                    scale_code,
                    f_code,
                    fdct,
                    idct,
                ).0->Ok_0,
                macroblock_rows(params.height as int, params.progressive_sequence) * blocks_of_16(
                    params.width as int,
                ),
            ),
        ),
        decoded_slices(
            from_first_slice(picture),
            0,
            params.height as u32,
            4,
            zero_frame(params.width as int, params.height as int, params.chroma_format),
            0,
            predicted_slice(pp, forward_only(reference), idct),
        ) == Ok::<(FrameContents, int), Error>(
            (
                picture_encoded(
                    before,
                    current,
                    reference,
                    params,
                    temporal_reference,
                    scale_code,
                    f_code,
                    fdct,
                    idct,
                ).0->Ok_0,
                macroblock_rows(params.height as int, params.progressive_sequence) * blocks_of_16(
                    params.width as int,
                ),
            ),
        ),
{
    let h = macroblock_rows(params.height as int, params.progressive_sequence);
    let w = blocks_of_16(params.width as int);
    let x = PredictedSource {
        current,
        reference,
        params,
        scale_code,
        qscale: scale_of(scale_code, params.q_scale_type)->Ok_0,
        f_code,
    };
    let bits = headed(before, params, temporal_reference, f_code);
    let recon = zero_frame(params.width as int, params.height as int, params.chroma_format);
    lemma_zero_frame_wf(params.width as int, params.height as int, params.chroma_format);
    lemma_slices_ok(x, h, bits, recon, fdct, idct);
    let y = slices_of(x, h, bits, recon, fdct, idct);
    let frames = Seq::new((h + 1) as nat, |r: int| rows_of(x, r, bits, recon, fdct, idct).2);
    let vertical = params.height as u32;
    let slice = predicted_slice(pp, forward_only(reference), idct);
    assert forall|r: int, buf: Seq<u8>| 0 <= r < y.ends.len() implies #[trigger] slice_reads(
        y,
        r,
        buf,
        vertical,
        frames[r],
        frames[r + 1],
        w,
        slice,
    ) by {
        lemma_rows_encoded(x, r + 1, h, bits, recon, fdct, idct);
        lemma_row_written(x, r, bits, recon, fdct, idct);
        assert((r + 1) * w <= h * w) by (nonlinear_arith)
            requires
                0 <= r < h,
                0 <= w,
        ;
        let s = bits_of(buf);
        let a = y.starts[r].len() as int;
        if stands(s, a, y.ends[r]) && slice_ends(s, y.ends[r].len() - a) {
            law_predicted_slice_round_trip(x, r, y.starts[r], frames[r], pp, buf, fdct, idct);
        }
    }
    lemma_extended_slice_found(
        y,
        picture,
        before,
        temporal_reference,
        PictureCodingType::Predictive,
        7,
        7,
        extension_of(params, f_code),
    );
    lemma_picture_read(y, picture, before.len() as int, frames, vertical, 4, w, slice);
    law_decoding_starts_at_the_first_slice(picture, vertical, 4, recon, slice);
}

/// The headers of an MPEG-2 P-picture say what it takes to decode it: that it is a
/// P-picture and a frame, which frame it shows, the `f_code` of its vectors, and how its
/// blocks are scaled, scanned and coded.
pub proof fn law_headers_describe_picture(
    before: Seq<bool>,
    params: IntraPictureParams,
    temporal_reference: u16,
    f_code: u8,
)
    requires
        before.len() % 8 == 0,
        temporal_reference < 1024,
        1 <= f_code < 16,
        params.intra_dc_precision < 4,
    ensures
        ({
            let t = headed(before, params, temporal_reference, f_code);
            let (h, end) = picture_header_at(t, before.len() as int);
            let from = 8 * ((end + 7) / 8);
            let x = coding_extension(t.subrange(from, t.len() as int));
            &&& before.len() < from < t.len()
            &&& t.len() % 8 == 0
            &&& h is Ok
            &&& h->Ok_0.temporal_reference == temporal_reference
            &&& h->Ok_0.picture_coding_type == PictureCodingType::Predictive
            &&& x is Ok
            &&& x->Ok_0.f_code_fwd_horiz == f_code
            &&& x->Ok_0.f_code_fwd_vert == f_code
            &&& x->Ok_0.picture_structure == PictureStructure::Frame
            &&& x->Ok_0.intra_dc_precision == params.intra_dc_precision
            &&& x->Ok_0.frame_pred_frame_dct == params.frame_pred_frame_dct
            &&& x->Ok_0.q_scale_type == params.q_scale_type
            &&& x->Ok_0.intra_vlc_format == params.intra_vlc_format
            &&& x->Ok_0.alternate_scan == params.alternate_scan
            &&& x->Ok_0.progressive_frame == params.progressive_sequence
            &&& !x->Ok_0.concealment_motion_vectors
            &&& !x->Ok_0.repeat_first_field
        }),
{
    let head = picture_header_bits(temporal_reference, PictureCodingType::Predictive, 7, 7);
    let ext = extension_bits(extension_of(params, f_code));
    let t = headed(before, params, temporal_reference, f_code);
    let at = before.len() as int;
    lemma_two_headers(before, head, ext);
    law_picture_header_round_trip(
        t,
        at,
        temporal_reference,
        PictureCodingType::Predictive,
        7,
        7,
    );
    let from = zero_padded(before + head).len() as int;
    law_coding_extension_round_trip(
        t.subrange(from, t.len() as int),
        extension_of(params, f_code),
    );
    lemma_value_bits_len(PICTURE_START_CODE as int, 32);
    lemma_value_bits_len(EXTENSION_START_CODE as int, 32);
}

/// Headers one after another, each from a byte boundary on.
proof fn lemma_two_headers(before: Seq<bool>, head: Seq<bool>, ext: Seq<bool>)
    requires
        before.len() % 8 == 0,
    ensures
        ({
            let a = zero_padded(before + head);
            let t = zero_padded(a + ext);
            &&& holds_at(t, before.len() as int, head)
            &&& a.len() == 8 * ((before.len() + head.len() + 7) / 8)
            &&& a.len() + ext.len() <= t.len()
            &&& t.len() % 8 == 0
            &&& holds_at(t.subrange(a.len() as int, t.len() as int), 0, ext)
        }),
{
    let a = zero_padded(before + head);
    let t = zero_padded(a + ext);
    let at = before.len() as int;
    assert(t.subrange(at, at + head.len()) =~= head);
    let s = t.subrange(a.len() as int, t.len() as int);
    assert(s.subrange(0, ext.len() as int) =~= ext);
}

} // verus!
