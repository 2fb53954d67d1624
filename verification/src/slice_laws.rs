//! What holds from one macroblock of a slice to the next, and where macroblocks go.

use crate::bits::{holds_at, lemma_holds_field, value_bits};
use crate::frame_assembly::{macroblock_addressable, FrameContents};
use crate::inter_reconstruction::{predicted, ReferenceContents, ResidualBlock};
use crate::mpeg1_picture::{coded_macroblock, coded_motion, residuals_of, InterState, VectorContexts};
use crate::mpeg2_block_dc::{ColourComponent, DcPredictors};
use crate::mpeg2_block_decoder::{block_at, coding_of, law_decoded_block};
use crate::mpeg2_macroblock_blocks::{
    blocks_from, component_of, dequant_component, DecodedBlock, MacroblockBlockContext,
};
use crate::coded_block_pattern::CodedBlockPattern;
use crate::dequantize::IntraDcPredictors;
use crate::macroblock_type::MacroblockType;
use crate::mpeg2_dequantize::{scale_of, weight_index};
use crate::picture_reconstruction::{motion_of, one_macroblock, InterDirection};
use crate::predicted_samples::{law_intra_luminance_is_placed, law_luminance_residual_is_added};
use crate::slice_macroblock_walk::{
    block_context, blocks_of, macroblock_at, modes_at, prediction_at, scale_code_at, MacroblockFields,
    SliceWalkContext, WalkState,
};
use crate::mb_address_increment::{increment_at, lemma_increment_advances};
use crate::slice_motion::ReconstructedFields;
use vstd::prelude::*;

verus! {

// ---------------------------------------------------------------------------
// From one macroblock to the next
// ---------------------------------------------------------------------------

/// The macroblocks of a slice follow each other: between two that are coded lie those
/// that are skipped, and no others; none is skipped before the first. The quantiser
/// scale stays as it was unless the macroblock brings its own, and its blocks are read
/// with the scale that is then in force, and with the DC predictions that the macroblock
/// before left.
pub proof fn law_macroblocks_follow_each_other<F: Fn([[i32; 8]; 8]) -> [[i16; 8]; 8]>(
    s: Seq<bool>,
    at: int,
    ctx: SliceWalkContext,
    st: WalkState,
    idct: F,
)
    requires
        macroblock_at(s, at, ctx, st, idct).0 is Ok,
    ensures
        ({
            let (m, after) = macroblock_at(s, at, ctx, st, idct).0->Ok_0;
            &&& m.address > st.address
            &&& after.address == m.address
            &&& !after.first
            &&& st.first ==> m.skipped == 0
            &&& !st.first ==> m.address == st.address + 1 + m.skipped
            &&& !m.macroblock_type.macroblock_quant ==> after.scale == st.scale
            &&& exists|p: int, pattern: CodedBlockPattern|
                read_as(s, p, ctx, after.scale, m, pattern, st, after, idct)
        }),
{
    reveal(macroblock_at);
    lemma_increment_advances(s, at, ctx.mpeg1, 0);
    let (m, after) = macroblock_at(s, at, ctx, st, idct).0->Ok_0;
    let p1 = increment_at(s, at, ctx.mpeg1).1;
    let (modes, p2) = modes_at(s, p1, ctx, st.scale);
    let (prediction, p3) = prediction_at(s, p2, ctx, modes->Ok_0);
    assert(read_as(s, p3, ctx, after.scale, m, prediction->Ok_0.pattern, st, after, idct));
}

/// Whether the blocks of a macroblock are those at a place, read with a scale.
pub open spec fn read_as<F: Fn([[i32; 8]; 8]) -> [[i16; 8]; 8]>(
    s: Seq<bool>,
    p: int,
    ctx: SliceWalkContext,
    scale: u8,
    m: MacroblockFields,
    pattern: CodedBlockPattern,
    st: WalkState,
    after: WalkState,
    idct: F,
) -> bool {
    let (blocks, _, dc1, dc2) = blocks_of(
        s,
        p,
        ctx,
        scale,
        m.address as i32,
        m.skipped,
        m.macroblock_type,
        pattern,
        st.dc1,
        st.dc2,
        idct,
    );
    &&& blocks == Ok::<Seq<DecodedBlock>, crate::error::Error>(m.blocks)
    &&& dc1 == after.dc1
    &&& dc2 == after.dc2
}

/// In MPEG-2 a skipped macroblock resets the DC predictions: the blocks after it are
/// read alike whatever they were.
pub proof fn law_skipping_resets_dc<F: Fn([[i32; 8]; 8]) -> [[i16; 8]; 8]>(
    s: Seq<bool>,
    at: int,
    ctx: SliceWalkContext,
    scale: u8,
    address: i32,
    skipped: int,
    mt: MacroblockType,
    pattern: CodedBlockPattern,
    dc1: IntraDcPredictors,
    a: DcPredictors,
    b: DcPredictors,
    idct: F,
)
    requires
        !ctx.mpeg1,
        skipped > 0,
        a.intra_dc_precision == b.intra_dc_precision,
        scale_of(scale, ctx.q_scale_type) is Ok,
    ensures
        blocks_of(s, at, ctx, scale, address, skipped, mt, pattern, dc1, a, idct) == blocks_of(
            s,
            at,
            ctx,
            scale,
            address,
            skipped,
            mt,
            pattern,
            dc1,
            b,
            idct,
        ),
{
    reveal(blocks_of);
}

/// Blocks that are not intra leave the DC predictions as they were.
proof fn lemma_non_intra_keeps_dc<F: Fn([[i32; 8]; 8]) -> [[i16; 8]; 8]>(
    s: Seq<bool>,
    at: int,
    i: int,
    ctx: MacroblockBlockContext<'_>,
    predictors: DcPredictors,
    mt: MacroblockType,
    cbp: CodedBlockPattern,
    idct: F,
)
    requires
        !mt.macroblock_intra,
        blocks_from(s, at, i, ctx, predictors, mt, cbp, idct).0 is Ok,
    ensures
        blocks_from(s, at, i, ctx, predictors, mt, cbp, idct).2 == predictors,
    decreases ctx.chroma_format.spec_blocks_per_mb() - i,
{
    if i < ctx.chroma_format.spec_blocks_per_mb() {
        if !cbp.codes_block(mt.macroblock_intra, mt.macroblock_pattern, i) {
            lemma_non_intra_keeps_dc(s, at, i + 1, ctx, predictors, mt, cbp, idct);
        } else {
            let component = component_of(i, ctx.chroma_format)->0;
            let w = weight_index(
                coding_of(mt.macroblock_intra),
                dequant_component(component),
                ctx.chroma_format,
            );
            law_decoded_block(
                s,
                at,
                ctx.inner(),
                predictors,
                component,
                false,
                ctx.weight_matrices[w],
                idct,
            );
            let (_, p1, after) = block_at(
                s,
                at,
                ctx.inner(),
                predictors,
                component,
                mt.macroblock_intra,
                ctx.weight_matrices[w],
                idct,
            );
            lemma_non_intra_keeps_dc(s, p1, i + 1, ctx, after, mt, cbp, idct);
        }
    }
}

/// In MPEG-2 a macroblock that is not intra resets the DC predictions to the middle of
/// their range.
pub proof fn law_non_intra_resets_dc<F: Fn([[i32; 8]; 8]) -> [[i16; 8]; 8]>(
    s: Seq<bool>,
    at: int,
    ctx: SliceWalkContext,
    scale: u8,
    address: i32,
    skipped: int,
    mt: MacroblockType,
    pattern: CodedBlockPattern,
    dc1: IntraDcPredictors,
    dc2: DcPredictors,
    idct: F,
)
    requires
        !ctx.mpeg1,
        !mt.macroblock_intra,
        dc2.intra_dc_precision == 0,
        blocks_of(s, at, ctx, scale, address, skipped, mt, pattern, dc1, dc2, idct).0 is Ok,
    ensures
        ({
            let after = blocks_of(
                s,
                at,
                ctx,
                scale,
                address,
                skipped,
                mt,
                pattern,
                dc1,
                dc2,
                idct,
            ).3;
            after.luma == 128 && after.cb == 128 && after.cr == 128
        }),
{
    reveal(blocks_of);
    vstd::arithmetic::power2::lemma2_to64();
    let value = scale_of(scale, ctx.q_scale_type)->Ok_0;
    let reset = DcPredictors::at_reset(0);
    lemma_non_intra_keeps_dc(
        s,
        at,
        0,
        block_context(ctx, value),
        reset,
        mt,
        pattern,
        idct,
    );
}

// ---------------------------------------------------------------------------
// Where macroblocks go
// ---------------------------------------------------------------------------

/// A predicted macroblock of an MPEG-2 picture goes to the place that its address
/// stands for, counted in rows from the upper left: prediction plus residual of a
/// luminance block, by fields where the macroblock says so.
pub proof fn law_macroblock_goes_to_its_address(
    frame: FrameContents,
    refs: ReferenceContents,
    m: MacroblockFields,
    v: ReconstructedFields,
    mb_width: int,
    mb_col: int,
    mb_row: int,
    previous: Option<InterDirection>,
    lx: int,
    ly: int,
)
    requires
        frame.wf(),
        0 <= mb_col < mb_width,
        macroblock_addressable(mb_col, mb_row),
        m.address == mb_row * mb_width + mb_col,
        !m.macroblock_type.macroblock_intra,
        m.blocks.len() == 1,
        m.blocks[0].block_index < 4,
        one_macroblock(frame, refs, m, v, mb_width, frame.chroma_format, previous).0 is Ok,
        0 <= lx < 16,
        0 <= ly < 16,
        frame.y.has(16 * mb_col + lx, 16 * mb_row + ly),
    ensures
        ({
            let after = one_macroblock(
                frame,
                refs,
                m,
                v,
                mb_width,
                frame.chroma_format,
                previous,
            ).1;
            let field = m.dct_type == Some(true);
            let sample = after.y.at(16 * mb_col + lx, 16 * mb_row + ly) as int;
            let prediction = predicted(
                refs,
                motion_of(v),
                ColourComponent::Y,
                frame.chroma_format,
                16 * mb_col + lx,
                16 * mb_row + ly,
            );
            let (half, row) = if field {
                (ly % 2, ly / 2)
            } else {
                (ly / 8, ly % 8)
            };
            if m.blocks[0].block_index == 2 * half + lx / 8 {
                let sum = prediction + m.blocks[0].decoded.f_pel[row][lx % 8];
                &&& 0 <= sum <= 255 ==> sample == sum
                &&& sum < 0 ==> sample == 0
                &&& sum > 255 ==> sample == 255
            } else {
                sample == prediction
            }
        }),
{
    vstd::arithmetic::div_mod::lemma_fundamental_div_mod_converse(
        m.address,
        mb_width,
        mb_row,
        mb_col,
    );
    let b = m.blocks[0];
    assert(residuals_of(m.blocks) =~= seq![
        ResidualBlock { block_index: b.block_index, f_pel: b.decoded.f_pel },
    ]);
    law_luminance_residual_is_added(
        frame,
        refs,
        motion_of(v),
        mb_col,
        mb_row,
        m.dct_type == Some(true),
        b.block_index as int,
        b.decoded.f_pel,
        lx,
        ly,
    );
}

/// The same of a predicted macroblock of an MPEG-1 picture.
pub proof fn law_mpeg1_macroblock_goes_to_its_address(
    frame: FrameContents,
    refs: ReferenceContents,
    m: MacroblockFields,
    mb_width: int,
    mb_col: int,
    mb_row: int,
    vc: VectorContexts,
    st: InterState,
    lx: int,
    ly: int,
)
    requires
        frame.wf(),
        0 <= mb_col < mb_width,
        macroblock_addressable(mb_col, mb_row),
        m.address == mb_row * mb_width + mb_col,
        !m.macroblock_type.macroblock_intra,
        m.blocks.len() == 1,
        m.blocks[0].block_index < 4,
        coded_macroblock(frame, refs, m, mb_width, vc, st).0 is Ok,
        0 <= lx < 16,
        0 <= ly < 16,
        frame.y.has(16 * mb_col + lx, 16 * mb_row + ly),
    ensures
        ({
            let after = coded_macroblock(frame, refs, m, mb_width, vc, st).1;
            let sample = after.y.at(16 * mb_col + lx, 16 * mb_row + ly) as int;
            let prediction = predicted(
                refs,
                coded_motion(m, vc, st).0->Ok_0,
                ColourComponent::Y,
                frame.chroma_format,
                16 * mb_col + lx,
                16 * mb_row + ly,
            );
            if m.blocks[0].block_index == 2 * (ly / 8) + lx / 8 {
                let sum = prediction + m.blocks[0].decoded.f_pel[ly % 8][lx % 8];
                &&& 0 <= sum <= 255 ==> sample == sum
                &&& sum < 0 ==> sample == 0
                &&& sum > 255 ==> sample == 255
            } else {
                sample == prediction
            }
        }),
{
    vstd::arithmetic::div_mod::lemma_fundamental_div_mod_converse(
        m.address,
        mb_width,
        mb_row,
        mb_col,
    );
    let b = m.blocks[0];
    assert(residuals_of(m.blocks) =~= seq![
        ResidualBlock { block_index: b.block_index, f_pel: b.decoded.f_pel },
    ]);
    law_luminance_residual_is_added(
        frame,
        refs,
        coded_motion(m, vc, st).0->Ok_0,
        mb_col,
        mb_row,
        false,
        b.block_index as int,
        b.decoded.f_pel,
        lx,
        ly,
    );
}

/// An intra macroblock goes to the place that its address stands for too.
pub proof fn law_intra_macroblock_goes_to_its_address(
    frame: FrameContents,
    refs: ReferenceContents,
    m: MacroblockFields,
    v: ReconstructedFields,
    mb_width: int,
    mb_col: int,
    mb_row: int,
    previous: Option<InterDirection>,
    lx: int,
    ly: int,
)
    requires
        frame.wf(),
        0 <= mb_col < mb_width,
        macroblock_addressable(mb_col, mb_row),
        m.address == mb_row * mb_width + mb_col,
        m.macroblock_type.macroblock_intra,
        m.blocks.len() == 1,
        m.blocks[0].block_index < 4,
        0 <= lx < 16,
        0 <= ly < 16,
        frame.y.has(16 * mb_col + lx, 16 * mb_row + ly),
    ensures
        ({
            let after = one_macroblock(
                frame,
                refs,
                m,
                v,
                mb_width,
                frame.chroma_format,
                previous,
            ).1;
            let field = m.dct_type == Some(true);
            let sample = after.y.at(16 * mb_col + lx, 16 * mb_row + ly) as int;
            let (half, row) = if field {
                (ly % 2, ly / 2)
            } else {
                (ly / 8, ly % 8)
            };
            if m.blocks[0].block_index == 2 * half + lx / 8 {
                let value = m.blocks[0].decoded.f_pel[row][lx % 8];
                &&& 0 <= value <= 255 ==> sample == value
                &&& value < 0 ==> sample == 0
                &&& value > 255 ==> sample == 255
            } else {
                sample == frame.y.at(16 * mb_col + lx, 16 * mb_row + ly)
            }
        }),
{
    vstd::arithmetic::div_mod::lemma_fundamental_div_mod_converse(
        m.address,
        mb_width,
        mb_row,
        mb_col,
    );
    law_intra_luminance_is_placed(
        frame,
        m.blocks,
        mb_col,
        mb_row,
        m.dct_type == Some(true),
        0,
        lx,
        ly,
    );
}

/// A quantiser scale that a macroblock brings is read as it was written.
pub proof fn law_macroblock_scale_round_trip(s: Seq<bool>, at: int, code: u8, now: u8)
    requires
        1 <= code <= 31,
        holds_at(s, at, value_bits(code as int, 5)),
    ensures
        scale_code_at(s, at, true, now) == (Ok::<u8, crate::error::Error>(code), at + 5),
        scale_code_at(s, at, false, now) == (Ok::<u8, crate::error::Error>(now), at),
{
    vstd::arithmetic::power2::lemma2_to64();
    assert(value_bits(code as int, 5) + Seq::empty() =~= value_bits(code as int, 5));
    lemma_holds_field(s, at, code as int, 5, Seq::empty());
}

} // verus!
