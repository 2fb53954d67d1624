//! How far the frames that the MPEG-2 encoder reconstructs, and a decoder shows, are
//! from the frames that it was given.

use crate::arith::blocks_of_16;
use crate::block::{lemma_block_entries, value_of};
use crate::frame_assembly::{
    component_extent, in_block, lemma_zero_frame_wf, macroblock_addressable, macroblock_rows,
    placement_of, saturated_samples, zero_frame, FrameContents, IntraPictureParams,
};
use crate::inter_reconstruction::{
    frame_with_blocks, predicted_planes, sum_samples, zero_residual, MacroblockPlanes,
};
use crate::macroblock_source::{raw_block, raw_samples};
use crate::motion_estimation::{best_vector, forward_motion, forward_only};
use crate::mpeg2_block_dc::ColourComponent;
use crate::mpeg2_dequantize::{
    dc_mult_of, reconstructed_block, scale_of, BlockCoding, DEFAULT_INTRA_WEIGHT,
    DEFAULT_NON_INTRA_WEIGHT,
};
use crate::p_picture_encoder::{
    any_level, encodable, f_pels_of, headed, inter_block_of, inter_levels, intra_block_encoded,
    intra_blocks_encoded, intra_encoded, intra_levels, macroblock_blocks, macroblock_encoded,
    picture_encoded, prefers_intra, row_encoded, row_start, rows_encoded, search_distance,
    source_of, source_residual, BlockEncoding, IntraDcPred, PEncoding, PSource,
};
use crate::predicted_samples::{block_holds, lemma_placed};
use crate::quantisation_error::{
    law_mpeg2_coefficient_comes_back, law_mpeg2_zero_level_was_small, within,
};
use crate::source_blocks::{
    coefficients_near, differences_in_range, keeps_zero, lemma_block_step, lemma_blocks_near,
    lemma_covered, lemma_held, lemma_macroblock_of, lemma_raw_in_range, lemma_residual_in_range,
    lemma_residual_near, samples_near, samples_only, sized, undoes,
};
use vstd::prelude::*;

verus! {

// ---------------------------------------------------------------------------
// What is asked of the transforms
// ---------------------------------------------------------------------------

/// How far a coefficient may come back from where it was, in thirty-seconds: half a
/// step of a sixteenth of scale times weight for an intra block, a whole one for a
/// non-intra block, and one for rounding; one more at the last place; the DC coefficient
/// of an intra block half its factor.
pub open spec fn block_bound(coding: BlockCoding, scale: u8, dc_mult: int) -> spec_fn(
    int,
    int,
) -> int {
    |v: int, u: int|
        if coding == BlockCoding::Intra {
            if v == 0 && u == 0 {
                16 * dc_mult
            } else {
                scale * DEFAULT_INTRA_WEIGHT[v][u] + 64
            }
        } else {
            2 * (scale * DEFAULT_NON_INTRA_WEIGHT[v][u]) + 64
        }
}

/// Whether the coefficients of every block of samples can be coded without being cut
/// off.
pub open spec fn samples_codable<D: Fn([[i16; 8]; 8]) -> [[i32; 8]; 8]>(
    fdct: D,
    scale: u8,
    dc_mult: int,
) -> bool {
    forall|f: [[i16; 8]; 8], v: int, u: int|
        #![trigger value_of(fdct, f)[v][u]]
        samples_only(f) && 0 <= v < 8 && 0 <= u < 8 ==> {
            let x = value_of(fdct, f)[v][u];
            let step = scale * DEFAULT_INTRA_WEIGHT[v][u];
            if v == 0 && u == 0 {
                0 <= x <= dc_mult * (2048int / dc_mult - 1)
            } else {
                -2048 <= x <= 2047 && -(2047 * step) <= 16 * x <= 2047 * step
            }
        }
}

/// Whether the coefficients of every block of differences can be coded without being
/// cut off.
pub open spec fn differences_codable<D: Fn([[i16; 8]; 8]) -> [[i32; 8]; 8]>(
    fdct: D,
    scale: u8,
) -> bool {
    forall|f: [[i16; 8]; 8], v: int, u: int|
        #![trigger value_of(fdct, f)[v][u]]
        differences_in_range(f) && 0 <= v < 8 && 0 <= u < 8 ==> {
            let x = value_of(fdct, f)[v][u];
            let step = scale * DEFAULT_NON_INTRA_WEIGHT[v][u];
            -2048 <= x <= 2047 && -(2047 * step) <= 16 * x <= 2047 * step
        }
}

/// Whether blocks come back no further than `d` from what they were.
pub open spec fn blocks_come_back<
    D: Fn([[i16; 8]; 8]) -> [[i32; 8]; 8],
    F: Fn([[i32; 8]; 8]) -> [[i16; 8]; 8],
>(fdct: D, idct: F, scale: u8, dc_mult: int, d: int) -> bool {
    &&& 0 <= d
    &&& 1 <= scale
    &&& 1 <= dc_mult <= 8
    &&& samples_codable(fdct, scale, dc_mult)
    &&& differences_codable(fdct, scale)
    &&& undoes(idct, fdct, block_bound(BlockCoding::Intra, scale, dc_mult), d)
    &&& undoes(idct, fdct, block_bound(BlockCoding::NonIntra, scale, dc_mult), d)
    &&& keeps_zero(idct)
}

/// No weight is zero.
proof fn lemma_weights(v: int, u: int)
    requires
        0 <= v < 8,
        0 <= u < 8,
    ensures
        1 <= DEFAULT_INTRA_WEIGHT[v][u],
        DEFAULT_NON_INTRA_WEIGHT[v][u] == 16,
{
    let a = DEFAULT_INTRA_WEIGHT[v];
    let b = DEFAULT_NON_INTRA_WEIGHT[v];
    assert(1 <= a[u]);
    assert(b[u] == 16);
}

// ---------------------------------------------------------------------------
// Intra macroblocks
// ---------------------------------------------------------------------------

/// A sample of a frame after one block of an intra macroblock.
proof fn lemma_intra_block_near<
    D: Fn([[i16; 8]; 8]) -> [[i32; 8]; 8],
    F: Fn([[i32; 8]; 8]) -> [[i16; 8]; 8],
>(
    src: PSource,
    i: int,
    st: BlockEncoding,
    d: int,
    fdct: D,
    idct: F,
    k: ColourComponent,
    x: int,
    y: int,
)
    requires
        blocks_come_back(fdct, idct, src.qscale, src.dc_mult as int, d),
        macroblock_addressable(src.mb_col, src.mb_row),
        0 <= i < src.params.chroma_format.spec_blocks_per_mb(),
        sized(
            st.recon,
            src.params.width as int,
            src.params.height as int,
            src.params.chroma_format,
        ),
        st.recon.plane(k).has(x, y),
        src.current.plane(k).has(x, y),
    ensures
        ({
            let chroma = src.params.chroma_format;
            let after = intra_block_encoded(src, i, st, fdct, idct).recon;
            &&& sized(after, src.params.width as int, src.params.height as int, chroma)
            &&& if block_holds(i, k, chroma, src.mb_col, src.mb_row, x, y) {
                within(after.plane(k).at(x, y) as int, src.current.plane(k).at(x, y) as int, d)
            } else {
                after.plane(k).at(x, y) == st.recon.plane(k).at(x, y)
            }
        }),
{
    reveal(intra_block_encoded);
    let p = src.placement(i);
    let plane = src.current.plane(p.component);
    let raw = raw_block(plane, p.base_x as int, p.base_y as int);
    let f = value_of(fdct, raw);
    let g = reconstructed_block(
        intra_levels(src, i, fdct),
        BlockCoding::Intra,
        DEFAULT_INTRA_WEIGHT,
        src.qscale,
        src.dc_mult,
    );
    let bound = block_bound(BlockCoding::Intra, src.qscale, src.dc_mult as int);
    let back = value_of(idct, g);
    lemma_placed(i, src.params.chroma_format, src.mb_col, src.mb_row);
    lemma_raw_in_range(plane, p.base_x as int, p.base_y as int);
    assert forall|v: int, u: int| 0 <= v < 8 && 0 <= u < 8 implies within(
        32 * #[trigger] g[v][u],
        32 * f[v][u],
        bound(v, u),
    ) by {
        lemma_weights(v, u);
        let z = value_of(fdct, raw)[v][u];
        assert(-2048 <= z <= 2047) by {
            if v == 0 && u == 0 {
                let m = src.dc_mult as int;
                assert(m * (2048int / m - 1) <= 2047) by (nonlinear_arith)
                    requires
                        1 <= m <= 8,
                ;
            }
        }
        law_mpeg2_coefficient_comes_back(
            f,
            BlockCoding::Intra,
            DEFAULT_INTRA_WEIGHT,
            src.qscale,
            src.dc_mult,
            v,
            u,
        );
    }
    assert(coefficients_near(g, value_of(fdct, raw), bound));
    assert(differences_in_range(raw));
    assert(samples_near(back, raw, d));
    lemma_block_step(
        st.recon,
        src.params.width as int,
        src.params.height as int,
        p,
        saturated_samples(back),
        k,
        x,
        y,
    );
    if p.component == k && in_block(p, x, y) {
        let r = y - p.base_y;
        let c = x - p.base_x;
        lemma_block_entries(raw_samples(plane, p.base_x as int, p.base_y as int));
        assert(raw[r][c] == plane.at(x, y));
        assert(within(back[r][c] as int, raw[r][c] as int, d));
    }
}

/// A sample of a frame after the first `n` blocks of an intra macroblock.
proof fn lemma_intra_blocks_near<
    D: Fn([[i16; 8]; 8]) -> [[i32; 8]; 8],
    F: Fn([[i32; 8]; 8]) -> [[i16; 8]; 8],
>(
    src: PSource,
    n: int,
    st: BlockEncoding,
    d: int,
    fdct: D,
    idct: F,
    k: ColourComponent,
    x: int,
    y: int,
)
    requires
        blocks_come_back(fdct, idct, src.qscale, src.dc_mult as int, d),
        macroblock_addressable(src.mb_col, src.mb_row),
        0 <= n <= src.params.chroma_format.spec_blocks_per_mb(),
        sized(
            st.recon,
            src.params.width as int,
            src.params.height as int,
            src.params.chroma_format,
        ),
        st.recon.plane(k).has(x, y),
        src.current.plane(k).has(x, y),
    ensures
        ({
            let chroma = src.params.chroma_format;
            let after = intra_blocks_encoded(src, n, st, fdct, idct).recon;
            &&& sized(after, src.params.width as int, src.params.height as int, chroma)
            &&& if exists|i: int|
                0 <= i < n && #[trigger] block_holds(i, k, chroma, src.mb_col, src.mb_row, x, y) {
                within(after.plane(k).at(x, y) as int, src.current.plane(k).at(x, y) as int, d)
            } else {
                after.plane(k).at(x, y) == st.recon.plane(k).at(x, y)
            }
        }),
    decreases n,
{
    if n > 0 {
        lemma_intra_blocks_near(src, n - 1, st, d, fdct, idct, k, x, y);
        let before = intra_blocks_encoded(src, n - 1, st, fdct, idct);
        lemma_intra_block_near(src, n - 1, before, d, fdct, idct, k, x, y);
        if block_holds(n - 1, k, src.params.chroma_format, src.mb_col, src.mb_row, x, y) {
        }
    }
}

// ---------------------------------------------------------------------------
// Predicted macroblocks
// ---------------------------------------------------------------------------

/// What a decoder makes of the levels of a residual is near that residual.
proof fn lemma_inter_block_near<
    D: Fn([[i16; 8]; 8]) -> [[i32; 8]; 8],
    F: Fn([[i32; 8]; 8]) -> [[i16; 8]; 8],
>(residual: [[i16; 8]; 8], qscale: u8, dc_mult: int, d: int, fdct: D, idct: F)
    requires
        blocks_come_back(fdct, idct, qscale, dc_mult, d),
        differences_in_range(residual),
    ensures
        samples_near(inter_block_of(residual, qscale, fdct, idct).f_pel, residual, d),
{
    let f = value_of(fdct, residual);
    let qf = inter_levels(residual, qscale, fdct);
    let bound = block_bound(BlockCoding::NonIntra, qscale, dc_mult);
    if any_level(qf) {
        let g = reconstructed_block(
            qf,
            BlockCoding::NonIntra,
            DEFAULT_NON_INTRA_WEIGHT,
            qscale,
            1,
        );
        assert forall|v: int, u: int| 0 <= v < 8 && 0 <= u < 8 implies within(
            32 * #[trigger] g[v][u],
            32 * f[v][u],
            bound(v, u),
        ) by {
            lemma_weights(v, u);
            assert(-2048 <= value_of(fdct, residual)[v][u] <= 2047);
            law_mpeg2_coefficient_comes_back(
                f,
                BlockCoding::NonIntra,
                DEFAULT_NON_INTRA_WEIGHT,
                qscale,
                1,
                v,
                u,
            );
        }
        assert(coefficients_near(g, value_of(fdct, residual), bound));
        assert(samples_near(value_of(idct, g), residual, d));
    } else {
        let none = |v: int, u: int| 0i32;
        let g = crate::block::block_of(none);
        lemma_block_entries(none);
        assert forall|v: int, u: int| 0 <= v < 8 && 0 <= u < 8 implies within(
            32 * #[trigger] g[v][u],
            32 * f[v][u],
            bound(v, u),
        ) by {
            lemma_weights(v, u);
            assert(qf[v][u] == 0);
            law_mpeg2_zero_level_was_small(f, DEFAULT_NON_INTRA_WEIGHT, qscale, 1, v, u);
        }
        assert(coefficients_near(g, value_of(fdct, residual), bound));
        assert(samples_near(value_of(idct, g), residual, d));
        assert(value_of(idct, g) == zero_residual());
    }
}

/// A sample of a frame after a macroblock that was predicted, whatever the prediction.
proof fn lemma_predicted_macroblock_near<
    D: Fn([[i16; 8]; 8]) -> [[i32; 8]; 8],
    F: Fn([[i32; 8]; 8]) -> [[i16; 8]; 8],
>(
    src: PSource,
    preds: MacroblockPlanes,
    frame: FrameContents,
    d: int,
    fdct: D,
    idct: F,
    k: ColourComponent,
    x: int,
    y: int,
)
    requires
        blocks_come_back(fdct, idct, src.qscale, src.dc_mult as int, d),
        macroblock_addressable(src.mb_col, src.mb_row),
        sized(
            frame,
            src.params.width as int,
            src.params.height as int,
            src.params.chroma_format,
        ),
        frame.plane(k).has(x, y),
        src.current.plane(k).has(x, y),
    ensures
        ({
            let chroma = src.params.chroma_format;
            let blocks = macroblock_blocks(src, preds, fdct, idct);
            let after = frame_with_blocks(
                frame,
                preds,
                chroma,
                src.mb_col,
                src.mb_row,
                f_pels_of(blocks),
                blocks.len() as int,
            );
            let (w, h) = component_extent(k, chroma);
            &&& sized(after, src.params.width as int, src.params.height as int, chroma)
            &&& if x / w == src.mb_col && y / h == src.mb_row {
                within(after.plane(k).at(x, y) as int, src.current.plane(k).at(x, y) as int, d)
            } else {
                after.plane(k).at(x, y) == frame.plane(k).at(x, y)
            }
        }),
{
    let chroma = src.params.chroma_format;
    let blocks = macroblock_blocks(src, preds, fdct, idct);
    let f_pels = f_pels_of(blocks);
    assert forall|i: int|
        0 <= i < blocks.len() && #[trigger] block_holds(
            i,
            k,
            chroma,
            src.mb_col,
            src.mb_row,
            x,
            y,
        ) implies {
        let p = placement_of(i, chroma, src.mb_col, src.mb_row, false);
        within(
            sum_samples(preds, chroma, p, src.mb_col, src.mb_row, f_pels[i])(
                y - p.base_y,
                x - p.base_x,
            ) as int,
            src.current.plane(k).at(x, y) as int,
            d,
        )
    } by {
        let p = src.placement(i);
        let (w, h) = component_extent(p.component, chroma);
        lemma_placed(i, chroma, src.mb_col, src.mb_row);
        lemma_residual_in_range(
            src.current.plane(p.component),
            preds.plane(p.component),
            w,
            p.base_x as int,
            p.base_y as int,
            p.base_x - src.mb_col * w,
            p.base_y - src.mb_row * h,
        );
        lemma_inter_block_near(
            source_residual(src, preds, i),
            src.qscale,
            src.dc_mult as int,
            d,
            fdct,
            idct,
        );
        lemma_residual_near(
            src.current.plane(k),
            preds,
            chroma,
            p,
            src.mb_col,
            src.mb_row,
            f_pels[i],
            d,
            x,
            y,
        );
    }
    lemma_blocks_near(
        frame,
        src.current,
        src.params.width as int,
        src.params.height as int,
        preds,
        src.mb_col,
        src.mb_row,
        f_pels,
        blocks.len() as int,
        d,
        k,
        x,
        y,
    );
    lemma_held(k, chroma, src.mb_col, src.mb_row, x, y);
    lemma_macroblock_of(k, chroma, src.mb_col, src.mb_row, x, y);
}

// ---------------------------------------------------------------------------
// Pictures
// ---------------------------------------------------------------------------

/// A sample of a frame after a macroblock.
proof fn lemma_macroblock_near<
    D: Fn([[i16; 8]; 8]) -> [[i32; 8]; 8],
    F: Fn([[i32; 8]; 8]) -> [[i16; 8]; 8],
>(
    src: PSource,
    reference: FrameContents,
    f_code: u8,
    st: PEncoding,
    d: int,
    fdct: D,
    idct: F,
    k: ColourComponent,
    x: int,
    y: int,
)
    requires
        blocks_come_back(fdct, idct, src.qscale, src.dc_mult as int, d),
        1 <= f_code <= 9,
        macroblock_addressable(src.mb_col, src.mb_row),
        sized(
            st.blocks.recon,
            src.params.width as int,
            src.params.height as int,
            src.params.chroma_format,
        ),
        st.blocks.recon.plane(k).has(x, y),
        src.current.plane(k).has(x, y),
    ensures
        ({
            let (res, after) = macroblock_encoded(src, reference, f_code, st, fdct, idct);
            let (w, h) = component_extent(k, src.params.chroma_format);
            &&& res is Ok
            &&& sized(
                after.blocks.recon,
                src.params.width as int,
                src.params.height as int,
                src.params.chroma_format,
            )
            &&& if x / w == src.mb_col && y / h == src.mb_row {
                within(
                    after.blocks.recon.plane(k).at(x, y) as int,
                    src.current.plane(k).at(x, y) as int,
                    d,
                )
            } else {
                after.blocks.recon.plane(k).at(x, y) == st.blocks.recon.plane(k).at(x, y)
            }
        }),
{
    reveal(macroblock_encoded);
    let chroma = src.params.chroma_format;
    let v = best_vector(
        src.current,
        reference,
        src.mb_col,
        src.mb_row,
        search_distance(f_code),
    );
    if prefers_intra(src, reference, v) {
        let dc = if src.address() - st.past_intra_address > 1 {
            IntraDcPred::at_reset(src.params.intra_dc_precision)
        } else {
            st.blocks.dc
        };
        let start = BlockEncoding {
            bits: st.blocks.bits.push(true) + crate::bits::value_bits(0b0001_1, 5),
            recon: st.blocks.recon,
            dc,
        };
        let n = chroma.spec_blocks_per_mb();
        lemma_intra_blocks_near(src, n, start, d, fdct, idct, k, x, y);
        lemma_held(k, chroma, src.mb_col, src.mb_row, x, y);
        lemma_macroblock_of(k, chroma, src.mb_col, src.mb_row, x, y);
        assert(intra_encoded(src, st, fdct, idct).blocks == intra_blocks_encoded(
            src,
            n,
            start,
            fdct,
            idct,
        ));
    } else {
        let preds = predicted_planes(
            forward_only(reference),
            forward_motion(v),
            chroma,
            src.mb_col,
            src.mb_row,
        );
        lemma_predicted_macroblock_near(src, preds, st.blocks.recon, d, fdct, idct, k, x, y);
    }
}

/// A sample of a frame after the first `n` macroblocks of a row.
proof fn lemma_row_near<
    D: Fn([[i16; 8]; 8]) -> [[i32; 8]; 8],
    F: Fn([[i32; 8]; 8]) -> [[i16; 8]; 8],
>(
    current: FrameContents,
    reference: FrameContents,
    params: IntraPictureParams,
    qscale: u8,
    f_code: u8,
    mb_row: int,
    n: int,
    st: PEncoding,
    d: int,
    fdct: D,
    idct: F,
    k: ColourComponent,
    x: int,
    y: int,
)
    requires
        dc_mult_of(params.intra_dc_precision) is Some,
        blocks_come_back(fdct, idct, qscale, dc_mult_of(params.intra_dc_precision)->0, d),
        1 <= f_code <= 9,
        encodable(params),
        0 <= n <= blocks_of_16(params.width as int),
        0 <= mb_row < macroblock_rows(params.height as int, params.progressive_sequence),
        sized(
            st.blocks.recon,
            params.width as int,
            params.height as int,
            params.chroma_format,
        ),
        st.blocks.recon.plane(k).has(x, y),
        current.plane(k).has(x, y),
    ensures
        ({
            let (res, after) = row_encoded(
                current,
                reference,
                params,
                qscale,
                f_code,
                mb_row,
                n,
                st,
                fdct,
                idct,
            );
            let (w, h) = component_extent(k, params.chroma_format);
            &&& res is Ok
            &&& sized(
                after.blocks.recon,
                params.width as int,
                params.height as int,
                params.chroma_format,
            )
            &&& if x / w < n && y / h == mb_row {
                within(
                    after.blocks.recon.plane(k).at(x, y) as int,
                    current.plane(k).at(x, y) as int,
                    d,
                )
            } else {
                after.blocks.recon.plane(k).at(x, y) == st.blocks.recon.plane(k).at(x, y)
            }
        }),
    decreases n,
{
    lemma_covered(st.blocks.recon, params.width as int, params.height as int, k, x, y);
    if n > 0 {
        lemma_row_near(
            current,
            reference,
            params,
            qscale,
            f_code,
            mb_row,
            n - 1,
            st,
            d,
            fdct,
            idct,
            k,
            x,
            y,
        );
        let before = row_encoded(
            current,
            reference,
            params,
            qscale,
            f_code,
            mb_row,
            n - 1,
            st,
            fdct,
            idct,
        ).1;
        lemma_macroblock_near(
            source_of(current, params, qscale, n - 1, mb_row),
            reference,
            f_code,
            before,
            d,
            fdct,
            idct,
            k,
            x,
            y,
        );
    }
}

/// A sample of a frame after the first `n` rows.
proof fn lemma_rows_near<
    D: Fn([[i16; 8]; 8]) -> [[i32; 8]; 8],
    F: Fn([[i32; 8]; 8]) -> [[i16; 8]; 8],
>(
    current: FrameContents,
    reference: FrameContents,
    params: IntraPictureParams,
    scale_code: u8,
    qscale: u8,
    f_code: u8,
    n: int,
    bits: Seq<bool>,
    recon: FrameContents,
    d: int,
    fdct: D,
    idct: F,
    k: ColourComponent,
    x: int,
    y: int,
)
    requires
        dc_mult_of(params.intra_dc_precision) is Some,
        blocks_come_back(fdct, idct, qscale, dc_mult_of(params.intra_dc_precision)->0, d),
        1 <= f_code <= 9,
        encodable(params),
        0 <= n <= macroblock_rows(params.height as int, params.progressive_sequence),
        sized(recon, params.width as int, params.height as int, params.chroma_format),
        recon.plane(k).has(x, y),
        current.plane(k).has(x, y),
    ensures
        ({
            let (res, _, after) = rows_encoded(
                current,
                reference,
                params,
                scale_code,
                qscale,
                f_code,
                n,
                bits,
                recon,
                fdct,
                idct,
            );
            let (w, h) = component_extent(k, params.chroma_format);
            &&& res is Ok
            &&& sized(after, params.width as int, params.height as int, params.chroma_format)
            &&& y / h < n ==> within(
                after.plane(k).at(x, y) as int,
                current.plane(k).at(x, y) as int,
                d,
            )
        }),
    decreases n,
{
    lemma_covered(recon, params.width as int, params.height as int, k, x, y);
    if n > 0 {
        lemma_rows_near(
            current,
            reference,
            params,
            scale_code,
            qscale,
            f_code,
            n - 1,
            bits,
            recon,
            d,
            fdct,
            idct,
            k,
            x,
            y,
        );
        let (_, b, r) = rows_encoded(
            current,
            reference,
            params,
            scale_code,
            qscale,
            f_code,
            n - 1,
            bits,
            recon,
            fdct,
            idct,
        );
        lemma_row_near(
            current,
            reference,
            params,
            qscale,
            f_code,
            n - 1,
            blocks_of_16(params.width as int),
            row_start(
                params,
                n - 1,
                b + crate::stream_writer::slice_header_bits(n - 1, scale_code),
                r,
            ),
            d,
            fdct,
            idct,
            k,
            x,
            y,
        );
    }
}

/// A P-picture shows what it was made of, whatever it is predicted from: where the
/// inverse transform undoes the transform up to what quantising loses, so that blocks
/// come back no further than `d` from what they were, no sample of the frame that a
/// decoder has is further than `d` from the sample of the source at the same place.
pub proof fn law_predicted_picture_is_near_source<
    D: Fn([[i16; 8]; 8]) -> [[i32; 8]; 8],
    F: Fn([[i32; 8]; 8]) -> [[i16; 8]; 8],
>(
    bits: Seq<bool>,
    current: FrameContents,
    reference: FrameContents,
    params: IntraPictureParams,
    temporal_reference: u16,
    scale_code: u8,
    f_code: u8,
    d: int,
    fdct: D,
    idct: F,
    k: ColourComponent,
    x: int,
    y: int,
)
    requires
        encodable(params),
        1 <= f_code <= 9,
        scale_of(scale_code, params.q_scale_type) is Ok,
        dc_mult_of(params.intra_dc_precision) is Some,
        sized(current, params.width as int, params.height as int, params.chroma_format),
        blocks_come_back(
            fdct,
            idct,
            scale_of(scale_code, params.q_scale_type)->Ok_0,
            dc_mult_of(params.intra_dc_precision)->0,
            d,
        ),
        current.plane(k).has(x, y),
    ensures
        ({
            let shown = picture_encoded(
                bits,
                current,
                reference,
                params,
                temporal_reference,
                scale_code,
                f_code,
                fdct,
                idct,
            ).0;
            &&& shown is Ok
            &&& sized(
                shown->Ok_0,
                params.width as int,
                params.height as int,
                params.chroma_format,
            )
            &&& -d <= shown->Ok_0.plane(k).at(x, y) - current.plane(k).at(x, y) <= d
        }),
{
    let recon = zero_frame(params.width as int, params.height as int, params.chroma_format);
    lemma_zero_frame_wf(params.width as int, params.height as int, params.chroma_format);
    lemma_covered(recon, params.width as int, params.height as int, k, x, y);
    lemma_rows_near(
        current,
        reference,
        params,
        scale_code,
        scale_of(scale_code, params.q_scale_type)->Ok_0,
        f_code,
        macroblock_rows(params.height as int, params.progressive_sequence),
        headed(bits, params, temporal_reference, f_code),
        recon,
        d,
        fdct,
        idct,
        k,
        x,
        y,
    );
}

} // verus!
