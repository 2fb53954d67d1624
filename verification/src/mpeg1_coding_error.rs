//! How far the frames that the MPEG-1 encoders reconstruct, and a decoder shows, are
//! from the frames that they were given.

use crate::arith::blocks_of_16;
use crate::block::{lemma_block_entries, value_of};
use crate::coding_order::{order_encoded, Coded, SequenceEncoding};
use crate::dequantize::{
    dc_base_of, intra_block, intra_coefficients, non_intra_block, non_intra_coefficients,
    scale_valid, IntraDcPredictors,
};
use crate::forward_quant::{intra_ac_levels, non_intra_levels};
use crate::frame_assembly::{
    component_extent, in_block, macroblock_addressable, placement_of, saturated_samples,
    zero_frame, FrameContents,
};
use crate::inter_reconstruction::{
    predicted_planes, zero_residual, MacroblockPlanes, ReferenceContents,
};
use crate::macroblock_source::raw_block;
use crate::motion_estimation::{best_vector, forward_motion, forward_only};
use crate::bits::bits_of;
use crate::mpeg1_b_round_trip::{
    b_params, b_row, b_row_frame, b_rows_frame, law_b_picture_round_trip, BSource,
};
use crate::mpeg1_intra_round_trip::{law_intra_picture_round_trip, macroblocks_addressable};
use crate::mpeg1_p_round_trip::{law_p_picture_round_trip, p_params, PSource};
use crate::mpeg1_block_decoder::{first_level, kind_of};
use crate::mpeg1_encoder::{
    b_picture_encoded,
    decodable_vector, decoded_residual, decoded_residuals, encodable, has_level,
    intra_block_encoded, intra_blocks_encoded, intra_levels, intra_macroblock_encoded,
    intra_picture_encoded, intra_row_encoded, intra_rows_encoded, macroblock_levels,
    p_macroblock_encoded, p_picture_encoded, p_row_encoded, p_rows_encoded, prefers_intra,
    residual_levels, search_distance, source_of, source_residual, transformed, IntraEncoding,
    MacroblockSource, PredictedEncoding, SequencePlan,
};
use crate::mpeg1_picture::{
    inter_decoded, intra_decoded, Mpeg1InterParams, Mpeg1PictureParams,
};
use crate::mpeg2_block_dc::ColourComponent;
use crate::mpeg2_inverse_scan::law_scan_then_inverse;
use crate::picture::ChromaFormat;
use crate::predicted_samples::{block_holds, lemma_placed};
use crate::quantisation_error::{
    law_mpeg1_intra_coefficient_comes_back, law_mpeg1_non_intra_coefficient_comes_back, within,
};
use crate::source_blocks::{
    coefficients_near, differences_in_range, keeps_zero, lemma_block_step, lemma_blocks_near,
    lemma_covered, lemma_held, lemma_macroblock_of, lemma_raw_in_range, lemma_residual_in_range,
    lemma_residual_near, samples_near, samples_only, sized, undoes,
};
use vstd::prelude::*;

verus! {

// ---------------------------------------------------------------------------
// What is asked of the transforms
// ---------------------------------------------------------------------------

/// How far a coefficient of an intra block may come back from where it was, in
/// thirty-seconds: half a step of an eighth of scale times matrix entry, and two for
/// rounding; the DC coefficient four.
pub open spec fn intra_bound(scale: u8, quant: [[u8; 8]; 8]) -> spec_fn(int, int) -> int {
    |v: int, u: int|
        if v == 0 && u == 0 {
            128
        } else {
            2 * (scale * quant[v][u]) + 64
        }
}

/// The same of a non-intra block: a whole step.
pub open spec fn non_intra_bound(scale: u8, quant: [[u8; 8]; 8]) -> spec_fn(int, int) -> int {
    |v: int, u: int| 4 * (scale * quant[v][u]) + 64
}

/// Whether the coefficients of every block of samples can be coded without being cut
/// off.
pub open spec fn intra_codable<D: Fn([[i16; 8]; 8]) -> [[i32; 8]; 8]>(
    fdct: D,
    scale: u8,
    quant: [[u8; 8]; 8],
) -> bool {
    forall|f: [[i16; 8]; 8], v: int, u: int|
        #![trigger value_of(fdct, f)[v][u]]
        samples_only(f) && 0 <= v < 8 && 0 <= u < 8 ==> {
            let x = value_of(fdct, f)[v][u];
            if v == 0 && u == 0 {
                0 <= x <= 2040
            } else {
                &&& 1 <= quant[v][u]
                &&& -2048 <= x <= 2047
                &&& -(255 * (scale * quant[v][u])) <= 8 * x <= 255 * (scale * quant[v][u])
            }
        }
}

/// Whether the coefficients of every block of differences can be coded without being
/// cut off.
pub open spec fn non_intra_codable<D: Fn([[i16; 8]; 8]) -> [[i32; 8]; 8]>(
    fdct: D,
    scale: u8,
    quant: [[u8; 8]; 8],
) -> bool {
    forall|f: [[i16; 8]; 8], v: int, u: int|
        #![trigger value_of(fdct, f)[v][u]]
        differences_in_range(f) && 0 <= v < 8 && 0 <= u < 8 ==> {
            let x = value_of(fdct, f)[v][u];
            &&& 1 <= quant[v][u]
            &&& -2048 <= x <= 2047
            &&& -(255 * (scale * quant[v][u])) <= 8 * x <= 255 * (scale * quant[v][u])
        }
}

/// Whether intra blocks come back no further than `d` from what they were.
pub open spec fn intra_comes_back<
    D: Fn([[i16; 8]; 8]) -> [[i32; 8]; 8],
    F: Fn([[i32; 8]; 8]) -> [[i16; 8]; 8],
>(fdct: D, idct: F, scale: u8, quant: [[u8; 8]; 8], d: int) -> bool {
    &&& 0 <= d
    &&& scale_valid(scale)
    &&& intra_codable(fdct, scale, quant)
    &&& undoes(idct, fdct, intra_bound(scale, quant), d)
}

/// Whether non-intra blocks come back no further than `d` from what they were.
pub open spec fn non_intra_comes_back<
    D: Fn([[i16; 8]; 8]) -> [[i32; 8]; 8],
    F: Fn([[i32; 8]; 8]) -> [[i16; 8]; 8],
>(fdct: D, idct: F, scale: u8, quant: [[u8; 8]; 8], d: int) -> bool {
    &&& 0 <= d
    &&& scale_valid(scale)
    &&& non_intra_codable(fdct, scale, quant)
    &&& undoes(idct, fdct, non_intra_bound(scale, quant), d)
    &&& keeps_zero(idct)
}

// ---------------------------------------------------------------------------
// Intra blocks
// ---------------------------------------------------------------------------

/// Whether every DC prediction is one that a block can leave.
pub open spec fn dc_ok(dc: IntraDcPredictors) -> bool {
    &&& 0 <= dc.y_past <= 2040 && dc.y_past % 8 == 0
    &&& 0 <= dc.cb_past <= 2040 && dc.cb_past % 8 == 0
    &&& 0 <= dc.cr_past <= 2040 && dc.cr_past % 8 == 0
}

/// The reconstructed coefficients of an intra block are near those of its source.
proof fn lemma_intra_coefficients_near<
    D: Fn([[i16; 8]; 8]) -> [[i32; 8]; 8],
    F: Fn([[i32; 8]; 8]) -> [[i16; 8]; 8],
>(src: MacroblockSource, i: int, dc: IntraDcPredictors, d: int, fdct: D, idct: F)
    requires
        intra_comes_back(fdct, idct, src.scale, src.params.intra_quant, d),
        dc_ok(dc),
        0 <= i < 6,
    ensures
        ({
            let levels = intra_levels(src, i, dc, fdct);
            let base = dc_base_of(kind_of(i as u8)->Ok_0, dc, src.address() as i32);
            let now = base + 8 * levels[0];
            &&& 0 <= now <= 2040
            &&& now % 8 == 0
            &&& coefficients_near(
                intra_block(levels, src.scale, src.params.intra_quant, now as i32),
                transformed(src, i, fdct),
                intra_bound(src.scale, src.params.intra_quant),
            )
        }),
{
    let quant = src.params.intra_quant;
    let p = src.placement(i);
    let raw = raw_block(src.current.plane(p.component), p.base_x as int, p.base_y as int);
    let f = transformed(src, i, fdct);
    let levels = intra_levels(src, i, dc, fdct);
    let base = dc_base_of(kind_of(i as u8)->Ok_0, dc, src.address() as i32);
    let now = (base + 8 * levels[0]) as i32;
    lemma_raw_in_range(src.current.plane(p.component), p.base_x as int, p.base_y as int);
    assert(f == value_of(fdct, raw));
    assert(0 <= value_of(fdct, raw)[0][0] <= 2040);
    assert(0 <= base <= 2040 && base % 8 == 0);
    lemma_block_entries(intra_coefficients(levels, src.scale, quant, now));
    let g = intra_block(levels, src.scale, quant, now);
    assert forall|v: int, u: int| 0 <= v < 8 && 0 <= u < 8 implies within(
        32 * #[trigger] g[v][u],
        32 * f[v][u],
        intra_bound(src.scale, quant)(v, u),
    ) by {
        if !(v == 0 && u == 0) {
            assert(-2048 <= value_of(fdct, raw)[v][u] <= 2047);
            law_mpeg1_intra_coefficient_comes_back(
                f,
                src.scale,
                quant,
                levels[0],
                now,
                v,
                u,
            );
            assert(levels == intra_ac_levels(f, src.scale, quant).update(0, levels[0]));
        }
    }
}

/// A sample of a frame after the first `n` blocks of an intra macroblock.
#[verifier::rlimit(40)]
proof fn lemma_intra_blocks_near<
    D: Fn([[i16; 8]; 8]) -> [[i32; 8]; 8],
    F: Fn([[i32; 8]; 8]) -> [[i16; 8]; 8],
>(
    src: MacroblockSource,
    n: int,
    st: IntraEncoding,
    d: int,
    fdct: D,
    idct: F,
    k: ColourComponent,
    x: int,
    y: int,
)
    requires
        intra_comes_back(fdct, idct, src.scale, src.params.intra_quant, d),
        dc_ok(st.dc),
        macroblock_addressable(src.mb_col, src.mb_row),
        0 <= n <= 6,
        sized(
            st.recon,
            src.params.width as int,
            src.params.height as int,
            ChromaFormat::Yuv420,
        ),
        st.recon.plane(k).has(x, y),
        src.current.plane(k).has(x, y),
    ensures
        ({
            let (res, after) = intra_blocks_encoded(src, n, st, fdct, idct);
            &&& res is Ok
            &&& dc_ok(after.dc)
            &&& sized(
                after.recon,
                src.params.width as int,
                src.params.height as int,
                ChromaFormat::Yuv420,
            )
            &&& if exists|i: int|
                0 <= i < n && #[trigger] block_holds(
                    i,
                    k,
                    ChromaFormat::Yuv420,
                    src.mb_col,
                    src.mb_row,
                    x,
                    y,
                ) {
                within(
                    after.recon.plane(k).at(x, y) as int,
                    src.current.plane(k).at(x, y) as int,
                    d,
                )
            } else {
                after.recon.plane(k).at(x, y) == st.recon.plane(k).at(x, y)
            }
        }),
    decreases n,
{
    if n > 0 {
        lemma_intra_blocks_near(src, n - 1, st, d, fdct, idct, k, x, y);
        let before = intra_blocks_encoded(src, n - 1, st, fdct, idct).1;
        lemma_intra_block_near(src, n - 1, before, d, fdct, idct, k, x, y);
        if block_holds(n - 1, k, ChromaFormat::Yuv420, src.mb_col, src.mb_row, x, y) {
        }
    }
}

/// A sample of a frame after one block of an intra macroblock.
proof fn lemma_intra_block_near<
    D: Fn([[i16; 8]; 8]) -> [[i32; 8]; 8],
    F: Fn([[i32; 8]; 8]) -> [[i16; 8]; 8],
>(
    src: MacroblockSource,
    i: int,
    st: IntraEncoding,
    d: int,
    fdct: D,
    idct: F,
    k: ColourComponent,
    x: int,
    y: int,
)
    requires
        intra_comes_back(fdct, idct, src.scale, src.params.intra_quant, d),
        dc_ok(st.dc),
        macroblock_addressable(src.mb_col, src.mb_row),
        0 <= i < 6,
        sized(
            st.recon,
            src.params.width as int,
            src.params.height as int,
            ChromaFormat::Yuv420,
        ),
        st.recon.plane(k).has(x, y),
        src.current.plane(k).has(x, y),
    ensures
        ({
            let (res, after) = intra_block_encoded(src, i, st, fdct, idct);
            &&& res is Ok
            &&& dc_ok(after.dc)
            &&& sized(
                after.recon,
                src.params.width as int,
                src.params.height as int,
                ChromaFormat::Yuv420,
            )
            &&& if block_holds(i, k, ChromaFormat::Yuv420, src.mb_col, src.mb_row, x, y) {
                within(
                    after.recon.plane(k).at(x, y) as int,
                    src.current.plane(k).at(x, y) as int,
                    d,
                )
            } else {
                after.recon.plane(k).at(x, y) == st.recon.plane(k).at(x, y)
            }
        }),
{
    reveal(intra_block_encoded);
    let quant = src.params.intra_quant;
    let p = src.placement(i);
    let plane = src.current.plane(p.component);
    let raw = raw_block(plane, p.base_x as int, p.base_y as int);
    let levels = intra_levels(src, i, st.dc, fdct);
    let base = dc_base_of(kind_of(i as u8)->Ok_0, st.dc, src.address() as i32);
    let g = intra_block(levels, src.scale, quant, (base + 8 * levels[0]) as i32);
    let back = value_of(idct, g);
    lemma_placed(i, ChromaFormat::Yuv420, src.mb_col, src.mb_row);
    lemma_intra_coefficients_near(src, i, st.dc, d, fdct, idct);
    lemma_raw_in_range(plane, p.base_x as int, p.base_y as int);
    assert(differences_in_range(raw));
    assert(value_of(fdct, raw) == transformed(src, i, fdct));
    assert(samples_near(back, raw, d));
    lemma_block_step(
        st.recon,
        src.params.width as int,
        src.params.height as int,
        p,
        saturated_samples(back),
        k,
        x,
        y,
    );
    if p.component == k && in_block(p, x, y) {
        let r = y - p.base_y;
        let c = x - p.base_x;
        lemma_block_entries(
            crate::macroblock_source::raw_samples(plane, p.base_x as int, p.base_y as int),
        );
        assert(raw[r][c] == plane.at(x, y));
        assert(within(back[r][c] as int, raw[r][c] as int, d));
    }
}

/// A sample of a frame after an intra macroblock.
proof fn lemma_intra_macroblock_near<
    D: Fn([[i16; 8]; 8]) -> [[i32; 8]; 8],
    F: Fn([[i32; 8]; 8]) -> [[i16; 8]; 8],
>(
    src: MacroblockSource,
    st: IntraEncoding,
    d: int,
    fdct: D,
    idct: F,
    k: ColourComponent,
    x: int,
    y: int,
)
    requires
        intra_comes_back(fdct, idct, src.scale, src.params.intra_quant, d),
        dc_ok(st.dc),
        macroblock_addressable(src.mb_col, src.mb_row),
        sized(
            st.recon,
            src.params.width as int,
            src.params.height as int,
            ChromaFormat::Yuv420,
        ),
        st.recon.plane(k).has(x, y),
        src.current.plane(k).has(x, y),
    ensures
        ({
            let (res, after) = intra_macroblock_encoded(src, st, fdct, idct);
            let (w, h) = component_extent(k, ChromaFormat::Yuv420);
            &&& res is Ok
            &&& dc_ok(after.dc)
            &&& sized(
                after.recon,
                src.params.width as int,
                src.params.height as int,
                ChromaFormat::Yuv420,
            )
            &&& if x / w == src.mb_col && y / h == src.mb_row {
                within(
                    after.recon.plane(k).at(x, y) as int,
                    src.current.plane(k).at(x, y) as int,
                    d,
                )
            } else {
                after.recon.plane(k).at(x, y) == st.recon.plane(k).at(x, y)
            }
        }),
{
    lemma_intra_blocks_near(src, 6, st, d, fdct, idct, k, x, y);
    lemma_held(k, ChromaFormat::Yuv420, src.mb_col, src.mb_row, x, y);
    lemma_macroblock_of(k, ChromaFormat::Yuv420, src.mb_col, src.mb_row, x, y);
}

// ---------------------------------------------------------------------------
// I-pictures
// ---------------------------------------------------------------------------

/// The macroblocks of a picture that can be encoded have coordinates.
pub proof fn lemma_addressable(params: Mpeg1PictureParams, mb_col: int, mb_row: int)
    requires
        encodable(params),
        0 <= mb_col < blocks_of_16(params.width as int),
        0 <= mb_row < blocks_of_16(params.height as int),
    ensures
        macroblock_addressable(mb_col, mb_row),
{
}

/// A sample of a frame after the first `n` macroblocks of a row of an I-picture.
proof fn lemma_intra_row_near<
    D: Fn([[i16; 8]; 8]) -> [[i32; 8]; 8],
    F: Fn([[i32; 8]; 8]) -> [[i16; 8]; 8],
>(
    current: FrameContents,
    params: Mpeg1PictureParams,
    scale: u8,
    mb_row: int,
    n: int,
    st: IntraEncoding,
    d: int,
    fdct: D,
    idct: F,
    k: ColourComponent,
    x: int,
    y: int,
)
    requires
        intra_comes_back(fdct, idct, scale, params.intra_quant, d),
        encodable(params),
        dc_ok(st.dc),
        0 <= n <= blocks_of_16(params.width as int),
        0 <= mb_row < blocks_of_16(params.height as int),
        sized(st.recon, params.width as int, params.height as int, ChromaFormat::Yuv420),
        st.recon.plane(k).has(x, y),
        current.plane(k).has(x, y),
    ensures
        ({
            let (res, after) = intra_row_encoded(
                current,
                params,
                scale,
                mb_row,
                n,
                st,
                fdct,
                idct,
            );
            let (w, h) = component_extent(k, ChromaFormat::Yuv420);
            &&& res is Ok
            &&& dc_ok(after.dc)
            &&& sized(
                after.recon,
                params.width as int,
                params.height as int,
                ChromaFormat::Yuv420,
            )
            &&& if x / w < n && y / h == mb_row {
                within(
                    after.recon.plane(k).at(x, y) as int,
                    current.plane(k).at(x, y) as int,
                    d,
                )
            } else {
                after.recon.plane(k).at(x, y) == st.recon.plane(k).at(x, y)
            }
        }),
    decreases n,
{
    if n > 0 {
        lemma_intra_row_near(
            current,
            params,
            scale,
            mb_row,
            n - 1,
            st,
            d,
            fdct,
            idct,
            k,
            x,
            y,
        );
        let before = intra_row_encoded(
            current,
            params,
            scale,
            mb_row,
            n - 1,
            st,
            fdct,
            idct,
        ).1;
        lemma_addressable(params, n - 1, mb_row);
        lemma_intra_macroblock_near(
            source_of(current, params, scale, n - 1, mb_row),
            (IntraEncoding { bits: before.bits.push(true).push(true), ..before }),
            d,
            fdct,
            idct,
            k,
            x,
            y,
        );
    }
}

/// A sample of a frame after the first `n` rows of an I-picture.
proof fn lemma_intra_rows_near<
    D: Fn([[i16; 8]; 8]) -> [[i32; 8]; 8],
    F: Fn([[i32; 8]; 8]) -> [[i16; 8]; 8],
>(
    current: FrameContents,
    params: Mpeg1PictureParams,
    scale: u8,
    n: int,
    bits: Seq<bool>,
    recon: FrameContents,
    d: int,
    fdct: D,
    idct: F,
    k: ColourComponent,
    x: int,
    y: int,
)
    requires
        intra_comes_back(fdct, idct, scale, params.intra_quant, d),
        encodable(params),
        0 <= n <= blocks_of_16(params.height as int),
        sized(recon, params.width as int, params.height as int, ChromaFormat::Yuv420),
        recon.plane(k).has(x, y),
        current.plane(k).has(x, y),
    ensures
        ({
            let (res, _, after) = intra_rows_encoded(
                current,
                params,
                scale,
                n,
                bits,
                recon,
                fdct,
                idct,
            );
            let (w, h) = component_extent(k, ChromaFormat::Yuv420);
            &&& res is Ok
            &&& sized(after, params.width as int, params.height as int, ChromaFormat::Yuv420)
            &&& y / h < n ==> within(
                after.plane(k).at(x, y) as int,
                current.plane(k).at(x, y) as int,
                d,
            )
        }),
    decreases n,
{
    lemma_covered(recon, params.width as int, params.height as int, k, x, y);
    if n > 0 {
        let mb_width = blocks_of_16(params.width as int);
        lemma_intra_rows_near(
            current,
            params,
            scale,
            n - 1,
            bits,
            recon,
            d,
            fdct,
            idct,
            k,
            x,
            y,
        );
        let (_, b, r) = intra_rows_encoded(
            current,
            params,
            scale,
            n - 1,
            bits,
            recon,
            fdct,
            idct,
        );
        lemma_intra_row_near(
            current,
            params,
            scale,
            n - 1,
            mb_width,
            (IntraEncoding {
                bits: b + crate::stream_writer::slice_header_bits(n - 1, scale),
                recon: r,
                dc: IntraDcPredictors::spec_at_slice_start(),
            }),
            d,
            fdct,
            idct,
            k,
            x,
            y,
        );
    }
}

/// An I-picture shows what it was made of: where the inverse transform undoes the
/// transform up to what quantising loses, so that blocks come back no further than `d`
/// from what they were, no sample of the frame that a decoder has is further than `d`
/// from the sample of the source at the same place.
pub proof fn law_intra_picture_is_near_source<
    D: Fn([[i16; 8]; 8]) -> [[i32; 8]; 8],
    F: Fn([[i32; 8]; 8]) -> [[i16; 8]; 8],
>(
    bits: Seq<bool>,
    frame: FrameContents,
    params: Mpeg1PictureParams,
    temporal_reference: u16,
    scale: u8,
    d: int,
    fdct: D,
    idct: F,
    k: ColourComponent,
    x: int,
    y: int,
)
    requires
        encodable(params),
        frame.width == params.width,
        frame.height == params.height,
        sized(frame, params.width as int, params.height as int, ChromaFormat::Yuv420),
        intra_comes_back(fdct, idct, scale, params.intra_quant, d),
        frame.plane(k).has(x, y),
    ensures
        ({
            let shown = intra_picture_encoded(
                bits,
                frame,
                params,
                temporal_reference,
                scale,
                fdct,
                idct,
            ).0;
            &&& shown is Ok
            &&& sized(
                shown->Ok_0,
                params.width as int,
                params.height as int,
                ChromaFormat::Yuv420,
            )
            &&& -d <= shown->Ok_0.plane(k).at(x, y) - frame.plane(k).at(x, y) <= d
        }),
{
    let recon = zero_frame(params.width as int, params.height as int, ChromaFormat::Yuv420);
    crate::frame_assembly::lemma_zero_frame_wf(
        params.width as int,
        params.height as int,
        ChromaFormat::Yuv420,
    );
    lemma_covered(recon, params.width as int, params.height as int, k, x, y);
    lemma_intra_rows_near(
        frame,
        params,
        scale,
        blocks_of_16(params.height as int),
        crate::bits::zero_padded(
            bits + crate::stream_writer::picture_header_bits(
                temporal_reference,
                crate::picture_header::PictureCodingType::Intra,
                7,
                7,
            ),
        ),
        recon,
        d,
        fdct,
        idct,
        k,
        x,
        y,
    );
}

// ---------------------------------------------------------------------------
// Predicted macroblocks
// ---------------------------------------------------------------------------

/// Levels of which none is found are all zero.
proof fn lemma_no_level(levels: Seq<i32>, j: int, k: int)
    requires
        0 <= j <= k < 64,
        first_level(levels, j) >= 64,
    ensures
        levels[k] == 0,
    decreases 64 - j,
{
    if j < k {
        lemma_no_level(levels, j + 1, k);
    }
}

/// What a decoder makes of the levels of a residual is near that residual.
proof fn lemma_decoded_residual_near<
    D: Fn([[i16; 8]; 8]) -> [[i32; 8]; 8],
    F: Fn([[i32; 8]; 8]) -> [[i16; 8]; 8],
>(residual: [[i16; 8]; 8], scale: u8, quant: [[u8; 8]; 8], d: int, fdct: D, idct: F)
    requires
        non_intra_comes_back(fdct, idct, scale, quant, d),
        differences_in_range(residual),
    ensures
        samples_near(
            decoded_residual(
                non_intra_levels(value_of(fdct, residual), scale, quant),
                scale,
                quant,
                idct,
            ),
            residual,
            d,
        ),
{
    let f = value_of(fdct, residual);
    let levels = non_intra_levels(f, scale, quant);
    let g = non_intra_block(levels, scale, quant);
    assert forall|v: int, u: int| 0 <= v < 8 && 0 <= u < 8 implies within(
        32 * #[trigger] g[v][u],
        32 * f[v][u],
        non_intra_bound(scale, quant)(v, u),
    ) by {
        assert(-2048 <= value_of(fdct, residual)[v][u] <= 2047);
        law_mpeg1_non_intra_coefficient_comes_back(f, scale, quant, v, u);
    }
    assert(coefficients_near(g, value_of(fdct, residual), non_intra_bound(scale, quant)));
    assert(samples_near(value_of(idct, g), residual, d));
    if !has_level(levels) {
        lemma_block_entries(non_intra_coefficients(levels, scale, quant));
        assert forall|v: int, u: int| 0 <= v < 8 && 0 <= u < 8 implies #[trigger] g[v][u] == 0 by {
            law_scan_then_inverse(false, v, u);
            let i = crate::mpeg2_inverse_scan::scan(false)[v][u] as int;
            lemma_no_level(levels, 0, i);
            let step = scale as int * quant[v][u] as int;
            assert(0 * step == 0);
        }
        assert(value_of(idct, g) == zero_residual());
    }
}

/// A sample of a frame after a macroblock that was predicted, whatever the prediction.
proof fn lemma_predicted_macroblock_near<
    D: Fn([[i16; 8]; 8]) -> [[i32; 8]; 8],
    F: Fn([[i32; 8]; 8]) -> [[i16; 8]; 8],
>(
    src: MacroblockSource,
    preds: MacroblockPlanes,
    frame: FrameContents,
    d: int,
    fdct: D,
    idct: F,
    k: ColourComponent,
    x: int,
    y: int,
)
    requires
        non_intra_comes_back(fdct, idct, src.scale, src.params.non_intra_quant, d),
        macroblock_addressable(src.mb_col, src.mb_row),
        sized(
            frame,
            src.params.width as int,
            src.params.height as int,
            ChromaFormat::Yuv420,
        ),
        frame.plane(k).has(x, y),
        src.current.plane(k).has(x, y),
    ensures
        ({
            let after = crate::inter_reconstruction::frame_with_blocks(
                frame,
                preds,
                ChromaFormat::Yuv420,
                src.mb_col,
                src.mb_row,
                decoded_residuals(
                    macroblock_levels(src, preds, fdct),
                    src.scale,
                    src.params.non_intra_quant,
                    idct,
                ),
                6,
            );
            let (w, h) = component_extent(k, ChromaFormat::Yuv420);
            &&& sized(
                after,
                src.params.width as int,
                src.params.height as int,
                ChromaFormat::Yuv420,
            )
            &&& if x / w == src.mb_col && y / h == src.mb_row {
                within(after.plane(k).at(x, y) as int, src.current.plane(k).at(x, y) as int, d)
            } else {
                after.plane(k).at(x, y) == frame.plane(k).at(x, y)
            }
        }),
{
    let chroma = ChromaFormat::Yuv420;
    let quant = src.params.non_intra_quant;
    let f_pels = decoded_residuals(
        macroblock_levels(src, preds, fdct),
        src.scale,
        quant,
        idct,
    );
    assert forall|i: int|
        0 <= i < 6 && #[trigger] block_holds(i, k, chroma, src.mb_col, src.mb_row, x, y) implies {
        let p = placement_of(i, chroma, src.mb_col, src.mb_row, false);
        within(
            crate::inter_reconstruction::sum_samples(
                preds,
                chroma,
                p,
                src.mb_col,
                src.mb_row,
                f_pels[i],
            )(y - p.base_y, x - p.base_x) as int,
            src.current.plane(k).at(x, y) as int,
            d,
        )
    } by {
        let p = src.placement(i);
        let (w, h) = component_extent(p.component, chroma);
        lemma_placed(i, chroma, src.mb_col, src.mb_row);
        lemma_residual_in_range(
            src.current.plane(p.component),
            preds.plane(p.component),
            w,
            p.base_x as int,
            p.base_y as int,
            p.base_x - src.mb_col * w,
            p.base_y - src.mb_row * h,
        );
        lemma_decoded_residual_near(
            source_residual(src, preds, i),
            src.scale,
            quant,
            d,
            fdct,
            idct,
        );
        assert(macroblock_levels(src, preds, fdct)[i] == residual_levels(src, preds, i, fdct));
        lemma_residual_near(
            src.current.plane(k),
            preds,
            chroma,
            p,
            src.mb_col,
            src.mb_row,
            f_pels[i],
            d,
            x,
            y,
        );
    }
    lemma_blocks_near(
        frame,
        src.current,
        src.params.width as int,
        src.params.height as int,
        preds,
        src.mb_col,
        src.mb_row,
        f_pels,
        6,
        d,
        k,
        x,
        y,
    );
    lemma_held(k, chroma, src.mb_col, src.mb_row, x, y);
    lemma_macroblock_of(k, chroma, src.mb_col, src.mb_row, x, y);
}

// ---------------------------------------------------------------------------
// P-pictures
// ---------------------------------------------------------------------------

/// A sample of a frame after the first `n` macroblocks of a row of a P-picture.
proof fn lemma_p_row_near<
    D: Fn([[i16; 8]; 8]) -> [[i32; 8]; 8],
    F: Fn([[i32; 8]; 8]) -> [[i16; 8]; 8],
>(
    current: FrameContents,
    reference: FrameContents,
    params: Mpeg1PictureParams,
    scale: u8,
    f_code: u8,
    mb_row: int,
    n: int,
    st: PredictedEncoding,
    d: int,
    fdct: D,
    idct: F,
    k: ColourComponent,
    x: int,
    y: int,
)
    requires
        intra_comes_back(fdct, idct, scale, params.intra_quant, d),
        non_intra_comes_back(fdct, idct, scale, params.non_intra_quant, d),
        encodable(params),
        dc_ok(st.intra.dc),
        0 <= n <= blocks_of_16(params.width as int),
        0 <= mb_row < blocks_of_16(params.height as int),
        sized(st.intra.recon, params.width as int, params.height as int, ChromaFormat::Yuv420),
        st.intra.recon.plane(k).has(x, y),
        current.plane(k).has(x, y),
    ensures
        ({
            let (res, after) = p_row_encoded(
                current,
                reference,
                params,
                scale,
                f_code,
                mb_row,
                n,
                st,
                fdct,
                idct,
            );
            let (w, h) = component_extent(k, ChromaFormat::Yuv420);
            &&& res is Ok
            &&& dc_ok(after.intra.dc)
            &&& sized(
                after.intra.recon,
                params.width as int,
                params.height as int,
                ChromaFormat::Yuv420,
            )
            &&& if x / w < n && y / h == mb_row {
                within(
                    after.intra.recon.plane(k).at(x, y) as int,
                    current.plane(k).at(x, y) as int,
                    d,
                )
            } else {
                after.intra.recon.plane(k).at(x, y) == st.intra.recon.plane(k).at(x, y)
            }
        }),
    decreases n,
{
    lemma_covered(st.intra.recon, params.width as int, params.height as int, k, x, y);
    if n > 0 {
        lemma_p_row_near(
            current,
            reference,
            params,
            scale,
            f_code,
            mb_row,
            n - 1,
            st,
            d,
            fdct,
            idct,
            k,
            x,
            y,
        );
        let before = p_row_encoded(
            current,
            reference,
            params,
            scale,
            f_code,
            mb_row,
            n - 1,
            st,
            fdct,
            idct,
        ).1;
        lemma_addressable(params, n - 1, mb_row);
        lemma_p_macroblock_near(
            source_of(current, params, scale, n - 1, mb_row),
            reference,
            f_code,
            before,
            d,
            fdct,
            idct,
            k,
            x,
            y,
        );
    }
}

/// A sample of a frame after a macroblock of a P-picture.
proof fn lemma_p_macroblock_near<
    D: Fn([[i16; 8]; 8]) -> [[i32; 8]; 8],
    F: Fn([[i32; 8]; 8]) -> [[i16; 8]; 8],
>(
    src: MacroblockSource,
    reference: FrameContents,
    f_code: u8,
    st: PredictedEncoding,
    d: int,
    fdct: D,
    idct: F,
    k: ColourComponent,
    x: int,
    y: int,
)
    requires
        intra_comes_back(fdct, idct, src.scale, src.params.intra_quant, d),
        non_intra_comes_back(fdct, idct, src.scale, src.params.non_intra_quant, d),
        dc_ok(st.intra.dc),
        macroblock_addressable(src.mb_col, src.mb_row),
        sized(
            st.intra.recon,
            src.params.width as int,
            src.params.height as int,
            ChromaFormat::Yuv420,
        ),
        st.intra.recon.plane(k).has(x, y),
        src.current.plane(k).has(x, y),
    ensures
        ({
            let (res, after) = p_macroblock_encoded(src, reference, f_code, st, fdct, idct);
            let (w, h) = component_extent(k, ChromaFormat::Yuv420);
            &&& res is Ok
            &&& dc_ok(after.intra.dc)
            &&& sized(
                after.intra.recon,
                src.params.width as int,
                src.params.height as int,
                ChromaFormat::Yuv420,
            )
            &&& if x / w == src.mb_col && y / h == src.mb_row {
                within(
                    after.intra.recon.plane(k).at(x, y) as int,
                    src.current.plane(k).at(x, y) as int,
                    d,
                )
            } else {
                after.intra.recon.plane(k).at(x, y) == st.intra.recon.plane(k).at(x, y)
            }
        }),
{
    reveal(p_macroblock_encoded);
    let v = decodable_vector(
        best_vector(
            src.current,
            reference,
            src.mb_col,
            src.mb_row,
            search_distance(f_code),
        ),
        st.last,
        f_code,
    );
    if prefers_intra(src.current, reference, src.mb_col, src.mb_row, v) {
        let bits = st.intra.bits.push(true) + crate::bits::value_bits(0b0001_1, 5);
        lemma_intra_macroblock_near(
            src,
            (IntraEncoding { bits, ..st.intra }),
            d,
            fdct,
            idct,
            k,
            x,
            y,
        );
    } else {
        let preds = predicted_planes(
            forward_only(reference),
            forward_motion(v),
            ChromaFormat::Yuv420,
            src.mb_col,
            src.mb_row,
        );
        lemma_predicted_macroblock_near(src, preds, st.intra.recon, d, fdct, idct, k, x, y);
    }
}

/// A sample of a frame after the first `n` rows of a P-picture.
proof fn lemma_p_rows_near<
    D: Fn([[i16; 8]; 8]) -> [[i32; 8]; 8],
    F: Fn([[i32; 8]; 8]) -> [[i16; 8]; 8],
>(
    current: FrameContents,
    reference: FrameContents,
    params: Mpeg1PictureParams,
    scale: u8,
    f_code: u8,
    n: int,
    bits: Seq<bool>,
    recon: FrameContents,
    d: int,
    fdct: D,
    idct: F,
    k: ColourComponent,
    x: int,
    y: int,
)
    requires
        intra_comes_back(fdct, idct, scale, params.intra_quant, d),
        non_intra_comes_back(fdct, idct, scale, params.non_intra_quant, d),
        encodable(params),
        0 <= n <= blocks_of_16(params.height as int),
        sized(recon, params.width as int, params.height as int, ChromaFormat::Yuv420),
        recon.plane(k).has(x, y),
        current.plane(k).has(x, y),
    ensures
        ({
            let (res, _, after) = p_rows_encoded(
                current,
                reference,
                params,
                scale,
                f_code,
                n,
                bits,
                recon,
                fdct,
                idct,
            );
            let (w, h) = component_extent(k, ChromaFormat::Yuv420);
            &&& res is Ok
            &&& sized(after, params.width as int, params.height as int, ChromaFormat::Yuv420)
            &&& y / h < n ==> within(
                after.plane(k).at(x, y) as int,
                current.plane(k).at(x, y) as int,
                d,
            )
        }),
    decreases n,
{
    lemma_covered(recon, params.width as int, params.height as int, k, x, y);
    if n > 0 {
        lemma_p_rows_near(
            current,
            reference,
            params,
            scale,
            f_code,
            n - 1,
            bits,
            recon,
            d,
            fdct,
            idct,
            k,
            x,
            y,
        );
        let (_, b, r) = p_rows_encoded(
            current,
            reference,
            params,
            scale,
            f_code,
            n - 1,
            bits,
            recon,
            fdct,
            idct,
        );
        lemma_p_row_near(
            current,
            reference,
            params,
            scale,
            f_code,
            n - 1,
            blocks_of_16(params.width as int),
            crate::mpeg1_encoder::predicted_row_start(
                b + crate::stream_writer::slice_header_bits(n - 1, scale),
                r,
            ),
            d,
            fdct,
            idct,
            k,
            x,
            y,
        );
    }
}

/// A P-picture shows what it was made of, whatever it is predicted from: where blocks
/// come back no further than `d` from what they were, no sample of the frame that a
/// decoder has is further than `d` from the sample of the source at the same place.
pub proof fn law_p_picture_is_near_source<
    D: Fn([[i16; 8]; 8]) -> [[i32; 8]; 8],
    F: Fn([[i32; 8]; 8]) -> [[i16; 8]; 8],
>(
    bits: Seq<bool>,
    current: FrameContents,
    reference: FrameContents,
    params: Mpeg1PictureParams,
    temporal_reference: u16,
    scale: u8,
    f_code: u8,
    d: int,
    fdct: D,
    idct: F,
    k: ColourComponent,
    x: int,
    y: int,
)
    requires
        encodable(params),
        1 <= f_code <= 7,
        sized(current, params.width as int, params.height as int, ChromaFormat::Yuv420),
        intra_comes_back(fdct, idct, scale, params.intra_quant, d),
        non_intra_comes_back(fdct, idct, scale, params.non_intra_quant, d),
        current.plane(k).has(x, y),
    ensures
        ({
            let shown = p_picture_encoded(
                bits,
                current,
                reference,
                params,
                temporal_reference,
                scale,
                f_code,
                fdct,
                idct,
            ).0;
            &&& shown is Ok
            &&& sized(
                shown->Ok_0,
                params.width as int,
                params.height as int,
                ChromaFormat::Yuv420,
            )
            &&& -d <= shown->Ok_0.plane(k).at(x, y) - current.plane(k).at(x, y) <= d
        }),
{
    let recon = zero_frame(params.width as int, params.height as int, ChromaFormat::Yuv420);
    crate::frame_assembly::lemma_zero_frame_wf(
        params.width as int,
        params.height as int,
        ChromaFormat::Yuv420,
    );
    lemma_covered(recon, params.width as int, params.height as int, k, x, y);
    lemma_p_rows_near(
        current,
        reference,
        params,
        scale,
        f_code,
        blocks_of_16(params.height as int),
        crate::bits::zero_padded(
            bits + crate::stream_writer::picture_header_bits(
                temporal_reference,
                crate::picture_header::PictureCodingType::Predictive,
                f_code,
                7,
            ),
        ),
        recon,
        d,
        fdct,
        idct,
        k,
        x,
        y,
    );
}

// ---------------------------------------------------------------------------
// B-pictures
// ---------------------------------------------------------------------------

/// A sample of a frame after the first `n` macroblocks of a row of a B-picture.
proof fn lemma_b_row_near<
    D: Fn([[i16; 8]; 8]) -> [[i32; 8]; 8],
    F: Fn([[i32; 8]; 8]) -> [[i16; 8]; 8],
>(
    b: BSource,
    mb_row: int,
    n: int,
    frame: FrameContents,
    d: int,
    fdct: D,
    idct: F,
    k: ColourComponent,
    x: int,
    y: int,
)
    requires
        non_intra_comes_back(fdct, idct, b.scale, b.params.non_intra_quant, d),
        encodable(b.params),
        0 <= n <= blocks_of_16(b.params.width as int),
        0 <= mb_row < blocks_of_16(b.params.height as int),
        sized(frame, b.params.width as int, b.params.height as int, ChromaFormat::Yuv420),
        frame.plane(k).has(x, y),
        b.current.plane(k).has(x, y),
    ensures
        ({
            let after = b_row_frame(b, mb_row, n, frame, fdct, idct);
            let (w, h) = component_extent(k, ChromaFormat::Yuv420);
            &&& sized(
                after,
                b.params.width as int,
                b.params.height as int,
                ChromaFormat::Yuv420,
            )
            &&& if x / w < n && y / h == mb_row {
                within(after.plane(k).at(x, y) as int, b.current.plane(k).at(x, y) as int, d)
            } else {
                after.plane(k).at(x, y) == frame.plane(k).at(x, y)
            }
        }),
    decreases n,
{
    lemma_covered(frame, b.params.width as int, b.params.height as int, k, x, y);
    if n > 0 {
        lemma_b_row_near(b, mb_row, n - 1, frame, d, fdct, idct, k, x, y);
        let before = b_row_frame(b, mb_row, n - 1, frame, fdct, idct);
        let src = b.at(n - 1, mb_row);
        let preds = b.prediction(src, b_row(b, mb_row, n - 1, Seq::empty(), fdct));
        lemma_addressable(b.params, n - 1, mb_row);
        lemma_predicted_macroblock_near(src, preds, before, d, fdct, idct, k, x, y);
    }
}

/// What a decoder makes of a B-picture, as the round trip of B-pictures gives it, shows
/// what the picture was made of: where blocks come back no further than `d` from what
/// they were, no sample is further than `d` from the sample of the source at the same
/// place. `n` is the number of rows that are decoded.
pub proof fn law_b_picture_is_near_source<
    D: Fn([[i16; 8]; 8]) -> [[i32; 8]; 8],
    F: Fn([[i32; 8]; 8]) -> [[i16; 8]; 8],
>(
    b: BSource,
    n: int,
    frame: FrameContents,
    d: int,
    fdct: D,
    idct: F,
    k: ColourComponent,
    x: int,
    y: int,
)
    requires
        non_intra_comes_back(fdct, idct, b.scale, b.params.non_intra_quant, d),
        encodable(b.params),
        0 <= n <= blocks_of_16(b.params.height as int),
        sized(frame, b.params.width as int, b.params.height as int, ChromaFormat::Yuv420),
        frame.plane(k).has(x, y),
        b.current.plane(k).has(x, y),
    ensures
        ({
            let shown = b_rows_frame(b, n, frame, fdct, idct);
            let (w, h) = component_extent(k, ChromaFormat::Yuv420);
            &&& sized(
                shown,
                b.params.width as int,
                b.params.height as int,
                ChromaFormat::Yuv420,
            )
            &&& n == blocks_of_16(b.params.height as int) || y / h < n ==> -d <= shown.plane(k).at(
                x,
                y,
            ) - b.current.plane(k).at(x, y) <= d
        }),
    decreases n,
{
    lemma_covered(frame, b.params.width as int, b.params.height as int, k, x, y);
    if n > 0 {
        law_b_picture_is_near_source(b, n - 1, frame, d, fdct, idct, k, x, y);
        lemma_b_row_near(
            b,
            n - 1,
            blocks_of_16(b.params.width as int),
            b_rows_frame(b, n - 1, frame, fdct, idct),
            d,
            fdct,
            idct,
            k,
            x,
            y,
        );
    }
}

// ---------------------------------------------------------------------------
// Sequences
// ---------------------------------------------------------------------------

/// Whether a picture has every sample of a frame, none of them further than `d` off.
pub open spec fn shows(shown: FrameContents, frame: FrameContents, d: int) -> bool {
    forall|k: ColourComponent, x: int, y: int|
        #[trigger] frame.plane(k).has(x, y) ==> shown.plane(k).has(x, y) && -d <= shown.plane(k).at(
            x,
            y,
        ) - frame.plane(k).at(x, y) <= d
}

/// Every anchor of a sequence that was encoded shows the frame that it was made of, also
/// where it is predicted from others: what quantising loses does not add up from picture
/// to picture.
pub proof fn law_anchors_are_near_source<
    D: Fn([[i16; 8]; 8]) -> [[i32; 8]; 8],
    F: Fn([[i32; 8]; 8]) -> [[i16; 8]; 8],
>(
    plan: SequencePlan,
    frames: Seq<FrameContents>,
    order: Seq<Coded>,
    st: SequenceEncoding,
    d: int,
    fdct: D,
    idct: F,
    g: int,
)
    requires
        encodable(plan.params),
        1 <= plan.forward_f_code <= 7,
        intra_comes_back(fdct, idct, plan.scale, plan.params.intra_quant, d),
        non_intra_comes_back(fdct, idct, plan.scale, plan.params.non_intra_quant, d),
        forall|i: int|
            #![trigger frames[i]]
            0 <= i < frames.len() ==> frames[i].width == plan.params.width && frames[i].height
                == plan.params.height && sized(
                frames[i],
                plan.params.width as int,
                plan.params.height as int,
                ChromaFormat::Yuv420,
            ),
        order_encoded(plan, frames, order, st, fdct, idct) is Ok,
        st.anchors.dom() == Set::<int>::empty(),
        0 <= g < frames.len(),
        order_encoded(plan, frames, order, st, fdct, idct)->Ok_0.anchors.dom().contains(g),
    ensures
        shows(
            order_encoded(plan, frames, order, st, fdct, idct)->Ok_0.anchors[g],
            frames[g],
            d,
        ),
    decreases order.len(),
{
    if order.len() > 0 {
        let before = order_encoded(plan, frames, order.drop_last(), st, fdct, idct)->Ok_0;
        let after = order_encoded(plan, frames, order, st, fdct, idct)->Ok_0;
        let c = order.last();
        let own = match c {
            Coded::Intra { group } => group == g,
            Coded::Predicted { frame, .. } => frame == g,
            _ => false,
        };
        if own {
            assert(frames[g].width == plan.params.width);
            crate::frame_assembly::lemma_zero_frame_wf(
                plan.params.width as int,
                plan.params.height as int,
                ChromaFormat::Yuv420,
            );
            match c {
                Coded::Intra { group } => {
                    lemma_intra_anchor(plan, frames[g], before.bits, d, fdct, idct);
                },
                Coded::Predicted { group, frame, forward } => {
                    lemma_predicted_anchor(
                        plan,
                        frames[g],
                        before.anchors[forward],
                        (frame - group) as u16,
                        before.bits,
                        d,
                        fdct,
                        idct,
                    );
                },
                _ => {},
            }
        } else {
            law_anchors_are_near_source(
                plan,
                frames,
                order.drop_last(),
                st,
                d,
                fdct,
                idct,
                g,
            );
        }
    }
}

proof fn lemma_intra_anchor<
    D: Fn([[i16; 8]; 8]) -> [[i32; 8]; 8],
    F: Fn([[i32; 8]; 8]) -> [[i16; 8]; 8],
>(
    plan: SequencePlan,
    frame: FrameContents,
    bits: Seq<bool>,
    d: int,
    fdct: D,
    idct: F,
)
    requires
        encodable(plan.params),
        intra_comes_back(fdct, idct, plan.scale, plan.params.intra_quant, d),
        frame.width == plan.params.width,
        frame.height == plan.params.height,
        sized(
            frame,
            plan.params.width as int,
            plan.params.height as int,
            ChromaFormat::Yuv420,
        ),
        intra_picture_encoded(bits, frame, plan.params, 0, plan.scale, fdct, idct).0 is Ok,
    ensures
        shows(
            intra_picture_encoded(
                bits,
                frame,
                plan.params,
                0,
                plan.scale,
                fdct,
                idct,
            ).0->Ok_0,
            frame,
            d,
        ),
{
    let anchor = intra_picture_encoded(
        bits,
        frame,
        plan.params,
        0,
        plan.scale,
        fdct,
        idct,
    ).0->Ok_0;
    assert forall|k: ColourComponent, x: int, y: int| #[trigger]
        frame.plane(k).has(x, y) implies anchor.plane(k).has(x, y) && -d <= anchor.plane(k).at(
        x,
        y,
    ) - frame.plane(k).at(x, y) <= d by {
        law_intra_picture_is_near_source(
            bits,
            frame,
            plan.params,
            0,
            plan.scale,
            d,
            fdct,
            idct,
            k,
            x,
            y,
        );
    }
}

proof fn lemma_predicted_anchor<
    D: Fn([[i16; 8]; 8]) -> [[i32; 8]; 8],
    F: Fn([[i32; 8]; 8]) -> [[i16; 8]; 8],
>(
    plan: SequencePlan,
    frame: FrameContents,
    reference: FrameContents,
    temporal_reference: u16,
    bits: Seq<bool>,
    d: int,
    fdct: D,
    idct: F,
)
    requires
        encodable(plan.params),
        1 <= plan.forward_f_code <= 7,
        intra_comes_back(fdct, idct, plan.scale, plan.params.intra_quant, d),
        non_intra_comes_back(fdct, idct, plan.scale, plan.params.non_intra_quant, d),
        sized(
            frame,
            plan.params.width as int,
            plan.params.height as int,
            ChromaFormat::Yuv420,
        ),
    ensures
        shows(
            p_picture_encoded(
                bits,
                frame,
                reference,
                plan.params,
                temporal_reference,
                plan.scale,
                plan.forward_f_code,
                fdct,
                idct,
            ).0->Ok_0,
            frame,
            d,
        ),
{
    let anchor = p_picture_encoded(
        bits,
        frame,
        reference,
        plan.params,
        temporal_reference,
        plan.scale,
        plan.forward_f_code,
        fdct,
        idct,
    ).0->Ok_0;
    assert forall|k: ColourComponent, x: int, y: int| #[trigger]
        frame.plane(k).has(x, y) implies anchor.plane(k).has(x, y) && -d <= anchor.plane(k).at(
        x,
        y,
    ) - frame.plane(k).at(x, y) <= d by {
        law_p_picture_is_near_source(
            bits,
            frame,
            reference,
            plan.params,
            temporal_reference,
            plan.scale,
            plan.forward_f_code,
            d,
            fdct,
            idct,
            k,
            x,
            y,
        );
    }
}

// ---------------------------------------------------------------------------
// Decoding what was encoded
// ---------------------------------------------------------------------------

/// A decoder that is given the bytes of an encoded I-picture shows what the picture was
/// made of.
pub proof fn law_decoded_intra_picture_is_near_source<
    D: Fn([[i16; 8]; 8]) -> [[i32; 8]; 8],
    F: Fn([[i32; 8]; 8]) -> [[i16; 8]; 8],
>(
    before: Seq<bool>,
    frame: FrameContents,
    params: Mpeg1PictureParams,
    temporal_reference: u16,
    scale: u8,
    picture: Seq<u8>,
    d: int,
    fdct: D,
    idct: F,
    k: ColourComponent,
    x: int,
    y: int,
)
    requires
        encodable(params),
        1 <= params.width,
        params.height <= 2800,
        macroblocks_addressable(params),
        before.len() % 8 == 0,
        frame.width == params.width,
        frame.height == params.height,
        sized(frame, params.width as int, params.height as int, ChromaFormat::Yuv420),
        intra_comes_back(fdct, idct, scale, params.intra_quant, d),
        frame.plane(k).has(x, y),
        ({
            let bits = intra_picture_encoded(
                before,
                frame,
                params,
                temporal_reference,
                scale,
                fdct,
                idct,
            ).1;
            bits_of(picture) == bits.subrange(before.len() as int, bits.len() as int)
        }),
    ensures
        ({
            let decoded = intra_decoded(picture, params, idct);
            &&& decoded is Ok
            &&& decoded->Ok_0.0.plane(k).has(x, y)
            &&& -d <= decoded->Ok_0.0.plane(k).at(x, y) - frame.plane(k).at(x, y) <= d
        }),
{
    law_intra_picture_is_near_source(
        before,
        frame,
        params,
        temporal_reference,
        scale,
        d,
        fdct,
        idct,
        k,
        x,
        y,
    );
    law_intra_picture_round_trip(
        before,
        frame,
        params,
        temporal_reference,
        scale,
        picture,
        fdct,
        idct,
    );
}

/// A decoder that is given the bytes of an encoded P-picture and its reference shows what
/// the picture was made of.
pub proof fn law_decoded_p_picture_is_near_source<
    D: Fn([[i16; 8]; 8]) -> [[i32; 8]; 8],
    F: Fn([[i32; 8]; 8]) -> [[i16; 8]; 8],
>(
    before: Seq<bool>,
    p: PSource,
    temporal_reference: u16,
    inter: Mpeg1InterParams,
    picture: Seq<u8>,
    d: int,
    fdct: D,
    idct: F,
    k: ColourComponent,
    x: int,
    y: int,
)
    requires
        encodable(p.params),
        1 <= p.params.width,
        p.params.height <= 2800,
        macroblocks_addressable(p.params),
        before.len() % 8 == 0,
        1 <= p.f_code <= 7,
        p_params(p, inter),
        sized(p.current, p.params.width as int, p.params.height as int, ChromaFormat::Yuv420),
        intra_comes_back(fdct, idct, p.scale, p.params.intra_quant, d),
        non_intra_comes_back(fdct, idct, p.scale, p.params.non_intra_quant, d),
        p.current.plane(k).has(x, y),
        ({
            let bits = p_picture_encoded(
                before,
                p.current,
                p.reference,
                p.params,
                temporal_reference,
                p.scale,
                p.f_code,
                fdct,
                idct,
            ).1;
            bits_of(picture) == bits.subrange(before.len() as int, bits.len() as int)
        }),
    ensures
        ({
            let decoded = inter_decoded(picture, inter, forward_only(p.reference), idct);
            &&& decoded is Ok
            &&& decoded->Ok_0.0.plane(k).has(x, y)
            &&& -d <= decoded->Ok_0.0.plane(k).at(x, y) - p.current.plane(k).at(x, y) <= d
        }),
{
    law_p_picture_is_near_source(
        before,
        p.current,
        p.reference,
        p.params,
        temporal_reference,
        p.scale,
        p.f_code,
        d,
        fdct,
        idct,
        k,
        x,
        y,
    );
    law_p_picture_round_trip(before, p, temporal_reference, inter, picture, fdct, idct);
}

/// A decoder that is given the bytes of an encoded B-picture and its two anchors shows
/// what the picture was made of.
pub proof fn law_decoded_b_picture_is_near_source<
    D: Fn([[i16; 8]; 8]) -> [[i32; 8]; 8],
    F: Fn([[i32; 8]; 8]) -> [[i16; 8]; 8],
>(
    before: Seq<bool>,
    b: BSource,
    temporal_reference: u16,
    inter: Mpeg1InterParams,
    picture: Seq<u8>,
    d: int,
    fdct: D,
    idct: F,
    k: ColourComponent,
    x: int,
    y: int,
)
    requires
        encodable(b.params),
        1 <= b.params.width,
        b.params.height <= 2800,
        macroblocks_addressable(b.params),
        before.len() % 8 == 0,
        b_params(b, inter),
        sized(b.current, b.params.width as int, b.params.height as int, ChromaFormat::Yuv420),
        non_intra_comes_back(fdct, idct, b.scale, b.params.non_intra_quant, d),
        b.current.plane(k).has(x, y),
        ({
            let (res, bits) = b_picture_encoded(
                before,
                b.current,
                b.anchors,
                b.params,
                temporal_reference,
                b.scale,
                fdct,
            );
            &&& res is Ok
            &&& bits_of(picture) == bits.subrange(before.len() as int, bits.len() as int)
        }),
    ensures
        ({
            let refs = ReferenceContents {
                forward: Some(b.anchors.forward),
                backward: Some(b.anchors.backward),
            };
            let decoded = inter_decoded(picture, inter, refs, idct);
            &&& decoded is Ok
            &&& decoded->Ok_0.0.plane(k).has(x, y)
            &&& -d <= decoded->Ok_0.0.plane(k).at(x, y) - b.current.plane(k).at(x, y) <= d
        }),
{
    let frame = zero_frame(b.params.width as int, b.params.height as int, ChromaFormat::Yuv420);
    crate::frame_assembly::lemma_zero_frame_wf(
        b.params.width as int,
        b.params.height as int,
        ChromaFormat::Yuv420,
    );
    law_b_picture_is_near_source(
        b,
        blocks_of_16(b.params.height as int),
        frame,
        d,
        fdct,
        idct,
        k,
        x,
        y,
    );
    law_b_picture_round_trip(before, b, temporal_reference, inter, picture, fdct, idct);
}

} // verus!
