//! MPEG-1 encoding: intra, predicted and bidirectional pictures, and whole
//! sequences of them.

use crate::arith::{blocks_of_16, clamp_int, div_ceil_16, trunc_div};
use crate::bits::{value_bits, writer_bits, zero_padded};
use crate::block::{is_function, value_of};
use crate::coded_block_pattern::{cbp_bits, encode_cbp420};
use crate::dct_coeff::{encode_mpeg1_coeff, mpeg1_coeff_bits};
use crate::dequantize::{
    dc_base, dc_base_of, dequantize_intra_block, dequantize_non_intra_block, dequantized_intra,
    finalise_intra_macroblock, levels_fit, non_intra_block, scale_valid, IntraDcPredictors,
};
use crate::error::{Error, Result};
use crate::forward_quant::{
    intra_ac_levels, mpeg1_forward_quantise_intra_ac, mpeg1_forward_quantise_non_intra,
    non_intra_levels,
};
use crate::frame_assembly::{
    block_placement, component_extent, frame_with_block, macroblock_addressable, place_intra_block,
    placement_of, saturated_samples, zero_frame, BlockPlacement, FrameBuffer, FrameContents,
};
use crate::inter_reconstruction::{
    component_slice, extent, frame_with_blocks, plane_of_component, planes_view,
    predict_frame_macroblock_planes, predicted_planes, write_inter_block, zero_residual,
    FrameMotion, MacroblockPlanes, MotionVectorPel, ReferenceContents, ReferenceFrames,
};
use crate::macroblock_source::{
    activity, gather_block, gather_residual, intra_activity, raw_block, residual_block,
};
use crate::motion_estimation::{
    best_vector, estimate_forward_mv, forward_motion, forward_only, law_search_stays_in_range,
    luma_difference, luma_sad, max_search_range, search_range_of, vector_cost,
    vector_sad,
};
use crate::motion_vector::{code_step, component_bits, encode_motion_component};
use crate::mpeg1_block_decoder::{
    dc_component_for, first_level, intra_bits, intra_block_kind, kind_of, mpeg1_levels,
    next_levels_bits, non_intra_bits,
};
use crate::mpeg1_picture::Mpeg1PictureParams;
use crate::mpeg1_reconstruct::in_vector_range;
use crate::mpeg2_block_dc::encode_intra_dc;
use crate::mpeg2_dct_coeff::{encode_end_of_block, CoefficientPosition, TableSelection};
use crate::p_picture_encoder::{lemma_zero_ok, wrap_delta};
use crate::pmv::vector_range;
use crate::picture::ChromaFormat;
use crate::picture_header::PictureCodingType;
use crate::slice_motion::wrapped;
use crate::gop_header::{
    gop_bits, nominal_rate, time_of, write_gop_header, Mpeg2Gop, TimeCode, ERR_PICTURE_RATE,
};
use crate::mpeg1_stream_writer::{
    constrained, constrained_parameters_admissible, sequence_header_bits,
    write_mpeg1_sequence_header, Mpeg1SequenceParams,
};
use crate::stream_writer::{
    picture_header_bits, slice_header_bits, write_picture_header, write_slice_header,
};
use oxideav_core::bits::BitWriter;
use vstd::prelude::*;

verus! {

pub const ERR_ENCODER_SCALE: &'static str =
    "mpeg1 encoder: quantizer_scale outside 1..=31 (§2.4.3.6)";

pub const ERR_ENCODER_F_CODE: &'static str = "mpeg1 encoder: f_code outside 1..=7 (§2.4.3.4)";

pub const ERR_INTRA_SIZE: &'static str =
    "encode_mpeg1_intra_picture: frame dimensions do not match params";

pub open spec fn scale_checked(code: u8) -> Result<()> {
    if scale_valid(code) {
        Ok(())
    } else {
        Err(Error::InvalidBitstream(ERR_ENCODER_SCALE))
    }
}

fn check_quantizer_scale(quantizer_scale_code: u8) -> (res: Result<()>)
    ensures
        res == scale_checked(quantizer_scale_code),
{
    if quantizer_scale_code >= 1 && quantizer_scale_code <= 31 {
        Ok(())
    } else {
        Err(Error::InvalidBitstream(ERR_ENCODER_SCALE))
    }
}

pub open spec fn f_code_checked(f_code: u8) -> Result<()> {
    if 1 <= f_code <= 7 {
        Ok(())
    } else {
        Err(Error::InvalidBitstream(ERR_ENCODER_F_CODE))
    }
}

fn check_f_code(f_code: u8) -> (res: Result<()>)
    ensures
        res == f_code_checked(f_code),
{
    if f_code >= 1 && f_code <= 7 {
        Ok(())
    } else {
        Err(Error::InvalidBitstream(ERR_ENCODER_F_CODE))
    }
}

// ---------------------------------------------------------------------------
// Levels
// ---------------------------------------------------------------------------

/// Writes the levels from entry `from` on, where `last` is the index of the level
/// before, and the end of block.
fn write_next_levels(bw: &mut BitWriter, dct_zz: &[i32; 64], last: usize, from: usize)
    requires
        mpeg1_levels(dct_zz@),
        last < from <= 64,
    ensures
        writer_bits(*final(bw)) == writer_bits(*old(bw)) + next_levels_bits(
            dct_zz@,
            last as int,
            from as int,
        ),
{
    let ghost whole = writer_bits(*bw) + next_levels_bits(dct_zz@, last as int, from as int);
    let mut prev: usize = last;
    let mut j: usize = from;
    while j < 64
        invariant
            prev < j <= 64,
            mpeg1_levels(dct_zz@),
            writer_bits(*bw) + next_levels_bits(dct_zz@, prev as int, j as int) == whole,
        decreases 64 - j,
    {
        let level = dct_zz[j];
        assert(-255 <= dct_zz@[j as int] <= 255);
        if level != 0 {
            let ghost before = writer_bits(*bw);
            let run = (j - prev - 1) as u8;
            encode_mpeg1_coeff(bw, CoefficientPosition::Next, run, level as i16);
            proof {
                let head = mpeg1_coeff_bits(
                    CoefficientPosition::Next,
                    j - prev - 1,
                    level as int,
                );
                let tail = next_levels_bits(dct_zz@, j as int, j + 1);
                assert(before + (head + tail) =~= (before + head) + tail);
            }
            prev = j;
        }
        j += 1;
    }
    encode_end_of_block(bw, TableSelection::TableZero);
}

/// Writes the levels of a non-intra block.
pub fn write_non_intra_coefficients(bw: &mut BitWriter, dct_zz: &[i32; 64])
    requires
        mpeg1_levels(dct_zz@),
    ensures
        writer_bits(*final(bw)) == writer_bits(*old(bw)) + non_intra_bits(dct_zz@),
{
    let mut j: usize = 0;
    while j < 64
        invariant
            j <= 64,
            mpeg1_levels(dct_zz@),
            writer_bits(*bw) == writer_bits(*old(bw)),
            first_level(dct_zz@, j as int) == first_level(dct_zz@, 0),
        decreases 64 - j,
    {
        let level = dct_zz[j];
        assert(-255 <= dct_zz@[j as int] <= 255);
        if level != 0 {
            let ghost before = writer_bits(*bw);
            encode_mpeg1_coeff(bw, CoefficientPosition::First, j as u8, level as i16);
            write_next_levels(bw, dct_zz, j, j + 1);
            assert(writer_bits(*bw) =~= before + non_intra_bits(dct_zz@));
            return;
        }
        j += 1;
    }
    encode_end_of_block(bw, TableSelection::TableZero);
}

/// Writes the levels of an intra block after its first.
pub fn write_intra_ac_coefficients(bw: &mut BitWriter, dct_zz: &[i32; 64])
    requires
        mpeg1_levels(dct_zz@),
    ensures
        writer_bits(*final(bw)) == writer_bits(*old(bw)) + next_levels_bits(dct_zz@, 0, 1),
{
    write_next_levels(bw, dct_zz, 0, 1);
}

// ---------------------------------------------------------------------------
// Intra macroblocks
// ---------------------------------------------------------------------------

/// What the encoding of intra blocks works on: the bits written, the frame that a
/// decoder has, and its DC predictions.
pub struct IntraEncoding {
    pub bits: Seq<bool>,
    pub recon: FrameContents,
    pub dc: IntraDcPredictors,
}

/// What the encoding of a macroblock depends on.
pub struct MacroblockSource {
    pub current: FrameContents,
    pub params: Mpeg1PictureParams,
    pub scale: u8,
    pub mb_col: int,
    pub mb_row: int,
}

impl MacroblockSource {
    pub open spec fn address(self) -> int {
        self.mb_row * blocks_of_16(self.params.width as int) + self.mb_col
    }

    pub open spec fn placement(self, i: int) -> BlockPlacement {
        placement_of(i, ChromaFormat::Yuv420, self.mb_col, self.mb_row, false)
    }
}

pub open spec fn source_of(
    current: FrameContents,
    params: Mpeg1PictureParams,
    scale: u8,
    mb_col: int,
    mb_row: int,
) -> MacroblockSource {
    MacroblockSource { current, params, scale, mb_col, mb_row }
}

/// The transformed samples of block `i`.
pub open spec fn transformed<D: Fn([[i16; 8]; 8]) -> [[i32; 8]; 8]>(
    src: MacroblockSource,
    i: int,
    fdct: D,
) -> [[i32; 8]; 8] {
    let p = src.placement(i);
    value_of(fdct, raw_block(src.current.plane(p.component), p.base_x as int, p.base_y as int))
}

/// The DC difference that brings the prediction `base` as near to the target as a
/// difference can.
pub open spec fn dc_difference(f00: int, base: int) -> int {
    clamp_int(trunc_div(f00 + 4, 8) - trunc_div(base, 8), -255, 255)
}

/// The levels of block `i` of an intra macroblock.
pub open spec fn intra_levels<D: Fn([[i16; 8]; 8]) -> [[i32; 8]; 8]>(
    src: MacroblockSource,
    i: int,
    dc: IntraDcPredictors,
    fdct: D,
) -> Seq<i32> {
    let f = transformed(src, i, fdct);
    let base = dc_base_of(kind_of(i as u8)->Ok_0, dc, src.address() as i32);
    intra_ac_levels(f, src.scale, src.params.intra_quant).update(
        0,
        dc_difference(f[0][0] as int, base as int) as i32,
    )
}

/// The encoding after block `i` of an intra macroblock.
#[verifier::opaque]
pub open spec fn intra_block_encoded<
    D: Fn([[i16; 8]; 8]) -> [[i32; 8]; 8],
    F: Fn([[i32; 8]; 8]) -> [[i16; 8]; 8],
>(src: MacroblockSource, i: int, st: IntraEncoding, fdct: D, idct: F) -> (
    Result<()>,
    IntraEncoding,
) {
    let dct_zz = intra_levels(src, i, st.dc, fdct);
    let bits = st.bits + intra_bits(i, dct_zz);
    let (recon, dc) = dequantized_intra(
        dct_zz,
        src.scale,
        src.params.intra_quant,
        kind_of(i as u8)->Ok_0,
        st.dc,
        src.address() as i32,
    );
    match recon {
        Err(e) => (Err(e), (IntraEncoding { bits, dc, ..st })),
        Ok(recon) => (
            Ok(()),
            (IntraEncoding {
                bits,
                recon: frame_with_block(
                    st.recon,
                    src.placement(i),
                    saturated_samples(value_of(idct, recon)),
                ),
                dc,
            }),
        ),
    }
}

/// The encoding after the first `n` blocks of an intra macroblock, or up to the
/// first that cannot be reconstructed.
pub open spec fn intra_blocks_encoded<
    D: Fn([[i16; 8]; 8]) -> [[i32; 8]; 8],
    F: Fn([[i32; 8]; 8]) -> [[i16; 8]; 8],
>(src: MacroblockSource, n: int, st: IntraEncoding, fdct: D, idct: F) -> (
    Result<()>,
    IntraEncoding,
)
    decreases n,
{
    if n <= 0 {
        (Ok(()), st)
    } else {
        let (res, before) = intra_blocks_encoded(src, n - 1, st, fdct, idct);
        match res {
            Err(e) => (Err(e), before),
            Ok(_) => intra_block_encoded(src, n - 1, before, fdct, idct),
        }
    }
}

/// The encoding after an intra macroblock.
pub open spec fn intra_macroblock_encoded<
    D: Fn([[i16; 8]; 8]) -> [[i32; 8]; 8],
    F: Fn([[i32; 8]; 8]) -> [[i16; 8]; 8],
>(src: MacroblockSource, st: IntraEncoding, fdct: D, idct: F) -> (Result<()>, IntraEncoding) {
    let (res, after) = intra_blocks_encoded(src, 6, st, fdct, idct);
    match res {
        Err(e) => (Err(e), after),
        Ok(_) => (
            Ok(()),
            (IntraEncoding { dc: after.dc.after_macroblock(src.address() as i32), ..after }),
        ),
    }
}

/// Whether a macroblock can be located and addressed.
pub open spec fn source_ok(src: MacroblockSource) -> bool {
    &&& macroblock_addressable(src.mb_col, src.mb_row)
    &&& 0 <= src.address() <= i32::MAX
}

#[verifier::rlimit(40)]
fn encode_intra_block<
    D: Fn([[i16; 8]; 8]) -> [[i32; 8]; 8],
    F: Fn([[i32; 8]; 8]) -> [[i16; 8]; 8],
>(
    bw: &mut BitWriter,
    current: &FrameBuffer,
    recon: &mut FrameBuffer,
    i: u8,
    mb_col: usize,
    mb_row: usize,
    quantizer_scale: u8,
    params: &Mpeg1PictureParams,
    predictors: &mut IntraDcPredictors,
    address: i32,
    fdct: &D,
    idct: &F,
) -> (res: Result<()>)
    requires
        i < 6,
        is_function(*fdct),
        is_function(*idct),
        ({
            let src = source_of(
                current@,
                *params,
                quantizer_scale,
                mb_col as int,
                mb_row as int,
            );
            source_ok(src) && address == src.address()
        }),
    ensures
        ({
            let src = source_of(
                current@,
                *params,
                quantizer_scale,
                mb_col as int,
                mb_row as int,
            );
            let st = (IntraEncoding {
                bits: writer_bits(*old(bw)),
                recon: old(recon)@,
                dc: *old(predictors),
            });
            (
                res,
                (IntraEncoding {
                    bits: writer_bits(*final(bw)),
                    recon: final(recon)@,
                    dc: *final(predictors),
                }),
            ) == intra_block_encoded(src, i as int, st, *fdct, *idct)
        }),
{
    proof {
        reveal(intra_block_encoded);
    }
    let placement = match block_placement(
        i as usize,
        ChromaFormat::Yuv420,
        mb_col,
        mb_row,
        false,
    ) {
        Some(p) => p,
        None => {
            return Ok(());
        },
    };
    let plane = plane_of_component(current, placement.component);
    let raw = gather_block(plane, placement.base_x, placement.base_y);
    let f = fdct(raw);
    assert(call_ensures(*fdct, (raw,), f));
    let mut dct_zz = mpeg1_forward_quantise_intra_ac(&f, quantizer_scale, &params.intra_quant);
    let ghost ac = dct_zz@;
    let kind = intra_block_kind(i)?;
    let base = dc_base(kind, predictors, address);
    let target: i64 = (f[0][0] as i64 + 4) / 8;
    let wide: i64 = target - (base / 8) as i64;
    let diff: i32 = if wide < -255 {
        -255
    } else if wide > 255 {
        255
    } else {
        wide as i32
    };
    dct_zz[0] = diff;
    assert(dct_zz@ =~= ac.update(0, diff));
    let ghost before = writer_bits(*bw);
    encode_intra_dc(bw, dc_component_for(i as usize), diff);
    write_intra_ac_coefficients(bw, &dct_zz);
    assert(writer_bits(*bw) =~= before + intra_bits(i as int, dct_zz@));
    assert(levels_fit(dct_zz@));
    let dct_recon = dequantize_intra_block(
        &dct_zz,
        quantizer_scale,
        &params.intra_quant,
        kind,
        predictors,
        address,
    )?;
    let f_pel = idct(dct_recon);
    assert(call_ensures(*idct, (dct_recon,), f_pel));
    place_intra_block(recon, placement, &f_pel);
    Ok(())
}

/// Writes the blocks of an intra macroblock, and puts what a decoder makes of them
/// into `recon`. `fdct` and `idct` are the transform and its inverse.
pub fn encode_intra_macroblock<
    D: Fn([[i16; 8]; 8]) -> [[i32; 8]; 8],
    F: Fn([[i32; 8]; 8]) -> [[i16; 8]; 8],
>(
    bw: &mut BitWriter,
    current: &FrameBuffer,
    recon: &mut FrameBuffer,
    mb_col: usize,
    mb_row: usize,
    quantizer_scale: u8,
    params: &Mpeg1PictureParams,
    predictors: &mut IntraDcPredictors,
    address: i32,
    fdct: &D,
    idct: &F,
) -> (res: Result<()>)
    requires
        is_function(*fdct),
        is_function(*idct),
        ({
            let src = source_of(
                current@,
                *params,
                quantizer_scale,
                mb_col as int,
                mb_row as int,
            );
            source_ok(src) && address == src.address()
        }),
    ensures
        ({
            let src = source_of(
                current@,
                *params,
                quantizer_scale,
                mb_col as int,
                mb_row as int,
            );
            let st = (IntraEncoding {
                bits: writer_bits(*old(bw)),
                recon: old(recon)@,
                dc: *old(predictors),
            });
            (
                res,
                (IntraEncoding {
                    bits: writer_bits(*final(bw)),
                    recon: final(recon)@,
                    dc: *final(predictors),
                }),
            ) == intra_macroblock_encoded(src, st, *fdct, *idct)
        }),
{
    let ghost src = source_of(
        current@,
        *params,
        quantizer_scale,
        mb_col as int,
        mb_row as int,
    );
    let ghost st = IntraEncoding {
        bits: writer_bits(*bw),
        recon: recon@,
        dc: *predictors,
    };
    let mut i: u8 = 0;
    while i < 6
        invariant
            i <= 6,
            is_function(*fdct),
            is_function(*idct),
            src == source_of(
                current@,
                *params,
                quantizer_scale,
                mb_col as int,
                mb_row as int,
            ),
            source_ok(src),
            address == src.address(),
            st == (IntraEncoding {
                bits: writer_bits(*old(bw)),
                recon: old(recon)@,
                dc: *old(predictors),
            }),
            intra_blocks_encoded(src, i as int, st, *fdct, *idct) == (
                Ok::<(), Error>(()),
                (IntraEncoding { bits: writer_bits(*bw), recon: recon@, dc: *predictors }),
            ),
        decreases 6 - i,
    {
        let done = encode_intra_block(
            bw,
            current,
            recon,
            i,
            mb_col,
            mb_row,
            quantizer_scale,
            params,
            predictors,
            address,
            fdct,
            idct,
        );
        proof {
            lemma_intra_stops(src, i + 1, 6, st, *fdct, *idct);
        }
        done?;
        i += 1;
    }
    finalise_intra_macroblock(predictors, address);
    Ok(())
}

/// Blocks after one that cannot be reconstructed change nothing.
pub proof fn lemma_intra_stops<
    D: Fn([[i16; 8]; 8]) -> [[i32; 8]; 8],
    F: Fn([[i32; 8]; 8]) -> [[i16; 8]; 8],
>(src: MacroblockSource, k: int, n: int, st: IntraEncoding, fdct: D, idct: F)
    requires
        0 <= k <= n,
    ensures
        intra_blocks_encoded(src, k, st, fdct, idct).0 is Err ==> intra_blocks_encoded(
            src,
            n,
            st,
            fdct,
            idct,
        ) == intra_blocks_encoded(src, k, st, fdct, idct),
    decreases n - k,
{
    if k < n {
        lemma_intra_stops(src, k, n - 1, st, fdct, idct);
    }
}

// ---------------------------------------------------------------------------
// I-pictures
// ---------------------------------------------------------------------------

/// The encoding after the first `n` macroblocks of a row of an I-picture: each has
/// an increment of 1 and the type without a quantiser scale.
pub open spec fn intra_row_encoded<
    D: Fn([[i16; 8]; 8]) -> [[i32; 8]; 8],
    F: Fn([[i32; 8]; 8]) -> [[i16; 8]; 8],
>(
    current: FrameContents,
    params: Mpeg1PictureParams,
    scale: u8,
    mb_row: int,
    n: int,
    st: IntraEncoding,
    fdct: D,
    idct: F,
) -> (Result<()>, IntraEncoding)
    decreases n,
{
    if n <= 0 {
        (Ok(()), st)
    } else {
        let (res, before) = intra_row_encoded(
            current,
            params,
            scale,
            mb_row,
            n - 1,
            st,
            fdct,
            idct,
        );
        match res {
            Err(e) => (Err(e), before),
            Ok(_) => intra_macroblock_encoded(
                source_of(current, params, scale, n - 1, mb_row),
                (IntraEncoding { bits: before.bits.push(true).push(true), ..before }),
                fdct,
                idct,
            ),
        }
    }
}

/// The bits and the frame after the first `n` slices of an I-picture, one for each
/// row.
pub open spec fn intra_rows_encoded<
    D: Fn([[i16; 8]; 8]) -> [[i32; 8]; 8],
    F: Fn([[i32; 8]; 8]) -> [[i16; 8]; 8],
>(
    current: FrameContents,
    params: Mpeg1PictureParams,
    scale: u8,
    n: int,
    bits: Seq<bool>,
    recon: FrameContents,
    fdct: D,
    idct: F,
) -> (Result<()>, Seq<bool>, FrameContents)
    decreases n,
{
    if n <= 0 {
        (Ok(()), bits, recon)
    } else {
        let (res, b, r) = intra_rows_encoded(
            current,
            params,
            scale,
            n - 1,
            bits,
            recon,
            fdct,
            idct,
        );
        match res {
            Err(e) => (Err(e), b, r),
            Ok(_) => {
                let (row, after) = intra_row_encoded(
                    current,
                    params,
                    scale,
                    n - 1,
                    blocks_of_16(params.width as int),
                    (IntraEncoding {
                        bits: b + slice_header_bits(n - 1, scale),
                        recon: r,
                        dc: IntraDcPredictors::spec_at_slice_start(),
                    }),
                    fdct,
                    idct,
                );
                match row {
                    Err(e) => (Err(e), after.bits, after.recon),
                    Ok(_) => (Ok(()), zero_padded(after.bits), after.recon),
                }
            },
        }
    }
}

/// Whether the macroblocks of a picture can be located and addressed, and its rows
/// numbered.
pub open spec fn encodable(params: Mpeg1PictureParams) -> bool {
    let w = blocks_of_16(params.width as int);
    let h = blocks_of_16(params.height as int);
    &&& crate::frame_assembly::frame_fits(params.width as int, params.height as int)
    &&& w * 16 + 16 <= usize::MAX
    &&& h * 16 + 16 <= usize::MAX
    &&& h <= 0xFFFF_0000
    &&& w * h <= i32::MAX
}

proof fn lemma_source_ok(
    current: FrameContents,
    params: Mpeg1PictureParams,
    scale: u8,
    mb_col: int,
    mb_row: int,
)
    requires
        encodable(params),
        0 <= mb_col < blocks_of_16(params.width as int),
        0 <= mb_row < blocks_of_16(params.height as int),
    ensures
        source_ok(source_of(current, params, scale, mb_col, mb_row)),
        0 <= mb_row * blocks_of_16(params.width as int) <= i32::MAX,
{
    let w = blocks_of_16(params.width as int);
    let h = blocks_of_16(params.height as int);
    assert(0 <= mb_row * w && mb_row * w + mb_col < w * h) by (nonlinear_arith)
        requires
            0 <= mb_col < w,
            0 <= mb_row < h,
    ;
}

fn encode_intra_row<
    D: Fn([[i16; 8]; 8]) -> [[i32; 8]; 8],
    F: Fn([[i32; 8]; 8]) -> [[i16; 8]; 8],
>(
    bw: &mut BitWriter,
    current: &FrameBuffer,
    recon: &mut FrameBuffer,
    params: &Mpeg1PictureParams,
    quantizer_scale: u8,
    mb_row: usize,
    fdct: &D,
    idct: &F,
) -> (res: Result<()>)
    requires
        is_function(*fdct),
        is_function(*idct),
        encodable(*params),
        mb_row < blocks_of_16(params.height as int),
    ensures
        ({
            let (want, after) = intra_row_encoded(
                current@,
                *params,
                quantizer_scale,
                mb_row as int,
                blocks_of_16(params.width as int),
                (IntraEncoding {
                    bits: writer_bits(*old(bw)),
                    recon: old(recon)@,
                    dc: IntraDcPredictors::spec_at_slice_start(),
                }),
                *fdct,
                *idct,
            );
            &&& res == want
            &&& writer_bits(*final(bw)) == after.bits
            &&& final(recon)@ == after.recon
        }),
{
    let mut predictors = IntraDcPredictors::at_slice_start();
    let mb_w = params.mb_width();
    let ghost st = IntraEncoding { bits: writer_bits(*bw), recon: recon@, dc: predictors };
    let mut mb_col: usize = 0;
    while mb_col < mb_w
        invariant
            mb_col <= mb_w,
            mb_w == blocks_of_16(params.width as int),
            is_function(*fdct),
            is_function(*idct),
            encodable(*params),
            mb_row < blocks_of_16(params.height as int),
            st == (IntraEncoding {
                bits: writer_bits(*old(bw)),
                recon: old(recon)@,
                dc: IntraDcPredictors::spec_at_slice_start(),
            }),
            intra_row_encoded(
                current@,
                *params,
                quantizer_scale,
                mb_row as int,
                mb_col as int,
                st,
                *fdct,
                *idct,
            ) == (
                Ok::<(), Error>(()),
                (IntraEncoding { bits: writer_bits(*bw), recon: recon@, dc: predictors }),
            ),
        decreases mb_w - mb_col,
    {
        proof {
            lemma_source_ok(
                current@,
                *params,
                quantizer_scale,
                mb_col as int,
                mb_row as int,
            );
        }
        let address = (mb_row * mb_w + mb_col) as i32;
        bw.write_bit(true);
        bw.write_bit(true);
        let done = encode_intra_macroblock(
            bw,
            current,
            recon,
            mb_col,
            mb_row,
            quantizer_scale,
            params,
            &mut predictors,
            address,
            fdct,
            idct,
        );
        proof {
            lemma_intra_row_stops(
                current@,
                *params,
                quantizer_scale,
                mb_row as int,
                mb_col + 1,
                mb_w as int,
                st,
                *fdct,
                *idct,
            );
        }
        done?;
        mb_col += 1;
    }
    Ok(())
}

pub proof fn lemma_intra_row_stops<
    D: Fn([[i16; 8]; 8]) -> [[i32; 8]; 8],
    F: Fn([[i32; 8]; 8]) -> [[i16; 8]; 8],
>(
    current: FrameContents,
    params: Mpeg1PictureParams,
    scale: u8,
    mb_row: int,
    k: int,
    n: int,
    st: IntraEncoding,
    fdct: D,
    idct: F,
)
    requires
        0 <= k <= n,
    ensures
        ({
            let at_k = intra_row_encoded(current, params, scale, mb_row, k, st, fdct, idct);
            at_k.0 is Err ==> intra_row_encoded(
                current,
                params,
                scale,
                mb_row,
                n,
                st,
                fdct,
                idct,
            ) == at_k
        }),
    decreases n - k,
{
    if k < n {
        lemma_intra_row_stops(current, params, scale, mb_row, k, n - 1, st, fdct, idct);
    }
}

pub proof fn lemma_intra_rows_stop<
    D: Fn([[i16; 8]; 8]) -> [[i32; 8]; 8],
    F: Fn([[i32; 8]; 8]) -> [[i16; 8]; 8],
>(
    current: FrameContents,
    params: Mpeg1PictureParams,
    scale: u8,
    k: int,
    n: int,
    bits: Seq<bool>,
    recon: FrameContents,
    fdct: D,
    idct: F,
)
    requires
        0 <= k <= n,
    ensures
        ({
            let at_k = intra_rows_encoded(current, params, scale, k, bits, recon, fdct, idct);
            at_k.0 is Err ==> intra_rows_encoded(
                current,
                params,
                scale,
                n,
                bits,
                recon,
                fdct,
                idct,
            ) == at_k
        }),
    decreases n - k,
{
    if k < n {
        lemma_intra_rows_stop(current, params, scale, k, n - 1, bits, recon, fdct, idct);
    }
}

/// What encoding an I-picture gives: the bits, and the frame that a decoder has.
pub open spec fn intra_picture_encoded<
    D: Fn([[i16; 8]; 8]) -> [[i32; 8]; 8],
    F: Fn([[i32; 8]; 8]) -> [[i16; 8]; 8],
>(
    bits: Seq<bool>,
    frame: FrameContents,
    params: Mpeg1PictureParams,
    temporal_reference: u16,
    scale: u8,
    fdct: D,
    idct: F,
) -> (Result<FrameContents>, Seq<bool>) {
    if frame.width != params.width || frame.height != params.height {
        (Err(Error::InvalidBitstream(ERR_INTRA_SIZE)), bits)
    } else if let Err(e) = scale_checked(scale) {
        (Err(e), bits)
    } else {
        let (res, b, r) = intra_rows_encoded(
            frame,
            params,
            scale,
            blocks_of_16(params.height as int),
            zero_padded(
                bits + picture_header_bits(
                    temporal_reference,
                    PictureCodingType::Intra,
                    7,
                    7,
                ),
            ),
            zero_frame(params.width as int, params.height as int, ChromaFormat::Yuv420),
            fdct,
            idct,
        );
        match res {
            Err(e) => (Err(e), b),
            Ok(_) => (Ok(r), b),
        }
    }
}

/// Writes an I-picture, and returns the frame that a decoder makes of it. `fdct` and
/// `idct` are the transform and its inverse.
pub fn encode_mpeg1_intra_picture<
    D: Fn([[i16; 8]; 8]) -> [[i32; 8]; 8],
    F: Fn([[i32; 8]; 8]) -> [[i16; 8]; 8],
>(
    bw: &mut BitWriter,
    frame: &FrameBuffer,
    params: &Mpeg1PictureParams,
    temporal_reference: u16,
    quantizer_scale_code: u8,
    fdct: &D,
    idct: &F,
) -> (res: Result<FrameBuffer>)
    requires
        is_function(*fdct),
        is_function(*idct),
        encodable(*params),
    ensures
        ({
            let (want, bits) = intra_picture_encoded(
                writer_bits(*old(bw)),
                frame@,
                *params,
                temporal_reference,
                quantizer_scale_code,
                *fdct,
                *idct,
            );
            &&& writer_bits(*final(bw)) == bits
            &&& match res {
                Ok(recon) => want == Ok::<FrameContents, Error>(recon@),
                Err(e) => want == Err::<FrameContents, Error>(e),
            }
        }),
{
    if frame.width != params.width || frame.height != params.height {
        return Err(Error::InvalidBitstream(ERR_INTRA_SIZE));
    }
    check_quantizer_scale(quantizer_scale_code)?;
    write_picture_header(bw, temporal_reference, PictureCodingType::Intra, 7, 7);
    let mut recon = FrameBuffer::new(params.width, params.height, ChromaFormat::Yuv420);
    let ghost bits = writer_bits(*bw);
    let ghost start = recon@;
    let mb_h = mb_height(params);
    let mut mb_row: usize = 0;
    while mb_row < mb_h
        invariant
            mb_row <= mb_h,
            mb_h == blocks_of_16(params.height as int),
            is_function(*fdct),
            is_function(*idct),
            encodable(*params),
            bits == zero_padded(
                writer_bits(*old(bw)) + picture_header_bits(
                    temporal_reference,
                    PictureCodingType::Intra,
                    7,
                    7,
                ),
            ),
            start == zero_frame(params.width as int, params.height as int, ChromaFormat::Yuv420),
            frame@.width == params.width,
            frame@.height == params.height,
            scale_valid(quantizer_scale_code),
            intra_rows_encoded(
                frame@,
                *params,
                quantizer_scale_code,
                mb_row as int,
                bits,
                start,
                *fdct,
                *idct,
            ) == (Ok::<(), Error>(()), writer_bits(*bw), recon@),
        decreases mb_h - mb_row,
    {
        write_slice_header(bw, mb_row as u32, quantizer_scale_code);
        let done = encode_intra_row(
            bw,
            frame,
            &mut recon,
            params,
            quantizer_scale_code,
            mb_row,
            fdct,
            idct,
        );
        proof {
            lemma_intra_rows_stop(
                frame@,
                *params,
                quantizer_scale_code,
                mb_row + 1,
                mb_h as int,
                bits,
                start,
                *fdct,
                *idct,
            );
        }
        done?;
        bw.align_to_byte_zero();
        mb_row += 1;
    }
    Ok(recon)
}

/// How many rows of macroblocks a picture has.
fn mb_height(params: &Mpeg1PictureParams) -> (h: usize)
    ensures
        h == blocks_of_16(params.height as int),
{
    div_ceil_16(params.height)
}

// ---------------------------------------------------------------------------
// Residuals
// ---------------------------------------------------------------------------

/// Whether a block has a level.
pub open spec fn has_level(dct_zz: Seq<i32>) -> bool {
    first_level(dct_zz, 0) < 64
}

/// The residual that a decoder makes of levels; none where there is no level.
pub open spec fn decoded_residual<F: Fn([[i32; 8]; 8]) -> [[i16; 8]; 8]>(
    dct_zz: Seq<i32>,
    scale: u8,
    quant: [[u8; 8]; 8],
    idct: F,
) -> [[i16; 8]; 8] {
    if has_level(dct_zz) {
        value_of(idct, non_intra_block(dct_zz, scale, quant))
    } else {
        zero_residual()
    }
}

/// The levels of a residual, where it has any, and the residual that a decoder makes
/// of them.
#[derive(Clone, Copy)]
pub struct Mpeg1InterBlock {
    pub dct_zz: Option<[i32; 64]>,
    pub f_pel: [[i16; 8]; 8],
}

/// Whether a block holds levels and what a decoder makes of them.
pub open spec fn block_holds<F: Fn([[i32; 8]; 8]) -> [[i16; 8]; 8]>(
    b: Mpeg1InterBlock,
    levels: Seq<i32>,
    scale: u8,
    quant: [[u8; 8]; 8],
    idct: F,
) -> bool {
    &&& b.dct_zz is Some <==> has_level(levels)
    &&& b.dct_zz matches Some(zz) ==> zz@ == levels
    &&& b.f_pel == decoded_residual(levels, scale, quant, idct)
    &&& mpeg1_levels(levels)
}

fn any_level(dct_zz: &[i32; 64]) -> (b: bool)
    ensures
        b == has_level(dct_zz@),
{
    let mut j: usize = 0;
    while j < 64
        invariant
            j <= 64,
            first_level(dct_zz@, j as int) == first_level(dct_zz@, 0),
        decreases 64 - j,
    {
        if dct_zz[j] != 0 {
            return true;
        }
        j += 1;
    }
    false
}

/// Quantises a residual. `fdct` and `idct` are the transform and its inverse.
pub fn quantise_inter_block<
    D: Fn([[i16; 8]; 8]) -> [[i32; 8]; 8],
    F: Fn([[i32; 8]; 8]) -> [[i16; 8]; 8],
>(
    residual: &[[i16; 8]; 8],
    quantizer_scale: u8,
    non_intra_quant: &[[u8; 8]; 8],
    fdct: &D,
    idct: &F,
) -> (res: Result<Mpeg1InterBlock>)
    requires
        is_function(*fdct),
        is_function(*idct),
        scale_valid(quantizer_scale),
    ensures
        res is Ok,
        block_holds(
            res->Ok_0,
            non_intra_levels(value_of(*fdct, *residual), quantizer_scale, *non_intra_quant),
            quantizer_scale,
            *non_intra_quant,
            *idct,
        ),
{
    let f = fdct(*residual);
    assert(call_ensures(*fdct, (*residual,), f));
    let dct_zz = mpeg1_forward_quantise_non_intra(&f, quantizer_scale, non_intra_quant);
    if !any_level(&dct_zz) {
        let f_pel = [[0i16; 8]; 8];
        proof {
            crate::inter_reconstruction::lemma_zero_residual(f_pel);
        }
        return Ok(Mpeg1InterBlock { dct_zz: None, f_pel });
    }
    assert(levels_fit(dct_zz@));
    let dct_recon = dequantize_non_intra_block(&dct_zz, quantizer_scale, non_intra_quant)?;
    let f_pel = idct(dct_recon);
    assert(call_ensures(*idct, (dct_recon,), f_pel));
    Ok(Mpeg1InterBlock { dct_zz: Some(dct_zz), f_pel })
}

/// The residual of block `i` of a macroblock.
pub open spec fn source_residual(
    src: MacroblockSource,
    preds: MacroblockPlanes,
    i: int,
) -> [[i16; 8]; 8] {
    let p = src.placement(i);
    let (w, h) = component_extent(p.component, ChromaFormat::Yuv420);
    residual_block(
        src.current.plane(p.component),
        preds.plane(p.component),
        w,
        p.base_x as int,
        p.base_y as int,
        p.base_x - src.mb_col * w,
        p.base_y - src.mb_row * h,
    )
}

/// The levels of block `i` of a macroblock.
pub open spec fn residual_levels<D: Fn([[i16; 8]; 8]) -> [[i32; 8]; 8]>(
    src: MacroblockSource,
    preds: MacroblockPlanes,
    i: int,
    fdct: D,
) -> Seq<i32> {
    non_intra_levels(
        value_of(fdct, source_residual(src, preds, i)),
        src.scale,
        src.params.non_intra_quant,
    )
}

/// The levels of the six blocks of a macroblock.
pub open spec fn macroblock_levels<D: Fn([[i16; 8]; 8]) -> [[i32; 8]; 8]>(
    src: MacroblockSource,
    preds: MacroblockPlanes,
    fdct: D,
) -> Seq<Seq<i32>> {
    Seq::new(6, |i: int| residual_levels(src, preds, i, fdct))
}

/// The residuals that a decoder makes of the levels of a macroblock.
pub open spec fn decoded_residuals<F: Fn([[i32; 8]; 8]) -> [[i16; 8]; 8]>(
    levels: Seq<Seq<i32>>,
    scale: u8,
    quant: [[u8; 8]; 8],
    idct: F,
) -> Seq<[[i16; 8]; 8]> {
    Seq::new(6, |i: int| decoded_residual(levels[i], scale, quant, idct))
}

/// The pattern of the first `n` blocks, block 0 in the highest of six bits.
pub open spec fn pattern_of(levels: Seq<Seq<i32>>, n: int) -> int
    decreases n,
{
    if n <= 0 {
        0
    } else {
        pattern_of(levels, n - 1) + (if has_level(levels[n - 1]) {
            block_bit(n - 1)
        } else {
            0
        })
    }
}

/// The bit of block `i` in a pattern.
pub open spec fn block_bit(i: int) -> int {
    if i == 0 {
        32
    } else if i == 1 {
        16
    } else if i == 2 {
        8
    } else if i == 3 {
        4
    } else if i == 4 {
        2
    } else {
        1
    }
}

/// The bits of the coded ones among the first `n` blocks.
pub open spec fn coded_blocks_bits(levels: Seq<Seq<i32>>, n: int) -> Seq<bool>
    decreases n,
{
    if n <= 0 {
        Seq::empty()
    } else {
        coded_blocks_bits(levels, n - 1) + (if has_level(levels[n - 1]) {
            non_intra_bits(levels[n - 1])
        } else {
            Seq::empty()
        })
    }
}

/// The bits of the residuals of a macroblock: none where no block has a level, else
/// the pattern and the blocks.
pub open spec fn residual_bits(levels: Seq<Seq<i32>>) -> Seq<bool> {
    if pattern_of(levels, 6) == 0 {
        Seq::empty()
    } else {
        cbp_bits(pattern_of(levels, 6)) + coded_blocks_bits(levels, 6)
    }
}

proof fn lemma_pattern(levels: Seq<Seq<i32>>)
    ensures
        0 <= pattern_of(levels, 0) <= pattern_of(levels, 1) <= pattern_of(levels, 2) <= pattern_of(
            levels,
            3,
        ) <= pattern_of(levels, 4) <= pattern_of(levels, 5) <= pattern_of(levels, 6) <= 63,
{
    reveal_with_fuel(pattern_of, 7);
}

/// Quantises the residuals of a macroblock.
fn quantise_macroblock_residuals<
    D: Fn([[i16; 8]; 8]) -> [[i32; 8]; 8],
    F: Fn([[i32; 8]; 8]) -> [[i16; 8]; 8],
>(
    current: &FrameBuffer,
    preds: &(Vec<u8>, Vec<u8>, Vec<u8>),
    mb_col: usize,
    mb_row: usize,
    quantizer_scale: u8,
    params: &Mpeg1PictureParams,
    fdct: &D,
    idct: &F,
) -> (res: Result<(Vec<Mpeg1InterBlock>, u8)>)
    requires
        is_function(*fdct),
        is_function(*idct),
        scale_valid(quantizer_scale),
        macroblock_addressable(mb_col as int, mb_row as int),
        planes_view(*preds).wf(ChromaFormat::Yuv420),
    ensures
        res is Ok,
        ({
            let src = source_of(
                current@,
                *params,
                quantizer_scale,
                mb_col as int,
                mb_row as int,
            );
            let levels = macroblock_levels(src, planes_view(*preds), *fdct);
            let (blocks, cbp) = res->Ok_0;
            &&& cbp == pattern_of(levels, 6)
            &&& cbp < 64
            &&& blocks_hold(blocks@, levels, quantizer_scale, params.non_intra_quant, *idct)
        }),
{
    let ghost src = source_of(
        current@,
        *params,
        quantizer_scale,
        mb_col as int,
        mb_row as int,
    );
    let ghost levels = macroblock_levels(src, planes_view(*preds), *fdct);
    let mut blocks: Vec<Mpeg1InterBlock> = Vec::new();
    let mut cbp: u8 = 0;
    let mut bit: u8 = 32;
    let mut i: usize = 0;
    while i < 6
        invariant
            i <= 6,
            is_function(*fdct),
            is_function(*idct),
            scale_valid(quantizer_scale),
            macroblock_addressable(mb_col as int, mb_row as int),
            planes_view(*preds).wf(ChromaFormat::Yuv420),
            src == source_of(
                current@,
                *params,
                quantizer_scale,
                mb_col as int,
                mb_row as int,
            ),
            levels == macroblock_levels(src, planes_view(*preds), *fdct),
            i < 6 ==> bit == block_bit(i as int),
            cbp == pattern_of(levels, i as int),
            blocks@.len() == i,
            forall|k: int|
                0 <= k < i ==> block_holds(
                    #[trigger] blocks@[k],
                    levels[k],
                    quantizer_scale,
                    params.non_intra_quant,
                    *idct,
                ),
        decreases 6 - i,
    {
        let placement = match block_placement(i, ChromaFormat::Yuv420, mb_col, mb_row, false) {
            Some(p) => p,
            None => {
                return Ok((blocks, cbp));
            },
        };
        let c = placement.component;
        let (w, h) = extent(c, ChromaFormat::Yuv420);
        let pred = component_slice(preds, c);
        assert(mb_col * w <= mb_col * 16 && mb_row * h <= mb_row * 16) by (nonlinear_arith)
            requires
                0 <= mb_col,
                0 <= mb_row,
                w <= 16,
                h <= 16,
        ;
        assert(0 <= mb_col * w && 0 <= mb_row * h) by (nonlinear_arith);
        let local_x: usize = placement.base_x - mb_col * w;
        let local_y: usize = placement.base_y - mb_row * h;
        assert((local_y + 8) * w <= h * w) by (nonlinear_arith)
            requires
                local_y + 8 <= h,
                0 <= w,
        ;
        let residual = gather_residual(
            plane_of_component(current, c),
            pred,
            w,
            placement.base_x,
            placement.base_y,
            local_x,
            local_y,
        );
        assert(residual == source_residual(src, planes_view(*preds), i as int));
        let block = quantise_inter_block(
            &residual,
            quantizer_scale,
            &params.non_intra_quant,
            fdct,
            idct,
        )?;
        assert(levels[i as int] == residual_levels(src, planes_view(*preds), i as int, *fdct));
        proof {
            lemma_pattern(levels);
        }
        if block.dct_zz.is_some() {
            cbp = cbp + bit;
        }
        blocks.push(block);
        bit = bit / 2;
        i += 1;
    }
    proof {
        lemma_pattern(levels);
    }
    Ok((blocks, cbp))
}

/// Whether blocks hold the levels of a macroblock.
pub open spec fn blocks_hold<F: Fn([[i32; 8]; 8]) -> [[i16; 8]; 8]>(
    blocks: Seq<Mpeg1InterBlock>,
    levels: Seq<Seq<i32>>,
    scale: u8,
    quant: [[u8; 8]; 8],
    idct: F,
) -> bool {
    blocks.len() == 6 && forall|k: int|
        0 <= k < 6 ==> block_holds(#[trigger] blocks[k], levels[k], scale, quant, idct)
}

/// Writes the pattern and the coded blocks of a macroblock.
fn write_residuals<F: Fn([[i32; 8]; 8]) -> [[i16; 8]; 8]>(
    bw: &mut BitWriter,
    blocks: &Vec<Mpeg1InterBlock>,
    cbp: u8,
    Ghost(levels): Ghost<Seq<Seq<i32>>>,
    Ghost(scale): Ghost<u8>,
    Ghost(quant): Ghost<[[u8; 8]; 8]>,
    idct: &F,
)
    requires
        cbp == pattern_of(levels, 6),
        cbp < 64,
        blocks_hold(blocks@, levels, scale, quant, *idct),
    ensures
        writer_bits(*final(bw)) == writer_bits(*old(bw)) + residual_bits(levels),
{
    if cbp == 0 {
        assert(writer_bits(*bw) + Seq::<bool>::empty() =~= writer_bits(*bw));
        return;
    }
    let ghost start = writer_bits(*bw);
    encode_cbp420(bw, cbp);
    let ghost head = writer_bits(*bw);
    let mut i: usize = 0;
    assert(head + coded_blocks_bits(levels, 0) =~= head);
    while i < 6
        invariant
            i <= 6,
            blocks_hold(blocks@, levels, scale, quant, *idct),
            writer_bits(*bw) == head + coded_blocks_bits(levels, i as int),
        decreases 6 - i,
    {
        let ghost before = writer_bits(*bw);
        assert(block_holds(blocks@[i as int], levels[i as int], scale, quant, *idct));
        match &blocks[i].dct_zz {
            Some(zz) => {
                write_non_intra_coefficients(bw, zz);
            },
            None => {},
        }
        assert(writer_bits(*bw) =~= head + coded_blocks_bits(levels, i + 1));
        i += 1;
    }
    assert(writer_bits(*bw) =~= start + residual_bits(levels));
}

/// Puts prediction plus residual of a macroblock into `recon`.
pub fn reconstruct_inter_mb(
    recon: &mut FrameBuffer,
    mb_col: usize,
    mb_row: usize,
    preds: &(Vec<u8>, Vec<u8>, Vec<u8>),
    blocks: &Vec<Mpeg1InterBlock>,
)
    requires
        macroblock_addressable(mb_col as int, mb_row as int),
        planes_view(*preds).wf(ChromaFormat::Yuv420),
        blocks@.len() == 6,
    ensures
        final(recon)@ == frame_with_blocks(
            old(recon)@,
            planes_view(*preds),
            ChromaFormat::Yuv420,
            mb_col as int,
            mb_row as int,
            Seq::new(6, |i: int| blocks@[i].f_pel),
            6,
        ),
{
    let ghost f_pels = Seq::new(6, |i: int| blocks@[i].f_pel);
    let ghost start = recon@;
    let mut i: usize = 0;
    while i < 6
        invariant
            i <= 6,
            macroblock_addressable(mb_col as int, mb_row as int),
            planes_view(*preds).wf(ChromaFormat::Yuv420),
            blocks@.len() == 6,
            f_pels == Seq::new(6, |i: int| blocks@[i].f_pel),
            recon@ == frame_with_blocks(
                start,
                planes_view(*preds),
                ChromaFormat::Yuv420,
                mb_col as int,
                mb_row as int,
                f_pels,
                i as int,
            ),
        decreases 6 - i,
    {
        match block_placement(i, ChromaFormat::Yuv420, mb_col, mb_row, false) {
            Some(p) => {
                let f_pel = blocks[i].f_pel;
                assert(f_pel == f_pels[i as int]);
                write_inter_block(recon, preds, ChromaFormat::Yuv420, p, mb_col, mb_row, &f_pel);
            },
            None => {},
        }
        i += 1;
    }
}

// ---------------------------------------------------------------------------
// P-pictures
// ---------------------------------------------------------------------------

/// The bits of a vector: each component as its difference from the last vector,
/// wrapped into the range.
pub open spec fn vector_bits(v: MotionVectorPel, last: (i32, i32), f_code: u8) -> Seq<bool> {
    component_bits(wrapped(v.horizontal - last.0, f_code), f_code) + component_bits(
        wrapped(v.vertical - last.1, f_code),
        f_code,
    )
}

pub open spec fn vector_ok(v: (i32, i32), f_code: u8) -> bool {
    in_vector_range(v.0 as int, f_code) && in_vector_range(v.1 as int, f_code)
}

/// A component whose difference from the last can be decoded: the component itself,
/// or the last one where the difference would lie on the seam of the range, which a
/// decoder refuses.
pub open spec fn decodable_component(x: int, last: int, f_code: u8) -> int {
    if wrapped(x - last, f_code) == -16 * code_step(f_code) {
        last
    } else {
        x
    }
}

/// A vector whose difference from the last can be decoded.
pub open spec fn decodable_vector(
    v: MotionVectorPel,
    last: (i32, i32),
    f_code: u8,
) -> MotionVectorPel {
    MotionVectorPel {
        horizontal: decodable_component(v.horizontal as int, last.0 as int, f_code) as i32,
        vertical: decodable_component(v.vertical as int, last.1 as int, f_code) as i32,
    }
}

/// Keeps a vector, or its components from the last vector where they are needed.
fn keep_decodable(v: MotionVectorPel, last: (i32, i32), f_code: u8) -> (res: Result<
    MotionVectorPel,
>)
    requires
        1 <= f_code <= 7,
        vector_ok(last, f_code),
        vector_ok((v.horizontal, v.vertical), f_code),
    ensures
        res == Ok::<MotionVectorPel, Error>(decodable_vector(v, last, f_code)),
        vector_ok((res->Ok_0.horizontal, res->Ok_0.vertical), f_code),
{
    proof {
        vstd::arithmetic::power2::lemma2_to64();
    }
    let (low, _, _) = vector_range(f_code)?;
    let dx = wrap_delta(v.horizontal - last.0, f_code)?;
    let dy = wrap_delta(v.vertical - last.1, f_code)?;
    let horizontal = if dx == low {
        last.0
    } else {
        v.horizontal
    };
    let vertical = if dy == low {
        last.1
    } else {
        v.vertical
    };
    Ok(MotionVectorPel::new(horizontal, vertical))
}

/// Writes a vector, and makes it the last.
fn write_vector(bw: &mut BitWriter, v: MotionVectorPel, last: &mut (i32, i32), f_code: u8) -> (res:
    Result<()>)
    requires
        1 <= f_code <= 7,
        vector_ok(*old(last), f_code),
        vector_ok((v.horizontal, v.vertical), f_code),
    ensures
        res == Ok::<(), Error>(()),
        *final(last) == (v.horizontal, v.vertical),
        writer_bits(*final(bw)) == writer_bits(*old(bw)) + vector_bits(v, *old(last), f_code),
{
    proof {
        vstd::arithmetic::power2::lemma2_to64();
    }
    let ghost before = writer_bits(*bw);
    let dx = wrap_delta(v.horizontal - last.0, f_code)?;
    let dy = wrap_delta(v.vertical - last.1, f_code)?;
    encode_motion_component(bw, dx, f_code);
    encode_motion_component(bw, dy, f_code);
    assert(writer_bits(*bw) =~= before + vector_bits(v, *last, f_code));
    *last = (v.horizontal, v.vertical);
    Ok(())
}

/// What the encoding of a P-picture works on: besides the bits, the frame that a
/// decoder has and its DC predictions, the last vector.
pub struct PredictedEncoding {
    pub intra: IntraEncoding,
    pub last: (i32, i32),
}

/// How far the vectors of an `f_code` are searched.
pub open spec fn search_distance(f_code: u8) -> int {
    if search_range_of(f_code) < 16 {
        search_range_of(f_code)
    } else {
        16
    }
}

fn search_distance_of(f_code: u8) -> (r: i32)
    ensures
        r == search_distance(f_code),
        0 <= r <= 16,
        r <= search_range_of(f_code),
{
    let r = max_search_range(f_code);
    if r < 16 {
        r
    } else {
        16
    }
}

/// Whether a macroblock is better coded by itself: its prediction leaves much more
/// than its own mean does.
pub open spec fn prefers_intra(
    current: FrameContents,
    reference: FrameContents,
    mb_col: int,
    mb_row: int,
    v: MotionVectorPel,
) -> bool {
    vector_cost(current, reference, mb_col, mb_row, v) > 2 * activity(
        current.y,
        mb_col,
        mb_row,
    ) + 512
}

/// The bits of a predicted macroblock with one forward vector.
pub open spec fn predicted_bits(
    v: MotionVectorPel,
    last: (i32, i32),
    f_code: u8,
    levels: Seq<Seq<i32>>,
) -> Seq<bool> {
    seq![true] + (if pattern_of(levels, 6) != 0 {
        seq![true]
    } else {
        value_bits(0b001, 3)
    }) + vector_bits(v, last, f_code) + residual_bits(levels)
}

/// The encoding after a macroblock of a P-picture.
#[verifier::opaque]
pub open spec fn p_macroblock_encoded<
    D: Fn([[i16; 8]; 8]) -> [[i32; 8]; 8],
    F: Fn([[i32; 8]; 8]) -> [[i16; 8]; 8],
>(
    src: MacroblockSource,
    reference: FrameContents,
    f_code: u8,
    st: PredictedEncoding,
    fdct: D,
    idct: F,
) -> (Result<()>, PredictedEncoding) {
    let v = decodable_vector(
        best_vector(
            src.current,
            reference,
            src.mb_col,
            src.mb_row,
            search_distance(f_code),
        ),
        st.last,
        f_code,
    );
    if prefers_intra(src.current, reference, src.mb_col, src.mb_row, v) {
        let bits = st.intra.bits.push(true) + value_bits(0b0001_1, 5);
        let (res, after) = intra_macroblock_encoded(
            src,
            (IntraEncoding { bits, ..st.intra }),
            fdct,
            idct,
        );
        (
            res,
            (PredictedEncoding {
                intra: after,
                last: if res is Ok {
                    (0i32, 0i32)
                } else {
                    st.last
                },
            }),
        )
    } else {
        let preds = predicted_planes(
            forward_only(reference),
            forward_motion(v),
            ChromaFormat::Yuv420,
            src.mb_col,
            src.mb_row,
        );
        let levels = macroblock_levels(src, preds, fdct);
        (
            Ok(()),
            (PredictedEncoding {
                intra: IntraEncoding {
                    bits: st.intra.bits + predicted_bits(v, st.last, f_code, levels),
                    recon: frame_with_blocks(
                        st.intra.recon,
                        preds,
                        ChromaFormat::Yuv420,
                        src.mb_col,
                        src.mb_row,
                        decoded_residuals(levels, src.scale, src.params.non_intra_quant, idct),
                        6,
                    ),
                    dc: st.intra.dc,
                },
                last: (v.horizontal, v.vertical),
            }),
        )
    }
}

fn encode_p_macroblock<
    D: Fn([[i16; 8]; 8]) -> [[i32; 8]; 8],
    F: Fn([[i32; 8]; 8]) -> [[i16; 8]; 8],
>(
    bw: &mut BitWriter,
    current: &FrameBuffer,
    reference: &FrameBuffer,
    recon: &mut FrameBuffer,
    params: &Mpeg1PictureParams,
    quantizer_scale: u8,
    f_code: u8,
    mb_col: usize,
    mb_row: usize,
    predictors: &mut IntraDcPredictors,
    last: &mut (i32, i32),
    address: i32,
    fdct: &D,
    idct: &F,
) -> (res: Result<()>)
    requires
        is_function(*fdct),
        is_function(*idct),
        scale_valid(quantizer_scale),
        1 <= f_code <= 7,
        vector_ok(*old(last), f_code),
        ({
            let src = source_of(
                current@,
                *params,
                quantizer_scale,
                mb_col as int,
                mb_row as int,
            );
            source_ok(src) && address == src.address()
        }),
    ensures
        ({
            let src = source_of(
                current@,
                *params,
                quantizer_scale,
                mb_col as int,
                mb_row as int,
            );
            let st = (PredictedEncoding {
                intra: IntraEncoding {
                    bits: writer_bits(*old(bw)),
                    recon: old(recon)@,
                    dc: *old(predictors),
                },
                last: *old(last),
            });
            (
                res,
                (PredictedEncoding {
                    intra: IntraEncoding {
                        bits: writer_bits(*final(bw)),
                        recon: final(recon)@,
                        dc: *final(predictors),
                    },
                    last: *final(last),
                }),
            ) == p_macroblock_encoded(src, reference@, f_code, st, *fdct, *idct)
        }),
        vector_ok(*final(last), f_code),
{
    proof {
        reveal(p_macroblock_encoded);
        vstd::arithmetic::power2::lemma2_to64();
        lemma_zero_ok(f_code);
    }
    let ghost src = source_of(
        current@,
        *params,
        quantizer_scale,
        mb_col as int,
        mb_row as int,
    );
    let range = search_distance_of(f_code);
    let search = estimate_forward_mv(current, reference, mb_col, mb_row, range);
    proof {
        law_search_stays_in_range(search.vector, f_code, range as int);
    }
    let mv = keep_decodable(search.vector, *last, f_code)?;
    let sad = vector_sad(current, reference, mb_col, mb_row, mv);
    let intra_cost = intra_activity(current, mb_col, mb_row);
    if sad > 2 * intra_cost + 512 {
        bw.write_bit(true);
        bw.write_u32(0b0001_1, 5);
        encode_intra_macroblock(
            bw,
            current,
            recon,
            mb_col,
            mb_row,
            quantizer_scale,
            params,
            predictors,
            address,
            fdct,
            idct,
        )?;
        *last = (0, 0);
        return Ok(());
    }
    let preds = predict_frame_macroblock_planes(
        ChromaFormat::Yuv420,
        ReferenceFrames::forward_only(reference),
        mb_col,
        mb_row,
        FrameMotion::forward(mv),
    )?;
    let (blocks, cbp) = quantise_macroblock_residuals(
        current,
        &preds,
        mb_col,
        mb_row,
        quantizer_scale,
        params,
        fdct,
        idct,
    )?;
    let ghost levels = macroblock_levels(src, planes_view(preds), *fdct);
    let ghost before = writer_bits(*bw);
    bw.write_bit(true);
    if cbp != 0 {
        bw.write_bit(true);
    } else {
        bw.write_u32(0b001, 3);
    }
    write_vector(bw, mv, last, f_code)?;
    write_residuals(
        bw,
        &blocks,
        cbp,
        Ghost(levels),
        Ghost(quantizer_scale),
        Ghost(params.non_intra_quant),
        idct,
    );
    assert(writer_bits(*bw) =~= before + predicted_bits(mv, *old(last), f_code, levels));
    reconstruct_inter_mb(recon, mb_col, mb_row, &preds, &blocks);
    proof {
        lemma_blocks_residuals(
            blocks@,
            levels,
            quantizer_scale,
            params.non_intra_quant,
            *idct,
        );
    }
    Ok(())
}

proof fn lemma_blocks_residuals<F: Fn([[i32; 8]; 8]) -> [[i16; 8]; 8]>(
    blocks: Seq<Mpeg1InterBlock>,
    levels: Seq<Seq<i32>>,
    scale: u8,
    quant: [[u8; 8]; 8],
    idct: F,
)
    requires
        blocks_hold(blocks, levels, scale, quant, idct),
    ensures
        Seq::new(6, |i: int| blocks[i].f_pel) == decoded_residuals(levels, scale, quant, idct),
{
    let a = Seq::new(6, |i: int| blocks[i].f_pel);
    let b = decoded_residuals(levels, scale, quant, idct);
    assert forall|i: int| 0 <= i < 6 implies a[i] == b[i] by {
        assert(block_holds(blocks[i], levels[i], scale, quant, idct));
    }
    assert(a =~= b);
}

/// The encoding after the first `n` macroblocks of a row of a P-picture.
pub open spec fn p_row_encoded<
    D: Fn([[i16; 8]; 8]) -> [[i32; 8]; 8],
    F: Fn([[i32; 8]; 8]) -> [[i16; 8]; 8],
>(
    current: FrameContents,
    reference: FrameContents,
    params: Mpeg1PictureParams,
    scale: u8,
    f_code: u8,
    mb_row: int,
    n: int,
    st: PredictedEncoding,
    fdct: D,
    idct: F,
) -> (Result<()>, PredictedEncoding)
    decreases n,
{
    if n <= 0 {
        (Ok(()), st)
    } else {
        let (res, before) = p_row_encoded(
            current,
            reference,
            params,
            scale,
            f_code,
            mb_row,
            n - 1,
            st,
            fdct,
            idct,
        );
        match res {
            Err(e) => (Err(e), before),
            Ok(_) => p_macroblock_encoded(
                source_of(current, params, scale, n - 1, mb_row),
                reference,
                f_code,
                before,
                fdct,
                idct,
            ),
        }
    }
}

/// The bits and the frame after the first `n` slices of a P-picture, one for each
/// row.
pub open spec fn p_rows_encoded<
    D: Fn([[i16; 8]; 8]) -> [[i32; 8]; 8],
    F: Fn([[i32; 8]; 8]) -> [[i16; 8]; 8],
>(
    current: FrameContents,
    reference: FrameContents,
    params: Mpeg1PictureParams,
    scale: u8,
    f_code: u8,
    n: int,
    bits: Seq<bool>,
    recon: FrameContents,
    fdct: D,
    idct: F,
) -> (Result<()>, Seq<bool>, FrameContents)
    decreases n,
{
    if n <= 0 {
        (Ok(()), bits, recon)
    } else {
        let (res, b, r) = p_rows_encoded(
            current,
            reference,
            params,
            scale,
            f_code,
            n - 1,
            bits,
            recon,
            fdct,
            idct,
        );
        match res {
            Err(e) => (Err(e), b, r),
            Ok(_) => {
                let (row, after) = p_row_encoded(
                    current,
                    reference,
                    params,
                    scale,
                    f_code,
                    n - 1,
                    blocks_of_16(params.width as int),
                    predicted_row_start(b + slice_header_bits(n - 1, scale), r),
                    fdct,
                    idct,
                );
                match row {
                    Err(e) => (Err(e), after.intra.bits, after.intra.recon),
                    Ok(_) => (Ok(()), zero_padded(after.intra.bits), after.intra.recon),
                }
            },
        }
    }
}

pub open spec fn predicted_row_start(bits: Seq<bool>, recon: FrameContents) -> PredictedEncoding {
    PredictedEncoding {
        intra: IntraEncoding { bits, recon, dc: IntraDcPredictors::spec_at_slice_start() },
        last: (0i32, 0i32),
    }
}

/// What encoding a P-picture gives: the bits, and the frame that a decoder has.
pub open spec fn p_picture_encoded<
    D: Fn([[i16; 8]; 8]) -> [[i32; 8]; 8],
    F: Fn([[i32; 8]; 8]) -> [[i16; 8]; 8],
>(
    bits: Seq<bool>,
    current: FrameContents,
    reference: FrameContents,
    params: Mpeg1PictureParams,
    temporal_reference: u16,
    scale: u8,
    f_code: u8,
    fdct: D,
    idct: F,
) -> (Result<FrameContents>, Seq<bool>) {
    if let Err(e) = scale_checked(scale) {
        (Err(e), bits)
    } else if let Err(e) = f_code_checked(f_code) {
        (Err(e), bits)
    } else {
        let (res, b, r) = p_rows_encoded(
            current,
            reference,
            params,
            scale,
            f_code,
            blocks_of_16(params.height as int),
            zero_padded(
                bits + picture_header_bits(
                    temporal_reference,
                    PictureCodingType::Predictive,
                    f_code,
                    7,
                ),
            ),
            zero_frame(params.width as int, params.height as int, ChromaFormat::Yuv420),
            fdct,
            idct,
        );
        match res {
            Err(e) => (Err(e), b),
            Ok(_) => (Ok(r), b),
        }
    }
}

fn encode_p_row<
    D: Fn([[i16; 8]; 8]) -> [[i32; 8]; 8],
    F: Fn([[i32; 8]; 8]) -> [[i16; 8]; 8],
>(
    bw: &mut BitWriter,
    current: &FrameBuffer,
    reference: &FrameBuffer,
    recon: &mut FrameBuffer,
    params: &Mpeg1PictureParams,
    quantizer_scale: u8,
    f_code: u8,
    mb_row: usize,
    fdct: &D,
    idct: &F,
) -> (res: Result<()>)
    requires
        is_function(*fdct),
        is_function(*idct),
        scale_valid(quantizer_scale),
        1 <= f_code <= 7,
        encodable(*params),
        mb_row < blocks_of_16(params.height as int),
    ensures
        ({
            let (want, after) = p_row_encoded(
                current@,
                reference@,
                *params,
                quantizer_scale,
                f_code,
                mb_row as int,
                blocks_of_16(params.width as int),
                predicted_row_start(writer_bits(*old(bw)), old(recon)@),
                *fdct,
                *idct,
            );
            &&& res == want
            &&& writer_bits(*final(bw)) == after.intra.bits
            &&& final(recon)@ == after.intra.recon
        }),
{
    let mut predictors = IntraDcPredictors::at_slice_start();
    let mut last: (i32, i32) = (0, 0);
    let mb_w = params.mb_width();
    let ghost st = predicted_row_start(writer_bits(*bw), recon@);
    proof {
        lemma_zero_ok(f_code);
    }
    let mut mb_col: usize = 0;
    while mb_col < mb_w
        invariant
            mb_col <= mb_w,
            mb_w == blocks_of_16(params.width as int),
            is_function(*fdct),
            is_function(*idct),
            scale_valid(quantizer_scale),
            1 <= f_code <= 7,
            vector_ok(last, f_code),
            encodable(*params),
            mb_row < blocks_of_16(params.height as int),
            st == predicted_row_start(writer_bits(*old(bw)), old(recon)@),
            p_row_encoded(
                current@,
                reference@,
                *params,
                quantizer_scale,
                f_code,
                mb_row as int,
                mb_col as int,
                st,
                *fdct,
                *idct,
            ) == (
                Ok::<(), Error>(()),
                (PredictedEncoding {
                    intra: IntraEncoding {
                        bits: writer_bits(*bw),
                        recon: recon@,
                        dc: predictors,
                    },
                    last,
                }),
            ),
        decreases mb_w - mb_col,
    {
        proof {
            lemma_source_ok(
                current@,
                *params,
                quantizer_scale,
                mb_col as int,
                mb_row as int,
            );
        }
        let address = (mb_row * mb_w + mb_col) as i32;
        let done = encode_p_macroblock(
            bw,
            current,
            reference,
            recon,
            params,
            quantizer_scale,
            f_code,
            mb_col,
            mb_row,
            &mut predictors,
            &mut last,
            address,
            fdct,
            idct,
        );
        proof {
            lemma_p_row_stops(
                current@,
                reference@,
                *params,
                quantizer_scale,
                f_code,
                mb_row as int,
                mb_col + 1,
                mb_w as int,
                st,
                *fdct,
                *idct,
            );
        }
        done?;
        mb_col += 1;
    }
    Ok(())
}

pub proof fn lemma_p_row_stops<
    D: Fn([[i16; 8]; 8]) -> [[i32; 8]; 8],
    F: Fn([[i32; 8]; 8]) -> [[i16; 8]; 8],
>(
    current: FrameContents,
    reference: FrameContents,
    params: Mpeg1PictureParams,
    scale: u8,
    f_code: u8,
    mb_row: int,
    k: int,
    n: int,
    st: PredictedEncoding,
    fdct: D,
    idct: F,
)
    requires
        0 <= k <= n,
    ensures
        ({
            let at_k = p_row_encoded(
                current,
                reference,
                params,
                scale,
                f_code,
                mb_row,
                k,
                st,
                fdct,
                idct,
            );
            at_k.0 is Err ==> p_row_encoded(
                current,
                reference,
                params,
                scale,
                f_code,
                mb_row,
                n,
                st,
                fdct,
                idct,
            ) == at_k
        }),
    decreases n - k,
{
    if k < n {
        lemma_p_row_stops(
            current,
            reference,
            params,
            scale,
            f_code,
            mb_row,
            k,
            n - 1,
            st,
            fdct,
            idct,
        );
    }
}

pub proof fn lemma_p_rows_stop<
    D: Fn([[i16; 8]; 8]) -> [[i32; 8]; 8],
    F: Fn([[i32; 8]; 8]) -> [[i16; 8]; 8],
>(
    current: FrameContents,
    reference: FrameContents,
    params: Mpeg1PictureParams,
    scale: u8,
    f_code: u8,
    k: int,
    n: int,
    bits: Seq<bool>,
    recon: FrameContents,
    fdct: D,
    idct: F,
)
    requires
        0 <= k <= n,
    ensures
        ({
            let at_k = p_rows_encoded(
                current,
                reference,
                params,
                scale,
                f_code,
                k,
                bits,
                recon,
                fdct,
                idct,
            );
            at_k.0 is Err ==> p_rows_encoded(
                current,
                reference,
                params,
                scale,
                f_code,
                n,
                bits,
                recon,
                fdct,
                idct,
            ) == at_k
        }),
    decreases n - k,
{
    if k < n {
        lemma_p_rows_stop(
            current,
            reference,
            params,
            scale,
            f_code,
            k,
            n - 1,
            bits,
            recon,
            fdct,
            idct,
        );
    }
}

/// Writes a P-picture, and returns the frame that a decoder makes of it. `fdct` and
/// `idct` are the transform and its inverse.
pub fn encode_mpeg1_p_picture<
    D: Fn([[i16; 8]; 8]) -> [[i32; 8]; 8],
    F: Fn([[i32; 8]; 8]) -> [[i16; 8]; 8],
>(
    bw: &mut BitWriter,
    current: &FrameBuffer,
    reference: &FrameBuffer,
    params: &Mpeg1PictureParams,
    temporal_reference: u16,
    quantizer_scale_code: u8,
    forward_f_code: u8,
    fdct: &D,
    idct: &F,
) -> (res: Result<FrameBuffer>)
    requires
        is_function(*fdct),
        is_function(*idct),
        encodable(*params),
    ensures
        ({
            let (want, bits) = p_picture_encoded(
                writer_bits(*old(bw)),
                current@,
                reference@,
                *params,
                temporal_reference,
                quantizer_scale_code,
                forward_f_code,
                *fdct,
                *idct,
            );
            &&& writer_bits(*final(bw)) == bits
            &&& match res {
                Ok(recon) => want == Ok::<FrameContents, Error>(recon@),
                Err(e) => want == Err::<FrameContents, Error>(e),
            }
        }),
{
    check_quantizer_scale(quantizer_scale_code)?;
    check_f_code(forward_f_code)?;
    write_picture_header(
        bw,
        temporal_reference,
        PictureCodingType::Predictive,
        forward_f_code,
        7,
    );
    let mut recon = FrameBuffer::new(params.width, params.height, ChromaFormat::Yuv420);
    let ghost bits = writer_bits(*bw);
    let ghost start = recon@;
    let mb_h = mb_height(params);
    let mut mb_row: usize = 0;
    while mb_row < mb_h
        invariant
            mb_row <= mb_h,
            mb_h == blocks_of_16(params.height as int),
            is_function(*fdct),
            is_function(*idct),
            encodable(*params),
            bits == zero_padded(
                writer_bits(*old(bw)) + picture_header_bits(
                    temporal_reference,
                    PictureCodingType::Predictive,
                    forward_f_code,
                    7,
                ),
            ),
            start == zero_frame(params.width as int, params.height as int, ChromaFormat::Yuv420),
            scale_valid(quantizer_scale_code),
            1 <= forward_f_code <= 7,
            p_rows_encoded(
                current@,
                reference@,
                *params,
                quantizer_scale_code,
                forward_f_code,
                mb_row as int,
                bits,
                start,
                *fdct,
                *idct,
            ) == (Ok::<(), Error>(()), writer_bits(*bw), recon@),
        decreases mb_h - mb_row,
    {
        write_slice_header(bw, mb_row as u32, quantizer_scale_code);
        let done = encode_p_row(
            bw,
            current,
            reference,
            &mut recon,
            params,
            quantizer_scale_code,
            forward_f_code,
            mb_row,
            fdct,
            idct,
        );
        proof {
            lemma_p_rows_stop(
                current@,
                reference@,
                *params,
                quantizer_scale_code,
                forward_f_code,
                mb_row + 1,
                mb_h as int,
                bits,
                start,
                *fdct,
                *idct,
            );
        }
        done?;
        bw.align_to_byte_zero();
        mb_row += 1;
    }
    Ok(recon)
}

// ---------------------------------------------------------------------------
// B-pictures
// ---------------------------------------------------------------------------

/// What a macroblock of a B-picture is predicted from.
#[derive(Debug, Clone, Copy, PartialEq, Eq, Structural)]
pub enum BDirection {
    Forward,
    Backward,
    Interpolated,
}

impl BDirection {
    pub open spec fn uses_forward(self) -> bool {
        self != BDirection::Backward
    }

    pub open spec fn uses_backward(self) -> bool {
        self != BDirection::Forward
    }
}

/// The bits of the type of a B-picture macroblock without a quantiser scale.
pub open spec fn b_type_bits(dir: BDirection, coded: bool) -> Seq<bool> {
    match (dir, coded) {
        (BDirection::Interpolated, false) => value_bits(0b10, 2),
        (BDirection::Interpolated, true) => value_bits(0b11, 2),
        (BDirection::Backward, false) => value_bits(0b010, 3),
        (BDirection::Backward, true) => value_bits(0b011, 3),
        (BDirection::Forward, false) => value_bits(0b0010, 4),
        (BDirection::Forward, true) => value_bits(0b0011, 4),
    }
}

/// Writes the type of a B-picture macroblock without a quantiser scale.
pub fn write_b_macroblock_type(bw: &mut BitWriter, dir: BDirection, coded: bool)
    ensures
        writer_bits(*final(bw)) == writer_bits(*old(bw)) + b_type_bits(dir, coded),
{
    let (code, bits): (u32, u32) = match (dir, coded) {
        (BDirection::Interpolated, false) => (0b10, 2),
        (BDirection::Interpolated, true) => (0b11, 2),
        (BDirection::Backward, false) => (0b010, 3),
        (BDirection::Backward, true) => (0b011, 3),
        (BDirection::Forward, false) => (0b0010, 4),
        (BDirection::Forward, true) => (0b0011, 4),
    };
    bw.write_u32(code, bits);
}

/// The two anchors of a B-picture and the `f_code` values of its vectors.
pub struct Anchors {
    pub forward: FrameContents,
    pub backward: FrameContents,
    pub forward_f_code: u8,
    pub backward_f_code: u8,
}

/// What the encoding of a B-picture works on: the bits and the last vectors.
pub struct BidirectionalEncoding {
    pub bits: Seq<bool>,
    pub forward: (i32, i32),
    pub backward: (i32, i32),
}

/// The prediction of a macroblock in a direction.
pub open spec fn b_prediction(
    a: Anchors,
    dir: BDirection,
    fv: MotionVectorPel,
    bv: MotionVectorPel,
    mb_col: int,
    mb_row: int,
) -> MacroblockPlanes {
    predicted_planes(
        ReferenceContents {
            forward: if dir.uses_forward() {
                Some(a.forward)
            } else {
                None
            },
            backward: if dir.uses_backward() {
                Some(a.backward)
            } else {
                None
            },
        },
        FrameMotion {
            forward: if dir.uses_forward() {
                Some(fv)
            } else {
                None
            },
            backward: if dir.uses_backward() {
                Some(bv)
            } else {
                None
            },
        },
        ChromaFormat::Yuv420,
        mb_col,
        mb_row,
    )
}

/// The direction that leaves least of the luminance; of those that leave equally
/// little, forward comes before backward, and both before their mean.
pub open spec fn b_direction(
    src: MacroblockSource,
    a: Anchors,
    fv: MotionVectorPel,
    bv: MotionVectorPel,
) -> BDirection {
    let cost = |dir: BDirection|
        luma_difference(
            src.current.y,
            b_prediction(a, dir, fv, bv, src.mb_col, src.mb_row).y,
            src.mb_col,
            src.mb_row,
            256,
        );
    let single = if cost(BDirection::Backward) < cost(BDirection::Forward) {
        BDirection::Backward
    } else {
        BDirection::Forward
    };
    if cost(BDirection::Interpolated) < cost(single) {
        BDirection::Interpolated
    } else {
        single
    }
}

/// The bits of a B-picture macroblock up to its residuals.
pub open spec fn b_head_bits(
    a: Anchors,
    dir: BDirection,
    fv: MotionVectorPel,
    bv: MotionVectorPel,
    last_forward: (i32, i32),
    last_backward: (i32, i32),
    coded: bool,
) -> Seq<bool> {
    let typed = seq![true] + b_type_bits(dir, coded);
    let forwarded = if dir.uses_forward() {
        typed + vector_bits(fv, last_forward, a.forward_f_code)
    } else {
        typed
    };
    if dir.uses_backward() {
        forwarded + vector_bits(bv, last_backward, a.backward_f_code)
    } else {
        forwarded
    }
}

/// The bits of a B-picture macroblock.
pub open spec fn b_bits(
    a: Anchors,
    dir: BDirection,
    fv: MotionVectorPel,
    bv: MotionVectorPel,
    st: BidirectionalEncoding,
    levels: Seq<Seq<i32>>,
) -> Seq<bool> {
    b_head_bits(a, dir, fv, bv, st.forward, st.backward, pattern_of(levels, 6) != 0)
        + residual_bits(levels)
}

/// The encoding after a macroblock of a B-picture.
#[verifier::opaque]
pub open spec fn b_macroblock_encoded<D: Fn([[i16; 8]; 8]) -> [[i32; 8]; 8]>(
    src: MacroblockSource,
    a: Anchors,
    st: BidirectionalEncoding,
    fdct: D,
) -> BidirectionalEncoding {
    let fv = decodable_vector(
        best_vector(
            src.current,
            a.forward,
            src.mb_col,
            src.mb_row,
            search_distance(a.forward_f_code),
        ),
        st.forward,
        a.forward_f_code,
    );
    let bv = decodable_vector(
        best_vector(
            src.current,
            a.backward,
            src.mb_col,
            src.mb_row,
            search_distance(a.backward_f_code),
        ),
        st.backward,
        a.backward_f_code,
    );
    let dir = b_direction(src, a, fv, bv);
    let preds = b_prediction(a, dir, fv, bv, src.mb_col, src.mb_row);
    let levels = macroblock_levels(src, preds, fdct);
    BidirectionalEncoding {
        bits: st.bits + b_bits(a, dir, fv, bv, st, levels),
        forward: if dir.uses_forward() {
            (fv.horizontal, fv.vertical)
        } else {
            st.forward
        },
        backward: if dir.uses_backward() {
            (bv.horizontal, bv.vertical)
        } else {
            st.backward
        },
    }
}

/// The reference frames of a B-picture.
#[derive(Clone, Copy)]
pub struct BReferences<'a> {
    pub forward: &'a FrameBuffer,
    pub backward: &'a FrameBuffer,
    pub forward_f_code: u8,
    pub backward_f_code: u8,
}

impl<'a> View for BReferences<'a> {
    type V = Anchors;

    open spec fn view(&self) -> Anchors {
        Anchors {
            forward: self.forward@,
            backward: self.backward@,
            forward_f_code: self.forward_f_code,
            backward_f_code: self.backward_f_code,
        }
    }
}

/// Chooses the direction of a B-picture macroblock, and gives its prediction.
fn choose_direction(
    current: &FrameBuffer,
    refs: &BReferences<'_>,
    fv: MotionVectorPel,
    bv: MotionVectorPel,
    mb_col: usize,
    mb_row: usize,
    Ghost(src): Ghost<MacroblockSource>,
) -> (res: Result<(BDirection, (Vec<u8>, Vec<u8>, Vec<u8>))>)
    requires
        macroblock_addressable(mb_col as int, mb_row as int),
        src.current == current@,
        src.mb_col == mb_col,
        src.mb_row == mb_row,
    ensures
        res is Ok,
        res->Ok_0.0 == b_direction(src, refs@, fv, bv),
        planes_view(res->Ok_0.1) == b_prediction(
            refs@,
            res->Ok_0.0,
            fv,
            bv,
            mb_col as int,
            mb_row as int,
        ),
        planes_view(res->Ok_0.1).wf(ChromaFormat::Yuv420),
{
    let pred_fwd = predict_frame_macroblock_planes(
        ChromaFormat::Yuv420,
        ReferenceFrames::forward_only(refs.forward),
        mb_col,
        mb_row,
        FrameMotion::forward(fv),
    )?;
    let pred_bwd = predict_frame_macroblock_planes(
        ChromaFormat::Yuv420,
        ReferenceFrames { forward: None, backward: Some(refs.backward) },
        mb_col,
        mb_row,
        FrameMotion::backward(bv),
    )?;
    let pred_int = predict_frame_macroblock_planes(
        ChromaFormat::Yuv420,
        ReferenceFrames::bidirectional(refs.forward, refs.backward),
        mb_col,
        mb_row,
        FrameMotion::bidirectional(fv, bv),
    )?;
    let sad_fwd = luma_sad(current, mb_col, mb_row, pred_fwd.0.as_slice());
    let sad_bwd = luma_sad(current, mb_col, mb_row, pred_bwd.0.as_slice());
    let sad_int = luma_sad(current, mb_col, mb_row, pred_int.0.as_slice());
    let single: u32 = if sad_bwd < sad_fwd {
        sad_bwd
    } else {
        sad_fwd
    };
    if sad_int < single {
        Ok((BDirection::Interpolated, pred_int))
    } else if sad_bwd < sad_fwd {
        Ok((BDirection::Backward, pred_bwd))
    } else {
        Ok((BDirection::Forward, pred_fwd))
    }
}

/// Writes a B-picture macroblock up to its residuals.
fn write_b_head(
    bw: &mut BitWriter,
    refs: &BReferences<'_>,
    dir: BDirection,
    fv: MotionVectorPel,
    bv: MotionVectorPel,
    last_forward: &mut (i32, i32),
    last_backward: &mut (i32, i32),
    coded: bool,
) -> (res: Result<()>)
    requires
        1 <= refs.forward_f_code <= 7,
        1 <= refs.backward_f_code <= 7,
        vector_ok(*old(last_forward), refs.forward_f_code),
        vector_ok(*old(last_backward), refs.backward_f_code),
        vector_ok((fv.horizontal, fv.vertical), refs.forward_f_code),
        vector_ok((bv.horizontal, bv.vertical), refs.backward_f_code),
    ensures
        res == Ok::<(), Error>(()),
        writer_bits(*final(bw)) == writer_bits(*old(bw)) + b_head_bits(
            refs@,
            dir,
            fv,
            bv,
            *old(last_forward),
            *old(last_backward),
            coded,
        ),
        *final(last_forward) == (if dir.uses_forward() {
            (fv.horizontal, fv.vertical)
        } else {
            *old(last_forward)
        }),
        *final(last_backward) == (if dir.uses_backward() {
            (bv.horizontal, bv.vertical)
        } else {
            *old(last_backward)
        }),
{
    let ghost before = writer_bits(*bw);
    bw.write_bit(true);
    write_b_macroblock_type(bw, dir, coded);
    assert(writer_bits(*bw) =~= before + (seq![true] + b_type_bits(dir, coded)));
    let ghost typed = seq![true] + b_type_bits(dir, coded);
    if dir != BDirection::Backward {
        write_vector(bw, fv, last_forward, refs.forward_f_code)?;
        assert(writer_bits(*bw) =~= before + (typed + vector_bits(
            fv,
            *old(last_forward),
            refs.forward_f_code,
        )));
    }
    if dir != BDirection::Forward {
        write_vector(bw, bv, last_backward, refs.backward_f_code)?;
    }
    assert(writer_bits(*bw) =~= before + b_head_bits(
        refs@,
        dir,
        fv,
        bv,
        *old(last_forward),
        *old(last_backward),
        coded,
    ));
    Ok(())
}

fn encode_b_macroblock<
    D: Fn([[i16; 8]; 8]) -> [[i32; 8]; 8],
    F: Fn([[i32; 8]; 8]) -> [[i16; 8]; 8],
>(
    bw: &mut BitWriter,
    current: &FrameBuffer,
    refs: &BReferences<'_>,
    params: &Mpeg1PictureParams,
    quantizer_scale: u8,
    mb_col: usize,
    mb_row: usize,
    last_forward: &mut (i32, i32),
    last_backward: &mut (i32, i32),
    fdct: &D,
    idct: &F,
) -> (res: Result<()>)
    requires
        is_function(*fdct),
        is_function(*idct),
        scale_valid(quantizer_scale),
        1 <= refs.forward_f_code <= 7,
        1 <= refs.backward_f_code <= 7,
        vector_ok(*old(last_forward), refs.forward_f_code),
        vector_ok(*old(last_backward), refs.backward_f_code),
        macroblock_addressable(mb_col as int, mb_row as int),
    ensures
        res == Ok::<(), Error>(()),
        (BidirectionalEncoding {
            bits: writer_bits(*final(bw)),
            forward: *final(last_forward),
            backward: *final(last_backward),
        }) == b_macroblock_encoded(
            source_of(current@, *params, quantizer_scale, mb_col as int, mb_row as int),
            refs@,
            (BidirectionalEncoding {
                bits: writer_bits(*old(bw)),
                forward: *old(last_forward),
                backward: *old(last_backward),
            }),
            *fdct,
        ),
        vector_ok(*final(last_forward), refs.forward_f_code),
        vector_ok(*final(last_backward), refs.backward_f_code),
{
    proof {
        reveal(b_macroblock_encoded);
    }
    let ghost src = source_of(
        current@,
        *params,
        quantizer_scale,
        mb_col as int,
        mb_row as int,
    );
    let ghost st = BidirectionalEncoding {
        bits: writer_bits(*bw),
        forward: *last_forward,
        backward: *last_backward,
    };
    let fwd_range = search_distance_of(refs.forward_f_code);
    let bwd_range = search_distance_of(refs.backward_f_code);
    let forward = estimate_forward_mv(current, refs.forward, mb_col, mb_row, fwd_range).vector;
    let backward = estimate_forward_mv(current, refs.backward, mb_col, mb_row, bwd_range).vector;
    proof {
        law_search_stays_in_range(forward, refs.forward_f_code, fwd_range as int);
        law_search_stays_in_range(backward, refs.backward_f_code, bwd_range as int);
    }
    let fv = keep_decodable(forward, *last_forward, refs.forward_f_code)?;
    let bv = keep_decodable(backward, *last_backward, refs.backward_f_code)?;
    let (dir, preds) = choose_direction(current, refs, fv, bv, mb_col, mb_row, Ghost(src))?;
    let (blocks, cbp) = quantise_macroblock_residuals(
        current,
        &preds,
        mb_col,
        mb_row,
        quantizer_scale,
        params,
        fdct,
        idct,
    )?;
    let ghost levels = macroblock_levels(src, planes_view(preds), *fdct);
    write_b_head(bw, refs, dir, fv, bv, last_forward, last_backward, cbp != 0)?;
    write_residuals(
        bw,
        &blocks,
        cbp,
        Ghost(levels),
        Ghost(quantizer_scale),
        Ghost(params.non_intra_quant),
        idct,
    );
    assert(writer_bits(*bw) =~= st.bits + b_bits(refs@, dir, fv, bv, st, levels));
    Ok(())
}

/// The encoding after the first `n` macroblocks of a row of a B-picture.
pub open spec fn b_row_encoded<D: Fn([[i16; 8]; 8]) -> [[i32; 8]; 8]>(
    current: FrameContents,
    a: Anchors,
    params: Mpeg1PictureParams,
    scale: u8,
    mb_row: int,
    n: int,
    bits: Seq<bool>,
    fdct: D,
) -> BidirectionalEncoding
    decreases n,
{
    if n <= 0 {
        BidirectionalEncoding { bits, forward: (0i32, 0i32), backward: (0i32, 0i32) }
    } else {
        b_macroblock_encoded(
            source_of(current, params, scale, n - 1, mb_row),
            a,
            b_row_encoded(current, a, params, scale, mb_row, n - 1, bits, fdct),
            fdct,
        )
    }
}

/// The bits after the first `n` slices of a B-picture, one for each row.
pub open spec fn b_rows_encoded<D: Fn([[i16; 8]; 8]) -> [[i32; 8]; 8]>(
    current: FrameContents,
    a: Anchors,
    params: Mpeg1PictureParams,
    scale: u8,
    n: int,
    bits: Seq<bool>,
    fdct: D,
) -> Seq<bool>
    decreases n,
{
    if n <= 0 {
        bits
    } else {
        zero_padded(
            b_row_encoded(
                current,
                a,
                params,
                scale,
                n - 1,
                blocks_of_16(params.width as int),
                b_rows_encoded(current, a, params, scale, n - 1, bits, fdct) + slice_header_bits(
                    n - 1,
                    scale,
                ),
                fdct,
            ).bits,
        )
    }
}

/// What encoding a B-picture gives: the bits.
pub open spec fn b_picture_encoded<D: Fn([[i16; 8]; 8]) -> [[i32; 8]; 8]>(
    bits: Seq<bool>,
    current: FrameContents,
    a: Anchors,
    params: Mpeg1PictureParams,
    temporal_reference: u16,
    scale: u8,
    fdct: D,
) -> (Result<()>, Seq<bool>) {
    if let Err(e) = scale_checked(scale) {
        (Err(e), bits)
    } else if let Err(e) = f_code_checked(a.forward_f_code) {
        (Err(e), bits)
    } else if let Err(e) = f_code_checked(a.backward_f_code) {
        (Err(e), bits)
    } else {
        (
            Ok(()),
            b_rows_encoded(
                current,
                a,
                params,
                scale,
                blocks_of_16(params.height as int),
                zero_padded(
                    bits + picture_header_bits(
                        temporal_reference,
                        PictureCodingType::Bidirectional,
                        a.forward_f_code,
                        a.backward_f_code,
                    ),
                ),
                fdct,
            ),
        )
    }
}

fn encode_b_row<
    D: Fn([[i16; 8]; 8]) -> [[i32; 8]; 8],
    F: Fn([[i32; 8]; 8]) -> [[i16; 8]; 8],
>(
    bw: &mut BitWriter,
    current: &FrameBuffer,
    refs: &BReferences<'_>,
    params: &Mpeg1PictureParams,
    quantizer_scale: u8,
    mb_row: usize,
    fdct: &D,
    idct: &F,
) -> (res: Result<()>)
    requires
        is_function(*fdct),
        is_function(*idct),
        scale_valid(quantizer_scale),
        1 <= refs.forward_f_code <= 7,
        1 <= refs.backward_f_code <= 7,
        encodable(*params),
        mb_row < blocks_of_16(params.height as int),
    ensures
        res == Ok::<(), Error>(()),
        writer_bits(*final(bw)) == b_row_encoded(
            current@,
            refs@,
            *params,
            quantizer_scale,
            mb_row as int,
            blocks_of_16(params.width as int),
            writer_bits(*old(bw)),
            *fdct,
        ).bits,
{
    let mut forward: (i32, i32) = (0, 0);
    let mut backward: (i32, i32) = (0, 0);
    let mb_w = params.mb_width();
    proof {
        lemma_zero_ok(refs.forward_f_code);
        lemma_zero_ok(refs.backward_f_code);
    }
    let mut mb_col: usize = 0;
    while mb_col < mb_w
        invariant
            mb_col <= mb_w,
            mb_w == blocks_of_16(params.width as int),
            is_function(*fdct),
            is_function(*idct),
            scale_valid(quantizer_scale),
            1 <= refs.forward_f_code <= 7,
            1 <= refs.backward_f_code <= 7,
            vector_ok(forward, refs.forward_f_code),
            vector_ok(backward, refs.backward_f_code),
            encodable(*params),
            mb_row < blocks_of_16(params.height as int),
            b_row_encoded(
                current@,
                refs@,
                *params,
                quantizer_scale,
                mb_row as int,
                mb_col as int,
                writer_bits(*old(bw)),
                *fdct,
            ) == (BidirectionalEncoding { bits: writer_bits(*bw), forward, backward }),
        decreases mb_w - mb_col,
    {
        proof {
            lemma_source_ok(
                current@,
                *params,
                quantizer_scale,
                mb_col as int,
                mb_row as int,
            );
        }
        encode_b_macroblock(
            bw,
            current,
            refs,
            params,
            quantizer_scale,
            mb_col,
            mb_row,
            &mut forward,
            &mut backward,
            fdct,
            idct,
        )?;
        mb_col += 1;
    }
    Ok(())
}

/// Writes a B-picture. `fdct` and `idct` are the transform and its inverse.
pub fn encode_mpeg1_b_picture<
    D: Fn([[i16; 8]; 8]) -> [[i32; 8]; 8],
    F: Fn([[i32; 8]; 8]) -> [[i16; 8]; 8],
>(
    bw: &mut BitWriter,
    current: &FrameBuffer,
    forward: &FrameBuffer,
    backward: &FrameBuffer,
    params: &Mpeg1PictureParams,
    temporal_reference: u16,
    quantizer_scale_code: u8,
    forward_f_code: u8,
    backward_f_code: u8,
    fdct: &D,
    idct: &F,
) -> (res: Result<()>)
    requires
        is_function(*fdct),
        is_function(*idct),
        encodable(*params),
    ensures
        (res, writer_bits(*final(bw))) == b_picture_encoded(
            writer_bits(*old(bw)),
            current@,
            (Anchors {
                forward: forward@,
                backward: backward@,
                forward_f_code,
                backward_f_code,
            }),
            *params,
            temporal_reference,
            quantizer_scale_code,
            *fdct,
        ),
{
    check_quantizer_scale(quantizer_scale_code)?;
    check_f_code(forward_f_code)?;
    check_f_code(backward_f_code)?;
    write_picture_header(
        bw,
        temporal_reference,
        PictureCodingType::Bidirectional,
        forward_f_code,
        backward_f_code,
    );
    let refs = BReferences { forward, backward, forward_f_code, backward_f_code };
    let ghost bits = writer_bits(*bw);
    let mb_h = mb_height(params);
    let mut mb_row: usize = 0;
    while mb_row < mb_h
        invariant
            mb_row <= mb_h,
            mb_h == blocks_of_16(params.height as int),
            is_function(*fdct),
            is_function(*idct),
            encodable(*params),
            scale_valid(quantizer_scale_code),
            1 <= refs.forward_f_code <= 7,
            1 <= refs.backward_f_code <= 7,
            writer_bits(*bw) == b_rows_encoded(
                current@,
                refs@,
                *params,
                quantizer_scale_code,
                mb_row as int,
                bits,
                *fdct,
            ),
        decreases mb_h - mb_row,
    {
        write_slice_header(bw, mb_row as u32, quantizer_scale_code);
        // A row of checked parameters cannot fail.
        let done = encode_b_row(
            bw,
            current,
            &refs,
            params,
            quantizer_scale_code,
            mb_row,
            fdct,
            idct,
        );
        if done.is_err() {
            return done;
        }
        bw.align_to_byte_zero();
        mb_row += 1;
    }
    Ok(())
}

// ---------------------------------------------------------------------------
// Sequences
// ---------------------------------------------------------------------------

pub const ERR_NO_FRAMES: &'static str =
    "encode_mpeg1_display_order_sequence: no frames to encode";

pub const ERR_NO_ANCHORS: &'static str =
    "encode_mpeg1_display_order_sequence: anchors_per_gop must be >= 1";

pub const ERR_FRAME_SIZE: &'static str =
    "encode_mpeg1_display_order_sequence: frame geometry does not match the sequence";

/// The size of the pictures of a sequence, with the default matrices.
pub open spec fn params_of(seq: Mpeg1SequenceParams) -> Mpeg1PictureParams {
    Mpeg1PictureParams {
        width: seq.horizontal_size as usize,
        height: seq.vertical_size as usize,
        intra_quant: crate::dequantize::DEFAULT_INTRA_QUANT,
        non_intra_quant: crate::dequantize::DEFAULT_NON_INTRA_QUANT,
    }
}

pub fn picture_params(seq: &Mpeg1SequenceParams) -> (p: Mpeg1PictureParams)
    ensures
        p == params_of(*seq),
{
    Mpeg1PictureParams {
        width: seq.horizontal_size as usize,
        height: seq.vertical_size as usize,
        intra_quant: crate::dequantize::DEFAULT_INTRA_QUANT,
        non_intra_quant: crate::dequantize::DEFAULT_NON_INTRA_QUANT,
    }
}

/// How the pictures of a sequence are encoded.
pub struct SequencePlan {
    pub params: Mpeg1PictureParams,
    pub picture_rate_code: u8,
    /// How far the anchors are apart.
    pub step: int,
    pub anchors_per_gop: int,
    pub scale: u8,
    pub forward_f_code: u8,
    pub backward_f_code: u8,
}

pub open spec fn frames_of(frames: Seq<FrameBuffer>) -> Seq<FrameContents> {
    Seq::new(frames.len(), |i: int| frames[i]@)
}

pub open spec fn least(a: int, b: int) -> int {
    if a < b {
        a
    } else {
        b
    }
}

/// The bits after the B-pictures from frame `k` up to an anchor.
pub open spec fn b_run_encoded<D: Fn([[i16; 8]; 8]) -> [[i32; 8]; 8]>(
    plan: SequencePlan,
    frames: Seq<FrameContents>,
    gop_start: int,
    k: int,
    anchor: int,
    forward: FrameContents,
    backward: FrameContents,
    bits: Seq<bool>,
    fdct: D,
) -> Seq<bool>
    decreases anchor - k,
{
    if k >= anchor {
        bits
    } else {
        b_run_encoded(
            plan,
            frames,
            gop_start,
            k + 1,
            anchor,
            forward,
            backward,
            b_picture_encoded(
                bits,
                frames[k],
                (Anchors {
                    forward,
                    backward,
                    forward_f_code: plan.forward_f_code,
                    backward_f_code: plan.backward_f_code,
                }),
                plan.params,
                (k - gop_start) as u16,
                plan.scale,
                fdct,
            ).1,
            fdct,
        )
    }
}

/// The bits after the rest of a group of pictures, whose last anchor so far is frame
/// `prev`: each following anchor, and then the pictures shown between the two.
pub open spec fn anchors_encoded<
    D: Fn([[i16; 8]; 8]) -> [[i32; 8]; 8],
    F: Fn([[i32; 8]; 8]) -> [[i16; 8]; 8],
>(
    plan: SequencePlan,
    frames: Seq<FrameContents>,
    gop_start: int,
    prev: int,
    gop_end: int,
    forward: FrameContents,
    bits: Seq<bool>,
    fdct: D,
    idct: F,
) -> Result<Seq<bool>>
    decreases gop_end - prev,
{
    if prev >= gop_end || plan.step < 1 {
        Ok(bits)
    } else {
        let next = least(prev + plan.step, gop_end);
        let (recon, b) = p_picture_encoded(
            bits,
            frames[next],
            forward,
            plan.params,
            (next - gop_start) as u16,
            plan.scale,
            plan.forward_f_code,
            fdct,
            idct,
        );
        match recon {
            Err(e) => Err(e),
            Ok(backward) => anchors_encoded(
                plan,
                frames,
                gop_start,
                next,
                gop_end,
                backward,
                b_run_encoded(
                    plan,
                    frames,
                    gop_start,
                    prev + 1,
                    next,
                    forward,
                    backward,
                    b,
                    fdct,
                ),
                fdct,
                idct,
            ),
        }
    }
}

/// Where the group of pictures that starts with frame `start` ends: at an anchor, the
/// last frame at the latest.
pub open spec fn gop_end_of(plan: SequencePlan, frames: Seq<FrameContents>, start: int) -> int {
    least(start + plan.anchors_per_gop * plan.step, frames.len() - 1)
}

/// The bits after the groups of pictures from frame `start` on.
pub open spec fn gops_encoded<
    D: Fn([[i16; 8]; 8]) -> [[i32; 8]; 8],
    F: Fn([[i32; 8]; 8]) -> [[i16; 8]; 8],
>(
    plan: SequencePlan,
    frames: Seq<FrameContents>,
    start: int,
    bits: Seq<bool>,
    fdct: D,
    idct: F,
) -> Result<Seq<bool>>
    decreases frames.len() - start,
{
    let end = gop_end_of(plan, frames, start);
    if start >= frames.len() || end < start {
        Ok(bits)
    } else {
        match nominal_rate(plan.picture_rate_code) {
            None => Err(Error::InvalidBitstream(ERR_PICTURE_RATE)),
            Some(rate) => {
                let gop = Mpeg2Gop {
                    time_code: time_of(start, rate),
                    closed_gop: true,
                    broken_link: false,
                };
                let (recon, b) = intra_picture_encoded(
                    zero_padded(bits + gop_bits(gop)),
                    frames[start],
                    plan.params,
                    0,
                    plan.scale,
                    fdct,
                    idct,
                );
                match recon {
                    Err(e) => Err(e),
                    Ok(recon) => match anchors_encoded(
                        plan,
                        frames,
                        start,
                        start,
                        end,
                        recon,
                        b,
                        fdct,
                        idct,
                    ) {
                        Err(e) => Err(e),
                        Ok(b) => gops_encoded(plan, frames, end + 1, b, fdct, idct),
                    },
                }
            },
        }
    }
}

/// The header of a sequence: its flag says whether the constraints hold for the
/// vectors that it has.
pub open spec fn effective_header(
    seq: Mpeg1SequenceParams,
    frames: int,
    b_between: int,
    forward_f_code: u8,
    backward_f_code: u8,
) -> Mpeg1SequenceParams {
    Mpeg1SequenceParams {
        constrained_parameters_flag: constrained(
            seq,
            forward_f_code,
            if b_between > 0 && frames > 1 {
                backward_f_code
            } else {
                1
            },
        ),
        ..seq
    }
}

/// How the pictures of a sequence are encoded, from its arguments.
pub open spec fn plan_of(
    b_between: int,
    anchors_per_gop: int,
    seq: Mpeg1SequenceParams,
    scale: u8,
    forward_f_code: u8,
    backward_f_code: u8,
) -> SequencePlan {
    SequencePlan {
        params: params_of(seq),
        picture_rate_code: seq.picture_rate_code,
        step: b_between + 1,
        anchors_per_gop,
        scale,
        forward_f_code,
        backward_f_code,
    }
}

/// Why the arguments of a sequence are refused, if they are.
pub open spec fn sequence_error(
    frames: Seq<FrameContents>,
    anchors_per_gop: int,
    params: Mpeg1PictureParams,
    scale: u8,
    forward_f_code: u8,
    backward_f_code: u8,
) -> Option<Error> {
    if frames.len() == 0 {
        Some(Error::InvalidBitstream(ERR_NO_FRAMES))
    } else if anchors_per_gop == 0 {
        Some(Error::InvalidBitstream(ERR_NO_ANCHORS))
    } else if let Err(e) = scale_checked(scale) {
        Some(e)
    } else if let Err(e) = f_code_checked(forward_f_code) {
        Some(e)
    } else if let Err(e) = f_code_checked(backward_f_code) {
        Some(e)
    } else if exists|i: int| 0 <= i < frames.len() && !frame_matches(#[trigger] frames[i], params) {
        Some(Error::InvalidBitstream(ERR_FRAME_SIZE))
    } else {
        None
    }
}

/// What encoding a sequence gives: the bits up to the sequence end code.
pub open spec fn sequence_encoded<
    D: Fn([[i16; 8]; 8]) -> [[i32; 8]; 8],
    F: Fn([[i32; 8]; 8]) -> [[i16; 8]; 8],
>(
    frames: Seq<FrameContents>,
    b_between: int,
    anchors_per_gop: int,
    seq: Mpeg1SequenceParams,
    scale: u8,
    forward_f_code: u8,
    backward_f_code: u8,
    fdct: D,
    idct: F,
) -> Result<Seq<bool>> {
    match sequence_error(
        frames,
        anchors_per_gop,
        params_of(seq),
        scale,
        forward_f_code,
        backward_f_code,
    ) {
        Some(e) => Err(e),
        None => gops_encoded(
            plan_of(b_between, anchors_per_gop, seq, scale, forward_f_code, backward_f_code),
            frames,
            0,
            zero_padded(
                Seq::empty() + sequence_header_bits(
                    effective_header(
                        seq,
                        frames.len() as int,
                        b_between,
                        forward_f_code,
                        backward_f_code,
                    ),
                ),
            ),
            fdct,
            idct,
        ),
    }
}

pub open spec fn frame_matches(frame: FrameContents, params: Mpeg1PictureParams) -> bool {
    frame.width == params.width && frame.height == params.height
}

/// The settings of a sequence.
#[derive(Clone, Copy)]
struct SequenceSettings {
    params: Mpeg1PictureParams,
    picture_rate_code: u8,
    step: usize,
    anchors_per_gop: usize,
    scale: u8,
    forward_f_code: u8,
    backward_f_code: u8,
}

impl View for SequenceSettings {
    type V = SequencePlan;

    closed spec fn view(&self) -> SequencePlan {
        SequencePlan {
            params: self.params,
            picture_rate_code: self.picture_rate_code,
            step: self.step as int,
            anchors_per_gop: self.anchors_per_gop as int,
            scale: self.scale,
            forward_f_code: self.forward_f_code,
            backward_f_code: self.backward_f_code,
        }
    }
}

impl SequenceSettings {
    spec fn ok(self) -> bool {
        &&& scale_valid(self.scale)
        &&& 1 <= self.forward_f_code <= 7
        &&& 1 <= self.backward_f_code <= 7
        &&& encodable(self.params)
        &&& self.step >= 1
        &&& self.anchors_per_gop >= 1
    }
}

/// Writes the B-pictures between two anchors.
fn encode_b_run<
    D: Fn([[i16; 8]; 8]) -> [[i32; 8]; 8],
    F: Fn([[i32; 8]; 8]) -> [[i16; 8]; 8],
>(
    bw: &mut BitWriter,
    plan: &SequenceSettings,
    frames: &[FrameBuffer],
    gop_start: usize,
    prev: usize,
    anchor: usize,
    forward: &FrameBuffer,
    backward: &FrameBuffer,
    fdct: &D,
    idct: &F,
) -> (res: Result<()>)
    requires
        is_function(*fdct),
        is_function(*idct),
        plan.ok(),
        gop_start <= prev < anchor < frames@.len(),
    ensures
        res == Ok::<(), Error>(()),
        writer_bits(*final(bw)) == b_run_encoded(
            plan@,
            frames_of(frames@),
            gop_start as int,
            prev + 1,
            anchor as int,
            forward@,
            backward@,
            writer_bits(*old(bw)),
            *fdct,
        ),
{
    let ghost whole = b_run_encoded(
        plan@,
        frames_of(frames@),
        gop_start as int,
        prev + 1,
        anchor as int,
        forward@,
        backward@,
        writer_bits(*bw),
        *fdct,
    );
    let mut k: usize = prev + 1;
    while k < anchor
        invariant
            is_function(*fdct),
            is_function(*idct),
            plan.ok(),
            gop_start < k <= anchor < frames@.len(),
            b_run_encoded(
                plan@,
                frames_of(frames@),
                gop_start as int,
                k as int,
                anchor as int,
                forward@,
                backward@,
                writer_bits(*bw),
                *fdct,
            ) == whole,
        decreases anchor - k,
    {
        let done = encode_mpeg1_b_picture(
            bw,
            &frames[k],
            forward,
            backward,
            &plan.params,
            (k - gop_start) as u16,
            plan.scale,
            plan.forward_f_code,
            plan.backward_f_code,
            fdct,
            idct,
        );
        if done.is_err() {
            return done;
        }
        k += 1;
    }
    Ok(())
}

/// Writes the anchors of a group of pictures after its first, and the pictures
/// between them.
fn encode_anchors<
    D: Fn([[i16; 8]; 8]) -> [[i32; 8]; 8],
    F: Fn([[i32; 8]; 8]) -> [[i16; 8]; 8],
>(
    bw: &mut BitWriter,
    plan: &SequenceSettings,
    frames: &[FrameBuffer],
    gop_start: usize,
    gop_end: usize,
    first: FrameBuffer,
    fdct: &D,
    idct: &F,
) -> (res: Result<()>)
    requires
        is_function(*fdct),
        is_function(*idct),
        plan.ok(),
        gop_start <= gop_end < frames@.len(),
    ensures
        match anchors_encoded(
            plan@,
            frames_of(frames@),
            gop_start as int,
            gop_start as int,
            gop_end as int,
            first@,
            writer_bits(*old(bw)),
            *fdct,
            *idct,
        ) {
            Ok(bits) => res == Ok::<(), Error>(()) && writer_bits(*final(bw)) == bits,
            Err(e) => res == Err::<(), Error>(e),
        },
{
    let mut forward_ref = first;
    let mut prev_anchor: usize = gop_start;
    let ghost whole = anchors_encoded(
        plan@,
        frames_of(frames@),
        gop_start as int,
        gop_start as int,
        gop_end as int,
        first@,
        writer_bits(*bw),
        *fdct,
        *idct,
    );
    while prev_anchor < gop_end
        invariant
            is_function(*fdct),
            is_function(*idct),
            plan.ok(),
            gop_start <= prev_anchor <= gop_end < frames@.len(),
            whole == anchors_encoded(
                plan@,
                frames_of(frames@),
                gop_start as int,
                gop_start as int,
                gop_end as int,
                first@,
                writer_bits(*old(bw)),
                *fdct,
                *idct,
            ),
            anchors_encoded(
                plan@,
                frames_of(frames@),
                gop_start as int,
                prev_anchor as int,
                gop_end as int,
                forward_ref@,
                writer_bits(*bw),
                *fdct,
                *idct,
            ) == whole,
        decreases gop_end - prev_anchor,
    {
        let next_anchor: usize = if gop_end - prev_anchor > plan.step {
            prev_anchor + plan.step
        } else {
            gop_end
        };
        let backward_ref = encode_mpeg1_p_picture(
            bw,
            &frames[next_anchor],
            &forward_ref,
            &plan.params,
            (next_anchor - gop_start) as u16,
            plan.scale,
            plan.forward_f_code,
            fdct,
            idct,
        )?;
        let done = encode_b_run(
            bw,
            plan,
            frames,
            gop_start,
            prev_anchor,
            next_anchor,
            &forward_ref,
            &backward_ref,
            fdct,
            idct,
        );
        if done.is_err() {
            return done;
        }
        forward_ref = backward_ref;
        prev_anchor = next_anchor;
    }
    Ok(())
}

/// Writes the groups of pictures of a sequence.
fn encode_gops<
    D: Fn([[i16; 8]; 8]) -> [[i32; 8]; 8],
    F: Fn([[i32; 8]; 8]) -> [[i16; 8]; 8],
>(
    bw: &mut BitWriter,
    plan: &SequenceSettings,
    frames: &[FrameBuffer],
    fdct: &D,
    idct: &F,
) -> (res: Result<()>)
    requires
        is_function(*fdct),
        is_function(*idct),
        plan.ok(),
        plan.anchors_per_gop * plan.step <= usize::MAX,
    ensures
        match gops_encoded(
            plan@,
            frames_of(frames@),
            0,
            writer_bits(*old(bw)),
            *fdct,
            *idct,
        ) {
            Ok(bits) => res == Ok::<(), Error>(()) && writer_bits(*final(bw)) == bits,
            Err(e) => res == Err::<(), Error>(e),
        },
{
    let len: usize = frames.len();
    assert(plan.anchors_per_gop * plan.step >= 1) by (nonlinear_arith)
        requires
            plan.anchors_per_gop >= 1,
            plan.step >= 1,
    ;
    let span: usize = plan.anchors_per_gop * plan.step;
    let ghost whole = gops_encoded(
        plan@,
        frames_of(frames@),
        0,
        writer_bits(*bw),
        *fdct,
        *idct,
    );
    let mut gop_start: usize = 0;
    while gop_start < len
        invariant
            is_function(*fdct),
            is_function(*idct),
            plan.ok(),
            len == frames@.len(),
            span == plan.anchors_per_gop * plan.step,
            span >= 1,
            gop_start <= len,
            whole == gops_encoded(
                plan@,
                frames_of(frames@),
                0,
                writer_bits(*old(bw)),
                *fdct,
                *idct,
            ),
            gops_encoded(
                plan@,
                frames_of(frames@),
                gop_start as int,
                writer_bits(*bw),
                *fdct,
                *idct,
            ) == whole,
        decreases len - gop_start,
    {
        let gop_end: usize = if span < len - 1 - gop_start {
            gop_start + span
        } else {
            len - 1
        };
        assert(gop_end == gop_end_of(plan@, frames_of(frames@), gop_start as int));
        let time_code = TimeCode::from_display_index(gop_start as u64, plan.picture_rate_code)?;
        write_gop_header(
            bw,
            &Mpeg2Gop { time_code, closed_gop: true, broken_link: false },
        );
        let first = encode_mpeg1_intra_picture(
            bw,
            &frames[gop_start],
            &plan.params,
            0,
            plan.scale,
            fdct,
            idct,
        )?;
        encode_anchors(bw, plan, frames, gop_start, gop_end, first, fdct, idct)?;
        gop_start = gop_end + 1;
    }
    Ok(())
}

/// Whether the bytes of a stream are given bits, padded to a byte boundary, and the
/// sequence end code.
pub open spec fn stream_holds(stream: Seq<u8>, bits: Seq<bool>) -> bool {
    let n = stream.len() - 4;
    &&& n >= 0
    &&& crate::bits::bits_of(stream.subrange(0, n)) == zero_padded(bits)
    &&& stream.subrange(n, n + 4) == seq![0u8, 0u8, 1u8, 0xB7u8]
}

/// Encodes frames in display order as a sequence of groups of pictures: each starts
/// with an I-picture, every `b_between + 1`th frame after it is predicted, at most
/// `anchors_per_gop` times, and the frames between are B-pictures, which come after
/// the anchor that they precede on display. `fdct` and `idct` are the transform and
/// its inverse.
pub fn encode_mpeg1_display_order_sequence<
    D: Fn([[i16; 8]; 8]) -> [[i32; 8]; 8],
    F: Fn([[i32; 8]; 8]) -> [[i16; 8]; 8],
>(
    frames: &[FrameBuffer],
    b_between: usize,
    anchors_per_gop: usize,
    seq: &Mpeg1SequenceParams,
    quantizer_scale_code: u8,
    forward_f_code: u8,
    backward_f_code: u8,
    fdct: &D,
    idct: &F,
) -> (res: Result<Vec<u8>>)
    requires
        is_function(*fdct),
        is_function(*idct),
        sequence_error(
            frames_of(frames@),
            anchors_per_gop as int,
            params_of(*seq),
            quantizer_scale_code,
            forward_f_code,
            backward_f_code,
        ) is None ==> crate::frame_assembly::frame_fits(
            seq.horizontal_size as int,
            seq.vertical_size as int,
        ) && anchors_per_gop * (b_between + 1) <= usize::MAX,
    ensures
        match sequence_encoded(
            frames_of(frames@),
            b_between as int,
            anchors_per_gop as int,
            *seq,
            quantizer_scale_code,
            forward_f_code,
            backward_f_code,
            *fdct,
            *idct,
        ) {
            Ok(bits) => res is Ok && stream_holds(res->Ok_0@, bits),
            Err(e) => res == Err::<Vec<u8>, Error>(e),
        },
{
    let len: usize = frames.len();
    let ghost shown = frames_of(frames@);
    if len == 0 {
        return Err(Error::InvalidBitstream(ERR_NO_FRAMES));
    }
    if anchors_per_gop == 0 {
        return Err(Error::InvalidBitstream(ERR_NO_ANCHORS));
    }
    check_quantizer_scale(quantizer_scale_code)?;
    check_f_code(forward_f_code)?;
    check_f_code(backward_f_code)?;
    let params = picture_params(seq);
    let mut i: usize = 0;
    while i < len
        invariant
            i <= len,
            len == frames@.len(),
            len > 0,
            anchors_per_gop != 0,
            scale_valid(quantizer_scale_code),
            1 <= forward_f_code <= 7,
            1 <= backward_f_code <= 7,
            shown == frames_of(frames@),
            params == params_of(*seq),
            forall|k: int| 0 <= k < i ==> frame_matches(#[trigger] shown[k], params),
        decreases len - i,
    {
        let f = &frames[i];
        assert(f@ == shown[i as int]);
        if f.width != params.width || f.height != params.height {
            assert(!frame_matches(shown[i as int], params));
            return Err(Error::InvalidBitstream(ERR_FRAME_SIZE));
        }
        i += 1;
    }
    assert(b_between + 1 <= usize::MAX) by {
        assert(b_between + 1 <= anchors_per_gop * (b_between + 1)) by (nonlinear_arith)
            requires
                1 <= anchors_per_gop,
                0 <= b_between,
        ;
    }
    let uses_b = b_between > 0 && len > 1;
    let header = Mpeg1SequenceParams {
        constrained_parameters_flag: constrained_parameters_admissible(
            seq,
            forward_f_code,
            if uses_b {
                backward_f_code
            } else {
                1
            },
        ),
        ..*seq
    };
    let mut bw = BitWriter::new();
    write_mpeg1_sequence_header(&mut bw, &header);
    let plan = SequenceSettings {
        params,
        picture_rate_code: seq.picture_rate_code,
        step: b_between + 1,
        anchors_per_gop,
        scale: quantizer_scale_code,
        forward_f_code,
        backward_f_code,
    };
    proof {
        lemma_sequence_encodable(*seq);
    }
    encode_gops(&mut bw, &plan, frames, fdct, idct)?;
    let ghost bits = writer_bits(bw);
    let mut stream = bw.finish();
    let ghost body = stream@;
    stream.push(0x00);
    stream.push(0x00);
    stream.push(0x01);
    stream.push(0xB7);
    proof {
        let n = body.len() as int;
        assert(stream@.subrange(0, n) =~= body);
        assert(stream@.subrange(n, n + 4) =~= seq![0u8, 0u8, 1u8, 0xB7u8]);
    }
    Ok(stream)
}

proof fn lemma_sequence_encodable(seq: Mpeg1SequenceParams)
    requires
        crate::frame_assembly::frame_fits(
            seq.horizontal_size as int,
            seq.vertical_size as int,
        ),
    ensures
        encodable(params_of(seq)),
{
    let w = blocks_of_16(seq.horizontal_size as int);
    let h = blocks_of_16(seq.vertical_size as int);
    assert(0 <= w * h <= 4096 * 4096) by (nonlinear_arith)
        requires
            0 <= w <= 4096,
            0 <= h <= 4096,
    ;
}

/// Encodes one frame as a sequence of one I-picture. `fdct` and `idct` are the
/// transform and its inverse.
pub fn encode_mpeg1_intra_stream<
    D: Fn([[i16; 8]; 8]) -> [[i32; 8]; 8],
    F: Fn([[i32; 8]; 8]) -> [[i16; 8]; 8],
>(
    frame: &FrameBuffer,
    seq: &Mpeg1SequenceParams,
    quantizer_scale_code: u8,
    fdct: &D,
    idct: &F,
) -> (res: Result<Vec<u8>>)
    requires
        is_function(*fdct),
        is_function(*idct),
        sequence_error(
            seq![frame@],
            1,
            params_of(*seq),
            quantizer_scale_code,
            1,
            1,
        ) is None ==> crate::frame_assembly::frame_fits(
            seq.horizontal_size as int,
            seq.vertical_size as int,
        ),
    ensures
        match sequence_encoded(
            seq![frame@],
            0,
            1,
            *seq,
            quantizer_scale_code,
            1,
            1,
            *fdct,
            *idct,
        ) {
            Ok(bits) => res is Ok && stream_holds(res->Ok_0@, bits),
            Err(e) => res == Err::<Vec<u8>, Error>(e),
        },
{
    let mut frames: Vec<FrameBuffer> = Vec::new();
    frames.push(frame.clone());
    assert(frames_of(frames@) =~= seq![frame@]);
    encode_mpeg1_display_order_sequence(
        frames.as_slice(),
        0,
        1,
        seq,
        quantizer_scale_code,
        1,
        1,
        fdct,
        idct,
    )
}

} // verus!
