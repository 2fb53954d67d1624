//! MPEG-1 pictures: from the slices of a picture to its frame.

use crate::arith::{blocks_of_16, div_ceil_16};
use crate::bits::{addressable, bits_of, read_flag, reader_bits, reader_pos};
use crate::block::is_function;
use crate::dequantize::{finalise_intra_macroblock, IntraDcPredictors};
use crate::error::{Error, Result};
use crate::frame_assembly::{
    block_placement, blocks_in_format, find_macroblock, frame_with_block, frame_with_intra,
    lemma_locatable, locatable, locate, macroblock_addressable, place_intra_block,
    place_intra_macroblock, placement_of, saturated_samples, zero_frame, FrameBuffer,
    FrameContents,
};
use crate::inter_reconstruction::{
    inter_macroblock, mpeg1_vector, predicted_run, prediction_error, reconstruct_inter_macroblock, FrameMotion,
    ReferenceContents, ReferenceFrames, ResidualBlock,
};
use crate::mb_address_increment::{
    increment_at, lemma_increment_advances, MbAddressIncrement, MbAddressIncrementContext,
};
use crate::motion_vector::{vector_in_range, MotionVectorEntry, MotionVectorsContext};
use crate::mpeg1_block_decoder::{decode_d_block, lemma_mpeg1_blocks_advance, mpeg1_intra_at};
use crate::mpeg1_motion_vector::{Mpeg1MotionDirection, Mpeg1MotionVector};
use crate::mpeg1_reconstruct::{
    in_vector_range, law_component_stays_in_range, reconstruct, reconstruct_absent,
    reconstruct_zero, reconstructed, shown, split_vector, Mpeg1FrameMvContext, Mpeg1Predictor,
    Mpeg1ReconstructedMv,
};
use crate::mpeg2_macroblock_blocks::DecodedBlock;
use crate::picture::ChromaFormat;
use crate::picture_header::PictureCodingType;
use crate::picture_slices::{
    capped, comes_to_macroblock, decoded_as, decoded_slices, decoded_unless, picture_fits,
    slice_bytes,
};
use crate::slice_header::{find_slice_end, find_slice_start_code, SliceContext, SliceHeader};
use crate::slice_macroblock_walk::{
    at_slice_end, fields_of, fields_ok, slice_ends, slice_walk, walk_slice_at, MacroblockFields,
    MacroblockRecord, QuantiserMatrixState, SliceWalkContext, MAX_ADDRESS,
};
use oxideav_core::bits::BitReader;
use vstd::arithmetic::power2::lemma2_to64;
use vstd::prelude::*;

verus! {

pub const ERR_INTRA_TYPE: &'static str =
    "decode_mpeg1_inter_picture: use decode_mpeg1_intra_picture for I-pictures";

pub const ERR_NO_FORWARD_VECTOR: &'static str =
    "mpeg1 macroblock_motion_forward set but no motion vector payload (§2.4.3.6)";

pub const ERR_NO_BACKWARD_VECTOR: &'static str =
    "mpeg1 macroblock_motion_backward set but no motion vector payload (§2.4.3.6)";

pub const ERR_D_INCREMENT: &'static str =
    "D-picture macroblock_address_increment != 1: every macroblock of an all-intra picture shall be coded (§2.4.4.4)";

pub const ERR_D_TYPE: &'static str =
    "D-picture macroblock_type: only the Table B.2d codeword '1' exists";

pub const ERR_D_END: &'static str = "D-picture end_of_macroblock: bit shall be '1' (§2.4.3.6)";

pub const ERR_D_ADDRESS: &'static str =
    "D-picture macroblock_address: samples beyond what can be addressed";

/// The size of a picture and its matrices.
#[derive(Debug, Clone, Copy, PartialEq, Eq)]
pub struct Mpeg1PictureParams {
    pub width: usize,
    pub height: usize,
    pub intra_quant: [[u8; 8]; 8],
    pub non_intra_quant: [[u8; 8]; 8],
}

impl Mpeg1PictureParams {
    /// How many macroblocks a row has.
    pub fn mb_width(&self) -> (w: usize)
        ensures
            w == blocks_of_16(self.width as int),
    {
        div_ceil_16(self.width)
    }

    pub open spec fn matrices(self) -> QuantiserMatrixState {
        QuantiserMatrixState {
            intra_luma: self.intra_quant,
            non_intra_luma: self.non_intra_quant,
            intra_chroma: self.intra_quant,
            non_intra_chroma: self.non_intra_quant,
        }
    }
}

/// What a P- or B-picture is decoded with.
#[derive(Debug, Clone, Copy, PartialEq, Eq)]
pub struct Mpeg1InterParams {
    pub base: Mpeg1PictureParams,
    pub picture_coding_type: PictureCodingType,
    /// From 1 to 7.
    pub forward_f_code: u8,
    pub full_pel_forward_vector: bool,
    /// From 1 to 7; of use in B-pictures only.
    pub backward_f_code: u8,
    pub full_pel_backward_vector: bool,
}

/// What the macroblocks of a slice are read with.
pub open spec fn mpeg1_context(
    params: Mpeg1PictureParams,
    coding: PictureCodingType,
    header: SliceHeader,
    f_fwd: u8,
    f_bwd: u8,
) -> SliceWalkContext {
    SliceWalkContext {
        mb_width: blocks_of_16(params.width as int) as u32,
        mb_row: (header.slice_vertical_position - 1) as u32,
        picture_coding_type: coding,
        quantiser_scale_code: header.quantiser_scale_code,
        frame_pred_frame_dct: true,
        f_codes: MotionVectorsContext {
            f_code_fwd_horiz: f_fwd,
            f_code_fwd_vert: f_fwd,
            f_code_bwd_horiz: f_bwd,
            f_code_bwd_vert: f_bwd,
        },
        concealment_motion_vectors: false,
        chroma_format: ChromaFormat::Yuv420,
        intra_vlc_format: false,
        alternate_scan: false,
        intra_dc_precision: 0,
        q_scale_type: false,
        quantiser_matrices: params.matrices(),
        mpeg1: true,
    }
}

/// What the macroblocks of a slice are read with.
fn mpeg1_walk_context(
    params: &Mpeg1PictureParams,
    picture_coding_type: PictureCodingType,
    header: &SliceHeader,
    f_fwd: u8,
    f_bwd: u8,
) -> (ctx: SliceWalkContext)
    requires
        params.width <= u32::MAX,
        1 <= header.slice_vertical_position,
    ensures
        ctx == mpeg1_context(*params, picture_coding_type, *header, f_fwd, f_bwd),
{
    SliceWalkContext {
        mb_width: params.mb_width() as u32,
        mb_row: header.slice_vertical_position as u32 - 1,
        picture_coding_type,
        quantiser_scale_code: header.quantiser_scale_code,
        frame_pred_frame_dct: true,
        f_codes: MotionVectorsContext {
            f_code_fwd_horiz: f_fwd,
            f_code_fwd_vert: f_fwd,
            f_code_bwd_horiz: f_bwd,
            f_code_bwd_vert: f_bwd,
        },
        concealment_motion_vectors: false,
        chroma_format: ChromaFormat::Yuv420,
        intra_vlc_format: false,
        alternate_scan: false,
        intra_dc_precision: 0,
        q_scale_type: false,
        quantiser_matrices: QuantiserMatrixState {
            intra_luma: params.intra_quant,
            non_intra_luma: params.non_intra_quant,
            intra_chroma: params.intra_quant,
            non_intra_chroma: params.non_intra_quant,
        },
        mpeg1: true,
    }
}

// ---------------------------------------------------------------------------
// I-pictures
// ---------------------------------------------------------------------------

/// A frame and a count after the first `n` macroblocks of a slice were placed; a
/// macroblock counts where it has a block.
pub open spec fn intra_placed(
    frame: FrameContents,
    ms: Seq<MacroblockFields>,
    mb_width: int,
    n: int,
) -> (FrameContents, int)
    decreases n,
{
    if n <= 0 {
        (frame, 0)
    } else {
        let (before, count) = intra_placed(frame, ms, mb_width, n - 1);
        let m = ms[n - 1];
        let blocks = m.blocks.len() as int;
        (
            frame_with_intra(
                before,
                m.blocks,
                ChromaFormat::Yuv420,
                m.address % mb_width,
                m.address / mb_width,
                m.dct_type == Some(true),
                blocks,
            ),
            count + (if blocks_in_format(m.blocks, ChromaFormat::Yuv420, blocks) > 0 {
                1int
            } else {
                0int
            }),
        )
    }
}

/// What a slice of an I-picture makes of a frame.
pub open spec fn intra_slice<F: Fn([[i32; 8]; 8]) -> [[i16; 8]; 8]>(
    params: Mpeg1PictureParams,
    idct: F,
) -> spec_fn(Seq<u8>, SliceHeader, FrameContents) -> Result<(FrameContents, int)> {
    |buf: Seq<u8>, header: SliceHeader, frame: FrameContents|
        {
            let ctx = mpeg1_context(params, PictureCodingType::Intra, header, 7, 7);
            match slice_walk(buf, header.body_bit_position as int, ctx, idct) {
                Err(e) => Err(e),
                Ok(ms) => Ok(
                    intra_placed(
                        frame,
                        ms,
                        blocks_of_16(params.width as int),
                        ms.len() as int,
                    ),
                ),
            }
        }
}

/// Whether a slice of an I-picture has a macroblock, or why it is refused.
pub open spec fn intra_comes<F: Fn([[i32; 8]; 8]) -> [[i16; 8]; 8]>(
    params: Mpeg1PictureParams,
    idct: F,
) -> spec_fn(Seq<u8>, SliceHeader) -> Result<bool> {
    |buf: Seq<u8>, header: SliceHeader|
        {
            let ctx = mpeg1_context(params, PictureCodingType::Intra, header, 7, 7);
            match slice_walk(buf, header.body_bit_position as int, ctx, idct) {
                Err(e) => Err(e),
                Ok(ms) => Ok(ms.len() > 0),
            }
        }
}

/// Whether an I-picture without columns has a macroblock to put in one.
pub open spec fn intra_columnless<F: Fn([[i32; 8]; 8]) -> [[i16; 8]; 8]>(
    picture: Seq<u8>,
    params: Mpeg1PictureParams,
    idct: F,
) -> bool {
    params.width == 0 && comes_to_macroblock(
        picture,
        0,
        params.height as u32,
        0,
        intra_comes(params, idct),
    )
}

/// What an I-picture is decoded to.
pub open spec fn intra_decoded<F: Fn([[i32; 8]; 8]) -> [[i16; 8]; 8]>(
    picture: Seq<u8>,
    params: Mpeg1PictureParams,
    idct: F,
) -> Result<(FrameContents, int)> {
    decoded_slices(
        picture,
        0,
        params.height as u32,
        0,
        zero_frame(params.width as int, params.height as int, ChromaFormat::Yuv420),
        0,
        intra_slice(params, idct),
    )
}

fn place_intra_slice(
    frame: &mut FrameBuffer,
    records: &Vec<MacroblockRecord>,
    mb_width: usize,
    Ghost(ctx): Ghost<SliceWalkContext>,
) -> (count: usize)
    requires
        records@.len() > 0 ==> mb_width > 0,
        forall|i: int|
            0 <= i < records@.len() ==> fields_ok((#[trigger] records@[i])@, ctx),
    ensures
        (final(frame)@, count as int) == intra_placed(
            old(frame)@,
            fields_of(records@),
            mb_width as int,
            records@.len() as int,
        ),
{
    let ghost start = frame@;
    let ghost ms = fields_of(records@);
    let mut count: usize = 0;
    let mut k: usize = 0;
    while k < records.len()
        invariant
            k <= records@.len(),
            count <= k,
            records@.len() > 0 ==> mb_width > 0,
            ms == fields_of(records@),
            forall|i: int|
                0 <= i < records@.len() ==> fields_ok((#[trigger] records@[i])@, ctx),
            (frame@, count as int) == intra_placed(start, ms, mb_width as int, k as int),
        decreases records@.len() - k,
    {
        let record = &records[k];
        assert(fields_ok(records@[k as int]@, ctx));
        assert(ms[k as int] == records@[k as int]@);
        proof {
            lemma_locatable(record.macroblock_address as int, mb_width as int);
        }
        if place_intra_macroblock(frame, record, mb_width, ChromaFormat::Yuv420) > 0 {
            count += 1;
        }
        k += 1;
    }
    count
}

/// Decodes an I-picture. `picture` holds its slices, and `idct` is the inverse
/// transform. The second result is the number of macroblocks that were placed, as
/// far as the type can hold it.
pub fn decode_mpeg1_intra_picture<F: Fn([[i32; 8]; 8]) -> [[i16; 8]; 8]>(
    picture: &[u8],
    params: &Mpeg1PictureParams,
    idct: &F,
) -> (res: Result<(FrameBuffer, usize)>)
    requires
        8 * picture@.len() <= u64::MAX,
        picture_fits(params.width as int, params.height as int),
        !intra_columnless(picture@, *params, *idct),
        is_function(*idct),
    ensures
        decoded_as(res, intra_decoded(picture@, *params, *idct)),
{
    Ok(try_decode_mpeg1_intra_picture(picture, params, idct)?.unwrap())
}

/// Decodes an I-picture as `decode_mpeg1_intra_picture` does; there is no frame where
/// a macroblock has no column to lie in.
pub fn try_decode_mpeg1_intra_picture<F: Fn([[i32; 8]; 8]) -> [[i16; 8]; 8]>(
    picture: &[u8],
    params: &Mpeg1PictureParams,
    idct: &F,
) -> (res: Result<Option<(FrameBuffer, usize)>>)
    requires
        8 * picture@.len() <= u64::MAX,
        picture_fits(params.width as int, params.height as int),
        is_function(*idct),
    ensures
        decoded_unless(
            res,
            intra_columnless(picture@, *params, *idct),
            intra_decoded(picture@, *params, *idct),
        ),
{
    let mut frame = FrameBuffer::new(params.width, params.height, ChromaFormat::Yuv420);
    let mb_width = params.mb_width();
    let slice_ctx = SliceContext::non_scalable(params.height as u32);
    let ghost one = intra_slice(*params, *idct);
    let ghost comes = intra_comes(*params, *idct);
    let ghost whole = intra_decoded(picture@, *params, *idct);
    let ghost columnless = intra_columnless(picture@, *params, *idct);
    let ghost mut total: int = 0;
    let mut placed: usize = 0;
    let mut offset: usize = 0;
    loop
        invariant
            8 * picture@.len() <= u64::MAX,
            picture_fits(params.width as int, params.height as int),
            is_function(*idct),
            mb_width == blocks_of_16(params.width as int),
            slice_ctx.vertical_size == params.height,
            offset <= picture@.len(),
            one == intra_slice(*params, *idct),
            comes == intra_comes(*params, *idct),
            whole == intra_decoded(picture@, *params, *idct),
            columnless == intra_columnless(picture@, *params, *idct),
            columnless == (params.width == 0 && comes_to_macroblock(
                picture@,
                offset as int,
                params.height as u32,
                0,
                comes,
            )),
            0 <= total,
            placed == capped(total),
            decoded_slices(
                picture@,
                offset as int,
                params.height as u32,
                0,
                frame@,
                total,
                one,
            ) == whole,
        decreases picture@.len() - offset,
    {
        let start: usize = match find_slice_start_code(picture, offset) {
            Some(start) => start,
            None => {
                return Ok(Some((frame, placed)));
            },
        };
        let end = find_slice_end(picture, start);
        let slice_buf = vstd::slice::slice_subrange(picture, start, end);
        assert(slice_buf@ == slice_bytes(picture@, start as int, 0));
        let header = SliceHeader::parse(slice_buf, slice_ctx)?;
        let ctx = mpeg1_walk_context(params, PictureCodingType::Intra, &header, 7, 7);
        assert(ctx.mb_row * ctx.mb_width <= 0xFFFF * 0xFFFF_FFFF) by (nonlinear_arith)
            requires
                ctx.mb_row <= 0xFFFF,
                ctx.mb_width <= 0xFFFF_FFFF,
        ;
        let records = walk_slice_at(slice_buf, header.body_bit_position, &ctx, idct)?;
        if mb_width == 0 && records.len() > 0 {
            return Ok(None);
        }
        let count = place_intra_slice(&mut frame, &records, mb_width, Ghost(ctx));
        placed = placed.saturating_add(count);
        proof {
            total = total + count;
        }
        offset = end;
    }
}

// ---------------------------------------------------------------------------
// D-pictures
// ---------------------------------------------------------------------------

/// A frame after the blocks from block `i` on of a D-picture macroblock, the
/// position after them, and the DC predictions that they leave.
pub open spec fn d_blocks_from<F: Fn([[i32; 8]; 8]) -> [[i16; 8]; 8]>(
    s: Seq<bool>,
    at: int,
    i: int,
    params: Mpeg1PictureParams,
    scale: u8,
    predictors: IntraDcPredictors,
    address: int,
    frame: FrameContents,
    idct: F,
) -> (Result<FrameContents>, int, IntraDcPredictors)
    decreases 6 - i,
{
    if i >= 6 {
        (Ok(frame), at, predictors)
    } else {
        let (block, p, after) = mpeg1_intra_at(
            s,
            at,
            i as u8,
            false,
            scale,
            params.intra_quant,
            predictors,
            address as i32,
            idct,
        );
        let mb_width = blocks_of_16(params.width as int);
        match block {
            Err(e) => (Err(e), p, after),
            Ok(block) => d_blocks_from(
                s,
                p,
                i + 1,
                params,
                scale,
                after,
                address,
                frame_with_block(
                    frame,
                    placement_of(
                        i,
                        ChromaFormat::Yuv420,
                        address % mb_width,
                        address / mb_width,
                        false,
                    ),
                    saturated_samples(block.f_pel),
                ),
                idct,
            ),
        }
    }
}

/// The start of the D-picture macroblock at `at`: an increment of 1 and a type bit of 1.
pub open spec fn d_start_at(s: Seq<bool>, at: int) -> (Result<()>, int) {
    let (increment, p1) = increment_at(s, at, true);
    match increment {
        Err(e) => (Err(e), p1),
        Ok(increment) => if increment.value != 1 {
            (Err(Error::InvalidBitstream(ERR_D_INCREMENT)), p1)
        } else if p1 >= s.len() {
            (Err(Error::ShortHeader), p1)
        } else if !s[p1] {
            (Err(Error::InvalidBitstream(ERR_D_TYPE)), p1 + 1)
        } else {
            (Ok(()), p1 + 1)
        },
    }
}

/// A frame after the D-picture macroblock at `at`, the DC predictions that it
/// leaves, and the position after it. After its start the macroblock has six blocks
/// and an end bit of 1.
#[verifier::opaque]
pub open spec fn d_macroblock_at<F: Fn([[i32; 8]; 8]) -> [[i16; 8]; 8]>(
    s: Seq<bool>,
    at: int,
    params: Mpeg1PictureParams,
    scale: u8,
    predictors: IntraDcPredictors,
    address: int,
    frame: FrameContents,
    idct: F,
) -> (Result<(FrameContents, IntraDcPredictors)>, int) {
    let (start, p1) = d_start_at(s, at);
    match start {
        Err(e) => (Err(e), p1),
        Ok(_) => if !locatable(address, blocks_of_16(params.width as int)) {
            (Err(Error::InvalidBitstream(ERR_D_ADDRESS)), p1)
        } else {
            let (after, p2, last) = d_blocks_from(
                s,
                p1,
                0,
                params,
                scale,
                predictors,
                address,
                frame,
                idct,
            );
            match after {
                Err(e) => (Err(e), p2),
                Ok(after) => if p2 >= s.len() {
                    (Err(Error::ShortHeader), p2)
                } else if !s[p2] {
                    (Err(Error::InvalidBitstream(ERR_D_END)), p2 + 1)
                } else {
                    (Ok((after, last.after_macroblock(address as i32))), p2 + 1)
                },
            }
        },
    }
}

proof fn lemma_d_blocks_advance<F: Fn([[i32; 8]; 8]) -> [[i16; 8]; 8]>(
    s: Seq<bool>,
    at: int,
    i: int,
    params: Mpeg1PictureParams,
    scale: u8,
    predictors: IntraDcPredictors,
    address: int,
    frame: FrameContents,
    idct: F,
)
    ensures
        d_blocks_from(s, at, i, params, scale, predictors, address, frame, idct).1 >= at,
    decreases 6 - i,
{
    if i < 6 {
        let q = params.intra_quant;
        lemma_mpeg1_blocks_advance(
            s,
            at,
            i as u8,
            false,
            scale,
            q,
            predictors,
            address as i32,
            idct,
        );
        let (block, p, after) = mpeg1_intra_at(
            s,
            at,
            i as u8,
            false,
            scale,
            q,
            predictors,
            address as i32,
            idct,
        );
        let mb_width = blocks_of_16(params.width as int);
        if let Ok(block) = block {
            lemma_d_blocks_advance(
                s,
                p,
                i + 1,
                params,
                scale,
                after,
                address,
                frame_with_block(
                    frame,
                    placement_of(
                        i,
                        ChromaFormat::Yuv420,
                        address % mb_width,
                        address / mb_width,
                        false,
                    ),
                    saturated_samples(block.f_pel),
                ),
                idct,
            );
        }
    }
}

/// Reading a macroblock moves on by two bits or more.
pub proof fn lemma_d_macroblock_advances<F: Fn([[i32; 8]; 8]) -> [[i16; 8]; 8]>(
    s: Seq<bool>,
    at: int,
    params: Mpeg1PictureParams,
    scale: u8,
    predictors: IntraDcPredictors,
    address: int,
    frame: FrameContents,
    idct: F,
)
    ensures
        d_macroblock_at(s, at, params, scale, predictors, address, frame, idct).0 is Ok
            ==> d_macroblock_at(s, at, params, scale, predictors, address, frame, idct).1 >= at + 2,
{
    reveal(d_macroblock_at);
    lemma_increment_advances(s, at, true, 0);
    let p1 = d_start_at(s, at).1;
    lemma_d_blocks_advance(s, p1, 0, params, scale, predictors, address, frame, idct);
}

/// A frame and a count after the macroblocks from `at` on, up to the end of the
/// slice.
pub open spec fn d_slice_from<F: Fn([[i32; 8]; 8]) -> [[i16; 8]; 8]>(
    s: Seq<bool>,
    at: int,
    params: Mpeg1PictureParams,
    scale: u8,
    predictors: IntraDcPredictors,
    address: int,
    frame: FrameContents,
    count: int,
    idct: F,
) -> Result<(FrameContents, int)>
    decreases
            (if at < s.len() {
                s.len() - at
            } else {
                0
            }),
{
    proof {
        lemma_d_macroblock_advances(s, at, params, scale, predictors, address, frame, idct);
    }
    if slice_ends(s, at) {
        Ok((frame, count))
    } else {
        let (m, p) = d_macroblock_at(s, at, params, scale, predictors, address, frame, idct);
        match m {
            Err(e) => Err(e),
            Ok((after, last)) => d_slice_from(
                s,
                p,
                params,
                scale,
                last,
                address + 1,
                after,
                count + 1,
                idct,
            ),
        }
    }
}

/// What a slice of a D-picture makes of a frame.
pub open spec fn d_slice<F: Fn([[i32; 8]; 8]) -> [[i16; 8]; 8]>(
    params: Mpeg1PictureParams,
    idct: F,
) -> spec_fn(Seq<u8>, SliceHeader, FrameContents) -> Result<(FrameContents, int)> {
    |buf: Seq<u8>, header: SliceHeader, frame: FrameContents|
        if header.body_bit_position > u32::MAX {
            Err(Error::ShortHeader)
        } else {
            d_slice_from(
                bits_of(buf),
                header.body_bit_position as int,
                params,
                header.quantiser_scale_code,
                IntraDcPredictors::spec_at_slice_start(),
                (header.slice_vertical_position - 1) * blocks_of_16(params.width as int),
                frame,
                0,
                idct,
            )
        }
}

/// Whether a slice of a D-picture has a macroblock that is not refused at its start, or
/// why it is refused.
pub open spec fn d_comes() -> spec_fn(Seq<u8>, SliceHeader) -> Result<bool> {
    |buf: Seq<u8>, header: SliceHeader|
        {
            let at = header.body_bit_position as int;
            if at > u32::MAX {
                Err(Error::ShortHeader)
            } else if slice_ends(bits_of(buf), at) {
                Ok(false)
            } else {
                match d_start_at(bits_of(buf), at).0 {
                    Err(e) => Err(e),
                    Ok(_) => Ok(true),
                }
            }
        }
}

/// Whether a D-picture without columns has a macroblock to put in one.
pub open spec fn d_columnless(picture: Seq<u8>, params: Mpeg1PictureParams) -> bool {
    params.width == 0 && comes_to_macroblock(picture, 0, params.height as u32, 0, d_comes())
}

/// What a D-picture is decoded to.
pub open spec fn d_decoded<F: Fn([[i32; 8]; 8]) -> [[i16; 8]; 8]>(
    picture: Seq<u8>,
    params: Mpeg1PictureParams,
    idct: F,
) -> Result<(FrameContents, int)> {
    decoded_slices(
        picture,
        0,
        params.height as u32,
        0,
        zero_frame(params.width as int, params.height as int, ChromaFormat::Yuv420),
        0,
        d_slice(params, idct),
    )
}

/// Reads the start of a D-picture macroblock.
fn read_d_start(br: &mut BitReader<'_>) -> (res: Result<()>)
    requires
        addressable(*old(br)),
    ensures
        reader_bits(*final(br)) == reader_bits(*old(br)),
        ({
            let (want, next) = d_start_at(reader_bits(*old(br)), reader_pos(*old(br)) as int);
            res == want && (res is Ok ==> reader_pos(*final(br)) == next)
        }),
{
    let increment = MbAddressIncrement::parse(br, MbAddressIncrementContext::mpeg1())?;
    if increment.value != 1 {
        return Err(Error::InvalidBitstream(ERR_D_INCREMENT));
    }
    if !read_flag(br)? {
        return Err(Error::InvalidBitstream(ERR_D_TYPE));
    }
    Ok(())
}

/// Whether a slice of a D-picture has a macroblock that is not refused at its start.
fn d_slice_comes(slice_buf: &[u8], header: &SliceHeader) -> (res: Result<bool>)
    requires
        8 * slice_buf@.len() <= u64::MAX,
        header.body_bit_position <= 8 * slice_buf@.len(),
    ensures
        res == d_comes()(slice_buf@, *header),
{
    let mut br = BitReader::new(slice_buf);
    if header.body_bit_position > u32::MAX as u64 {
        return Err(Error::ShortHeader);
    }
    let _ = br.skip(header.body_bit_position as u32);
    if at_slice_end(&mut br) {
        return Ok(false);
    }
    read_d_start(&mut br)?;
    Ok(true)
}

fn decode_d_macroblock<F: Fn([[i32; 8]; 8]) -> [[i16; 8]; 8]>(
    br: &mut BitReader<'_>,
    frame: &mut FrameBuffer,
    params: &Mpeg1PictureParams,
    scale: u8,
    predictors: &mut IntraDcPredictors,
    address: u64,
    idct: &F,
) -> (res: Result<()>)
    requires
        addressable(*old(br)),
        is_function(*idct),
        params.width > 0,
    ensures
        reader_bits(*final(br)) == reader_bits(*old(br)),
        ({
            let (want, next) = d_macroblock_at(
                reader_bits(*old(br)),
                reader_pos(*old(br)) as int,
                *params,
                scale,
                *old(predictors),
                address as int,
                old(frame)@,
                *idct,
            );
            match res {
                Ok(_) => want == Ok::<(FrameContents, IntraDcPredictors), Error>(
                    (final(frame)@, *final(predictors)),
                ) && reader_pos(*final(br)) == next,
                Err(e) => want == Err::<(FrameContents, IntraDcPredictors), Error>(e),
            }
        }),
{
    proof {
        reveal(d_macroblock_at);
    }
    read_d_start(br)?;
    let (mb_col, mb_row) = match find_macroblock(address, params.mb_width()) {
        Some(place) => place,
        None => {
            return Err(Error::InvalidBitstream(ERR_D_ADDRESS));
        },
    };
    let ghost s = reader_bits(*br);
    let ghost whole = d_blocks_from(
        s,
        reader_pos(*br) as int,
        0,
        *params,
        scale,
        *predictors,
        address as int,
        frame@,
        *idct,
    );
    let ghost wanted = d_macroblock_at(
        s,
        reader_pos(*old(br)) as int,
        *params,
        scale,
        *old(predictors),
        address as int,
        old(frame)@,
        *idct,
    );
    let mut i: u8 = 0;
    while i < 6
        invariant
            i <= 6,
            is_function(*idct),
            reader_bits(*br) == s,
            s == reader_bits(*old(br)),
            addressable(*br),
            macroblock_addressable(mb_col as int, mb_row as int),
            mb_col == address as int % blocks_of_16(params.width as int),
            mb_row == address as int / blocks_of_16(params.width as int),
            wanted == d_macroblock_at(
                s,
                reader_pos(*old(br)) as int,
                *params,
                scale,
                *old(predictors),
                address as int,
                old(frame)@,
                *idct,
            ),
            whole.0 is Err ==> wanted.0 == Err::<(FrameContents, IntraDcPredictors), Error>(
                whole.0->Err_0,
            ),
            d_blocks_from(
                s,
                reader_pos(*br) as int,
                i as int,
                *params,
                scale,
                *predictors,
                address as int,
                frame@,
                *idct,
            ) == whole,
        decreases 6 - i,
    {
        let block = decode_d_block(
            br,
            i,
            scale,
            &params.intra_quant,
            predictors,
            #[verifier::truncate]
            (address as i32),
            idct,
        )?;
        match block_placement(i as usize, ChromaFormat::Yuv420, mb_col, mb_row, false) {
            Some(placement) => {
                place_intra_block(frame, placement, &block.f_pel);
            },
            None => {},
        }
        i += 1;
    }
    if !read_flag(br)? {
        return Err(Error::InvalidBitstream(ERR_D_END));
    }
    finalise_intra_macroblock(
        predictors,
        #[verifier::truncate]
        (address as i32),
    );
    Ok(())
}

fn decode_d_slice<F: Fn([[i32; 8]; 8]) -> [[i16; 8]; 8]>(
    frame: &mut FrameBuffer,
    slice_buf: &[u8],
    header: &SliceHeader,
    params: &Mpeg1PictureParams,
    idct: &F,
) -> (res: Result<usize>)
    requires
        8 * slice_buf@.len() <= u64::MAX,
        header.body_bit_position <= 8 * slice_buf@.len(),
        1 <= header.slice_vertical_position,
        1 <= params.width <= u32::MAX,
        is_function(*idct),
    ensures
        match d_slice(*params, *idct)(slice_buf@, *header, old(frame)@) {
            Ok((after, count)) => res is Ok && final(frame)@ == after && res->Ok_0 == capped(
                count,
            ) && 0 <= count,
            Err(e) => res == Err::<usize, Error>(e),
        },
{
    let mut br = BitReader::new(slice_buf);
    if header.body_bit_position > u32::MAX as u64 {
        return Err(Error::ShortHeader);
    }
    let ghost s = reader_bits(br);
    let _ = br.skip(header.body_bit_position as u32);
    let mut predictors = IntraDcPredictors::at_slice_start();
    let mb_width = params.mb_width();
    let row: u64 = header.slice_vertical_position as u64 - 1;
    assert(0 <= row * mb_width <= 0xFFFF * 0xFFFF_FFFF) by (nonlinear_arith)
        requires
            row <= 0xFFFF,
            mb_width <= 0xFFFF_FFFF,
    ;
    let mut address: u64 = row * (mb_width as u64);
    let ghost whole = d_slice_from(
        s,
        reader_pos(br) as int,
        *params,
        header.quantiser_scale_code,
        predictors,
        address as int,
        frame@,
        0,
        *idct,
    );
    assert(d_slice(*params, *idct)(slice_buf@, *header, frame@) == whole);
    let ghost mut total: int = 0;
    let mut count: usize = 0;
    while !at_slice_end(&mut br)
        invariant
            is_function(*idct),
            reader_bits(br) == s,
            addressable(br),
            params.width > 0,
            0 <= total,
            count == capped(total),
            2 * (address - 0xFFFF * 0xFFFF_FFFF) <= reader_pos(br),
            d_slice(*params, *idct)(slice_buf@, *header, old(frame)@) == whole,
            d_slice_from(
                s,
                reader_pos(br) as int,
                *params,
                header.quantiser_scale_code,
                predictors,
                address as int,
                frame@,
                total,
                *idct,
            ) == whole,
        decreases
                (if reader_pos(br) < s.len() {
                    s.len() - reader_pos(br)
                } else {
                    0
                }),
    {
        proof {
            lemma_d_macroblock_advances(
                s,
                reader_pos(br) as int,
                *params,
                header.quantiser_scale_code,
                predictors,
                address as int,
                frame@,
                *idct,
            );
        }
        decode_d_macroblock(
            &mut br,
            frame,
            params,
            header.quantiser_scale_code,
            &mut predictors,
            address,
            idct,
        )?;
        address += 1;
        count = count.saturating_add(1);
        proof {
            total = total + 1;
        }
    }
    Ok(count)
}

/// Decodes a D-picture. `picture` holds its slices, and `idct` is the inverse
/// transform. The second result is the number of macroblocks, as far as the type can
/// hold it.
pub fn decode_mpeg1_d_picture<F: Fn([[i32; 8]; 8]) -> [[i16; 8]; 8]>(
    picture: &[u8],
    params: &Mpeg1PictureParams,
    idct: &F,
) -> (res: Result<(FrameBuffer, usize)>)
    requires
        8 * picture@.len() <= u64::MAX,
        picture_fits(params.width as int, params.height as int),
        !d_columnless(picture@, *params),
        is_function(*idct),
    ensures
        decoded_as(res, d_decoded(picture@, *params, *idct)),
{
    Ok(try_decode_mpeg1_d_picture(picture, params, idct)?.unwrap())
}

/// Decodes a D-picture as `decode_mpeg1_d_picture` does; there is no frame where a
/// macroblock has no column to lie in.
pub fn try_decode_mpeg1_d_picture<F: Fn([[i32; 8]; 8]) -> [[i16; 8]; 8]>(
    picture: &[u8],
    params: &Mpeg1PictureParams,
    idct: &F,
) -> (res: Result<Option<(FrameBuffer, usize)>>)
    requires
        8 * picture@.len() <= u64::MAX,
        picture_fits(params.width as int, params.height as int),
        is_function(*idct),
    ensures
        decoded_unless(
            res,
            d_columnless(picture@, *params),
            d_decoded(picture@, *params, *idct),
        ),
{
    let mut frame = FrameBuffer::new(params.width, params.height, ChromaFormat::Yuv420);
    let slice_ctx = SliceContext::non_scalable(params.height as u32);
    let ghost one = d_slice(*params, *idct);
    let ghost whole = d_decoded(picture@, *params, *idct);
    let ghost columnless = d_columnless(picture@, *params);
    let ghost mut total: int = 0;
    let mut placed: usize = 0;
    let mut offset: usize = 0;
    loop
        invariant
            8 * picture@.len() <= u64::MAX,
            picture_fits(params.width as int, params.height as int),
            is_function(*idct),
            slice_ctx.vertical_size == params.height,
            offset <= picture@.len(),
            one == d_slice(*params, *idct),
            whole == d_decoded(picture@, *params, *idct),
            columnless == d_columnless(picture@, *params),
            columnless == (params.width == 0 && comes_to_macroblock(
                picture@,
                offset as int,
                params.height as u32,
                0,
                d_comes(),
            )),
            0 <= total,
            placed == capped(total),
            decoded_slices(
                picture@,
                offset as int,
                params.height as u32,
                0,
                frame@,
                total,
                one,
            ) == whole,
        decreases picture@.len() - offset,
    {
        let start: usize = match find_slice_start_code(picture, offset) {
            Some(start) => start,
            None => {
                return Ok(Some((frame, placed)));
            },
        };
        let end = find_slice_end(picture, start);
        let slice_buf = vstd::slice::slice_subrange(picture, start, end);
        assert(slice_buf@ == slice_bytes(picture@, start as int, 0));
        let header = SliceHeader::parse(slice_buf, slice_ctx)?;
        let ghost before = frame@;
        if params.width == 0 {
            proof {
                lemma_d_refused(slice_buf@, header, before, *params, *idct);
            }
            if d_slice_comes(slice_buf, &header)? {
                return Ok(None);
            }
        } else {
            let count = decode_d_slice(&mut frame, slice_buf, &header, params, idct)?;
            placed = placed.saturating_add(count);
        }
        proof {
            total = total + one(slice_buf@, header, before)->Ok_0.1;
        }
        offset = end;
    }
}

/// A slice of a D-picture that is refused at the start of its first macroblock, or has
/// none.
proof fn lemma_d_refused<F: Fn([[i32; 8]; 8]) -> [[i16; 8]; 8]>(
    buf: Seq<u8>,
    header: SliceHeader,
    frame: FrameContents,
    params: Mpeg1PictureParams,
    idct: F,
)
    ensures
        match d_comes()(buf, header) {
            Err(e) => d_slice(params, idct)(buf, header, frame) == Err::<
                (FrameContents, int),
                Error,
            >(e),
            Ok(comes) => !comes ==> d_slice(params, idct)(buf, header, frame) == Ok::<
                (FrameContents, int),
                Error,
            >((frame, 0)),
        },
{
    reveal(d_macroblock_at);
}

// ---------------------------------------------------------------------------
// P- and B-pictures
// ---------------------------------------------------------------------------

/// The prediction directions of a macroblock.
#[derive(Debug, Clone, Copy, PartialEq, Eq)]
pub struct PriorDirections {
    pub forward: bool,
    pub backward: bool,
}

/// The vectors of a picture: their `f_code` values and units.
#[derive(Debug, Clone, Copy, PartialEq, Eq)]
pub struct VectorContexts {
    pub is_b: bool,
    pub forward: Mpeg1FrameMvContext,
    pub backward: Mpeg1FrameMvContext,
}

/// What is carried from one macroblock of a slice to the next: the last vectors,
/// and the directions of the macroblock before.
#[derive(Debug, Clone, Copy, PartialEq, Eq)]
pub struct InterState {
    pub forward: Mpeg1Predictor,
    pub backward: Mpeg1Predictor,
    pub prior: Option<PriorDirections>,
}

pub open spec fn zero_predictor() -> Mpeg1Predictor {
    Mpeg1Predictor { recon_right_prev: 0, recon_down_prev: 0 }
}

/// The state at the start of a slice.
pub open spec fn slice_start_state() -> InterState {
    InterState { forward: zero_predictor(), backward: zero_predictor(), prior: None }
}

/// The vector that a direction inherits.
pub open spec fn inherited(
    ctx: Mpeg1FrameMvContext,
    predictor: Mpeg1Predictor,
) -> Mpeg1ReconstructedMv {
    split_vector(
        shown(predictor.recon_right_prev as int, ctx.full_pel),
        shown(predictor.recon_down_prev as int, ctx.full_pel),
    )
}

/// How a skipped macroblock is predicted: in a P-picture with a zero vector; in a
/// B-picture in the directions of the macroblock before, with the last vectors of
/// each, or forward where there is none before.
pub open spec fn skip_motion(vc: VectorContexts, st: InterState) -> FrameMotion {
    if vc.is_b {
        let dirs = match st.prior {
            Some(d) => d,
            None => (PriorDirections { forward: true, backward: false }),
        };
        FrameMotion {
            forward: if dirs.forward {
                mpeg1_vector(Some(inherited(vc.forward, st.forward)))
            } else {
                None
            },
            backward: if dirs.backward {
                mpeg1_vector(Some(inherited(vc.backward, st.backward)))
            } else {
                None
            },
        }
    } else {
        FrameMotion { forward: mpeg1_vector(Some(split_vector(0, 0))), backward: None }
    }
}

/// The state after skipped macroblocks: in a P-picture the last vector is zero.
pub open spec fn after_skips(vc: VectorContexts, st: InterState, skipped: int) -> InterState {
    if skipped > 0 && !vc.is_b {
        InterState { forward: zero_predictor(), ..st }
    } else {
        st
    }
}

/// The first vector of a direction of a macroblock.
pub open spec fn wire_vector(
    entries: Option<Seq<MotionVectorEntry>>,
    direction: Mpeg1MotionDirection,
) -> Option<Mpeg1MotionVector> {
    match entries {
        Some(e) => if e.len() > 0 {
            let mv = e[0].motion_vector;
            Some(
                (Mpeg1MotionVector {
                    direction,
                    horizontal_code: mv.motion_code_horiz,
                    horizontal_r: mv.motion_residual_horiz,
                    vertical_code: mv.motion_code_vert,
                    vertical_r: mv.motion_residual_vert,
                    bit_position_after: mv.bit_position_after,
                }),
            )
        } else {
            None
        },
        None => None,
    }
}

/// The first vector of a direction of a macroblock.
pub fn wire_to_mpeg1_mv(record: &MacroblockRecord, direction: Mpeg1MotionDirection) -> (r: Option<
    Mpeg1MotionVector,
>)
    ensures
        r == wire_vector(
            match direction {
                Mpeg1MotionDirection::Forward => record@.forward,
                Mpeg1MotionDirection::Backward => record@.backward,
            },
            direction,
        ),
{
    let wire = match direction {
        Mpeg1MotionDirection::Forward => &record.motion_vectors_forward,
        Mpeg1MotionDirection::Backward => &record.motion_vectors_backward,
    };
    match wire {
        None => None,
        Some(wire) => {
            if wire.entries.len() == 0 {
                return None;
            }
            let mv = wire.entries[0].motion_vector;
            Some(
                Mpeg1MotionVector {
                    direction,
                    horizontal_code: mv.motion_code_horiz,
                    horizontal_r: mv.motion_residual_horiz,
                    vertical_code: mv.motion_code_vert,
                    vertical_r: mv.motion_residual_vert,
                    bit_position_after: mv.bit_position_after,
                },
            )
        },
    }
}

/// A vector that a macroblock carries, and the last vector after it.
pub open spec fn carried_vector(
    entries: Option<Seq<MotionVectorEntry>>,
    direction: Mpeg1MotionDirection,
    err: &'static str,
    ctx: Mpeg1FrameMvContext,
    predictor: Mpeg1Predictor,
) -> (Result<Mpeg1ReconstructedMv>, Mpeg1Predictor) {
    match wire_vector(entries, direction) {
        None => (Err(Error::InvalidBitstream(err)), predictor),
        Some(mv) => reconstructed(mv, ctx, predictor, direction),
    }
}

/// The forward vector of a macroblock that is not intra, and the last vector after
/// it. In a P-picture a macroblock without one has a zero vector.
pub open spec fn forward_vector(m: MacroblockFields, vc: VectorContexts, st: InterState) -> (
    Result<Option<Mpeg1ReconstructedMv>>,
    Mpeg1Predictor,
) {
    if m.macroblock_type.macroblock_motion_forward {
        let (v, p) = carried_vector(
            m.forward,
            Mpeg1MotionDirection::Forward,
            ERR_NO_FORWARD_VECTOR,
            vc.forward,
            st.forward,
        );
        match v {
            Ok(v) => (Ok(Some(v)), p),
            Err(e) => (Err(e), p),
        }
    } else if !vc.is_b {
        (Ok(Some(split_vector(0, 0))), zero_predictor())
    } else {
        (Ok(None), st.forward)
    }
}

/// The backward vector of a macroblock that is not intra, and the last vector after
/// it.
pub open spec fn backward_vector(m: MacroblockFields, vc: VectorContexts, st: InterState) -> (
    Result<Option<Mpeg1ReconstructedMv>>,
    Mpeg1Predictor,
) {
    if m.macroblock_type.macroblock_motion_backward {
        let (v, p) = carried_vector(
            m.backward,
            Mpeg1MotionDirection::Backward,
            ERR_NO_BACKWARD_VECTOR,
            vc.backward,
            st.backward,
        );
        match v {
            Ok(v) => (Ok(Some(v)), p),
            Err(e) => (Err(e), p),
        }
    } else {
        (Ok(None), st.backward)
    }
}

/// The residuals of decoded blocks.
pub open spec fn residuals_of(blocks: Seq<DecodedBlock>) -> Seq<ResidualBlock> {
    Seq::new(
        blocks.len(),
        |i: int|
            ResidualBlock { block_index: blocks[i].block_index, f_pel: blocks[i].decoded.f_pel },
    )
}

/// How a macroblock that is not intra is predicted, and the state with its last
/// vectors.
pub open spec fn coded_motion(m: MacroblockFields, vc: VectorContexts, st: InterState) -> (
    Result<FrameMotion>,
    InterState,
) {
    let (forward, p) = forward_vector(m, vc, st);
    match forward {
        Err(e) => (Err(e), (InterState { forward: p, ..st })),
        Ok(forward) => {
            let (backward, q) = backward_vector(m, vc, st);
            let half = InterState { forward: p, backward: q, ..st };
            match backward {
                Err(e) => (Err(e), half),
                Ok(backward) => (
                    Ok(
                        (FrameMotion {
                            forward: mpeg1_vector(forward),
                            backward: mpeg1_vector(backward),
                        }),
                    ),
                    half,
                ),
            }
        },
    }
}

/// A frame and a state after a coded macroblock, or why there is none. An intra
/// macroblock resets the last vectors, the backward one in B-pictures only, and
/// leaves no directions.
pub open spec fn coded_macroblock(
    frame: FrameContents,
    refs: ReferenceContents,
    m: MacroblockFields,
    mb_width: int,
    vc: VectorContexts,
    st: InterState,
) -> (Result<()>, FrameContents, InterState) {
    let mb_col = m.address % mb_width;
    let mb_row = m.address / mb_width;
    if m.macroblock_type.macroblock_intra {
        (
            Ok(()),
            frame_with_intra(
                frame,
                m.blocks,
                ChromaFormat::Yuv420,
                mb_col,
                mb_row,
                m.dct_type == Some(true),
                m.blocks.len() as int,
            ),
            InterState {
                forward: zero_predictor(),
                backward: if vc.is_b {
                    zero_predictor()
                } else {
                    st.backward
                },
                prior: None,
            },
        )
    } else {
        let (motion, half) = coded_motion(m, vc, st);
        match motion {
            Err(e) => (Err(e), frame, half),
            Ok(motion) => match prediction_error(refs, motion) {
                Some(e) => (Err(e), frame, half),
                None => (
                    Ok(()),
                    inter_macroblock(
                        frame,
                        refs,
                        mb_col,
                        mb_row,
                        false,
                        motion,
                        residuals_of(m.blocks),
                    ),
                    InterState {
                        prior: Some(
                            (PriorDirections {
                                forward: m.macroblock_type.macroblock_motion_forward,
                                backward: m.macroblock_type.macroblock_motion_backward,
                            }),
                        ),
                        ..half
                    },
                ),
            },
        }
    }
}

/// Whether a last vector lies in the range of its `f_code`.
pub open spec fn predictor_in_range(p: Mpeg1Predictor, f_code: u8) -> bool {
    1 <= f_code <= 7 ==> in_vector_range(p.recon_right_prev as int, f_code) && in_vector_range(
        p.recon_down_prev as int,
        f_code,
    )
}

/// Whether the vectors of a direction have the codes and residuals of its `f_code`.
pub open spec fn wire_in_range(entries: Option<Seq<MotionVectorEntry>>, f_code: u8) -> bool {
    entries matches Some(e) ==> e.len() > 0 ==> vector_in_range(
        e[0].motion_vector,
        (f_code, f_code),
    )
}

/// The vectors that a macroblock carries in one direction stay in range.
pub proof fn lemma_carried_in_range(
    entries: Option<Seq<MotionVectorEntry>>,
    direction: Mpeg1MotionDirection,
    err: &'static str,
    ctx: Mpeg1FrameMvContext,
    predictor: Mpeg1Predictor,
)
    requires
        wire_in_range(entries, ctx.f_code),
        predictor_in_range(predictor, ctx.f_code),
    ensures
        carried_vector(entries, direction, err, ctx, predictor).0 is Ok ==> predictor_in_range(
            carried_vector(entries, direction, err, ctx, predictor).1,
            ctx.f_code,
        ),
        wire_vector(entries, direction) matches Some(mv) ==> 1 <= ctx.f_code <= 7
            ==> crate::mpeg1_reconstruct::component_fits(
            mv.horizontal_code as int,
            mv.horizontal_r,
            crate::motion_vector::code_step(ctx.f_code),
            predictor.recon_right_prev as int,
        ) && crate::mpeg1_reconstruct::component_fits(
            mv.vertical_code as int,
            mv.vertical_r,
            crate::motion_vector::code_step(ctx.f_code),
            predictor.recon_down_prev as int,
        ),
{
    lemma2_to64();
    if let Some(mv) = wire_vector(entries, direction) {
        if 1 <= ctx.f_code <= 7 {
            let f = crate::motion_vector::code_step(ctx.f_code);
            lemma_component_kept(
                mv.horizontal_code,
                mv.horizontal_r,
                ctx.f_code,
                predictor.recon_right_prev,
            );
            lemma_component_kept(
                mv.vertical_code,
                mv.vertical_r,
                ctx.f_code,
                predictor.recon_down_prev,
            );
        }
    }
}

proof fn lemma_component_kept(code: i8, r: Option<u8>, f_code: u8, prev: i32)
    requires
        1 <= f_code <= 7,
        -16 <= code <= 16,
        r matches Some(r) ==> r < crate::motion_vector::code_step(f_code),
        in_vector_range(prev as int, f_code),
    ensures
        crate::mpeg1_reconstruct::component_fits(
            code as int,
            r,
            crate::motion_vector::code_step(f_code),
            prev as int,
        ),
        crate::mpeg1_reconstruct::component_error(
            code as int,
            r,
            crate::motion_vector::code_step(f_code),
        ) is None ==> in_vector_range(
            crate::mpeg1_reconstruct::component_sum(
                code as int,
                r,
                crate::motion_vector::code_step(f_code),
                prev as int,
            ),
            f_code,
        ),
{
    lemma2_to64();
    let f = crate::motion_vector::code_step(f_code);
    assert(-1024 <= code * f <= 1024) by (nonlinear_arith)
        requires
            -16 <= code <= 16,
            1 <= f <= 64,
    ;
    if crate::mpeg1_reconstruct::component_error(code as int, r, f) is None {
        law_component_stays_in_range(code, r, f_code, prev as int);
    }
}

proof fn lemma_zero_in_range(f_code: u8)
    ensures
        predictor_in_range(zero_predictor(), f_code),
{
    vstd::arithmetic::power2::lemma_pow2_pos((f_code - 1) as nat);
}

/// Whether the state of a slice is in range.
pub open spec fn inter_state_ok(st: InterState, vc: VectorContexts) -> bool {
    predictor_in_range(st.forward, vc.forward.f_code) && predictor_in_range(
        st.backward,
        vc.backward.f_code,
    )
}

/// A state in range stays in range over a coded macroblock that is decoded.
pub proof fn lemma_coded_keeps_range(
    frame: FrameContents,
    refs: ReferenceContents,
    m: MacroblockFields,
    mb_width: int,
    vc: VectorContexts,
    st: InterState,
)
    requires
        inter_state_ok(st, vc),
        wire_in_range(m.forward, vc.forward.f_code),
        wire_in_range(m.backward, vc.backward.f_code),
    ensures
        coded_macroblock(frame, refs, m, mb_width, vc, st).0 is Ok ==> inter_state_ok(
            coded_macroblock(frame, refs, m, mb_width, vc, st).2,
            vc,
        ),
{
    lemma_zero_in_range(vc.forward.f_code);
    lemma_zero_in_range(vc.backward.f_code);
    lemma_carried_in_range(
        m.forward,
        Mpeg1MotionDirection::Forward,
        ERR_NO_FORWARD_VECTOR,
        vc.forward,
        st.forward,
    );
    lemma_carried_in_range(
        m.backward,
        Mpeg1MotionDirection::Backward,
        ERR_NO_BACKWARD_VECTOR,
        vc.backward,
        st.backward,
    );
}

/// Reconstructs the vectors of a macroblock that is not intra, and carries the last
/// vectors on.
fn reconstruct_mpeg1_motion(
    record: &MacroblockRecord,
    vc: &VectorContexts,
    st: &mut InterState,
) -> (res: Result<FrameMotion>)
    requires
        inter_state_ok(*old(st), *vc),
        wire_in_range(record@.forward, vc.forward.f_code),
        wire_in_range(record@.backward, vc.backward.f_code),
    ensures
        (res, *final(st)) == coded_motion(record@, *vc, *old(st)),
{
    let mt = &record.macroblock_type;
    proof {
        lemma_carried_in_range(
            record@.forward,
            Mpeg1MotionDirection::Forward,
            ERR_NO_FORWARD_VECTOR,
            vc.forward,
            st.forward,
        );
        lemma_carried_in_range(
            record@.backward,
            Mpeg1MotionDirection::Backward,
            ERR_NO_BACKWARD_VECTOR,
            vc.backward,
            st.backward,
        );
    }
    let forward: Option<Mpeg1ReconstructedMv> = if mt.macroblock_motion_forward {
        match wire_to_mpeg1_mv(record, Mpeg1MotionDirection::Forward) {
            Some(mv) => Some(
                reconstruct(&mv, vc.forward, &mut st.forward, Mpeg1MotionDirection::Forward)?,
            ),
            None => {
                return Err(Error::InvalidBitstream(ERR_NO_FORWARD_VECTOR));
            },
        }
    } else if !vc.is_b {
        Some(reconstruct_zero(&mut st.forward))
    } else {
        None
    };
    let backward: Option<Mpeg1ReconstructedMv> = if mt.macroblock_motion_backward {
        match wire_to_mpeg1_mv(record, Mpeg1MotionDirection::Backward) {
            Some(mv) => Some(
                reconstruct(&mv, vc.backward, &mut st.backward, Mpeg1MotionDirection::Backward)?,
            ),
            None => {
                return Err(Error::InvalidBitstream(ERR_NO_BACKWARD_VECTOR));
            },
        }
    } else {
        None
    };
    Ok(FrameMotion::from_mpeg1(forward, backward))
}

/// Reconstructs a coded macroblock, and carries the last vectors and the directions
/// on.
pub fn reconstruct_mpeg1_macroblock(
    frame: &mut FrameBuffer,
    references: ReferenceFrames<'_>,
    record: &MacroblockRecord,
    mb_width: usize,
    vc: &VectorContexts,
    st: &mut InterState,
) -> (res: Result<usize>)
    requires
        record.macroblock_type.macroblock_intra || coded_motion(
            record@,
            *vc,
            *old(st),
        ).0 is Ok ==> mb_width > 0 && locatable(
            record.macroblock_address as int,
            mb_width as int,
        ),
        old(frame)@.chroma_format == ChromaFormat::Yuv420,
        inter_state_ok(*old(st), *vc),
        wire_in_range(record@.forward, vc.forward.f_code),
        wire_in_range(record@.backward, vc.backward.f_code),
    ensures
        ({
            let (want, after, last) = coded_macroblock(
                old(frame)@,
                references@,
                record@,
                mb_width as int,
                *vc,
                *old(st),
            );
            &&& final(frame)@ == after
            &&& after.chroma_format == ChromaFormat::Yuv420
            &&& *final(st) == last
            &&& match want {
                Ok(_) => res == Ok::<usize, Error>(1),
                Err(e) => res == Err::<usize, Error>(e),
            }
        }),
{
    let mt = &record.macroblock_type;
    if mt.macroblock_intra {
        place_intra_macroblock(frame, record, mb_width, ChromaFormat::Yuv420);
        st.forward.reset();
        if vc.is_b {
            st.backward.reset();
        }
        st.prior = None;
        return Ok(1);
    }
    let motion = reconstruct_mpeg1_motion(record, vc, st)?;
    let residuals = collect_residuals(&record.decoded_blocks);
    let (mb_col, mb_row) = locate(record.macroblock_address, mb_width);
    reconstruct_inter_macroblock(
        frame,
        references,
        mb_col,
        mb_row,
        false,
        motion,
        residuals.as_slice(),
    )?;
    st.prior =
    Some(
        PriorDirections {
            forward: mt.macroblock_motion_forward,
            backward: mt.macroblock_motion_backward,
        },
    );
    Ok(1)
}

/// The residuals of decoded blocks.
pub fn collect_residuals(blocks: &Vec<DecodedBlock>) -> (out: Vec<ResidualBlock>)
    ensures
        out@ == residuals_of(blocks@),
{
    let mut out: Vec<ResidualBlock> = Vec::new();
    let mut i: usize = 0;
    while i < blocks.len()
        invariant
            i <= blocks@.len(),
            out@ == residuals_of(blocks@).subrange(0, i as int),
        decreases blocks@.len() - i,
    {
        let b = blocks[i];
        out.push(ResidualBlock { block_index: b.block_index, f_pel: b.decoded.f_pel });
        assert(out@ =~= residuals_of(blocks@).subrange(0, i + 1));
        i += 1;
    }
    assert(residuals_of(blocks@).subrange(0, i as int) =~= residuals_of(blocks@));
    out
}

/// A frame and a count after the macroblocks of a slice from macroblock `i` on, with
/// those skipped before each.
pub open spec fn inter_placed(
    frame: FrameContents,
    refs: ReferenceContents,
    ms: Seq<MacroblockFields>,
    i: int,
    mb_width: int,
    vc: VectorContexts,
    st: InterState,
    count: int,
) -> Result<(FrameContents, int)>
    decreases ms.len() - i,
{
    if i >= ms.len() {
        Ok((frame, count))
    } else {
        let m = ms[i];
        let motion = skip_motion(vc, st);
        if m.skipped > 0 && prediction_error(refs, motion) is Some {
            Err(prediction_error(refs, motion)->0)
        } else {
            let (coded, after, last) = coded_macroblock(
                predicted_run(frame, refs, m.address - m.skipped, m.skipped, mb_width, motion),
                refs,
                m,
                mb_width,
                vc,
                after_skips(vc, st, m.skipped),
            );
            match coded {
                Err(e) => Err(e),
                Ok(_) => inter_placed(
                    after,
                    refs,
                    ms,
                    i + 1,
                    mb_width,
                    vc,
                    last,
                    count + m.skipped + 1,
                ),
            }
        }
    }
}

/// Predicts the macroblocks that were skipped before a coded one.
fn reconstruct_skipped_run(
    frame: &mut FrameBuffer,
    references: ReferenceFrames<'_>,
    first_address: u32,
    skipped: u32,
    mb_width: usize,
    vc: &VectorContexts,
    st: &mut InterState,
) -> (res: Result<()>)
    requires
        mb_width > 0,
        first_address + skipped <= MAX_ADDRESS,
        old(frame)@.chroma_format == ChromaFormat::Yuv420,
    ensures
        ({
            let motion = skip_motion(*vc, *old(st));
            if skipped > 0 && prediction_error(references@, motion) is Some {
                res == Err::<(), Error>(prediction_error(references@, motion)->0)
            } else {
                res == Ok::<(), Error>(()) && final(frame)@ == predicted_run(
                    old(frame)@,
                    references@,
                    first_address as int,
                    skipped as int,
                    mb_width as int,
                    motion,
                ) && *final(st) == after_skips(*vc, *old(st), skipped as int)
                    && final(frame)@.chroma_format == ChromaFormat::Yuv420
            }
        }),
{
    if skipped == 0 {
        return Ok(());
    }
    let motion = if vc.is_b {
        let dirs = match st.prior {
            Some(d) => d,
            None => PriorDirections { forward: true, backward: false },
        };
        let forward = if dirs.forward {
            Some(reconstruct_absent(vc.forward, &st.forward))
        } else {
            None
        };
        let backward = if dirs.backward {
            Some(reconstruct_absent(vc.backward, &st.backward))
        } else {
            None
        };
        FrameMotion::from_mpeg1(forward, backward)
    } else {
        let zero = reconstruct_zero(&mut st.forward);
        FrameMotion::from_mpeg1(Some(zero), None)
    };
    assert(motion == skip_motion(*vc, *old(st)));
    let ghost start = frame@;
    let none: [ResidualBlock; 0] = [];
    assert(none@ =~= Seq::empty());
    let mut k: u32 = 0;
    while k < skipped
        invariant
            k <= skipped,
            mb_width > 0,
            first_address + skipped <= MAX_ADDRESS,
            none@ =~= Seq::<ResidualBlock>::empty(),
            motion == skip_motion(*vc, *old(st)),
            k > 0 ==> prediction_error(references@, motion) is None,
            frame@.chroma_format == ChromaFormat::Yuv420,
            frame@ == predicted_run(
                start,
                references@,
                first_address as int,
                k as int,
                mb_width as int,
                motion,
            ),
        decreases skipped - k,
    {
        proof {
            lemma_locatable(first_address + k, mb_width as int);
        }
        let (mb_col, mb_row) = locate(first_address + k, mb_width);
        reconstruct_inter_macroblock(
            frame,
            references,
            mb_col,
            mb_row,
            false,
            motion,
            none.as_slice(),
        )?;
        k += 1;
    }
    Ok(())
}

/// What a slice of a P- or B-picture makes of a frame.
pub open spec fn inter_slice<F: Fn([[i32; 8]; 8]) -> [[i16; 8]; 8]>(
    params: Mpeg1InterParams,
    refs: ReferenceContents,
    idct: F,
) -> spec_fn(Seq<u8>, SliceHeader, FrameContents) -> Result<(FrameContents, int)> {
    |buf: Seq<u8>, header: SliceHeader, frame: FrameContents|
        {
            let ctx = mpeg1_context(
                params.base,
                params.picture_coding_type,
                header,
                params.forward_f_code,
                params.backward_f_code,
            );
            match slice_walk(buf, header.body_bit_position as int, ctx, idct) {
                Err(e) => Err(e),
                Ok(ms) => inter_placed(
                    frame,
                    refs,
                    ms,
                    0,
                    blocks_of_16(params.base.width as int),
                    vector_contexts(params),
                    slice_start_state(),
                    0,
                ),
            }
        }
}

pub open spec fn vector_contexts(params: Mpeg1InterParams) -> VectorContexts {
    VectorContexts {
        is_b: params.picture_coding_type == PictureCodingType::Bidirectional,
        forward: Mpeg1FrameMvContext {
            f_code: params.forward_f_code,
            full_pel: params.full_pel_forward_vector,
        },
        backward: Mpeg1FrameMvContext {
            f_code: params.backward_f_code,
            full_pel: params.full_pel_backward_vector,
        },
    }
}

/// Whether a slice of a P- or B-picture has a macroblock that is not refused before it is
/// placed, or why it is refused.
pub open spec fn inter_comes<F: Fn([[i32; 8]; 8]) -> [[i16; 8]; 8]>(
    params: Mpeg1InterParams,
    idct: F,
) -> spec_fn(Seq<u8>, SliceHeader) -> Result<bool> {
    |buf: Seq<u8>, header: SliceHeader|
        {
            let ctx = mpeg1_context(
                params.base,
                params.picture_coding_type,
                header,
                params.forward_f_code,
                params.backward_f_code,
            );
            match slice_walk(buf, header.body_bit_position as int, ctx, idct) {
                Err(e) => Err(e),
                Ok(ms) => if ms.len() == 0 {
                    Ok(false)
                } else if ms[0].skipped > 0 || ms[0].macroblock_type.macroblock_intra {
                    Ok(true)
                } else {
                    match coded_motion(ms[0], vector_contexts(params), slice_start_state()).0 {
                        Err(e) => Err(e),
                        Ok(_) => Ok(true),
                    }
                },
            }
        }
}

/// Whether a P- or B-picture without columns has a macroblock to put in one.
pub open spec fn inter_columnless<F: Fn([[i32; 8]; 8]) -> [[i16; 8]; 8]>(
    picture: Seq<u8>,
    params: Mpeg1InterParams,
    idct: F,
) -> bool {
    params.base.width == 0 && comes_to_macroblock(
        picture,
        0,
        params.base.height as u32,
        0,
        inter_comes(params, idct),
    )
}

/// What a P- or B-picture is decoded to.
pub open spec fn inter_decoded<F: Fn([[i32; 8]; 8]) -> [[i16; 8]; 8]>(
    picture: Seq<u8>,
    params: Mpeg1InterParams,
    refs: ReferenceContents,
    idct: F,
) -> Result<(FrameContents, int)> {
    decoded_slices(
        picture,
        0,
        params.base.height as u32,
        0,
        zero_frame(params.base.width as int, params.base.height as int, ChromaFormat::Yuv420),
        0,
        inter_slice(params, refs, idct),
    )
}

/// Refuses the first macroblock of a slice where it is refused before it is placed.
fn check_first(
    record: &MacroblockRecord,
    vc: &VectorContexts,
    Ghost(ctx): Ghost<SliceWalkContext>,
) -> (res: Result<()>)
    requires
        fields_ok(record@, ctx),
        ctx.f_codes.f_code_fwd_horiz == vc.forward.f_code,
        ctx.f_codes.f_code_fwd_vert == vc.forward.f_code,
        ctx.f_codes.f_code_bwd_horiz == vc.backward.f_code,
        ctx.f_codes.f_code_bwd_vert == vc.backward.f_code,
    ensures
        if record@.skipped > 0 || record@.macroblock_type.macroblock_intra {
            res == Ok::<(), Error>(())
        } else {
            match coded_motion(record@, *vc, slice_start_state()).0 {
                Err(e) => res == Err::<(), Error>(e),
                Ok(_) => res == Ok::<(), Error>(()),
            }
        },
{
    if record.skipped_macroblock_count == 0 && !record.macroblock_type.macroblock_intra {
        let mut st = InterState {
            forward: Mpeg1Predictor::new(),
            backward: Mpeg1Predictor::new(),
            prior: None,
        };
        proof {
            lemma_zero_in_range(vc.forward.f_code);
            lemma_zero_in_range(vc.backward.f_code);
        }
        reconstruct_mpeg1_motion(record, vc, &mut st)?;
    }
    Ok(())
}

fn place_inter_slice(
    frame: &mut FrameBuffer,
    references: ReferenceFrames<'_>,
    records: &Vec<MacroblockRecord>,
    mb_width: usize,
    vc: &VectorContexts,
    Ghost(ctx): Ghost<SliceWalkContext>,
) -> (res: Result<usize>)
    requires
        records@.len() > 0 ==> mb_width > 0,
        old(frame)@.chroma_format == ChromaFormat::Yuv420,
        forall|i: int|
            0 <= i < records@.len() ==> fields_ok((#[trigger] records@[i])@, ctx),
        ctx.f_codes.f_code_fwd_horiz == vc.forward.f_code,
        ctx.f_codes.f_code_fwd_vert == vc.forward.f_code,
        ctx.f_codes.f_code_bwd_horiz == vc.backward.f_code,
        ctx.f_codes.f_code_bwd_vert == vc.backward.f_code,
    ensures
        match inter_placed(
            old(frame)@,
            references@,
            fields_of(records@),
            0,
            mb_width as int,
            *vc,
            slice_start_state(),
            0,
        ) {
            Ok((after, count)) => res is Ok && final(frame)@ == after && res->Ok_0 == capped(
                count,
            ) && 0 <= count && after.chroma_format == ChromaFormat::Yuv420,
            Err(e) => res == Err::<usize, Error>(e),
        },
{
    let mut st = InterState {
        forward: Mpeg1Predictor::new(),
        backward: Mpeg1Predictor::new(),
        prior: None,
    };
    proof {
        lemma_zero_in_range(vc.forward.f_code);
        lemma_zero_in_range(vc.backward.f_code);
    }
    let ghost ms = fields_of(records@);
    let ghost whole = inter_placed(
        frame@,
        references@,
        ms,
        0,
        mb_width as int,
        *vc,
        st,
        0,
    );
    let ghost mut total: int = 0;
    let mut count: usize = 0;
    let mut k: usize = 0;
    while k < records.len()
        invariant
            k <= records@.len(),
            records@.len() > 0 ==> mb_width > 0,
            frame@.chroma_format == ChromaFormat::Yuv420,
            ms == fields_of(records@),
            forall|i: int|
                0 <= i < records@.len() ==> fields_ok((#[trigger] records@[i])@, ctx),
            ctx.f_codes.f_code_fwd_horiz == vc.forward.f_code,
            ctx.f_codes.f_code_fwd_vert == vc.forward.f_code,
            ctx.f_codes.f_code_bwd_horiz == vc.backward.f_code,
            ctx.f_codes.f_code_bwd_vert == vc.backward.f_code,
            inter_state_ok(st, *vc),
            0 <= total,
            count == capped(total),
            whole == inter_placed(
                old(frame)@,
                references@,
                ms,
                0,
                mb_width as int,
                *vc,
                slice_start_state(),
                0,
            ),
            inter_placed(
                frame@,
                references@,
                ms,
                k as int,
                mb_width as int,
                *vc,
                st,
                total,
            ) == whole,
        decreases records@.len() - k,
    {
        let record = &records[k];
        proof {
            lemma_zero_in_range(vc.forward.f_code);
            assert(fields_ok(records@[k as int]@, ctx));
            assert(ms[k as int] == records@[k as int]@);
            assert(record@ == ms[k as int]);
        }
        let skipped = record.skipped_macroblock_count;
        reconstruct_skipped_run(
            frame,
            references,
            record.macroblock_address - skipped,
            skipped,
            mb_width,
            vc,
            &mut st,
        )?;
        proof {
            lemma_coded_keeps_range(frame@, references@, record@, mb_width as int, *vc, st);
            lemma_locatable(record.macroblock_address as int, mb_width as int);
        }
        let one = reconstruct_mpeg1_macroblock(
            frame,
            references,
            record,
            mb_width,
            vc,
            &mut st,
        )?;
        count = count.saturating_add(skipped as usize).saturating_add(one);
        proof {
            total = total + skipped + 1;
        }
        k += 1;
    }
    Ok(count)
}

/// Decodes a P- or B-picture. `picture` holds its slices, and `idct` is the inverse
/// transform. The second result is the number of macroblocks, skipped ones
/// included, as far as the type can hold it.
pub fn decode_mpeg1_inter_picture<F: Fn([[i32; 8]; 8]) -> [[i16; 8]; 8]>(
    picture: &[u8],
    params: &Mpeg1InterParams,
    references: ReferenceFrames<'_>,
    idct: &F,
) -> (res: Result<(FrameBuffer, usize)>)
    requires
        8 * picture@.len() <= u64::MAX,
        is_function(*idct),
        params.picture_coding_type != PictureCodingType::Intra ==> picture_fits(
            params.base.width as int,
            params.base.height as int,
        ) && !inter_columnless(picture@, *params, *idct),
    ensures
        params.picture_coding_type == PictureCodingType::Intra ==> res == Err::<
            (FrameBuffer, usize),
            Error,
        >(Error::InvalidBitstream(ERR_INTRA_TYPE)),
        params.picture_coding_type != PictureCodingType::Intra ==> decoded_as(
            res,
            inter_decoded(picture@, *params, references@, *idct),
        ),
{
    Ok(try_decode_mpeg1_inter_picture(picture, params, references, idct)?.unwrap())
}

/// Decodes a P- or B-picture as `decode_mpeg1_inter_picture` does; there is no frame
/// where a macroblock has no column to lie in.
pub fn try_decode_mpeg1_inter_picture<F: Fn([[i32; 8]; 8]) -> [[i16; 8]; 8]>(
    picture: &[u8],
    params: &Mpeg1InterParams,
    references: ReferenceFrames<'_>,
    idct: &F,
) -> (res: Result<Option<(FrameBuffer, usize)>>)
    requires
        8 * picture@.len() <= u64::MAX,
        is_function(*idct),
        params.picture_coding_type != PictureCodingType::Intra ==> picture_fits(
            params.base.width as int,
            params.base.height as int,
        ),
    ensures
        params.picture_coding_type == PictureCodingType::Intra ==> res == Err::<
            Option<(FrameBuffer, usize)>,
            Error,
        >(Error::InvalidBitstream(ERR_INTRA_TYPE)),
        params.picture_coding_type != PictureCodingType::Intra ==> decoded_unless(
            res,
            inter_columnless(picture@, *params, *idct),
            inter_decoded(picture@, *params, references@, *idct),
        ),
{
    if params.picture_coding_type == PictureCodingType::Intra {
        return Err(Error::InvalidBitstream(ERR_INTRA_TYPE));
    }
    let base = &params.base;
    let vc = VectorContexts {
        is_b: params.picture_coding_type == PictureCodingType::Bidirectional,
        forward: Mpeg1FrameMvContext {
            f_code: params.forward_f_code,
            full_pel: params.full_pel_forward_vector,
        },
        backward: Mpeg1FrameMvContext {
            f_code: params.backward_f_code,
            full_pel: params.full_pel_backward_vector,
        },
    };
    let mut frame = FrameBuffer::new(base.width, base.height, ChromaFormat::Yuv420);
    let mb_width = base.mb_width();
    let slice_ctx = SliceContext::non_scalable(base.height as u32);
    let ghost one = inter_slice(*params, references@, *idct);
    let ghost comes = inter_comes(*params, *idct);
    let ghost whole = inter_decoded(picture@, *params, references@, *idct);
    let ghost columnless = inter_columnless(picture@, *params, *idct);
    let ghost mut total: int = 0;
    let mut placed: usize = 0;
    let mut offset: usize = 0;
    loop
        invariant
            8 * picture@.len() <= u64::MAX,
            picture_fits(base.width as int, base.height as int),
            is_function(*idct),
            *base == params.base,
            vc == vector_contexts(*params),
            mb_width == blocks_of_16(base.width as int),
            params.picture_coding_type != PictureCodingType::Intra,
            frame@.chroma_format == ChromaFormat::Yuv420,
            slice_ctx.vertical_size == base.height,
            offset <= picture@.len(),
            one == inter_slice(*params, references@, *idct),
            comes == inter_comes(*params, *idct),
            whole == inter_decoded(picture@, *params, references@, *idct),
            columnless == inter_columnless(picture@, *params, *idct),
            columnless == (base.width == 0 && comes_to_macroblock(
                picture@,
                offset as int,
                base.height as u32,
                0,
                comes,
            )),
            0 <= total,
            placed == capped(total),
            decoded_slices(
                picture@,
                offset as int,
                base.height as u32,
                0,
                frame@,
                total,
                one,
            ) == whole,
        decreases picture@.len() - offset,
    {
        let start: usize = match find_slice_start_code(picture, offset) {
            Some(start) => start,
            None => {
                return Ok(Some((frame, placed)));
            },
        };
        let end = find_slice_end(picture, start);
        let slice_buf = vstd::slice::slice_subrange(picture, start, end);
        assert(slice_buf@ == slice_bytes(picture@, start as int, 0));
        let header = SliceHeader::parse(slice_buf, slice_ctx)?;
        let ctx = mpeg1_walk_context(
            base,
            params.picture_coding_type,
            &header,
            params.forward_f_code,
            params.backward_f_code,
        );
        assert(ctx.mb_row * ctx.mb_width <= 0xFFFF * 0xFFFF_FFFF) by (nonlinear_arith)
            requires
                ctx.mb_row <= 0xFFFF,
                ctx.mb_width <= 0xFFFF_FFFF,
        ;
        let records = walk_slice_at(slice_buf, header.body_bit_position, &ctx, idct)?;
        let ghost before = frame@;
        if mb_width == 0 && records.len() > 0 {
            assert(fields_ok(records@[0]@, ctx));
            assert(fields_of(records@)[0] == records@[0]@);
            check_first(&records[0], &vc, Ghost(ctx))?;
            return Ok(None);
        }
        let count = place_inter_slice(
            &mut frame,
            references,
            &records,
            mb_width,
            &vc,
            Ghost(ctx),
        )?;
        placed = placed.saturating_add(count);
        proof {
            total = total + one(slice_buf@, header, before)->Ok_0.1;
        }
        offset = end;
    }
}

/// After an intra macroblock of a B-picture vectors are coded by themselves: what came
/// before does not matter, and the last vectors are zero. So are they at the start of a
/// slice.
pub proof fn law_mpeg1_intra_resets_vectors(
    frame: FrameContents,
    refs: ReferenceContents,
    m: MacroblockFields,
    mb_width: int,
    vc: VectorContexts,
    st: InterState,
)
    requires
        m.macroblock_type.macroblock_intra,
    ensures
        ({
            let after = coded_macroblock(frame, refs, m, mb_width, vc, st).2;
            &&& after.forward.recon_right_prev == 0 && after.forward.recon_down_prev == 0
            &&& vc.is_b ==> after.backward.recon_right_prev == 0 && after.backward.recon_down_prev
                == 0
            &&& vc.is_b ==> after == slice_start_state()
        }),
        slice_start_state().forward.recon_right_prev == 0,
        slice_start_state().forward.recon_down_prev == 0,
        slice_start_state().prior is None,
{
}

/// A P-picture macroblock without a vector, coded or skipped, is predicted with a zero
/// vector and leaves one.
pub proof fn law_mpeg1_no_vector_is_zero(
    m: MacroblockFields,
    vc: VectorContexts,
    st: InterState,
    skipped: int,
)
    requires
        !vc.is_b,
        !m.macroblock_type.macroblock_motion_forward,
        !m.macroblock_type.macroblock_motion_backward,
        skipped > 0,
    ensures
        ({
            let (motion, after) = coded_motion(m, vc, st);
            let zero = Some(
                crate::inter_reconstruction::MotionVectorPel { horizontal: 0, vertical: 0 },
            );
            &&& motion == Ok::<FrameMotion, Error>(
                (FrameMotion { forward: zero, backward: None }),
            )
            &&& skip_motion(vc, st) == (FrameMotion { forward: zero, backward: None })
            &&& after.forward.recon_right_prev == 0 && after.forward.recon_down_prev == 0
            &&& after_skips(vc, st, skipped).forward == after.forward
        }),
{
}

} // verus!
