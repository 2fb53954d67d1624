//! MPEG-2 P- and B-pictures: from the slices of a frame picture to its frame.

use crate::arith::blocks_of_16;
use crate::block::is_function;
use crate::error::{Error, Result};
use crate::frame_assembly::{
    frame_with_intra, lemma_locatable, locatable, locate, place_intra_macroblock, zero_frame,
    FrameBuffer, FrameContents, IntraPictureParams,
};
use crate::inter_reconstruction::{
    inter_macroblock, predicted_run, prediction_error, reconstruct_inter_macroblock, FrameMotion,
    MotionVectorPel, ReferenceContents, ReferenceFrames, ResidualBlock,
};
use crate::macroblock_modes::PredictionType;
use crate::motion_vector::MotionVectorsContext;
use crate::mpeg1_picture::{collect_residuals, residuals_of};
use crate::mpeg2_dequantize::{DEFAULT_INTRA_WEIGHT, DEFAULT_NON_INTRA_WEIGHT};
use crate::picture::ChromaFormat;
use crate::picture_header::PictureCodingType;
use crate::picture_slices::{
    capped, comes_to_macroblock, decoded_as, decoded_slices, decoded_unless, picture_fits,
    slice_bytes,
};
use crate::slice_header::{
    find_slice_end, find_slice_start_code, SliceContext, SliceHeader,
};
use crate::slice_macroblock_walk::{
    fields_of, fields_ok, slice_walk, walk_slice_at, MacroblockFields, MacroblockRecord,
    QuantiserMatrixState, SliceWalkContext, MAX_ADDRESS,
};
use crate::slice_motion::{
    lemma_as_many_vectors, motion_start, other_mode, reconstruct_slice_motion_vectors,
    slice_vectors, vector_fields, vectors_readable, ReconstructedFields,
    ReconstructedMotionVectors, ReconstructedVector,
};
use vstd::prelude::*;

verus! {

pub const ERR_NOT_INTER: &'static str =
    "decode_inter_picture: only P- and B-pictures are predicted (§6.3.10)";

pub const ERR_UNSUPPORTED_MODE: &'static str =
    "inter prediction: the prediction mode of the macroblock is not supported";

/// What a P- or B-picture is decoded with.
#[derive(Debug, Clone, Copy, PartialEq, Eq)]
pub struct PicturePredictionParams {
    pub geometry: IntraPictureParams,
    pub picture_coding_type: PictureCodingType,
    pub f_code_fwd_horiz: u8,
    pub f_code_fwd_vert: u8,
    pub f_code_bwd_horiz: u8,
    pub f_code_bwd_vert: u8,
    pub concealment_motion_vectors: bool,
}

/// How the last predicted macroblock was predicted.
#[derive(Debug, Clone, Copy, PartialEq, Eq)]
pub struct InterDirection {
    pub forward: Option<MotionVectorPel>,
    pub backward: Option<MotionVectorPel>,
}

pub open spec fn zero_pel() -> MotionVectorPel {
    MotionVectorPel { horizontal: 0, vertical: 0 }
}

/// The first vector of a direction.
pub open spec fn first_pel(v: Option<Seq<ReconstructedVector>>) -> Option<MotionVectorPel> {
    match v {
        Some(v) => if v.len() > 0 {
            Some(
                (MotionVectorPel {
                    horizontal: v[0].horizontal.vector_prime,
                    vertical: v[0].vertical.vector_prime,
                }),
            )
        } else {
            None
        },
        None => None,
    }
}

fn first_of(v: &Option<Vec<ReconstructedVector>>) -> (r: Option<MotionVectorPel>)
    ensures
        r == first_pel(crate::slice_motion::vectors_of(*v)),
{
    match v {
        Some(v) => if v.len() > 0 {
            Some(MotionVectorPel::new(v[0].horizontal.vector_prime, v[0].vertical.vector_prime))
        } else {
            None
        },
        None => None,
    }
}

/// The first vector of each direction.
pub open spec fn motion_of(v: ReconstructedFields) -> FrameMotion {
    FrameMotion { forward: first_pel(v.forward), backward: first_pel(v.backward) }
}

/// The first vector of each direction.
pub fn frame_motion_from_reconstructed(reconstructed: &ReconstructedMotionVectors) -> (m:
    FrameMotion)
    ensures
        m == motion_of(reconstructed@),
{
    let forward = first_of(&reconstructed.forward);
    let backward = first_of(&reconstructed.backward);
    FrameMotion { forward, backward }
}

/// How a skipped macroblock is predicted: in a B-picture as the last predicted
/// macroblock was, else, and where there was none, forward with a zero vector.
pub open spec fn skipped_motion(
    coding: PictureCodingType,
    previous: Option<InterDirection>,
) -> FrameMotion {
    match previous {
        Some(d) if coding == PictureCodingType::Bidirectional => FrameMotion {
            forward: d.forward,
            backward: d.backward,
        },
        _ => FrameMotion { forward: Some(zero_pel()), backward: None },
    }
}

/// Predicts a skipped macroblock.
pub fn reconstruct_skipped_macroblock(
    frame: &mut FrameBuffer,
    references: ReferenceFrames<'_>,
    address: u32,
    mb_width: usize,
    picture_coding_type: PictureCodingType,
    previous_inter_direction: Option<InterDirection>,
) -> (res: Result<usize>)
    requires
        mb_width > 0,
        locatable(address as int, mb_width as int),
    ensures
        ({
            let motion = skipped_motion(picture_coding_type, previous_inter_direction);
            match prediction_error(references@, motion) {
                Some(e) => res == Err::<usize, Error>(e) && final(frame)@ == old(frame)@,
                None => res == Ok::<usize, Error>(1) && final(frame)@ == inter_macroblock(
                    old(frame)@,
                    references@,
                    address as int % mb_width as int,
                    address as int / mb_width as int,
                    false,
                    motion,
                    Seq::empty(),
                ),
            }
        }),
        final(frame)@.chroma_format == old(frame)@.chroma_format,
{
    let (mb_col, mb_row) = locate(address, mb_width);
    let motion = match picture_coding_type {
        PictureCodingType::Bidirectional => match previous_inter_direction {
            Some(previous) => FrameMotion {
                forward: previous.forward,
                backward: previous.backward,
            },
            None => FrameMotion::forward(MotionVectorPel::new(0, 0)),
        },
        _ => FrameMotion::forward(MotionVectorPel::new(0, 0)),
    };
    let none: [ResidualBlock; 0] = [];
    assert(none@ =~= Seq::empty());
    reconstruct_inter_macroblock(
        frame,
        references,
        mb_col,
        mb_row,
        false,
        motion,
        none.as_slice(),
    )?;
    Ok(1)
}

/// A frame and a direction after a coded macroblock, or why there is none.
pub open spec fn one_macroblock(
    frame: FrameContents,
    refs: ReferenceContents,
    m: MacroblockFields,
    vectors: ReconstructedFields,
    mb_width: int,
    chroma: ChromaFormat,
    previous: Option<InterDirection>,
) -> (Result<()>, FrameContents, Option<InterDirection>) {
    let mb_col = m.address % mb_width;
    let mb_row = m.address / mb_width;
    let motion = motion_of(vectors);
    if m.macroblock_type.macroblock_intra {
        (
            Ok(()),
            frame_with_intra(
                frame,
                m.blocks,
                chroma,
                mb_col,
                mb_row,
                m.dct_type == Some(true),
                m.blocks.len() as int,
            ),
            previous,
        )
    } else if other_mode(m) {
        (Err(Error::InvalidBitstream(ERR_UNSUPPORTED_MODE)), frame, previous)
    } else {
        match prediction_error(refs, motion) {
            Some(e) => (Err(e), frame, previous),
            None => (
                Ok(()),
                inter_macroblock(
                    frame,
                    refs,
                    mb_col,
                    mb_row,
                    m.dct_type == Some(true),
                    motion,
                    residuals_of(m.blocks),
                ),
                Some((InterDirection { forward: motion.forward, backward: motion.backward })),
            ),
        }
    }
}

/// Reconstructs a coded macroblock.
pub fn reconstruct_one_macroblock(
    frame: &mut FrameBuffer,
    references: ReferenceFrames<'_>,
    record: &MacroblockRecord,
    reconstructed: &ReconstructedMotionVectors,
    mb_width: usize,
    chroma_format: ChromaFormat,
    previous_inter_direction: &mut Option<InterDirection>,
) -> (res: Result<usize>)
    requires
        mb_width > 0,
        locatable(record.macroblock_address as int, mb_width as int),
    ensures
        ({
            let (want, after, last) = one_macroblock(
                old(frame)@,
                references@,
                record@,
                reconstructed@,
                mb_width as int,
                chroma_format,
                *old(previous_inter_direction),
            );
            &&& final(frame)@ == after
            &&& *final(previous_inter_direction) == last
            &&& match want {
                Ok(_) => res == Ok::<usize, Error>(1),
                Err(e) => res == Err::<usize, Error>(e),
            }
        }),
        final(frame)@.chroma_format == old(frame)@.chroma_format,
{
    if record.macroblock_type.macroblock_intra {
        place_intra_macroblock(frame, record, mb_width, chroma_format);
        return Ok(1);
    }
    match record.motion_type {
        Some(mt) => {
            if mt.prediction_type != PredictionType::FrameBased {
                return Err(Error::InvalidBitstream(ERR_UNSUPPORTED_MODE));
            }
        },
        None => {},
    }
    let motion = frame_motion_from_reconstructed(reconstructed);
    let (mb_col, mb_row) = locate(record.macroblock_address, mb_width);
    let field_dct = match record.dct_type {
        Some(f) => f,
        None => false,
    };
    let residuals = collect_residuals(&record.decoded_blocks);
    reconstruct_inter_macroblock(
        frame,
        references,
        mb_col,
        mb_row,
        field_dct,
        motion,
        residuals.as_slice(),
    )?;
    *previous_inter_direction =
    Some(InterDirection { forward: motion.forward, backward: motion.backward });
    Ok(1)
}

// ---------------------------------------------------------------------------
// The macroblocks of a slice
// ---------------------------------------------------------------------------

/// A frame and a count after the macroblocks of a slice, whose vectors are given, with
/// those skipped before each. `previous` is how the last predicted macroblock was
/// predicted.
pub open spec fn slice_placed(
    frame: FrameContents,
    refs: ReferenceContents,
    ms: Seq<MacroblockFields>,
    vectors: Seq<ReconstructedFields>,
    mb_width: int,
    params: PicturePredictionParams,
    previous: Option<InterDirection>,
    count: int,
) -> Result<(FrameContents, int)>
    decreases ms.len(),
{
    if ms.len() == 0 {
        Ok((frame, count))
    } else {
        let m = ms[0];
        let skipped = skipped_motion(params.picture_coding_type, previous);
        if m.skipped > 0 && prediction_error(refs, skipped) is Some {
            Err(prediction_error(refs, skipped)->0)
        } else {
            let (coded, after, last) = one_macroblock(
                predicted_run(frame, refs, m.address - m.skipped, m.skipped, mb_width, skipped),
                refs,
                m,
                vectors[0],
                mb_width,
                params.geometry.chroma_format,
                previous,
            );
            match coded {
                Err(e) => Err(e),
                Ok(_) => slice_placed(
                    after,
                    refs,
                    ms.drop_first(),
                    vectors.drop_first(),
                    mb_width,
                    params,
                    last,
                    count + m.skipped + 1,
                ),
            }
        }
    }
}

/// What the macroblocks of a slice make of a frame: the vectors of all of them are
/// reconstructed before the first is placed.
pub open spec fn slice_reconstructed(
    frame: FrameContents,
    refs: ReferenceContents,
    ms: Seq<MacroblockFields>,
    params: PicturePredictionParams,
) -> Result<(FrameContents, int)> {
    match slice_vectors(ms, params.picture_coding_type, f_codes_of(params), motion_start()) {
        Err(e) => Err(e),
        Ok(vectors) => slice_placed(
            frame,
            refs,
            ms,
            vectors,
            blocks_of_16(params.geometry.width as int),
            params,
            None,
            0,
        ),
    }
}

pub open spec fn f_codes_of(params: PicturePredictionParams) -> MotionVectorsContext {
    MotionVectorsContext {
        f_code_fwd_horiz: params.f_code_fwd_horiz,
        f_code_fwd_vert: params.f_code_fwd_vert,
        f_code_bwd_horiz: params.f_code_bwd_horiz,
        f_code_bwd_vert: params.f_code_bwd_vert,
    }
}

/// What the macroblocks of a slice are read with.
pub open spec fn walk_context(
    params: PicturePredictionParams,
    header: SliceHeader,
) -> SliceWalkContext {
    let g = params.geometry;
    SliceWalkContext {
        mb_width: blocks_of_16(g.width as int) as u32,
        mb_row: (header.slice_vertical_position - 1) as u32,
        picture_coding_type: params.picture_coding_type,
        quantiser_scale_code: header.quantiser_scale_code,
        frame_pred_frame_dct: g.frame_pred_frame_dct,
        f_codes: f_codes_of(params),
        concealment_motion_vectors: params.concealment_motion_vectors,
        chroma_format: g.chroma_format,
        intra_vlc_format: g.intra_vlc_format,
        alternate_scan: g.alternate_scan,
        intra_dc_precision: g.intra_dc_precision,
        q_scale_type: g.q_scale_type,
        quantiser_matrices: QuantiserMatrixState {
            intra_luma: DEFAULT_INTRA_WEIGHT,
            non_intra_luma: DEFAULT_NON_INTRA_WEIGHT,
            intra_chroma: DEFAULT_INTRA_WEIGHT,
            non_intra_chroma: DEFAULT_NON_INTRA_WEIGHT,
        },
        mpeg1: false,
    }
}

/// What a slice makes of a frame.
pub open spec fn predicted_slice<F: Fn([[i32; 8]; 8]) -> [[i16; 8]; 8]>(
    params: PicturePredictionParams,
    refs: ReferenceContents,
    idct: F,
) -> spec_fn(Seq<u8>, SliceHeader, FrameContents) -> Result<(FrameContents, int)> {
    |buf: Seq<u8>, header: SliceHeader, frame: FrameContents|
        match slice_walk(
            buf,
            header.body_bit_position as int,
            walk_context(params, header),
            idct,
        ) {
            Err(e) => Err(e),
            Ok(ms) => slice_reconstructed(frame, refs, ms, params),
        }
}

/// Whether a slice has a macroblock that is not refused before it is placed, or why it
/// is refused.
pub open spec fn predicted_comes<F: Fn([[i32; 8]; 8]) -> [[i16; 8]; 8]>(
    params: PicturePredictionParams,
    idct: F,
) -> spec_fn(Seq<u8>, SliceHeader) -> Result<bool> {
    |buf: Seq<u8>, header: SliceHeader|
        match slice_walk(
            buf,
            header.body_bit_position as int,
            walk_context(params, header),
            idct,
        ) {
            Err(e) => Err(e),
            Ok(ms) => match slice_vectors(
                ms,
                params.picture_coding_type,
                f_codes_of(params),
                motion_start(),
            ) {
                Err(e) => Err(e),
                Ok(_) => if ms.len() == 0 {
                    Ok(false)
                } else if ms[0].skipped == 0 && other_mode(ms[0]) {
                    Err(Error::InvalidBitstream(ERR_UNSUPPORTED_MODE))
                } else {
                    Ok(true)
                },
            },
        }
}

/// Whether a picture without columns has a macroblock to put in one.
pub open spec fn predicted_columnless<F: Fn([[i32; 8]; 8]) -> [[i16; 8]; 8]>(
    picture: Seq<u8>,
    params: PicturePredictionParams,
    idct: F,
) -> bool {
    params.geometry.width == 0 && comes_to_macroblock(
        picture,
        0,
        params.geometry.height as u32,
        4,
        predicted_comes(params, idct),
    )
}

/// What a picture is decoded to.
pub open spec fn predicted_decoded<F: Fn([[i32; 8]; 8]) -> [[i16; 8]; 8]>(
    picture: Seq<u8>,
    params: PicturePredictionParams,
    refs: ReferenceContents,
    idct: F,
) -> Result<(FrameContents, int)> {
    let g = params.geometry;
    decoded_slices(
        picture,
        0,
        g.height as u32,
        4,
        zero_frame(g.width as int, g.height as int, g.chroma_format),
        0,
        predicted_slice(params, refs, idct),
    )
}

/// Whether pictures of a type are predicted.
pub open spec fn predicted_type(t: PictureCodingType) -> bool {
    t == PictureCodingType::Predictive || t == PictureCodingType::Bidirectional
}

/// Predicts the macroblocks that were skipped before a coded one.
fn place_skipped_run(
    frame: &mut FrameBuffer,
    references: ReferenceFrames<'_>,
    first_address: u32,
    skipped: u32,
    mb_width: usize,
    coding: PictureCodingType,
    previous: Option<InterDirection>,
) -> (res: Result<()>)
    requires
        mb_width > 0,
        first_address + skipped <= MAX_ADDRESS,
    ensures
        ({
            let motion = skipped_motion(coding, previous);
            if skipped > 0 && prediction_error(references@, motion) is Some {
                res == Err::<(), Error>(prediction_error(references@, motion)->0)
            } else {
                res == Ok::<(), Error>(()) && final(frame)@ == predicted_run(
                    old(frame)@,
                    references@,
                    first_address as int,
                    skipped as int,
                    mb_width as int,
                    motion,
                )
            }
        }),
        final(frame)@.chroma_format == old(frame)@.chroma_format,
{
    let ghost start = frame@;
    let mut k: u32 = 0;
    while k < skipped
        invariant
            k <= skipped,
            mb_width > 0,
            first_address + skipped <= MAX_ADDRESS,
            k > 0 ==> prediction_error(references@, skipped_motion(coding, previous)) is None,
            frame@.chroma_format == old(frame)@.chroma_format,
            frame@ == predicted_run(
                start,
                references@,
                first_address as int,
                k as int,
                mb_width as int,
                skipped_motion(coding, previous),
            ),
        decreases skipped - k,
    {
        proof {
            lemma_locatable(first_address + k, mb_width as int);
        }
        reconstruct_skipped_macroblock(
            frame,
            references,
            first_address + k,
            mb_width,
            coding,
            previous,
        )?;
        k += 1;
    }
    Ok(())
}

/// Places the macroblocks of a slice, whose vectors are given.
#[verifier::rlimit(40)]
fn place_slice(
    frame: &mut FrameBuffer,
    references: ReferenceFrames<'_>,
    records: &Vec<MacroblockRecord>,
    vectors: &Vec<ReconstructedMotionVectors>,
    mb_width: usize,
    params: &PicturePredictionParams,
    Ghost(ctx): Ghost<SliceWalkContext>,
) -> (res: Result<usize>)
    requires
        records@.len() > 0 ==> mb_width > 0,
        vectors@.len() == records@.len(),
        forall|i: int|
            0 <= i < records@.len() ==> fields_ok((#[trigger] records@[i])@, ctx),
    ensures
        match slice_placed(
            old(frame)@,
            references@,
            fields_of(records@),
            vector_fields(vectors@),
            mb_width as int,
            *params,
            None,
            0,
        ) {
            Ok((after, count)) => res is Ok && final(frame)@ == after && res->Ok_0 == capped(
                count,
            ) && 0 <= count,
            Err(e) => res == Err::<usize, Error>(e),
        },
{
    let coding = params.picture_coding_type;
    let ghost ms = fields_of(records@);
    let ghost vs = vector_fields(vectors@);
    let ghost n = ms.len() as int;
    let ghost whole = slice_placed(
        frame@,
        references@,
        ms,
        vs,
        mb_width as int,
        *params,
        None,
        0,
    );
    let mut previous: Option<InterDirection> = None;
    let ghost mut total: int = 0;
    let mut count: usize = 0;
    let mut k: usize = 0;
    proof {
        assert(ms.subrange(0, n) =~= ms);
        assert(vs.subrange(0, n) =~= vs);
    }
    while k < records.len()
        invariant
            k <= records@.len(),
            records@.len() > 0 ==> mb_width > 0,
            coding == params.picture_coding_type,
            ms == fields_of(records@),
            vs == vector_fields(vectors@),
            n == ms.len(),
            vectors@.len() == records@.len(),
            forall|i: int|
                0 <= i < records@.len() ==> fields_ok((#[trigger] records@[i])@, ctx),
            0 <= total,
            count == capped(total),
            whole == slice_placed(
                old(frame)@,
                references@,
                ms,
                vs,
                mb_width as int,
                *params,
                None,
                0,
            ),
            slice_placed(
                frame@,
                references@,
                ms.subrange(k as int, n),
                vs.subrange(k as int, n),
                mb_width as int,
                *params,
                previous,
                total,
            ) == whole,
        decreases records@.len() - k,
    {
        let record = &records[k];
        proof {
            assert(fields_ok(records@[k as int]@, ctx));
            assert(ms.subrange(k as int, n)[0] == record@);
            assert(vs.subrange(k as int, n)[0] == vectors@[k as int]@);
            assert(ms.subrange(k as int, n).drop_first() =~= ms.subrange(k + 1, n));
            assert(vs.subrange(k as int, n).drop_first() =~= vs.subrange(k + 1, n));
            lemma_locatable(record.macroblock_address as int, mb_width as int);
        }
        let skipped = record.skipped_macroblock_count;
        place_skipped_run(
            frame,
            references,
            record.macroblock_address - skipped,
            skipped,
            mb_width,
            coding,
            previous,
        )?;
        let one = reconstruct_one_macroblock(
            frame,
            references,
            record,
            &vectors[k],
            mb_width,
            params.geometry.chroma_format,
            &mut previous,
        )?;
        count = count.saturating_add(skipped as usize).saturating_add(one);
        proof {
            total = total + skipped + 1;
        }
        k += 1;
    }
    Ok(count)
}

/// Decodes a P- or B-picture. `picture` holds its slices, and `idct` is the inverse
/// transform. A slice is read together with the start code after it. The second
/// result is the number of macroblocks, skipped ones included, as far as the type
/// can hold it.
pub fn decode_inter_picture<F: Fn([[i32; 8]; 8]) -> [[i16; 8]; 8]>(
    picture: &[u8],
    params: PicturePredictionParams,
    references: ReferenceFrames<'_>,
    idct: &F,
) -> (res: Result<(FrameBuffer, usize)>)
    requires
        8 * picture@.len() <= u64::MAX,
        is_function(*idct),
        predicted_type(params.picture_coding_type) ==> picture_fits(
            params.geometry.width as int,
            params.geometry.height as int,
        ) && !predicted_columnless(picture@, params, *idct),
    ensures
        predicted_type(params.picture_coding_type) ==> decoded_as(
            res,
            predicted_decoded(picture@, params, references@, *idct),
        ),
        !predicted_type(params.picture_coding_type) ==> res == Err::<(FrameBuffer, usize), Error>(
            Error::InvalidBitstream(ERR_NOT_INTER),
        ),
{
    Ok(try_decode_inter_picture(picture, params, references, idct)?.unwrap())
}

/// Decodes a P- or B-picture as `decode_inter_picture` does; there is no frame where a
/// macroblock has no column to lie in.
pub fn try_decode_inter_picture<F: Fn([[i32; 8]; 8]) -> [[i16; 8]; 8]>(
    picture: &[u8],
    params: PicturePredictionParams,
    references: ReferenceFrames<'_>,
    idct: &F,
) -> (res: Result<Option<(FrameBuffer, usize)>>)
    requires
        8 * picture@.len() <= u64::MAX,
        is_function(*idct),
        predicted_type(params.picture_coding_type) ==> picture_fits(
            params.geometry.width as int,
            params.geometry.height as int,
        ),
    ensures
        predicted_type(params.picture_coding_type) ==> decoded_unless(
            res,
            predicted_columnless(picture@, params, *idct),
            predicted_decoded(picture@, params, references@, *idct),
        ),
        !predicted_type(params.picture_coding_type) ==> res == Err::<
            Option<(FrameBuffer, usize)>,
            Error,
        >(Error::InvalidBitstream(ERR_NOT_INTER)),
{
    match params.picture_coding_type {
        PictureCodingType::Predictive => {},
        PictureCodingType::Bidirectional => {},
        _ => {
            return Err(Error::InvalidBitstream(ERR_NOT_INTER));
        },
    }
    let geom = params.geometry;
    let mut frame = FrameBuffer::new(geom.width, geom.height, geom.chroma_format);
    let mb_width = geom.mb_width();
    let slice_ctx = SliceContext::non_scalable(geom.height as u32);
    let len: usize = picture.len();
    let ghost one = predicted_slice(params, references@, *idct);
    let ghost comes = predicted_comes(params, *idct);
    let ghost whole = predicted_decoded(picture@, params, references@, *idct);
    let ghost columnless = predicted_columnless(picture@, params, *idct);
    let ghost mut total: int = 0;
    let mut placed: usize = 0;
    let mut offset: usize = 0;
    loop
        invariant
            8 * picture@.len() <= u64::MAX,
            picture_fits(geom.width as int, geom.height as int),
            is_function(*idct),
            geom == params.geometry,
            len == picture@.len(),
            mb_width == blocks_of_16(geom.width as int),
            predicted_type(params.picture_coding_type),
            slice_ctx.vertical_size == geom.height,
            offset <= picture@.len(),
            one == predicted_slice(params, references@, *idct),
            0 <= total,
            placed == capped(total),
            comes == predicted_comes(params, *idct),
            whole == predicted_decoded(picture@, params, references@, *idct),
            columnless == predicted_columnless(picture@, params, *idct),
            columnless == (geom.width == 0 && comes_to_macroblock(
                picture@,
                offset as int,
                geom.height as u32,
                4,
                comes,
            )),
            decoded_slices(
                picture@,
                offset as int,
                geom.height as u32,
                4,
                frame@,
                total,
                one,
            ) == whole,
        decreases picture@.len() - offset,
    {
        let start: usize = match find_slice_start_code(picture, offset) {
            Some(start) => start,
            None => {
                return Ok(Some((frame, placed)));
            },
        };
        let end = find_slice_end(picture, start);
        let limit: usize = if len - end > 4 {
            end + 4
        } else {
            len
        };
        let slice_buf = vstd::slice::slice_subrange(picture, start, limit);
        assert(slice_buf@ == slice_bytes(picture@, start as int, 4));
        let header = SliceHeader::parse(slice_buf, slice_ctx)?;
        let ctx = SliceWalkContext {
            mb_width: mb_width as u32,
            mb_row: header.slice_vertical_position as u32 - 1,
            picture_coding_type: params.picture_coding_type,
            quantiser_scale_code: header.quantiser_scale_code,
            frame_pred_frame_dct: geom.frame_pred_frame_dct,
            f_codes: MotionVectorsContext {
                f_code_fwd_horiz: params.f_code_fwd_horiz,
                f_code_fwd_vert: params.f_code_fwd_vert,
                f_code_bwd_horiz: params.f_code_bwd_horiz,
                f_code_bwd_vert: params.f_code_bwd_vert,
            },
            concealment_motion_vectors: params.concealment_motion_vectors,
            chroma_format: geom.chroma_format,
            intra_vlc_format: geom.intra_vlc_format,
            alternate_scan: geom.alternate_scan,
            intra_dc_precision: geom.intra_dc_precision,
            q_scale_type: geom.q_scale_type,
            quantiser_matrices: QuantiserMatrixState {
                intra_luma: DEFAULT_INTRA_WEIGHT,
                non_intra_luma: DEFAULT_NON_INTRA_WEIGHT,
                intra_chroma: DEFAULT_INTRA_WEIGHT,
                non_intra_chroma: DEFAULT_NON_INTRA_WEIGHT,
            },
            mpeg1: false,
        };
        assert(ctx == walk_context(params, header));
        assert(ctx.mb_row * ctx.mb_width <= 0xFFFF * 0xFFFF_FFFF) by (nonlinear_arith)
            requires
                ctx.mb_row <= 0xFFFF,
                ctx.mb_width <= 0xFFFF_FFFF,
        ;
        let records = walk_slice_at(slice_buf, header.body_bit_position, &ctx, idct)?;
        let ghost before = frame@;
        proof {
            assert forall|i: int| 0 <= i < records@.len() implies vectors_readable(
                (#[trigger] records@[i])@,
                ctx.f_codes,
            ) by {
                assert(fields_ok(records@[i]@, ctx));
            }
        }
        let vectors = reconstruct_slice_motion_vectors(
            &records,
            params.picture_coding_type,
            &ctx.f_codes,
        )?;
        proof {
            lemma_as_many_vectors(
                fields_of(records@),
                params.picture_coding_type,
                ctx.f_codes,
                motion_start(),
            );
        }
        if mb_width == 0 && records.len() > 0 {
            let first = &records[0];
            assert(fields_of(records@)[0] == first@);
            let other = match first.motion_type {
                Some(mt) => mt.prediction_type != PredictionType::FrameBased,
                None => false,
            };
            if first.skipped_macroblock_count == 0 && !first.macroblock_type.macroblock_intra
                && other {
                return Err(Error::InvalidBitstream(ERR_UNSUPPORTED_MODE));
            }
            return Ok(None);
        }
        let count = place_slice(
            &mut frame,
            references,
            &records,
            &vectors,
            mb_width,
            &params,
            Ghost(ctx),
        )?;
        placed = placed.saturating_add(count);
        proof {
            total = total + one(slice_buf@, header, before)->Ok_0.1;
        }
        offset = end;
    }
}

} // verus!
