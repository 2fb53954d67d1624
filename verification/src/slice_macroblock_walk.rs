//! The macroblocks of a slice, from their bits to their vectors and blocks.

use crate::bits::{
    addressable, be_value, bits_of, read_field, read_flag, reader_bits, reader_pos, reads_as,
};
use crate::block::is_function;
use crate::coded_block_pattern::{pattern_at, CodedBlockPattern};
use crate::dequantize::{finalise_intra_macroblock, IntraDcPredictors};
use crate::error::{Error, Result};
use crate::macroblock_modes::{frame_based, frame_motion_at, MotionType};
use crate::macroblock_type::{
    lemma_type_advances, macroblock_type_at, type_rows, MacroblockType,
};
use crate::mb_address_increment::{
    increment_at, lemma_increment_advances, MbAddressIncrement, MbAddressIncrementContext,
};
use crate::motion_vector::{
    entries_in_range, lemma_motion_vectors_read, motion_vectors_at, MotionVectorEntry,
    MotionVectors,
    MotionVectorsContext, MotionVectorsKind,
};
use crate::mpeg1_block_decoder::{
    decode_intra_block, decode_non_intra_block, lemma_mpeg1_blocks_advance, mpeg1_intra_at,
    mpeg1_non_intra_at,
};
use crate::mpeg2_block_dc::{DcPredictors, ERR_DC_PRECISION};
use crate::mpeg2_dequantize::{quantiser_scale, scale_of};
use crate::mpeg2_macroblock_blocks::{
    block_component, component_of, decode_macroblock_blocks, lemma_blocks_advance,
    macroblock_blocks_at, DecodedBlock, MacroblockBlockContext,
};
use crate::picture::ChromaFormat;
use crate::picture_header::PictureCodingType;
use oxideav_core::bits::BitReader;
use vstd::arithmetic::power2::lemma2_to64;
use vstd::prelude::*;

verus! {

pub const ERR_WALK_SCALE: &'static str = "macroblock quantiser_scale_code: code 0 is forbidden";

pub const ERR_WALK_MARKER: &'static str =
    "marker_bit after the concealment motion vector: bit shall be '1' (§6.2.5)";

pub const ERR_WALK_ADDRESS: &'static str = "macroblock_address outside the 28-bit range";

/// The greatest macroblock address: its samples can be addressed with 32 bits.
pub const MAX_ADDRESS: i32 = 0x0FFF_FFFE;

/// The matrices in force.
#[derive(Debug, Clone, Copy, PartialEq, Eq)]
pub struct QuantiserMatrixState {
    pub intra_luma: [[u8; 8]; 8],
    pub non_intra_luma: [[u8; 8]; 8],
    pub intra_chroma: [[u8; 8]; 8],
    pub non_intra_chroma: [[u8; 8]; 8],
}

/// What the macroblocks of a slice of a frame picture are read with.
#[derive(Debug, Clone, Copy, PartialEq, Eq)]
pub struct SliceWalkContext {
    /// How many macroblocks a row has.
    pub mb_width: u32,
    /// The row that the slice starts in.
    pub mb_row: u32,
    pub picture_coding_type: PictureCodingType,
    /// The quantiser scale code of the slice.
    pub quantiser_scale_code: u8,
    pub frame_pred_frame_dct: bool,
    pub f_codes: MotionVectorsContext,
    pub concealment_motion_vectors: bool,
    pub chroma_format: ChromaFormat,
    pub intra_vlc_format: bool,
    pub alternate_scan: bool,
    pub intra_dc_precision: u8,
    pub q_scale_type: bool,
    pub quantiser_matrices: QuantiserMatrixState,
    /// Whether the blocks are those of MPEG-1.
    pub mpeg1: bool,
}

/// A decoded macroblock.
#[derive(Debug, Clone)]
pub struct MacroblockRecord {
    pub macroblock_address: u32,
    /// How many macroblocks were skipped before this one.
    pub skipped_macroblock_count: u32,
    pub macroblock_type: MacroblockType,
    pub motion_type: Option<MotionType>,
    /// Whether the blocks hold fields; absent where the picture leaves no choice.
    pub dct_type: Option<bool>,
    pub motion_vectors_forward: Option<MotionVectors>,
    pub motion_vectors_backward: Option<MotionVectors>,
    pub decoded_blocks: Vec<DecodedBlock>,
}

/// What a decoded macroblock holds.
pub struct MacroblockFields {
    pub address: int,
    pub skipped: int,
    pub macroblock_type: MacroblockType,
    pub motion_type: Option<MotionType>,
    pub dct_type: Option<bool>,
    pub forward: Option<Seq<MotionVectorEntry>>,
    pub backward: Option<Seq<MotionVectorEntry>>,
    pub blocks: Seq<DecodedBlock>,
}

pub open spec fn entries_of(m: Option<MotionVectors>) -> Option<Seq<MotionVectorEntry>> {
    match m {
        Some(m) => Some(m.entries@),
        None => None,
    }
}

impl View for MacroblockRecord {
    type V = MacroblockFields;

    open spec fn view(&self) -> MacroblockFields {
        MacroblockFields {
            address: self.macroblock_address as int,
            skipped: self.skipped_macroblock_count as int,
            macroblock_type: self.macroblock_type,
            motion_type: self.motion_type,
            dct_type: self.dct_type,
            forward: entries_of(self.motion_vectors_forward),
            backward: entries_of(self.motion_vectors_backward),
            blocks: self.decoded_blocks@,
        }
    }
}

pub open spec fn fields_of(records: Seq<MacroblockRecord>) -> Seq<MacroblockFields> {
    Seq::new(records.len(), |i: int| records[i]@)
}

// ---------------------------------------------------------------------------
// The parts of a macroblock that come before its blocks
// ---------------------------------------------------------------------------

/// The flag at `at`, absent unless `present`.
pub open spec fn optional_flag_at(s: Seq<bool>, at: int, present: bool) -> (
    Result<Option<bool>>,
    int,
) {
    if !present {
        (Ok(None), at)
    } else if at >= s.len() {
        (Err(Error::ShortHeader), at)
    } else {
        (Ok(Some(s[at])), at + 1)
    }
}

/// The motion type at `at`, absent unless `present`.
pub open spec fn optional_motion_at(s: Seq<bool>, at: int, present: bool) -> (
    Result<Option<MotionType>>,
    int,
) {
    if !present {
        (Ok(None), at)
    } else {
        let (m, p) = frame_motion_at(s, at);
        match m {
            Err(e) => (Err(e), p),
            Ok(m) => (Ok(Some(m)), p),
        }
    }
}

/// The quantiser scale code at `at`, or the one in force unless `present`.
pub open spec fn scale_code_at(s: Seq<bool>, at: int, present: bool, now: u8) -> (
    Result<u8>,
    int,
) {
    if !present {
        (Ok(now), at)
    } else if at + 5 > s.len() {
        (Err(Error::ShortHeader), at)
    } else if be_value(s, at, 5) == 0 {
        (Err(Error::InvalidBitstream(ERR_WALK_SCALE)), at + 5)
    } else {
        (Ok(be_value(s, at, 5) as u8), at + 5)
    }
}

/// The vectors at `at`, absent unless `present`.
#[verifier::opaque]
pub open spec fn optional_vectors_at(
    s: Seq<bool>,
    at: int,
    present: bool,
    motion_type: MotionType,
    f_codes: (u8, u8),
) -> (Result<Option<Seq<MotionVectorEntry>>>, int) {
    if !present {
        (Ok(None), at)
    } else {
        let (v, p) = motion_vectors_at(s, at, motion_type, f_codes);
        match v {
            Err(e) => (Err(e), p),
            Ok(v) => (Ok(Some(v)), p),
        }
    }
}

/// The marker bit at `at`, absent unless `present`.
pub open spec fn marker_at(s: Seq<bool>, at: int, present: bool) -> (Result<()>, int) {
    if !present {
        (Ok(()), at)
    } else if at >= s.len() {
        (Err(Error::ShortHeader), at)
    } else if !s[at] {
        (Err(Error::InvalidBitstream(ERR_WALK_MARKER)), at + 1)
    } else {
        (Ok(()), at + 1)
    }
}

/// A pattern that codes no block.
pub open spec fn no_pattern(at: int) -> CodedBlockPattern {
    CodedBlockPattern {
        cbp: 0,
        coded_block_pattern_1: None,
        coded_block_pattern_2: None,
        bit_position_after: at as u64,
    }
}

/// The pattern at `at`, or none unless `present`.
#[verifier::opaque]
pub open spec fn optional_pattern_at(
    s: Seq<bool>,
    at: int,
    present: bool,
    chroma_format: ChromaFormat,
) -> (Result<CodedBlockPattern>, int) {
    if !present {
        (Ok(no_pattern(at)), at)
    } else {
        pattern_at(s, at, chroma_format)
    }
}

/// The type of a macroblock, how it is predicted and transformed, and its scale.
#[derive(Debug, Clone, Copy)]
pub struct MacroblockModes {
    pub macroblock_type: MacroblockType,
    pub motion_type: Option<MotionType>,
    pub dct_type: Option<bool>,
    pub quantiser_scale_code: u8,
}

impl MacroblockModes {
    /// Whether forward vectors follow: those of a prediction, or of a concealment.
    pub open spec fn has_forward(self, ctx: SliceWalkContext) -> bool {
        self.macroblock_type.macroblock_motion_forward || self.conceals(ctx)
    }

    /// Whether a concealment vector follows.
    pub open spec fn conceals(self, ctx: SliceWalkContext) -> bool {
        self.macroblock_type.macroblock_intra && ctx.concealment_motion_vectors
    }

    /// How the vectors are laid out.
    pub open spec fn layout(self) -> MotionType {
        match self.motion_type {
            Some(m) => m,
            None => frame_based(),
        }
    }
}

/// The modes of the macroblock at `at`, and the position after them.
pub open spec fn modes_at(s: Seq<bool>, at: int, ctx: SliceWalkContext, scale: u8) -> (
    Result<MacroblockModes>,
    int,
) {
    let (mt, p1) = macroblock_type_at(s, at, ctx.picture_coding_type);
    match mt {
        Err(e) => (Err(e), p1),
        Ok(mt) => {
            let moves = mt.macroblock_motion_forward || mt.macroblock_motion_backward;
            let (motion, p2) = optional_motion_at(s, p1, moves && !ctx.frame_pred_frame_dct);
            match motion {
                Err(e) => (Err(e), p2),
                Ok(motion) => {
                    let transforms = mt.macroblock_intra || mt.macroblock_pattern;
                    let (dct, p3) = optional_flag_at(
                        s,
                        p2,
                        transforms && !ctx.frame_pred_frame_dct,
                    );
                    match dct {
                        Err(e) => (Err(e), p3),
                        Ok(dct) => {
                            let (code, p4) = scale_code_at(s, p3, mt.macroblock_quant, scale);
                            match code {
                                Err(e) => (Err(e), p4),
                                Ok(code) => (
                                    Ok(
                                        (MacroblockModes {
                                            macroblock_type: mt,
                                            motion_type: motion,
                                            dct_type: dct,
                                            quantiser_scale_code: code,
                                        }),
                                    ),
                                    p4,
                                ),
                            }
                        },
                    }
                },
            }
        },
    }
}

/// The vectors and the pattern of a macroblock.
pub struct PredictionFields {
    pub forward: Option<Seq<MotionVectorEntry>>,
    pub backward: Option<Seq<MotionVectorEntry>>,
    pub pattern: CodedBlockPattern,
}

/// The vectors and the pattern at `at`, and the position after them.
pub open spec fn prediction_at(
    s: Seq<bool>,
    at: int,
    ctx: SliceWalkContext,
    modes: MacroblockModes,
) -> (Result<PredictionFields>, int) {
    let mt = modes.macroblock_type;
    let (forward, p1) = optional_vectors_at(
        s,
        at,
        modes.has_forward(ctx),
        modes.layout(),
        ctx.f_codes.spec_for_kind(MotionVectorsKind::Forward),
    );
    match forward {
        Err(e) => (Err(e), p1),
        Ok(forward) => {
            let (backward, p2) = optional_vectors_at(
                s,
                p1,
                mt.macroblock_motion_backward,
                modes.layout(),
                ctx.f_codes.spec_for_kind(MotionVectorsKind::Backward),
            );
            match backward {
                Err(e) => (Err(e), p2),
                Ok(backward) => {
                    let (marker, p3) = marker_at(s, p2, modes.conceals(ctx));
                    match marker {
                        Err(e) => (Err(e), p3),
                        Ok(_) => {
                            let (pattern, p4) = optional_pattern_at(
                                s,
                                p3,
                                mt.macroblock_pattern,
                                ctx.chroma_format,
                            );
                            match pattern {
                                Err(e) => (Err(e), p4),
                                Ok(pattern) => (
                                    Ok((PredictionFields { forward, backward, pattern })),
                                    p4,
                                ),
                            }
                        },
                    }
                },
            }
        },
    }
}

proof fn lemma_modes_advance(s: Seq<bool>, at: int, ctx: SliceWalkContext, scale: u8)
    ensures
        modes_at(s, at, ctx, scale).1 >= at,
{
    lemma_type_advances(s, at, type_rows(ctx.picture_coding_type), 0);
}

proof fn lemma_prediction_read(
    s: Seq<bool>,
    at: int,
    ctx: SliceWalkContext,
    modes: MacroblockModes,
)
    ensures
        prediction_at(s, at, ctx, modes).1 >= at,
        prediction_at(s, at, ctx, modes).0 matches Ok(p) ==> {
            let mt = modes.macroblock_type;
            let f = ctx.f_codes.spec_for_kind(MotionVectorsKind::Forward);
            let b = ctx.f_codes.spec_for_kind(MotionVectorsKind::Backward);
            &&& mt.macroblock_motion_forward ==> p.forward is Some
            &&& mt.macroblock_motion_backward ==> p.backward is Some
            &&& p.forward matches Some(v) ==> entries_in_range(v, f)
            &&& p.backward matches Some(v) ==> entries_in_range(v, b)
        },
{
    reveal(optional_vectors_at);
    reveal(optional_pattern_at);
    let f = ctx.f_codes.spec_for_kind(MotionVectorsKind::Forward);
    let b = ctx.f_codes.spec_for_kind(MotionVectorsKind::Backward);
    lemma_motion_vectors_read(s, at, modes.layout(), f);
    let p1 = optional_vectors_at(s, at, modes.has_forward(ctx), modes.layout(), f).1;
    lemma_motion_vectors_read(s, p1, modes.layout(), b);
}

fn read_modes(br: &mut BitReader<'_>, ctx: &SliceWalkContext, scale: u8) -> (res: Result<
    MacroblockModes,
>)
    requires
        addressable(*old(br)),
    ensures
        reads_as(
            *old(br),
            *final(br),
            res,
            modes_at(reader_bits(*old(br)), reader_pos(*old(br)) as int, *ctx, scale),
        ),
{
    proof {
        lemma2_to64();
    }
    let mt = MacroblockType::parse(br, ctx.picture_coding_type)?;
    let moves = mt.macroblock_motion_forward || mt.macroblock_motion_backward;
    let motion_type = if moves && !ctx.frame_pred_frame_dct {
        Some(MotionType::parse_frame(br)?)
    } else {
        None
    };
    let transforms = mt.macroblock_intra || mt.macroblock_pattern;
    let dct_type = if transforms && !ctx.frame_pred_frame_dct {
        Some(read_flag(br)?)
    } else {
        None
    };
    let quantiser_scale_code: u8 = if mt.macroblock_quant {
        let code = read_field(br, 5)?;
        if code == 0 {
            return Err(Error::InvalidBitstream(ERR_WALK_SCALE));
        }
        code as u8
    } else {
        scale
    };
    Ok(MacroblockModes { macroblock_type: mt, motion_type, dct_type, quantiser_scale_code })
}

fn read_optional_vectors(
    br: &mut BitReader<'_>,
    present: bool,
    kind: MotionVectorsKind,
    layout: &MotionType,
    f_codes: &MotionVectorsContext,
) -> (res: Result<Option<MotionVectors>>)
    requires
        addressable(*old(br)),
    ensures
        reader_bits(*final(br)) == reader_bits(*old(br)),
        ({
            let (want, next) = optional_vectors_at(
                reader_bits(*old(br)),
                reader_pos(*old(br)) as int,
                present,
                *layout,
                f_codes.spec_for_kind(kind),
            );
            &&& reader_pos(*final(br)) == next
            &&& match res {
                Ok(v) => want == Ok::<Option<Seq<MotionVectorEntry>>, Error>(entries_of(v)),
                Err(e) => want == Err::<Option<Seq<MotionVectorEntry>>, Error>(e),
            }
        }),
{
    proof {
        reveal(optional_vectors_at);
    }
    if present {
        let v = MotionVectors::parse(br, kind, layout, f_codes)?;
        Ok(Some(v))
    } else {
        Ok(None)
    }
}

fn read_optional_pattern(
    br: &mut BitReader<'_>,
    present: bool,
    chroma_format: ChromaFormat,
) -> (res: Result<CodedBlockPattern>)
    requires
        addressable(*old(br)),
    ensures
        reads_as(
            *old(br),
            *final(br),
            res,
            optional_pattern_at(
                reader_bits(*old(br)),
                reader_pos(*old(br)) as int,
                present,
                chroma_format,
            ),
        ),
{
    proof {
        reveal(optional_pattern_at);
    }
    if present {
        CodedBlockPattern::parse(br, chroma_format)
    } else {
        Ok(
            CodedBlockPattern {
                cbp: 0,
                coded_block_pattern_1: None,
                coded_block_pattern_2: None,
                bit_position_after: br.bit_position(),
            },
        )
    }
}

fn read_prediction(
    br: &mut BitReader<'_>,
    ctx: &SliceWalkContext,
    modes: &MacroblockModes,
) -> (res: Result<(Option<MotionVectors>, Option<MotionVectors>, CodedBlockPattern)>)
    requires
        addressable(*old(br)),
    ensures
        reader_bits(*final(br)) == reader_bits(*old(br)),
        ({
            let (want, next) = prediction_at(
                reader_bits(*old(br)),
                reader_pos(*old(br)) as int,
                *ctx,
                *modes,
            );
            &&& reader_pos(*final(br)) == next
            &&& match res {
                Ok(p) => want == Ok::<PredictionFields, Error>(
                    (PredictionFields {
                        forward: entries_of(p.0),
                        backward: entries_of(p.1),
                        pattern: p.2,
                    }),
                ),
                Err(e) => want == Err::<PredictionFields, Error>(e),
            }
        }),
{
    let mt = modes.macroblock_type;
    let layout = match modes.motion_type {
        Some(m) => m,
        None => MotionType::frame(),
    };
    let conceals = mt.macroblock_intra && ctx.concealment_motion_vectors;
    let forward = read_optional_vectors(
        br,
        mt.macroblock_motion_forward || conceals,
        MotionVectorsKind::Forward,
        &layout,
        &ctx.f_codes,
    )?;
    let backward = read_optional_vectors(
        br,
        mt.macroblock_motion_backward,
        MotionVectorsKind::Backward,
        &layout,
        &ctx.f_codes,
    )?;
    if conceals {
        if !read_flag(br)? {
            return Err(Error::InvalidBitstream(ERR_WALK_MARKER));
        }
    }
    let pattern = read_optional_pattern(br, mt.macroblock_pattern, ctx.chroma_format)?;
    Ok((forward, backward, pattern))
}

// ---------------------------------------------------------------------------
// The blocks of an MPEG-1 macroblock
// ---------------------------------------------------------------------------

/// The coded blocks from block `i` on, the position after them, and the DC
/// predictions that they leave.
pub open spec fn mpeg1_blocks_from<F: Fn([[i32; 8]; 8]) -> [[i16; 8]; 8]>(
    s: Seq<bool>,
    at: int,
    i: int,
    matrices: QuantiserMatrixState,
    scale: u8,
    predictors: IntraDcPredictors,
    address: i32,
    mt: MacroblockType,
    pattern: CodedBlockPattern,
    idct: F,
) -> (Result<Seq<DecodedBlock>>, int, IntraDcPredictors)
    decreases 6 - i,
{
    if i >= 6 {
        (Ok(Seq::empty()), at, predictors)
    } else if !pattern.codes_block(mt.macroblock_intra, mt.macroblock_pattern, i) {
        mpeg1_blocks_from(
            s,
            at,
            i + 1,
            matrices,
            scale,
            predictors,
            address,
            mt,
            pattern,
            idct,
        )
    } else {
        let (block, p1, after) = if mt.macroblock_intra {
            mpeg1_intra_at(
                s,
                at,
                i as u8,
                true,
                scale,
                matrices.intra_luma,
                predictors,
                address,
                idct,
            )
        } else {
            let (block, p) = mpeg1_non_intra_at(s, at, scale, matrices.non_intra_luma, idct);
            (block, p, predictors)
        };
        match block {
            Err(e) => (Err(e), p1, after),
            Ok(block) => {
                let (rest, p2, last) = mpeg1_blocks_from(
                    s,
                    p1,
                    i + 1,
                    matrices,
                    scale,
                    after,
                    address,
                    mt,
                    pattern,
                    idct,
                );
                match rest {
                    Err(e) => (Err(e), p2, last),
                    Ok(rest) => (
                        Ok(
                            seq![
                                (DecodedBlock {
                                    block_index: i as u8,
                                    component: component_of(i, ChromaFormat::Yuv420)->0,
                                    decoded: block,
                                }),
                            ] + rest,
                        ),
                        p2,
                        last,
                    ),
                }
            },
        }
    }
}

proof fn lemma_mpeg1_blocks_from_advances<F: Fn([[i32; 8]; 8]) -> [[i16; 8]; 8]>(
    s: Seq<bool>,
    at: int,
    i: int,
    matrices: QuantiserMatrixState,
    scale: u8,
    predictors: IntraDcPredictors,
    address: i32,
    mt: MacroblockType,
    pattern: CodedBlockPattern,
    idct: F,
)
    ensures
        mpeg1_blocks_from(
            s,
            at,
            i,
            matrices,
            scale,
            predictors,
            address,
            mt,
            pattern,
            idct,
        ).1 >= at,
    decreases 6 - i,
{
    if i < 6 {
        if !pattern.codes_block(mt.macroblock_intra, mt.macroblock_pattern, i) {
            lemma_mpeg1_blocks_from_advances(
                s,
                at,
                i + 1,
                matrices,
                scale,
                predictors,
                address,
                mt,
                pattern,
                idct,
            );
        } else if mt.macroblock_intra {
            let q = matrices.intra_luma;
            lemma_mpeg1_blocks_advance(
                s,
                at,
                i as u8,
                true,
                scale,
                q,
                predictors,
                address,
                idct,
            );
            let (_, p1, after) = mpeg1_intra_at(
                s,
                at,
                i as u8,
                true,
                scale,
                q,
                predictors,
                address,
                idct,
            );
            lemma_mpeg1_blocks_from_advances(
                s,
                p1,
                i + 1,
                matrices,
                scale,
                after,
                address,
                mt,
                pattern,
                idct,
            );
        } else {
            let q = matrices.non_intra_luma;
            lemma_mpeg1_blocks_advance(
                s,
                at,
                i as u8,
                true,
                scale,
                q,
                predictors,
                address,
                idct,
            );
            let p1 = mpeg1_non_intra_at(s, at, scale, q, idct).1;
            lemma_mpeg1_blocks_from_advances(
                s,
                p1,
                i + 1,
                matrices,
                scale,
                predictors,
                address,
                mt,
                pattern,
                idct,
            );
        }
    }
}

fn decode_mpeg1_block<F: Fn([[i32; 8]; 8]) -> [[i16; 8]; 8]>(
    br: &mut BitReader<'_>,
    i: u8,
    matrices: &QuantiserMatrixState,
    scale: u8,
    predictors: &mut IntraDcPredictors,
    address: i32,
    intra: bool,
    idct: &F,
) -> (res: Result<DecodedBlock>)
    requires
        addressable(*old(br)),
        is_function(*idct),
        i < 6,
    ensures
        reader_bits(*final(br)) == reader_bits(*old(br)),
        ({
            let s = reader_bits(*old(br));
            let at = reader_pos(*old(br)) as int;
            let (block, p1, after) = if intra {
                mpeg1_intra_at(
                    s,
                    at,
                    i,
                    true,
                    scale,
                    matrices.intra_luma,
                    *old(predictors),
                    address,
                    *idct,
                )
            } else {
                let (block, p) = mpeg1_non_intra_at(
                    s,
                    at,
                    scale,
                    matrices.non_intra_luma,
                    *idct,
                );
                (block, p, *old(predictors))
            };
            &&& reader_pos(*final(br)) == p1
            &&& *final(predictors) == after
            &&& match block {
                Ok(block) => res == Ok::<DecodedBlock, Error>(
                    (DecodedBlock {
                        block_index: i,
                        component: component_of(i as int, ChromaFormat::Yuv420)->0,
                        decoded: block,
                    }),
                ),
                Err(e) => res == Err::<DecodedBlock, Error>(e),
            }
        }),
{
    let decoded = if intra {
        decode_intra_block(br, i, scale, &matrices.intra_luma, predictors, address, idct)?
    } else {
        decode_non_intra_block(br, scale, &matrices.non_intra_luma, idct)?
    };
    let component = match block_component(i as usize, ChromaFormat::Yuv420) {
        Some(c) => c,
        None => crate::mpeg2_block_dc::ColourComponent::Y,
    };
    Ok(DecodedBlock { block_index: i, component, decoded })
}

fn decode_mpeg1_blocks<F: Fn([[i32; 8]; 8]) -> [[i16; 8]; 8]>(
    br: &mut BitReader<'_>,
    matrices: &QuantiserMatrixState,
    scale: u8,
    predictors: &mut IntraDcPredictors,
    address: i32,
    mt: &MacroblockType,
    pattern: &CodedBlockPattern,
    idct: &F,
) -> (res: Result<Vec<DecodedBlock>>)
    requires
        addressable(*old(br)),
        is_function(*idct),
    ensures
        reader_bits(*final(br)) == reader_bits(*old(br)),
        ({
            let (want, next, after) = mpeg1_blocks_from(
                reader_bits(*old(br)),
                reader_pos(*old(br)) as int,
                0,
                *matrices,
                scale,
                *old(predictors),
                address,
                *mt,
                *pattern,
                *idct,
            );
            &&& reader_pos(*final(br)) == next
            &&& *final(predictors) == after
            &&& match res {
                Ok(blocks) => want == Ok::<Seq<DecodedBlock>, Error>(blocks@),
                Err(e) => want == Err::<Seq<DecodedBlock>, Error>(e),
            }
        }),
{
    let codes = pattern.pattern_code(mt.macroblock_intra, mt.macroblock_pattern);
    let ghost s = reader_bits(*br);
    let ghost whole = mpeg1_blocks_from(
        s,
        reader_pos(*br) as int,
        0,
        *matrices,
        scale,
        *predictors,
        address,
        *mt,
        *pattern,
        *idct,
    );
    let mut out: Vec<DecodedBlock> = Vec::new();
    proof {
        if whole.0 is Ok {
            assert(Seq::<DecodedBlock>::empty() + whole.0->Ok_0 =~= whole.0->Ok_0);
        }
    }
    let mut i: u8 = 0;
    while i < 6
        invariant
            i <= 6,
            is_function(*idct),
            s == reader_bits(*old(br)),
            reader_bits(*br) == s,
            addressable(*br),
            forall|k: int|
                0 <= k < 12 ==> #[trigger] codes[k] == pattern.codes_block(
                    mt.macroblock_intra,
                    mt.macroblock_pattern,
                    k,
                ),
            whole == mpeg1_blocks_from(
                s,
                reader_pos(*old(br)) as int,
                0,
                *matrices,
                scale,
                *old(predictors),
                address,
                *mt,
                *pattern,
                *idct,
            ),
            ({
                let (rest, next, after) = mpeg1_blocks_from(
                    s,
                    reader_pos(*br) as int,
                    i as int,
                    *matrices,
                    scale,
                    *predictors,
                    address,
                    *mt,
                    *pattern,
                    *idct,
                );
                &&& next == whole.1
                &&& after == whole.2
                &&& match rest {
                    Ok(rest) => whole.0 == Ok::<Seq<DecodedBlock>, Error>(out@ + rest),
                    Err(e) => whole.0 == Err::<Seq<DecodedBlock>, Error>(e),
                }
            }),
        decreases 6 - i,
    {
        if codes[i as usize] {
            let block = decode_mpeg1_block(
                br,
                i,
                matrices,
                scale,
                predictors,
                address,
                mt.macroblock_intra,
                idct,
            )?;
            let ghost before = out@;
            out.push(block);
            proof {
                let rest = mpeg1_blocks_from(
                    s,
                    reader_pos(*br) as int,
                    i + 1,
                    *matrices,
                    scale,
                    *predictors,
                    address,
                    *mt,
                    *pattern,
                    *idct,
                ).0;
                if rest is Ok {
                    assert(before + (seq![block] + rest->Ok_0) =~= out@ + rest->Ok_0);
                }
            }
        }
        i += 1;
    }
    proof {
        if whole.0 is Ok {
            assert(out@ + Seq::<DecodedBlock>::empty() =~= out@);
        }
    }
    Ok(out)
}

// ---------------------------------------------------------------------------
// The blocks of a macroblock of either standard
// ---------------------------------------------------------------------------

/// What is carried from one macroblock of a slice to the next.
pub struct WalkState {
    /// The address of the last macroblock.
    pub address: int,
    /// Whether there was none yet.
    pub first: bool,
    /// The quantiser scale code in force.
    pub scale: u8,
    /// The DC predictions of MPEG-1.
    pub dc1: IntraDcPredictors,
    /// The DC predictors of MPEG-2.
    pub dc2: DcPredictors,
}

pub open spec fn weights_of(m: QuantiserMatrixState) -> [[[u8; 8]; 8]; 4] {
    [m.intra_luma, m.non_intra_luma, m.intra_chroma, m.non_intra_chroma]
}

pub open spec fn block_context(ctx: SliceWalkContext, scale_value: u8) -> MacroblockBlockContext<
    'static,
> {
    MacroblockBlockContext {
        intra_vlc_format: ctx.intra_vlc_format,
        alternate_scan: ctx.alternate_scan,
        intra_dc_precision: ctx.intra_dc_precision,
        quantiser_scale_value: scale_value,
        chroma_format: ctx.chroma_format,
        weight_matrices: &weights_of(ctx.quantiser_matrices),
    }
}

/// The blocks of the macroblock at an address, the position after them, and the DC
/// predictions that they leave. In MPEG-2, skipped macroblocks reset those first.
#[verifier::opaque]
pub open spec fn blocks_of<F: Fn([[i32; 8]; 8]) -> [[i16; 8]; 8]>(
    s: Seq<bool>,
    at: int,
    ctx: SliceWalkContext,
    scale: u8,
    address: i32,
    skipped: int,
    mt: MacroblockType,
    pattern: CodedBlockPattern,
    dc1: IntraDcPredictors,
    dc2: DcPredictors,
    idct: F,
) -> (Result<Seq<DecodedBlock>>, int, IntraDcPredictors, DcPredictors) {
    if ctx.mpeg1 {
        let (blocks, p, after) = mpeg1_blocks_from(
            s,
            at,
            0,
            ctx.quantiser_matrices,
            scale,
            dc1,
            address,
            mt,
            pattern,
            idct,
        );
        let last = if blocks is Ok && mt.macroblock_intra {
            after.after_macroblock(address)
        } else {
            after
        };
        (blocks, p, last, dc2)
    } else {
        match scale_of(scale, ctx.q_scale_type) {
            Err(e) => (Err(e), at, dc1, dc2),
            Ok(value) => {
                let start = if skipped > 0 {
                    DcPredictors::at_reset(dc2.intra_dc_precision)
                } else {
                    dc2
                };
                let (blocks, p, after) = macroblock_blocks_at(
                    s,
                    at,
                    block_context(ctx, value),
                    start,
                    mt,
                    pattern,
                    idct,
                );
                (blocks, p, dc1, after)
            },
        }
    }
}

proof fn lemma_blocks_of_advances<F: Fn([[i32; 8]; 8]) -> [[i16; 8]; 8]>(
    s: Seq<bool>,
    at: int,
    ctx: SliceWalkContext,
    scale: u8,
    address: i32,
    skipped: int,
    mt: MacroblockType,
    pattern: CodedBlockPattern,
    dc1: IntraDcPredictors,
    dc2: DcPredictors,
    idct: F,
)
    requires
        dc2.roomy(),
        dc2.intra_dc_precision <= 3,
    ensures
        ({
            let (_, next, _, after) = blocks_of(
                s,
                at,
                ctx,
                scale,
                address,
                skipped,
                mt,
                pattern,
                dc1,
                dc2,
                idct,
            );
            next >= at && after.roomy() && after.intra_dc_precision == dc2.intra_dc_precision
        }),
{
    reveal(blocks_of);
    lemma2_to64();
    lemma_mpeg1_blocks_from_advances(
        s,
        at,
        0,
        ctx.quantiser_matrices,
        scale,
        dc1,
        address,
        mt,
        pattern,
        idct,
    );
    if let Ok(value) = scale_of(scale, ctx.q_scale_type) {
        let bctx = block_context(ctx, value);
        let reset = DcPredictors::at_reset(dc2.intra_dc_precision);
        lemma_blocks_advance(s, at, 0, bctx, dc2, mt, pattern, idct);
        lemma_blocks_advance(s, at, 0, bctx, reset, mt, pattern, idct);
    }
}

fn decode_blocks<F: Fn([[i32; 8]; 8]) -> [[i16; 8]; 8]>(
    br: &mut BitReader<'_>,
    ctx: &SliceWalkContext,
    scale: u8,
    address: i32,
    skipped: u32,
    mt: &MacroblockType,
    pattern: &CodedBlockPattern,
    dc1: &mut IntraDcPredictors,
    dc2: &mut DcPredictors,
    idct: &F,
) -> (res: Result<Vec<DecodedBlock>>)
    requires
        addressable(*old(br)),
        is_function(*idct),
        old(dc2).roomy(),
        old(dc2).intra_dc_precision <= 3,
    ensures
        reader_bits(*final(br)) == reader_bits(*old(br)),
        ({
            let (want, next, after1, after2) = blocks_of(
                reader_bits(*old(br)),
                reader_pos(*old(br)) as int,
                *ctx,
                scale,
                address,
                skipped as int,
                *mt,
                *pattern,
                *old(dc1),
                *old(dc2),
                *idct,
            );
            match res {
                Ok(blocks) => want == Ok::<Seq<DecodedBlock>, Error>(blocks@) && reader_pos(
                    *final(br),
                ) == next && *final(dc1) == after1 && *final(dc2) == after2,
                Err(e) => want == Err::<Seq<DecodedBlock>, Error>(e),
            }
        }),
{
    proof {
        reveal(blocks_of);
        lemma2_to64();
    }
    if ctx.mpeg1 {
        let blocks = decode_mpeg1_blocks(
            br,
            &ctx.quantiser_matrices,
            scale,
            dc1,
            address,
            mt,
            pattern,
            idct,
        )?;
        if mt.macroblock_intra {
            finalise_intra_macroblock(dc1, address);
        }
        Ok(blocks)
    } else {
        let value = quantiser_scale(scale, ctx.q_scale_type)?;
        if skipped > 0 {
            dc2.reset();
        }
        let m = ctx.quantiser_matrices;
        let weights = [m.intra_luma, m.non_intra_luma, m.intra_chroma, m.non_intra_chroma];
        assert(weights =~= weights_of(ctx.quantiser_matrices));
        let bctx = MacroblockBlockContext {
            intra_vlc_format: ctx.intra_vlc_format,
            alternate_scan: ctx.alternate_scan,
            intra_dc_precision: ctx.intra_dc_precision,
            quantiser_scale_value: value,
            chroma_format: ctx.chroma_format,
            weight_matrices: &weights,
        };
        decode_macroblock_blocks(br, &bctx, dc2, mt, pattern, idct)
    }
}

// ---------------------------------------------------------------------------
// The macroblocks of a slice
// ---------------------------------------------------------------------------

/// The macroblock at `at`, the state that it leaves, and the position after it.
#[verifier::opaque]
pub open spec fn macroblock_at<F: Fn([[i32; 8]; 8]) -> [[i16; 8]; 8]>(
    s: Seq<bool>,
    at: int,
    ctx: SliceWalkContext,
    st: WalkState,
    idct: F,
) -> (Result<(MacroblockFields, WalkState)>, int) {
    let (increment, p1) = increment_at(s, at, ctx.mpeg1);
    match increment {
        Err(e) => (Err(e), p1),
        Ok(increment) => {
            let address = st.address + increment.value;
            let skipped = if st.first {
                0
            } else {
                increment.value - 1
            };
            if address > MAX_ADDRESS {
                (Err(Error::InvalidBitstream(ERR_WALK_ADDRESS)), p1)
            } else {
                let (modes, p2) = modes_at(s, p1, ctx, st.scale);
                match modes {
                    Err(e) => (Err(e), p2),
                    Ok(modes) => {
                        let (prediction, p3) = prediction_at(s, p2, ctx, modes);
                        match prediction {
                            Err(e) => (Err(e), p3),
                            Ok(prediction) => {
                                let (blocks, p4, dc1, dc2) = blocks_of(
                                    s,
                                    p3,
                                    ctx,
                                    modes.quantiser_scale_code,
                                    address as i32,
                                    skipped,
                                    modes.macroblock_type,
                                    prediction.pattern,
                                    st.dc1,
                                    st.dc2,
                                    idct,
                                );
                                match blocks {
                                    Err(e) => (Err(e), p4),
                                    Ok(blocks) => (
                                        Ok(
                                            (
                                                MacroblockFields {
                                                    address,
                                                    skipped,
                                                    macroblock_type: modes.macroblock_type,
                                                    motion_type: modes.motion_type,
                                                    dct_type: modes.dct_type,
                                                    forward: prediction.forward,
                                                    backward: prediction.backward,
                                                    blocks,
                                                },
                                                WalkState {
                                                    address,
                                                    first: false,
                                                    scale: modes.quantiser_scale_code,
                                                    dc1,
                                                    dc2,
                                                },
                                            ),
                                        ),
                                        p4,
                                    ),
                                }
                            },
                        }
                    },
                }
            }
        },
    }
}

pub open spec fn state_ok(st: WalkState) -> bool {
    &&& -1 <= st.address
    &&& st.dc2.roomy()
    &&& st.dc2.intra_dc_precision <= 3
}

/// What holds of every macroblock that is read: its address and those of the
/// macroblocks skipped before it exist, and its vectors are present and in range.
pub open spec fn fields_ok(m: MacroblockFields, ctx: SliceWalkContext) -> bool {
    &&& 0 <= m.skipped <= m.address <= MAX_ADDRESS
    &&& m.macroblock_type.macroblock_motion_forward ==> m.forward is Some
    &&& m.macroblock_type.macroblock_motion_backward ==> m.backward is Some
    &&& m.forward matches Some(v) ==> entries_in_range(
        v,
        ctx.f_codes.spec_for_kind(MotionVectorsKind::Forward),
    )
    &&& m.backward matches Some(v) ==> entries_in_range(
        v,
        ctx.f_codes.spec_for_kind(MotionVectorsKind::Backward),
    )
}

/// Reading a macroblock moves on.
pub proof fn lemma_macroblock_advances<F: Fn([[i32; 8]; 8]) -> [[i16; 8]; 8]>(
    s: Seq<bool>,
    at: int,
    ctx: SliceWalkContext,
    st: WalkState,
    idct: F,
)
    requires
        state_ok(st),
    ensures
        macroblock_at(s, at, ctx, st, idct).0 matches Ok((m, after)) ==> macroblock_at(
            s,
            at,
            ctx,
            st,
            idct,
        ).1 > at && state_ok(after) && after.address == m.address && fields_ok(m, ctx),
{
    reveal(macroblock_at);
    let (increment, p1) = increment_at(s, at, ctx.mpeg1);
    lemma_increment_advances(s, at, ctx.mpeg1, 0);
    if let Ok(increment) = increment {
        let address = st.address + increment.value;
        let skipped = if st.first {
            0
        } else {
            increment.value - 1
        };
        let (modes, p2) = modes_at(s, p1, ctx, st.scale);
        lemma_modes_advance(s, p1, ctx, st.scale);
        if let Ok(modes) = modes {
            let (prediction, p3) = prediction_at(s, p2, ctx, modes);
            lemma_prediction_read(s, p2, ctx, modes);
            if let Ok(prediction) = prediction {
                lemma_blocks_of_advances(
                    s,
                    p3,
                    ctx,
                    modes.quantiser_scale_code,
                    address as i32,
                    skipped,
                    modes.macroblock_type,
                    prediction.pattern,
                    st.dc1,
                    st.dc2,
                    idct,
                );
            }
        }
    }
}

/// Whether the slice ends at `at`: no one bit is among the next 23, or among those
/// left where they are fewer.
pub open spec fn slice_ends(s: Seq<bool>, at: int) -> bool {
    let left = s.len() - at;
    left <= 0 || be_value(
        s,
        at,
        if left < 23 {
            left
        } else {
            23
        },
    ) == 0
}

/// Whether the slice ends at the cursor.
pub fn at_slice_end(br: &mut BitReader<'_>) -> (b: bool)
    requires
        addressable(*old(br)),
    ensures
        reader_bits(*final(br)) == reader_bits(*old(br)),
        reader_pos(*final(br)) == reader_pos(*old(br)),
        b == slice_ends(reader_bits(*old(br)), reader_pos(*old(br)) as int),
{
    let left = br.bits_remaining();
    if left == 0 {
        return true;
    }
    let n: u32 = if left < 23 {
        left as u32
    } else {
        23
    };
    match br.peek_u32(n) {
        Ok(v) => v == 0,
        Err(_) => false,
    }
}

/// The macroblocks from `at` on, up to the end of the slice.
pub open spec fn walk_from<F: Fn([[i32; 8]; 8]) -> [[i16; 8]; 8]>(
    s: Seq<bool>,
    at: int,
    ctx: SliceWalkContext,
    st: WalkState,
    idct: F,
) -> Result<Seq<MacroblockFields>>
    decreases
            (if at < s.len() {
                s.len() - at
            } else {
                0
            }),
    when state_ok(st)
{
    proof {
        lemma_macroblock_advances(s, at, ctx, st, idct);
    }
    if slice_ends(s, at) {
        Ok(Seq::empty())
    } else {
        let (m, p) = macroblock_at(s, at, ctx, st, idct);
        match m {
            Err(e) => Err(e),
            Ok((m, after)) => match walk_from(s, p, ctx, after, idct) {
                Err(e) => Err(e),
                Ok(rest) => Ok(seq![m] + rest),
            },
        }
    }
}

/// The state at the start of a slice.
pub open spec fn walk_start(ctx: SliceWalkContext) -> WalkState {
    WalkState {
        address: ctx.mb_row * ctx.mb_width - 1,
        first: true,
        scale: ctx.quantiser_scale_code,
        dc1: IntraDcPredictors::spec_at_slice_start(),
        dc2: DcPredictors::at_reset(
            if ctx.mpeg1 {
                0
            } else {
                ctx.intra_dc_precision
            },
        ),
    }
}

/// The macroblocks of a slice whose first macroblock is at a bit position.
pub open spec fn slice_walk<F: Fn([[i32; 8]; 8]) -> [[i16; 8]; 8]>(
    buf: Seq<u8>,
    body_bit_position: int,
    ctx: SliceWalkContext,
    idct: F,
) -> Result<Seq<MacroblockFields>> {
    if !ctx.mpeg1 && ctx.intra_dc_precision > 3 {
        Err(Error::InvalidBitstream(ERR_DC_PRECISION))
    } else if body_bit_position > u32::MAX {
        Err(Error::ShortHeader)
    } else {
        walk_from(bits_of(buf), body_bit_position, ctx, walk_start(ctx), idct)
    }
}

fn read_macroblock<F: Fn([[i32; 8]; 8]) -> [[i16; 8]; 8]>(
    br: &mut BitReader<'_>,
    ctx: &SliceWalkContext,
    address: &mut i64,
    first: bool,
    scale: &mut u8,
    dc1: &mut IntraDcPredictors,
    dc2: &mut DcPredictors,
    idct: &F,
) -> (res: Result<MacroblockRecord>)
    requires
        addressable(*old(br)),
        is_function(*idct),
        -1 <= *old(address) <= 0x1_0000_0000_0000,
        old(dc2).roomy(),
        old(dc2).intra_dc_precision <= 3,
    ensures
        reader_bits(*final(br)) == reader_bits(*old(br)),
        ({
            let (want, next) = macroblock_at(
                reader_bits(*old(br)),
                reader_pos(*old(br)) as int,
                *ctx,
                (WalkState {
                    address: *old(address) as int,
                    first,
                    scale: *old(scale),
                    dc1: *old(dc1),
                    dc2: *old(dc2),
                }),
                *idct,
            );
            match res {
                Ok(m) => want == Ok::<(MacroblockFields, WalkState), Error>(
                    (
                        m@,
                        (WalkState {
                            address: *final(address) as int,
                            first: false,
                            scale: *final(scale),
                            dc1: *final(dc1),
                            dc2: *final(dc2),
                        }),
                    ),
                ) && reader_pos(*final(br)) == next,
                Err(e) => want == Err::<(MacroblockFields, WalkState), Error>(e),
            }
        }),
{
    proof {
        reveal(macroblock_at);
        lemma_increment_advances(reader_bits(*br), reader_pos(*br) as int, ctx.mpeg1, 0);
    }
    let increment = MbAddressIncrement::parse(
        br,
        MbAddressIncrementContext { mpeg1: ctx.mpeg1 },
    )?;
    let now: i64 = *address + increment.value as i64;
    let skipped: u32 = if first {
        0
    } else {
        increment.value - 1
    };
    if now > MAX_ADDRESS as i64 {
        return Err(Error::InvalidBitstream(ERR_WALK_ADDRESS));
    }
    let modes = read_modes(br, ctx, *scale)?;
    let (forward, backward, pattern) = read_prediction(br, ctx, &modes)?;
    let blocks = decode_blocks(
        br,
        ctx,
        modes.quantiser_scale_code,
        now as i32,
        skipped,
        &modes.macroblock_type,
        &pattern,
        dc1,
        dc2,
        idct,
    )?;
    *address = now;
    *scale = modes.quantiser_scale_code;
    Ok(
        MacroblockRecord {
            macroblock_address: now as u32,
            skipped_macroblock_count: skipped,
            macroblock_type: modes.macroblock_type,
            motion_type: modes.motion_type,
            dct_type: modes.dct_type,
            motion_vectors_forward: forward,
            motion_vectors_backward: backward,
            decoded_blocks: blocks,
        },
    )
}

/// Reads the macroblocks of a slice. `body_bit_position` is the position of the
/// first, and `idct` the inverse transform.
pub fn walk_slice_at<F: Fn([[i32; 8]; 8]) -> [[i16; 8]; 8]>(
    buf: &[u8],
    body_bit_position: u64,
    ctx: &SliceWalkContext,
    idct: &F,
) -> (res: Result<Vec<MacroblockRecord>>)
    requires
        8 * buf@.len() <= u64::MAX,
        body_bit_position <= 8 * buf@.len(),
        ctx.mb_row * ctx.mb_width <= 0x1_0000_0000_0000,
        is_function(*idct),
    ensures
        match res {
            Ok(records) => slice_walk(buf@, body_bit_position as int, *ctx, *idct) == Ok::<
                Seq<MacroblockFields>,
                Error,
            >(fields_of(records@)),
            Err(e) => slice_walk(buf@, body_bit_position as int, *ctx, *idct) == Err::<
                Seq<MacroblockFields>,
                Error,
            >(e),
        },
        res matches Ok(records) ==> forall|i: int|
            0 <= i < records@.len() ==> fields_ok((#[trigger] records@[i])@, *ctx),
{
    let mut dc1 = IntraDcPredictors::at_slice_start();
    let mut dc2 = DcPredictors::new(
        if ctx.mpeg1 {
            0
        } else {
            ctx.intra_dc_precision
        },
    )?;
    proof {
        lemma2_to64();
    }
    assert(0 <= ctx.mb_row * ctx.mb_width) by (nonlinear_arith);
    let mut address: i64 = (ctx.mb_row as i64) * (ctx.mb_width as i64) - 1;
    let mut scale: u8 = ctx.quantiser_scale_code;
    let mut first = true;
    if body_bit_position > u32::MAX as u64 {
        return Err(Error::ShortHeader);
    }
    let mut br = BitReader::new(buf);
    let ghost s = reader_bits(br);
    let _ = br.skip(body_bit_position as u32);
    let ghost whole = walk_from(s, body_bit_position as int, *ctx, walk_start(*ctx), *idct);
    let mut out: Vec<MacroblockRecord> = Vec::new();
    proof {
        assert(fields_of(out@) =~= Seq::empty());
        if whole is Ok {
            assert(Seq::<MacroblockFields>::empty() + whole->Ok_0 =~= whole->Ok_0);
        }
    }
    while !at_slice_end(&mut br)
        invariant
            is_function(*idct),
            reader_bits(br) == s,
            addressable(br),
            -1 <= address <= 0x1_0000_0000_0000,
            dc2.roomy(),
            dc2.intra_dc_precision <= 3,
            slice_walk(buf@, body_bit_position as int, *ctx, *idct) == whole,
            ({
                let st = (WalkState { address: address as int, first, scale, dc1, dc2 });
                match walk_from(s, reader_pos(br) as int, *ctx, st, *idct) {
                    Ok(rest) => whole == Ok::<Seq<MacroblockFields>, Error>(
                        fields_of(out@) + rest,
                    ),
                    Err(e) => whole == Err::<Seq<MacroblockFields>, Error>(e),
                }
            }),
            forall|i: int| 0 <= i < out@.len() ==> fields_ok((#[trigger] out@[i])@, *ctx),
        decreases
                (if reader_pos(br) < s.len() {
                    s.len() - reader_pos(br)
                } else {
                    0
                }),
    {
        let ghost st = WalkState { address: address as int, first, scale, dc1, dc2 };
        let ghost at = reader_pos(br) as int;
        proof {
            lemma_macroblock_advances(s, at, *ctx, st, *idct);
        }
        let record = read_macroblock(
            &mut br,
            ctx,
            &mut address,
            first,
            &mut scale,
            &mut dc1,
            &mut dc2,
            idct,
        )?;
        first = false;
        let ghost before = out@;
        out.push(record);
        proof {
            assert(fields_of(out@) =~= fields_of(before) + seq![record@]);
            let next = (WalkState { address: address as int, first, scale, dc1, dc2 });
            let rest = walk_from(s, reader_pos(br) as int, *ctx, next, *idct);
            if rest is Ok {
                assert(fields_of(before) + (seq![record@] + rest->Ok_0) =~= fields_of(out@)
                    + rest->Ok_0);
            }
        }
    }
    proof {
        assert(fields_of(out@) + Seq::<MacroblockFields>::empty() =~= fields_of(out@));
    }
    Ok(out)
}

/// What a macroblock brings is what its type announces: vectors for the directions that
/// it is predicted from, a concealment vector too where intra macroblocks have them, and
/// a pattern; a new quantiser scale, or the one before. How its vectors and its transform
/// are laid out is said only where the picture leaves that open.
pub proof fn law_macroblock_brings_what_its_type_says(
    s: Seq<bool>,
    at: int,
    p: int,
    ctx: SliceWalkContext,
    scale: u8,
)
    requires
        modes_at(s, at, ctx, scale).0 is Ok,
    ensures
        ({
            let modes = modes_at(s, at, ctx, scale).0->Ok_0;
            let t = modes.macroblock_type;
            let moves = t.macroblock_motion_forward || t.macroblock_motion_backward;
            let blocks = t.macroblock_intra || t.macroblock_pattern;
            &&& modes.motion_type is Some <==> moves && !ctx.frame_pred_frame_dct
            &&& modes.dct_type is Some <==> blocks && !ctx.frame_pred_frame_dct
            &&& !t.macroblock_quant ==> modes.quantiser_scale_code == scale
            &&& prediction_at(s, p, ctx, modes).0 matches Ok(read) ==> {
                &&& read.forward is Some <==> t.macroblock_motion_forward || (t.macroblock_intra
                    && ctx.concealment_motion_vectors)
                &&& read.backward is Some <==> t.macroblock_motion_backward
                &&& !t.macroblock_pattern ==> read.pattern.cbp == 0
            }
        }),
{
    reveal(optional_vectors_at);
    reveal(optional_pattern_at);
}

} // verus!
