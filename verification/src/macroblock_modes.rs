//! How the motion vectors of a macroblock are laid out and used.

use crate::bits::{be_value, read_field, reader_bits, reader_pos, reads_as};
use crate::error::{Error, Result};
use oxideav_core::bits::BitReader;
use vstd::arithmetic::power2::lemma2_to64;
use vstd::prelude::*;

verus! {

pub const ERR_MOTION_TYPE: &'static str = "frame_motion_type: code 0 is reserved (Table 6-17)";

/// Whether a vector addresses frames or fields.
#[derive(Debug, Clone, Copy, PartialEq, Eq, Structural)]
pub enum MvFormat {
    Frame,
    Field,
}

/// The prediction mode that `frame_motion_type` or `field_motion_type` selects.
#[derive(Debug, Clone, Copy, PartialEq, Eq, Structural)]
pub enum PredictionType {
    FrameBased,
    FieldBased,
    SixteenByEight,
    DualPrime,
}

/// A decoded `frame_motion_type` or `field_motion_type` with what it implies.
#[derive(Debug, Clone, Copy, PartialEq, Eq, Structural)]
pub struct MotionType {
    /// The two-bit code.
    pub code: u8,
    pub prediction_type: PredictionType,
    /// How many vectors each direction carries.
    pub motion_vector_count: u8,
    pub mv_format: MvFormat,
    /// Whether differential (dual-prime) vectors follow.
    pub dmv: bool,
}

/// The motion type of a code in a frame picture (Table 6-17).
pub open spec fn frame_motion_of(code: int) -> Option<MotionType> {
    if code == 1 {
        Some(
            (MotionType {
                code: 1,
                prediction_type: PredictionType::FieldBased,
                motion_vector_count: 2,
                mv_format: MvFormat::Field,
                dmv: false,
            }),
        )
    } else if code == 2 {
        Some(frame_based())
    } else if code == 3 {
        Some(
            (MotionType {
                code: 3,
                prediction_type: PredictionType::DualPrime,
                motion_vector_count: 1,
                mv_format: MvFormat::Field,
                dmv: true,
            }),
        )
    } else {
        None
    }
}

/// Prediction from frames with one vector.
pub open spec fn frame_based() -> MotionType {
    MotionType {
        code: 2,
        prediction_type: PredictionType::FrameBased,
        motion_vector_count: 1,
        mv_format: MvFormat::Frame,
        dmv: false,
    }
}

/// The `frame_motion_type` at `at`, and the position after it.
pub open spec fn frame_motion_at(s: Seq<bool>, at: int) -> (Result<MotionType>, int) {
    if at + 2 > s.len() {
        (Err(Error::ShortHeader), at)
    } else {
        match frame_motion_of(be_value(s, at, 2)) {
            Some(m) => (Ok(m), at + 2),
            None => (Err(Error::InvalidBitstream(ERR_MOTION_TYPE)), at + 2),
        }
    }
}

impl MotionType {
    /// Prediction from frames with one vector.
    pub fn frame() -> (m: Self)
        ensures
            m == frame_based(),
    {
        MotionType {
            code: 2,
            prediction_type: PredictionType::FrameBased,
            motion_vector_count: 1,
            mv_format: MvFormat::Frame,
            dmv: false,
        }
    }

    /// Reads a `frame_motion_type`.
    pub fn parse_frame(br: &mut BitReader<'_>) -> (res: Result<Self>)
        ensures
            reads_as(
                *old(br),
                *final(br),
                res,
                frame_motion_at(reader_bits(*old(br)), reader_pos(*old(br)) as int),
            ),
    {
        proof {
            lemma2_to64();
        }
        match read_field(br, 2)? {
            1 => Ok(
                MotionType {
                    code: 1,
                    prediction_type: PredictionType::FieldBased,
                    motion_vector_count: 2,
                    mv_format: MvFormat::Field,
                    dmv: false,
                },
            ),
            2 => Ok(MotionType::frame()),
            3 => Ok(
                MotionType {
                    code: 3,
                    prediction_type: PredictionType::DualPrime,
                    motion_vector_count: 1,
                    mv_format: MvFormat::Field,
                    dmv: true,
                },
            ),
            _ => Err(Error::InvalidBitstream(ERR_MOTION_TYPE)),
        }
    }
}

/// Of the motion types of a frame picture, prediction from fields has two vectors, dual
/// prime has one and a differential besides, and prediction from frames has one that
/// counts lines of frames. The codes are 1, 3 and 2; 0 is reserved.
pub proof fn law_motion_types_differ(code: int)
    requires
        0 <= code <= 3,
    ensures
        frame_motion_of(code) is Some <==> code > 0,
        frame_motion_of(code) matches Some(m) ==> {
            &&& m.code == code
            &&& m.prediction_type == PredictionType::FieldBased <==> code == 1
            &&& m.prediction_type == PredictionType::DualPrime <==> code == 3
            &&& m.motion_vector_count == 2 <==> m.prediction_type == PredictionType::FieldBased
            &&& m.motion_vector_count == 1 <==> m.prediction_type != PredictionType::FieldBased
            &&& m.dmv <==> m.prediction_type == PredictionType::DualPrime
            &&& m.mv_format == MvFormat::Frame <==> m.prediction_type
                == PredictionType::FrameBased
            &&& m.prediction_type == PredictionType::FrameBased ==> m == frame_based()
        },
{
}

} // verus!
