//! The MPEG-1 motion vector element: per component a motion code and, where the
//! `f_code` asks for one, a residual.

use crate::bits::{addressable, read_field, reader_bits, reader_pos, reads_as};
use crate::error::{Error, Result};
use crate::motion_vector::{match_motion_code, motion_code_at, residual_at};
use oxideav_core::bits::BitReader;
use vstd::arithmetic::power2::lemma2_to64;
use vstd::prelude::*;

verus! {

pub const ERR_MPEG1_F_CODE: &'static str =
    "mpeg1 motion_vector: f_code outside the §2.4.3.4 1..=7 range";

/// The reference that a vector points into.
#[derive(Debug, Clone, Copy, PartialEq, Eq, Structural)]
pub enum Mpeg1MotionDirection {
    /// The past picture.
    Forward,
    /// The future picture; in B-pictures only.
    Backward,
}

/// One decoded motion vector element.
#[derive(Debug, Clone, Copy, PartialEq, Eq)]
pub struct Mpeg1MotionVector {
    pub direction: Mpeg1MotionDirection,
    /// The horizontal motion code, from -16 to 16.
    pub horizontal_code: i8,
    /// The horizontal residual, present when the `f_code` is not 1 and the code
    /// is not 0.
    pub horizontal_r: Option<u8>,
    pub vertical_code: i8,
    pub vertical_r: Option<u8>,
    /// The bit position after the element.
    pub bit_position_after: u64,
}

/// The code and the residual of one component at `at`.
pub open spec fn mpeg1_component_at(s: Seq<bool>, at: int, f_code: u8) -> (
    Result<(i8, Option<u8>)>,
    int,
) {
    let (code, p1) = motion_code_at(s, at);
    match code {
        Err(e) => (Err(e), p1),
        Ok(code) => {
            let (r, p2) = residual_at(s, p1, f_code, code);
            match r {
                Err(e) => (Err(e), p2),
                Ok(r) => (Ok((code, r)), p2),
            }
        },
    }
}

/// The motion vector element at `at`.
pub open spec fn mpeg1_vector_at(
    s: Seq<bool>,
    at: int,
    direction: Mpeg1MotionDirection,
    f_code: u8,
) -> (Result<Mpeg1MotionVector>, int) {
    if !(1 <= f_code <= 7) {
        (Err(Error::InvalidBitstream(ERR_MPEG1_F_CODE)), at)
    } else {
        let (h, p1) = mpeg1_component_at(s, at, f_code);
        match h {
            Err(e) => (Err(e), p1),
            Ok(h) => {
                let (v, p2) = mpeg1_component_at(s, p1, f_code);
                match v {
                    Err(e) => (Err(e), p2),
                    Ok(v) => (
                        Ok(
                            (Mpeg1MotionVector {
                                direction,
                                horizontal_code: h.0,
                                horizontal_r: h.1,
                                vertical_code: v.0,
                                vertical_r: v.1,
                                bit_position_after: p2 as u64,
                            }),
                        ),
                        p2,
                    ),
                }
            },
        }
    }
}

impl Mpeg1MotionVector {
    /// Reads a motion vector element of direction `direction`.
    pub fn parse(
        br: &mut BitReader<'_>,
        direction: Mpeg1MotionDirection,
        f_code: u8,
    ) -> (res: Result<Mpeg1MotionVector>)
        requires
            addressable(*old(br)),
        ensures
            reads_as(
                *old(br),
                *final(br),
                res,
                mpeg1_vector_at(
                    reader_bits(*old(br)),
                    reader_pos(*old(br)) as int,
                    direction,
                    f_code,
                ),
            ),
    {
        if f_code < 1 || f_code > 7 {
            return Err(Error::InvalidBitstream(ERR_MPEG1_F_CODE));
        }
        let horizontal_code = match_motion_code(br)?;
        let horizontal_r = read_residual(br, f_code, horizontal_code)?;
        let vertical_code = match_motion_code(br)?;
        let vertical_r = read_residual(br, f_code, vertical_code)?;
        Ok(
            Mpeg1MotionVector {
                direction,
                horizontal_code,
                horizontal_r,
                vertical_code,
                vertical_r,
                bit_position_after: br.bit_position(),
            },
        )
    }
}

/// Reads the residual of `f_code - 1` bits that follows motion code `code`, if
/// one does.
pub fn read_residual(br: &mut BitReader<'_>, f_code: u8, code: i8) -> (res: Result<Option<u8>>)
    requires
        1 <= f_code <= 7,
    ensures
        reads_as(
            *old(br),
            *final(br),
            res,
            residual_at(reader_bits(*old(br)), reader_pos(*old(br)) as int, f_code, code),
        ),
{
    if f_code == 1 || code == 0 {
        return Ok(None);
    }
    proof {
        lemma2_to64();
    }
    let r = read_field(br, (f_code - 1) as u32)?;
    Ok(Some(r as u8))
}

} // verus!
