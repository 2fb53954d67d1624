//! Names for motion vectors, and the range that an `f_code` gives them.

use crate::error::{Error, Result};
use crate::motion_vector::code_step;
use vstd::arithmetic::power2::lemma2_to64;
use vstd::prelude::*;

verus! {

pub const ERR_VECTOR_RANGE: &'static str = "f_code outside the §6.3.11 1..=9 range";

/// The reference that a vector points into.
#[derive(Debug, Clone, Copy, PartialEq, Eq, Structural)]
pub enum Direction {
    Forward,
    Backward,
}

/// Which of the two vectors of a direction is meant.
#[derive(Debug, Clone, Copy, PartialEq, Eq, Structural)]
pub enum VectorIndex {
    First,
    Second,
}

/// The parity of a field.
#[derive(Debug, Clone, Copy, PartialEq, Eq, Structural)]
pub enum FieldParity {
    Top,
    Bottom,
}

/// The size of a predicted block, in samples.
#[derive(Debug, Clone, Copy, PartialEq, Eq, Structural)]
pub struct BlockSize {
    pub width: usize,
    pub height: usize,
}

/// One reconstructed vector component.
#[derive(Debug, Clone, Copy, PartialEq, Eq)]
pub struct ReconstructedComponent {
    /// The component itself.
    pub vector_prime: i32,
    /// The predictor that it leaves.
    pub new_pmv: i32,
    /// The coded difference.
    pub delta: i32,
    /// How many values the `f_code` distinguishes.
    pub range: i32,
}

/// The least and the greatest component of an `f_code`, and their number.
pub open spec fn range_of(f_code: u8) -> (int, int, int) {
    let f = code_step(f_code);
    (-16 * f, 16 * f - 1, 32 * f)
}

/// The least and the greatest component of an `f_code`, and their number.
pub fn vector_range(f_code: u8) -> (res: Result<(i32, i32, i32)>)
    ensures
        res == (if 1 <= f_code <= 9 {
            Ok::<(i32, i32, i32), Error>(
                (
                    range_of(f_code).0 as i32,
                    range_of(f_code).1 as i32,
                    range_of(f_code).2 as i32,
                ),
            )
        } else {
            Err::<(i32, i32, i32), Error>(Error::InvalidBitstream(ERR_VECTOR_RANGE))
        }),
{
    proof {
        lemma2_to64();
    }
    let f: i32 = match f_code {
        1 => 1,
        2 => 2,
        3 => 4,
        4 => 8,
        5 => 16,
        6 => 32,
        7 => 64,
        8 => 128,
        9 => 256,
        _ => {
            return Err(Error::InvalidBitstream(ERR_VECTOR_RANGE));
        },
    };
    Ok((-16 * f, 16 * f - 1, 32 * f))
}

/// The range of an `f_code` is as wide as it holds values, reaches one further down than
/// up, and doubles with every `f_code` from 32 values on.
pub proof fn law_range_doubles(f_code: u8)
    requires
        1 <= f_code <= 9,
    ensures
        range_of(f_code).2 == range_of(f_code).1 - range_of(f_code).0 + 1,
        range_of(f_code).0 == -range_of(f_code).1 - 1,
        f_code == 1 ==> range_of(f_code).2 == 32,
        f_code > 1 ==> range_of(f_code).2 == 2 * range_of((f_code - 1) as u8).2,
{
    lemma2_to64();
}

} // verus!
