//! Integer division as the coding formulas use it.

use vstd::prelude::*;

verus! {

/// Division by two that rounds toward zero.
pub open spec fn trunc_half(x: int) -> int {
    if x >= 0 {
        x / 2
    } else {
        -((-x) / 2)
    }
}

/// Division by `d` that rounds toward zero.
pub open spec fn trunc_div(x: int, d: int) -> int {
    if x >= 0 {
        x / d
    } else {
        -((-x) / d)
    }
}

/// Clamping to the range from `lo` to `hi`.
pub open spec fn clamp_int(x: int, lo: int, hi: int) -> int {
    if x < lo {
        lo
    } else if x > hi {
        hi
    } else {
        x
    }
}

/// What a 32-bit register holds after doubling: the excess bit is lost.
pub open spec fn doubled(x: int) -> int {
    if 2 * x > i32::MAX {
        2 * x - 0x1_0000_0000
    } else if 2 * x < i32::MIN {
        2 * x + 0x1_0000_0000
    } else {
        2 * x
    }
}

/// Division by two that rounds down.
pub fn floor_half_i32(x: i32) -> (r: i32)
    ensures
        r == x as int / 2,
{
    if x >= 0 {
        x / 2
    } else {
        -1 - ((-1 - x) / 2)
    }
}

/// Division by two that rounds toward zero.
pub fn trunc_half_i32(x: i32) -> (r: i32)
    ensures
        r == trunc_half(x as int),
{
    if x >= 0 {
        x / 2
    } else if x == i32::MIN {
        -0x4000_0000
    } else {
        -((-x) / 2)
    }
}

/// Division that rounds toward zero, by a positive divisor.
pub fn trunc_div_i32(x: i32, d: i32) -> (r: i32)
    requires
        d > 0,
    ensures
        r == trunc_div(x as int, d as int),
{
    if x >= 0 {
        x / d
    } else {
        let m: i64 = -(x as i64);
        proof {
            vstd::arithmetic::div_mod::lemma_div_is_ordered_by_denominator(m as int, 1, d as int);
            vstd::arithmetic::div_mod::lemma_div_pos_is_pos(m as int, d as int);
        }
        let q: i64 = m / (d as i64);
        (-q) as i32
    }
}

/// Whether a number is odd.
pub fn is_odd_i32(x: i32) -> (b: bool)
    ensures
        b == (x as int % 2 == 1),
{
    let half = floor_half_i32(x);
    x != 2 * half
}

/// Clamping to the range from `lo` to `hi`.
pub fn clamp_i32(x: i32, lo: i32, hi: i32) -> (r: i32)
    requires
        lo <= hi,
    ensures
        r == clamp_int(x as int, lo as int, hi as int),
{
    if x < lo {
        lo
    } else if x > hi {
        hi
    } else {
        x
    }
}

/// How many blocks of 16 cover `x`.
pub open spec fn blocks_of_16(x: int) -> int {
    (x + 15) / 16
}

/// How many blocks of 16 cover `x`.
pub fn div_ceil_16(x: usize) -> (r: usize)
    ensures
        r == blocks_of_16(x as int),
{
    if x % 16 == 0 {
        x / 16
    } else {
        x / 16 + 1
    }
}

} // verus!
