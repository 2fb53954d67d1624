//! From motion codes to MPEG-1 motion vectors: the prediction of each component
//! from its predecessor, the wrap into the coded range, and the split into whole
//! and half samples.

use crate::arith::{doubled, floor_half_i32, trunc_half, trunc_half_i32};
use crate::error::{Error, Result};
use crate::motion_vector::{
    code_step, component_delta, delta_code, delta_residual, lemma_delta_code,
};
use crate::mpeg1_motion_vector::{Mpeg1MotionDirection, Mpeg1MotionVector};
use vstd::arithmetic::power2::lemma2_to64;
use vstd::prelude::*;

verus! {

pub const ERR_DIRECTION: &'static str =
    "mpeg1_reconstruct: parsed Mpeg1MotionVector direction does not match the requested direction";

pub const ERR_F_CODE: &'static str = "mpeg1_reconstruct: f_code outside the §2.4.3.4 1..=7 range";

pub const ERR_RESIDUAL_PRESENT: &'static str =
    "mpeg1_reconstruct: residual present when §2.4.3.6 forbids it (f == 1 or code == 0)";

pub const ERR_RESIDUAL_ABSENT: &'static str =
    "mpeg1_reconstruct: residual absent when §2.4.3.6 requires it (f != 1 && code != 0)";

pub const ERR_SEAM: &'static str =
    "mpeg1_reconstruct: little hits the ±f*16 wrap seam (§2.4.4.2 conformance guard)";

/// A reconstructed vector in half samples, with its whole and half sample parts
/// for the luminance and for the chrominance planes.
#[derive(Debug, Clone, Copy, PartialEq, Eq)]
pub struct Mpeg1ReconstructedMv {
    pub recon_right: i32,
    pub recon_down: i32,
    pub right_for_luma: i32,
    pub down_for_luma: i32,
    pub right_half_for_luma: i32,
    pub down_half_for_luma: i32,
    pub right_for_chroma: i32,
    pub down_for_chroma: i32,
    pub right_half_for_chroma: i32,
    pub down_half_for_chroma: i32,
}

/// The last vector of one direction, in half samples and before any full-sample
/// doubling.
#[derive(Debug, Clone, Copy, PartialEq, Eq)]
pub struct Mpeg1Predictor {
    pub recon_right_prev: i32,
    pub recon_down_prev: i32,
}

impl Default for Mpeg1Predictor {
    fn default() -> (p: Self)
        ensures
            p == (Mpeg1Predictor { recon_right_prev: 0, recon_down_prev: 0 }),
    {
        Mpeg1Predictor { recon_right_prev: 0, recon_down_prev: 0 }
    }
}

impl Mpeg1Predictor {
    /// The zero predictor, as at the start of a slice.
    pub fn new() -> (p: Self)
        ensures
            p == (Mpeg1Predictor { recon_right_prev: 0, recon_down_prev: 0 }),
    {
        Mpeg1Predictor { recon_right_prev: 0, recon_down_prev: 0 }
    }

    /// Zeroes both components.
    pub fn reset(&mut self)
        ensures
            *final(self) == (Mpeg1Predictor { recon_right_prev: 0, recon_down_prev: 0 }),
    {
        self.recon_right_prev = 0;
        self.recon_down_prev = 0;
    }
}

/// The picture header fields that a direction's vectors depend on.
#[derive(Debug, Clone, Copy, PartialEq, Eq)]
pub struct Mpeg1FrameMvContext {
    /// `forward_f_code` or `backward_f_code`, from 1 to 7.
    pub f_code: u8,
    /// `full_pel_forward_vector` or `full_pel_backward_vector`.
    pub full_pel: bool,
}

/// The difference that a component adds to its predictor: `code` steps of `f`
/// half samples, drawn toward zero by what the residual leaves of a step.
pub open spec fn component_little(code: int, r: Option<u8>, f: int) -> int {
    let complement = match r {
        Some(r) => f - 1 - r,
        None => 0,
    };
    if code > 0 {
        code * f - complement
    } else if code < 0 {
        code * f + complement
    } else {
        0
    }
}

/// The same difference one turn of `32 * f` the other way.
pub open spec fn component_big(code: int, r: Option<u8>, f: int) -> int {
    if code > 0 {
        component_little(code, r, f) - 32 * f
    } else if code < 0 {
        component_little(code, r, f) + 32 * f
    } else {
        0
    }
}

/// Whether a residual belongs to the component.
pub open spec fn residual_owed(code: int, f: int) -> bool {
    f != 1 && code != 0
}

/// The component before doubling: the predictor plus the difference, taken the
/// other way round where that leaves the range from `-16 * f` to `16 * f - 1`.
pub open spec fn component_sum(code: int, r: Option<u8>, f: int, prev: int) -> int {
    let direct = prev + component_little(code, r, f);
    if -16 * f <= direct <= 16 * f - 1 {
        direct
    } else {
        prev + component_big(code, r, f)
    }
}

/// Why a component cannot be reconstructed, if so.
pub open spec fn component_error(code: int, r: Option<u8>, f: int) -> Option<Error> {
    if residual_owed(code, f) && r is None {
        Some(Error::InvalidBitstream(ERR_RESIDUAL_ABSENT))
    } else if !residual_owed(code, f) && r is Some {
        Some(Error::InvalidBitstream(ERR_RESIDUAL_PRESENT))
    } else if component_little(code, r, f) == 16 * f || component_little(code, r, f) == -16 * f {
        Some(Error::InvalidBitstream(ERR_SEAM))
    } else {
        None
    }
}

/// Whether the sums that a component needs fit 32 bits.
pub open spec fn component_fits(code: int, r: Option<u8>, f: int, prev: int) -> bool {
    component_error(code, r, f) is None ==> {
        &&& i32::MIN <= prev + component_little(code, r, f) <= i32::MAX
        &&& i32::MIN <= component_sum(code, r, f, prev) <= i32::MAX
    }
}

pub open spec fn shown(x: int, full_pel: bool) -> int {
    if full_pel {
        doubled(x)
    } else {
        x
    }
}

/// The vector `(right, down)` with its whole and half sample parts. Luminance
/// halves round down; chrominance first halves toward zero, then rounds down.
pub open spec fn split_vector(right: int, down: int) -> Mpeg1ReconstructedMv {
    Mpeg1ReconstructedMv {
        recon_right: right as i32,
        recon_down: down as i32,
        right_for_luma: (right / 2) as i32,
        down_for_luma: (down / 2) as i32,
        right_half_for_luma: (right % 2) as i32,
        down_half_for_luma: (down % 2) as i32,
        right_for_chroma: (trunc_half(right) / 2) as i32,
        down_for_chroma: (trunc_half(down) / 2) as i32,
        right_half_for_chroma: (trunc_half(right) % 2) as i32,
        down_half_for_chroma: (trunc_half(down) % 2) as i32,
    }
}

/// What `reconstruct` returns and the predictor it leaves: the horizontal
/// component is stored before the vertical one is looked at.
pub open spec fn reconstructed(
    mv: Mpeg1MotionVector,
    ctx: Mpeg1FrameMvContext,
    predictor: Mpeg1Predictor,
    direction: Mpeg1MotionDirection,
) -> (Result<Mpeg1ReconstructedMv>, Mpeg1Predictor) {
    let f = code_step(ctx.f_code);
    let right = component_sum(
        mv.horizontal_code as int,
        mv.horizontal_r,
        f,
        predictor.recon_right_prev as int,
    );
    let down = component_sum(
        mv.vertical_code as int,
        mv.vertical_r,
        f,
        predictor.recon_down_prev as int,
    );
    if mv.direction != direction {
        (Err(Error::InvalidBitstream(ERR_DIRECTION)), predictor)
    } else if !(1 <= ctx.f_code <= 7) {
        (Err(Error::InvalidBitstream(ERR_F_CODE)), predictor)
    } else {
        match component_error(mv.horizontal_code as int, mv.horizontal_r, f) {
            Some(e) => (Err(e), predictor),
            None => match component_error(mv.vertical_code as int, mv.vertical_r, f) {
                Some(e) => (
                    Err(e),
                    (Mpeg1Predictor { recon_right_prev: right as i32, ..predictor }),
                ),
                None => (
                    Ok(split_vector(shown(right, ctx.full_pel), shown(down, ctx.full_pel))),
                    (Mpeg1Predictor {
                        recon_right_prev: right as i32,
                        recon_down_prev: down as i32,
                    }),
                ),
            },
        }
    }
}

/// Reconstructs the vector of one direction and makes it the predictor of the
/// next.
pub fn reconstruct(
    mv: &Mpeg1MotionVector,
    ctx: Mpeg1FrameMvContext,
    predictor: &mut Mpeg1Predictor,
    direction: Mpeg1MotionDirection,
) -> (res: Result<Mpeg1ReconstructedMv>)
    requires
        mv.direction == direction && 1 <= ctx.f_code <= 7 ==> component_fits(
            mv.horizontal_code as int,
            mv.horizontal_r,
            code_step(ctx.f_code),
            old(predictor).recon_right_prev as int,
        ) && (component_error(
            mv.horizontal_code as int,
            mv.horizontal_r,
            code_step(ctx.f_code),
        ) is None ==> component_fits(
            mv.vertical_code as int,
            mv.vertical_r,
            code_step(ctx.f_code),
            old(predictor).recon_down_prev as int,
        )),
    ensures
        (res, *final(predictor)) == reconstructed(*mv, ctx, *old(predictor), direction),
{
    if mv.direction != direction {
        return Err(Error::InvalidBitstream(ERR_DIRECTION));
    }
    if ctx.f_code < 1 || ctx.f_code > 7 {
        return Err(Error::InvalidBitstream(ERR_F_CODE));
    }
    let f: i32 = match ctx.f_code {
        1 => 1,
        2 => 2,
        3 => 4,
        4 => 8,
        5 => 16,
        6 => 32,
        _ => 64,
    };
    proof {
        lemma2_to64();
    }
    let right = reconstruct_component(
        mv.horizontal_code as i32,
        mv.horizontal_r,
        f,
        predictor.recon_right_prev,
        ctx.full_pel,
    )?;
    predictor.recon_right_prev = right.1;
    let down = reconstruct_component(
        mv.vertical_code as i32,
        mv.vertical_r,
        f,
        predictor.recon_down_prev,
        ctx.full_pel,
    )?;
    predictor.recon_down_prev = down.1;
    Ok(make_split(right.0, down.0))
}

/// The vector of a B-picture macroblock that carries none for the direction: the
/// predictor itself, which stays as it is.
pub fn reconstruct_absent(
    ctx: Mpeg1FrameMvContext,
    predictor: &Mpeg1Predictor,
) -> (mv: Mpeg1ReconstructedMv)
    ensures
        mv == split_vector(
            shown(predictor.recon_right_prev as int, ctx.full_pel),
            shown(predictor.recon_down_prev as int, ctx.full_pel),
        ),
{
    let right: i32 = if ctx.full_pel {
        predictor.recon_right_prev.wrapping_add(predictor.recon_right_prev)
    } else {
        predictor.recon_right_prev
    };
    let down: i32 = if ctx.full_pel {
        predictor.recon_down_prev.wrapping_add(predictor.recon_down_prev)
    } else {
        predictor.recon_down_prev
    };
    make_split(right, down)
}

/// The vector of a P-picture macroblock that carries none: zero, which becomes
/// the predictor.
pub fn reconstruct_zero(predictor: &mut Mpeg1Predictor) -> (mv: Mpeg1ReconstructedMv)
    ensures
        mv == split_vector(0, 0),
        *final(predictor) == (Mpeg1Predictor { recon_right_prev: 0, recon_down_prev: 0 }),
{
    predictor.reset();
    make_split(0, 0)
}

/// One component: the value shown, and the value that the predictor takes.
pub fn reconstruct_component(
    motion_code: i32,
    motion_r: Option<u8>,
    f: i32,
    prev: i32,
    full_pel: bool,
) -> (res: Result<(i32, i32)>)
    requires
        -128 <= motion_code <= 127,
        1 <= f <= 64,
        component_fits(motion_code as int, motion_r, f as int, prev as int),
    ensures
        match component_error(motion_code as int, motion_r, f as int) {
            Some(e) => res == Err::<(i32, i32), Error>(e),
            None => {
                let sum = component_sum(motion_code as int, motion_r, f as int, prev as int);
                res == Ok::<(i32, i32), Error>((shown(sum, full_pel) as i32, sum as i32))
            },
        },
{
    let complement: i32 = if f == 1 || motion_code == 0 {
        if motion_r.is_some() {
            return Err(Error::InvalidBitstream(ERR_RESIDUAL_PRESENT));
        }
        0
    } else {
        match motion_r {
            Some(r) => f - 1 - r as i32,
            None => {
                return Err(Error::InvalidBitstream(ERR_RESIDUAL_ABSENT));
            },
        }
    };
    assert(-8192 <= motion_code * f <= 8128) by (nonlinear_arith)
        requires
            -128 <= motion_code <= 127,
            1 <= f <= 64,
    ;
    assert(motion_code > 0 ==> motion_code * f > 0) by (nonlinear_arith)
        requires
            1 <= f,
    ;
    assert(motion_code < 0 ==> motion_code * f < 0) by (nonlinear_arith)
        requires
            1 <= f,
    ;
    let steps: i32 = motion_code * f;
    let little: i32 = if motion_code > 0 {
        steps - complement
    } else if motion_code < 0 {
        steps + complement
    } else {
        0
    };
    assert(little == component_little(motion_code as int, motion_r, f as int));
    let big: i32 = if motion_code > 0 {
        little - 32 * f
    } else if motion_code < 0 {
        little + 32 * f
    } else {
        0
    };
    if little == f * 16 || little == -f * 16 {
        return Err(Error::InvalidBitstream(ERR_SEAM));
    }
    let direct: i32 = prev + little;
    let sum: i32 = if direct <= 16 * f - 1 && direct >= -16 * f {
        direct
    } else {
        prev + big
    };
    let recon: i32 = if full_pel {
        sum.wrapping_add(sum)
    } else {
        sum
    };
    Ok((recon, sum))
}

/// The whole and half sample parts of a vector.
pub fn make_split(recon_right: i32, recon_down: i32) -> (mv: Mpeg1ReconstructedMv)
    ensures
        mv == split_vector(recon_right as int, recon_down as int),
{
    let right_for_luma = floor_half_i32(recon_right);
    let down_for_luma = floor_half_i32(recon_down);
    let chroma_right_half = trunc_half_i32(recon_right);
    let chroma_down_half = trunc_half_i32(recon_down);
    let right_for_chroma = floor_half_i32(chroma_right_half);
    let down_for_chroma = floor_half_i32(chroma_down_half);
    Mpeg1ReconstructedMv {
        recon_right,
        recon_down,
        right_for_luma,
        down_for_luma,
        right_half_for_luma: recon_right - 2 * right_for_luma,
        down_half_for_luma: recon_down - 2 * down_for_luma,
        right_for_chroma,
        down_for_chroma,
        right_half_for_chroma: chroma_right_half - 2 * right_for_chroma,
        down_half_for_chroma: chroma_down_half - 2 * down_for_chroma,
    }
}

/// Whether a component of `f_code` lies in the range that it is coded for.
pub open spec fn in_vector_range(x: int, f_code: u8) -> bool {
    -16 * code_step(f_code) <= x <= 16 * code_step(f_code) - 1
}

/// A component whose predictor lies in the coded range lies there too, and
/// differs from the predictor plus the coded difference by a whole number of
/// turns.
pub proof fn law_component_stays_in_range(code: i8, r: Option<u8>, f_code: u8, prev: int)
    requires
        1 <= f_code <= 7,
        -16 <= code <= 16,
        r matches Some(r) ==> r < code_step(f_code),
        in_vector_range(prev, f_code),
        component_error(code as int, r, code_step(f_code)) is None,
    ensures
        in_vector_range(component_sum(code as int, r, code_step(f_code), prev), f_code),
        component_sum(code as int, r, code_step(f_code), prev) == prev + component_delta(
            code,
            r,
            f_code,
        ) || component_sum(code as int, r, code_step(f_code), prev) == prev + component_delta(
            code,
            r,
            f_code,
        ) - 32 * code_step(f_code) || component_sum(code as int, r, code_step(f_code), prev) == prev
            + component_delta(code, r, f_code) + 32 * code_step(f_code),
{
    lemma2_to64();
    let f = code_step(f_code);
    assert((code - 1) * f == code * f - f) by (nonlinear_arith);
    assert((code + 1) * f == code * f + f) by (nonlinear_arith);
    assert(code > 0 ==> code * f >= f) by (nonlinear_arith)
        requires
            f >= 1,
    ;
    assert(code < 0 ==> code * f <= -f) by (nonlinear_arith)
        requires
            f >= 1,
    ;
    assert(-16 * f <= code * f <= 16 * f) by (nonlinear_arith)
        requires
            f >= 1,
            -16 <= code <= 16,
    ;
}

/// The difference between two components of the coded range, brought into the
/// range by one turn where it is outside, leads back from one to the other. The
/// one difference on the seam cannot be decoded and is left out.
pub proof fn law_wrapped_difference_reconstructs(v: int, prev: int, delta: int, f_code: u8)
    requires
        1 <= f_code <= 7,
        in_vector_range(v, f_code),
        in_vector_range(prev, f_code),
        delta == v - prev || delta == v - prev + 32 * code_step(f_code) || delta == v - prev - 32
            * code_step(f_code),
        -16 * code_step(f_code) < delta < 16 * code_step(f_code),
    ensures
        ({
            let code = delta_code(delta, f_code);
            let r = if f_code != 1 && delta != 0 {
                Some(delta_residual(delta, f_code) as u8)
            } else {
                None
            };
            &&& component_error(code, r, code_step(f_code)) is None
            &&& component_sum(code, r, code_step(f_code), prev) == v
        }),
{
    lemma2_to64();
    let f = code_step(f_code);
    lemma_delta_code(delta, f_code);
    let code = delta_code(delta, f_code);
    assert((code - 1) * f == code * f - f) by (nonlinear_arith);
    assert((code + 1) * f == code * f + f) by (nonlinear_arith);
}

/// A vector in whole samples is twice the vector that the same codes give in half
/// samples, and leaves the same predictor.
pub proof fn law_whole_sample_vectors_are_doubled(
    mv: Mpeg1MotionVector,
    f_code: u8,
    predictor: Mpeg1Predictor,
    direction: Mpeg1MotionDirection,
)
    requires
        1 <= f_code <= 7,
        -16 <= mv.horizontal_code <= 16,
        -16 <= mv.vertical_code <= 16,
        mv.horizontal_r matches Some(r) ==> r < code_step(f_code),
        mv.vertical_r matches Some(r) ==> r < code_step(f_code),
        in_vector_range(predictor.recon_right_prev as int, f_code),
        in_vector_range(predictor.recon_down_prev as int, f_code),
    ensures
        ({
            let (half, p) = reconstructed(
                mv,
                (Mpeg1FrameMvContext { f_code, full_pel: false }),
                predictor,
                direction,
            );
            let (whole, q) = reconstructed(
                mv,
                (Mpeg1FrameMvContext { f_code, full_pel: true }),
                predictor,
                direction,
            );
            &&& p == q
            &&& half is Ok <==> whole is Ok
            &&& half is Ok ==> {
                &&& whole->Ok_0.recon_right == 2 * half->Ok_0.recon_right
                &&& whole->Ok_0.recon_down == 2 * half->Ok_0.recon_down
                &&& p.recon_right_prev == half->Ok_0.recon_right
                &&& p.recon_down_prev == half->Ok_0.recon_down
            }
        }),
{
    lemma2_to64();
    let f = code_step(f_code);
    assert(1 <= f <= 64);
    if component_error(mv.horizontal_code as int, mv.horizontal_r, f) is None {
        law_component_stays_in_range(
            mv.horizontal_code,
            mv.horizontal_r,
            f_code,
            predictor.recon_right_prev as int,
        );
    }
    if component_error(mv.vertical_code as int, mv.vertical_r, f) is None {
        law_component_stays_in_range(
            mv.vertical_code,
            mv.vertical_r,
            f_code,
            predictor.recon_down_prev as int,
        );
    }
}

/// The parts of a vector: whole samples and a half make up the luminance vector, and
/// the chrominance vector, which is half of it toward zero.
pub proof fn law_vector_parts(right: int, down: int)
    requires
        i32::MIN <= right <= i32::MAX,
        i32::MIN <= down <= i32::MAX,
    ensures
        ({
            let v = split_vector(right, down);
            &&& 2 * v.right_for_luma + v.right_half_for_luma == right
            &&& 2 * v.down_for_luma + v.down_half_for_luma == down
            &&& 0 <= v.right_half_for_luma <= 1
            &&& 0 <= v.down_half_for_luma <= 1
            &&& 0 <= v.right_half_for_chroma <= 1
            &&& 0 <= v.down_half_for_chroma <= 1
            &&& ({
                let c = 2 * v.right_for_chroma + v.right_half_for_chroma;
                -1 <= right - 2 * c <= 1 && (right >= 0 ==> 0 <= 2 * c <= right) && (right <= 0
                    ==> right <= 2 * c <= 0)
            })
            &&& ({
                let c = 2 * v.down_for_chroma + v.down_half_for_chroma;
                -1 <= down - 2 * c <= 1 && (down >= 0 ==> 0 <= 2 * c <= down) && (down <= 0
                    ==> down <= 2 * c <= 0)
            })
        }),
{
}

} // verus!
