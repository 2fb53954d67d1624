//! From transformed samples to levels.

use crate::arith::{clamp_int, trunc_div};
use crate::block::{block_of, lemma_block_of};
use crate::mpeg1_block_decoder::mpeg1_levels;
use crate::mpeg2_block_dc::magnitude;
use crate::mpeg2_dequantize::{intra_dc_entry, sign_of, BlockCoding};
use crate::mpeg2_inverse_scan::{inverse_scan, ZIGZAG_INVERSE_SCAN};
use vstd::prelude::*;

verus! {

/// The size of a step; at least 1.
pub open spec fn step_of(scale: u8, weight: u8) -> int {
    if scale * weight < 1 {
        1
    } else {
        scale * weight
    }
}

fn step_size(scale: u8, weight: u8) -> (step: i64)
    ensures
        step == step_of(scale, weight),
        1 <= step <= 65025,
{
    assert(0 <= scale * weight <= 65025) by (nonlinear_arith)
        requires
            scale <= 255,
            weight <= 255,
    ;
    let product: i64 = (scale as i64) * (weight as i64);
    if product < 1 {
        1
    } else {
        product
    }
}

/// The multiple of a step, in `parts` per unit, that comes nearest to `f`; halves
/// go away from zero.
pub open spec fn nearest_level(f: int, parts: int, step: int) -> int {
    sign_of(f) * ((parts * magnitude(f) + step / 2) / step)
}

/// How many steps, in `parts` per unit, `f` is away from zero at least.
pub open spec fn dead_zone_level(f: int, parts: int, step: int) -> int {
    trunc_div(parts * f, step)
}

fn nearest(f: i32, parts: i64, step: i64, limit: i32) -> (r: i32)
    requires
        1 <= parts <= 16,
        1 <= step <= 65025,
        0 <= limit <= 2047,
    ensures
        r == clamp_int(nearest_level(f as int, parts as int, step as int), -limit, limit as int),
        -limit <= r <= limit,
{
    let m: i64 = if f < 0 {
        -(f as i64)
    } else {
        f as i64
    };
    assert(0 <= parts * m <= 16 * 0x8000_0000) by (nonlinear_arith)
        requires
            1 <= parts <= 16,
            0 <= m <= 0x8000_0000,
    ;
    let total: i64 = parts * m + step / 2;
    proof {
        vstd::arithmetic::div_mod::lemma_div_pos_is_pos(total as int, step as int);
    }
    let q: i64 = total / step;
    let capped: i32 = if q > limit as i64 {
        limit
    } else {
        q as i32
    };
    proof {
        let level = nearest_level(f as int, parts as int, step as int);
        assert(f > 0 ==> level == q) by (nonlinear_arith)
            requires
                f > 0 ==> level == 1 * q,
        ;
        assert(f < 0 ==> level == -q) by (nonlinear_arith)
            requires
                f < 0 ==> level == -1 * q,
        ;
        assert(f == 0 ==> level == 0) by (nonlinear_arith)
            requires
                f == 0 ==> level == 0 * q,
        ;
    }
    if f < 0 {
        -capped
    } else if f == 0 {
        0
    } else {
        capped
    }
}

fn dead_zone(f: i32, parts: i64, step: i64, limit: i32) -> (r: i32)
    requires
        1 <= parts <= 16,
        1 <= step <= 65025,
        0 <= limit <= 2047,
    ensures
        r == clamp_int(
            dead_zone_level(f as int, parts as int, step as int),
            -limit,
            limit as int,
        ),
        -limit <= r <= limit,
{
    let m: i64 = if f < 0 {
        -(f as i64)
    } else {
        f as i64
    };
    assert(0 <= parts * m <= 16 * 0x8000_0000) by (nonlinear_arith)
        requires
            1 <= parts <= 16,
            0 <= m <= 0x8000_0000,
    ;
    assert(parts * (-m) == -(parts * m)) by (nonlinear_arith);
    assert(f > 0 ==> parts * m >= 1) by (nonlinear_arith)
        requires
            f > 0 ==> m >= 1,
            parts >= 1,
    ;
    let total: i64 = parts * m;
    proof {
        vstd::arithmetic::div_mod::lemma_div_pos_is_pos(total as int, step as int);
    }
    let q: i64 = total / step;
    let capped: i32 = if q > limit as i64 {
        limit
    } else {
        q as i32
    };
    if f < 0 {
        -capped
    } else {
        capped
    }
}

/// The levels of an MPEG-1 intra block in coded order, the first left at zero.
pub open spec fn intra_ac_levels(f: [[i32; 8]; 8], scale: u8, quant: [[u8; 8]; 8]) -> Seq<i32> {
    Seq::new(
        64,
        |i: int|
            {
                let (v, u) = inverse_scan(false)[i];
                if i == 0 {
                    0i32
                } else {
                    clamp_int(
                        nearest_level(
                            f[v as int][u as int] as int,
                            8,
                            step_of(scale, quant[v as int][u as int]),
                        ),
                        -255,
                        255,
                    ) as i32
                }
            },
    )
}

/// The levels of an MPEG-1 intra block in coded order, the first left at zero.
pub fn mpeg1_forward_quantise_intra_ac(
    f: &[[i32; 8]; 8],
    quantizer_scale: u8,
    intra_quant: &[[u8; 8]; 8],
) -> (dct_zz: [i32; 64])
    ensures
        dct_zz@ == intra_ac_levels(*f, quantizer_scale, *intra_quant),
        mpeg1_levels(dct_zz@),
{
    let ghost want = intra_ac_levels(*f, quantizer_scale, *intra_quant);
    let mut dct_zz = [0i32; 64];
    let mut i: usize = 1;
    while i < 64
        invariant
            1 <= i <= 64,
            want == intra_ac_levels(*f, quantizer_scale, *intra_quant),
            dct_zz@[0] == 0,
            forall|j: int|
                0 <= j < i ==> #[trigger] dct_zz@[j] == want[j] && -255 <= dct_zz@[j] <= 255,
        decreases 64 - i,
    {
        let (v, u) = ZIGZAG_INVERSE_SCAN[i];
        assert(v < 8 && u < 8);
        let step = step_size(quantizer_scale, intra_quant[v as usize][u as usize]);
        dct_zz[i] = nearest(f[v as usize][u as usize], 8, step, 255);
        i += 1;
    }
    assert(dct_zz@ =~= want);
    dct_zz
}

/// The levels of an MPEG-1 non-intra block in coded order.
pub open spec fn non_intra_levels(f: [[i32; 8]; 8], scale: u8, quant: [[u8; 8]; 8]) -> Seq<i32> {
    Seq::new(
        64,
        |i: int|
            {
                let (v, u) = inverse_scan(false)[i];
                clamp_int(
                    dead_zone_level(
                        f[v as int][u as int] as int,
                        8,
                        step_of(scale, quant[v as int][u as int]),
                    ),
                    -255,
                    255,
                ) as i32
            },
    )
}

/// The levels of an MPEG-1 non-intra block in coded order.
pub fn mpeg1_forward_quantise_non_intra(
    f: &[[i32; 8]; 8],
    quantizer_scale: u8,
    non_intra_quant: &[[u8; 8]; 8],
) -> (dct_zz: [i32; 64])
    ensures
        dct_zz@ == non_intra_levels(*f, quantizer_scale, *non_intra_quant),
        mpeg1_levels(dct_zz@),
{
    let ghost want = non_intra_levels(*f, quantizer_scale, *non_intra_quant);
    let mut dct_zz = [0i32; 64];
    let mut i: usize = 0;
    while i < 64
        invariant
            i <= 64,
            want == non_intra_levels(*f, quantizer_scale, *non_intra_quant),
            forall|j: int|
                0 <= j < i ==> #[trigger] dct_zz@[j] == want[j] && -255 <= dct_zz@[j] <= 255,
        decreases 64 - i,
    {
        let (v, u) = ZIGZAG_INVERSE_SCAN[i];
        assert(v < 8 && u < 8);
        let step = step_size(quantizer_scale, non_intra_quant[v as usize][u as usize]);
        dct_zz[i] = dead_zone(f[v as usize][u as usize], 8, step, 255);
        i += 1;
    }
    assert(dct_zz@ =~= want);
    dct_zz
}

/// The level of an MPEG-2 coefficient: the DC coefficient of an intra block goes to
/// the nearest multiple of its factor in the range of the precision, other intra
/// coefficients to the nearest step, and non-intra coefficients toward zero.
pub open spec fn level_of(
    f: int,
    is_intra_dc: bool,
    coding: BlockCoding,
    weight: u8,
    scale: u8,
    dc_mult: int,
) -> int {
    if is_intra_dc {
        clamp_int(nearest_level(f, 1, dc_mult), 0, 2048int / dc_mult - 1)
    } else if coding == BlockCoding::Intra {
        clamp_int(nearest_level(f, 16, step_of(scale, weight)), -2047, 2047)
    } else {
        clamp_int(dead_zone_level(f, 16, step_of(scale, weight)), -2047, 2047)
    }
}

pub open spec fn quantised_levels(
    f: [[i32; 8]; 8],
    coding: BlockCoding,
    weight: [[u8; 8]; 8],
    scale: u8,
    dc_mult: i32,
) -> spec_fn(int, int) -> i32 {
    |v: int, u: int|
        level_of(
            f[v][u] as int,
            intra_dc_entry(v, u, coding),
            coding,
            weight[v][u],
            scale,
            dc_mult as int,
        ) as i32
}

/// The levels of an MPEG-2 block in their places.
pub open spec fn quantised_block(
    f: [[i32; 8]; 8],
    coding: BlockCoding,
    weight: [[u8; 8]; 8],
    scale: u8,
    dc_mult: i32,
) -> [[i32; 8]; 8] {
    block_of(quantised_levels(f, coding, weight, scale, dc_mult))
}

/// Whether every level is one that a block can hold.
pub open spec fn level_block_in_range(qf: [[i32; 8]; 8]) -> bool {
    forall|v: int, u: int| 0 <= v < 8 && 0 <= u < 8 ==> -2047 <= #[trigger] qf[v][u] <= 2047
}

/// The levels of an MPEG-2 block in their places.
pub fn forward_quantise_block(
    f: &[[i32; 8]; 8],
    coding: BlockCoding,
    weight: &[[u8; 8]; 8],
    quantiser_scale_value: u8,
    intra_dc_mult_value: i32,
) -> (qf: [[i32; 8]; 8])
    requires
        1 <= intra_dc_mult_value <= 8,
    ensures
        qf == quantised_block(*f, coding, *weight, quantiser_scale_value, intra_dc_mult_value),
        level_block_in_range(qf),
        coding == BlockCoding::Intra ==> 0 <= qf[0][0] <= 2048int / intra_dc_mult_value as int - 1,
{
    let ghost want = quantised_levels(
        *f,
        coding,
        *weight,
        quantiser_scale_value,
        intra_dc_mult_value,
    );
    let max_dc: i32 = 2048 / intra_dc_mult_value - 1;
    assert(0 <= max_dc <= 2047) by (nonlinear_arith)
        requires
            1 <= intra_dc_mult_value <= 8,
            max_dc == 2048int / intra_dc_mult_value as int - 1,
    ;
    let mut qf = [[0i32; 8]; 8];
    let mut v: usize = 0;
    while v < 8
        invariant
            v <= 8,
            1 <= intra_dc_mult_value <= 8,
            max_dc == 2048int / intra_dc_mult_value as int - 1,
            0 <= max_dc <= 2047,
            want == quantised_levels(
                *f,
                coding,
                *weight,
                quantiser_scale_value,
                intra_dc_mult_value,
            ),
            forall|a: int, b: int|
                0 <= a < v && 0 <= b < 8 ==> #[trigger] qf[a][b] == want(a, b) && -2047 <= qf[a][b]
                    <= 2047,
            v > 0 && coding == BlockCoding::Intra ==> 0 <= qf[0][0] <= max_dc,
        decreases 8 - v,
    {
        let mut u: usize = 0;
        while u < 8
            invariant
                u <= 8,
                v < 8,
                1 <= intra_dc_mult_value <= 8,
                max_dc == 2048int / intra_dc_mult_value as int - 1,
                0 <= max_dc <= 2047,
                want == quantised_levels(
                    *f,
                    coding,
                    *weight,
                    quantiser_scale_value,
                    intra_dc_mult_value,
                ),
                forall|a: int, b: int|
                    0 <= a < v && 0 <= b < 8 ==> #[trigger] qf[a][b] == want(a, b) && -2047
                        <= qf[a][b] <= 2047,
                forall|b: int|
                    0 <= b < u ==> #[trigger] qf[v as int][b] == want(v as int, b) && -2047
                        <= qf[v as int][b] <= 2047,
                (v > 0 || u > 0) && coding == BlockCoding::Intra ==> 0 <= qf[0][0] <= max_dc,
            decreases 8 - u,
        {
            let level: i32 = if v == 0 && u == 0 && coding == BlockCoding::Intra {
                let near = nearest(f[v][u], 1, intra_dc_mult_value as i64, 2047);
                if near < 0 {
                    0
                } else if near > max_dc {
                    max_dc
                } else {
                    near
                }
            } else {
                let step = step_size(quantiser_scale_value, weight[v][u]);
                match coding {
                    BlockCoding::Intra => nearest(f[v][u], 16, step, 2047),
                    BlockCoding::NonIntra => dead_zone(f[v][u], 16, step, 2047),
                }
            };
            qf[v][u] = level;
            u += 1;
        }
        v += 1;
    }
    proof {
        lemma_block_of(qf, want);
    }
    qf
}

} // verus!
