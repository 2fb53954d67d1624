//! How far a coefficient that was quantised and reconstructed is from what it was.

use crate::arith::clamp_int;
use crate::block::lemma_block_entries;
use crate::dequantize::{
    coefficient, intra_block, intra_coefficients, non_intra_block, non_intra_coefficients,
};
use crate::forward_quant::{
    dead_zone_level, intra_ac_levels, nearest_level, non_intra_levels, quantised_block,
    quantised_levels,
};
use crate::mpeg2_dequantize::{
    dequantised, dequantised_block, intra_dc_entry, law_mismatch_control, mismatch_controlled,
    reconstructed_block, saturated, saturated_block, BlockCoding,
};
use crate::mpeg2_inverse_scan::{inverse_scan, law_scan_then_inverse, scan};
use vstd::prelude::*;

verus! {

/// Whether `a` and `b` are at most `d` apart.
pub open spec fn within(a: int, b: int, d: int) -> bool {
    -d <= a - b <= d
}

/// Quotient and remainder of a division by a positive number.
proof fn lemma_quotient(x: int, d: int)
    requires
        d > 0,
    ensures
        d * (x / d) <= x < d * (x / d) + d,
        x >= 0 ==> x / d >= 0,
{
    vstd::arithmetic::div_mod::lemma_fundamental_div_mod(x, d);
    vstd::arithmetic::div_mod::lemma_mod_bound(x, d);
    if x >= 0 {
        vstd::arithmetic::div_mod::lemma_div_pos_is_pos(x, d);
    }
}

/// The level that an MPEG-1 coefficient goes to, of all levels the nearest, stands for
/// about that coefficient.
proof fn lemma_mpeg1_nearest(f: int, step: int, level: int, scale: int, quant: int)
    requires
        1 <= scale,
        1 <= quant,
        step == scale * quant,
        -2048 <= f <= 2047,
        level == (if f >= 0 {
            (8 * f + step / 2) / step
        } else {
            -((8 * (-f) + step / 2) / step)
        }),
    ensures
        16 * (f - coefficient(2 * level, scale, quant)) <= step + 32,
        -(step + 32) <= 16 * (f - coefficient(2 * level, scale, quant)),
{
    assert(step >= 1) by (nonlinear_arith)
        requires
            1 <= scale,
            1 <= quant,
            step == scale * quant,
    ;
    let m = if f >= 0 {
        f
    } else {
        -f
    };
    let q = (8 * m + step / 2) / step;
    lemma_quotient(8 * m + step / 2, step);
    assert(step * q >= 0) by (nonlinear_arith)
        requires
            step >= 1,
            q >= 0,
    ;
    assert((2 * q) * step == 2 * (step * q)) by (nonlinear_arith);
    assert((2 * (-q)) * step == -(2 * (step * q))) by (nonlinear_arith);
}

/// The same of levels toward zero, which stand for half a step more.
proof fn lemma_mpeg1_dead_zone(f: int, step: int, level: int, scale: int, quant: int)
    requires
        1 <= scale,
        1 <= quant,
        step == scale * quant,
        -2048 <= f <= 2047,
        level == (if f >= 0 {
            (8 * f) / step
        } else {
            -((8 * (-f)) / step)
        }),
    ensures
        ({
            let half_steps = if level > 0 {
                2 * level + 1
            } else if level < 0 {
                2 * level - 1
            } else {
                0
            };
            let r = coefficient(half_steps, scale, quant);
            &&& level == 0 ==> r == 0 && -step < 8 * f < step
            &&& level != 0 ==> -(step + 32) <= 16 * (f - r) <= step + 32
        }),
{
    assert(step >= 1) by (nonlinear_arith)
        requires
            1 <= scale,
            1 <= quant,
            step == scale * quant,
    ;
    let m = if f >= 0 {
        f
    } else {
        -f
    };
    let q = (8 * m) / step;
    lemma_quotient(8 * m, step);
    assert(step * q >= 0) by (nonlinear_arith)
        requires
            step >= 1,
            q >= 0,
    ;
    assert(q == 0 ==> step * q == 0) by (nonlinear_arith);
    assert((2 * q + 1) * step == 2 * (step * q) + step) by (nonlinear_arith);
    assert((2 * (-q) - 1) * step == -(2 * (step * q) + step)) by (nonlinear_arith);
    assert(0 * step == 0);
}

/// Quantising a coefficient of an MPEG-1 intra block and reconstructing it gives back
/// a value at most half a step, and two more for rounding, away: a step is an eighth
/// of the scale times the matrix entry. That is so where the level is not beyond the
/// greatest. The DC coefficient is coded apart.
pub proof fn law_mpeg1_intra_coefficient_comes_back(
    f: [[i32; 8]; 8],
    scale: u8,
    quant: [[u8; 8]; 8],
    dc_level: i32,
    dc: i32,
    v: int,
    u: int,
)
    requires
        1 <= scale,
        0 <= v < 8,
        0 <= u < 8,
        !(v == 0 && u == 0),
        1 <= quant[v][u],
        -2048 <= f[v][u] <= 2047,
        -(255 * (scale * quant[v][u])) <= 8 * f[v][u] <= 255 * (scale * quant[v][u]),
    ensures
        ({
            let levels = intra_ac_levels(f, scale, quant).update(0, dc_level);
            let r = intra_block(levels, scale, quant, dc)[v][u];
            within(16 * f[v][u], 16 * r, scale * quant[v][u] + 32)
        }),
{
    let levels = intra_ac_levels(f, scale, quant).update(0, dc_level);
    let step = scale as int * quant[v][u] as int;
    law_scan_then_inverse(false, v, u);
    let i = scan(false)[v][u] as int;
    assert(i != 0) by {
        assert(inverse_scan(false)[0] == (0u8, 0u8));
    }
    lemma_block_entries(intra_coefficients(levels, scale, quant, dc));
    assert(step >= 1) by (nonlinear_arith)
        requires
            1 <= scale,
            1 <= quant[v][u],
            step == scale as int * quant[v][u] as int,
    ;
    let m = if f[v][u] >= 0 {
        f[v][u] as int
    } else {
        -(f[v][u] as int)
    };
    let q = (8 * m + step / 2) / step;
    lemma_quotient(8 * m + step / 2, step);
    assert(q <= 255) by (nonlinear_arith)
        requires
            step * q <= 8 * m + step / 2,
            8 * m <= 255 * step,
            step >= 1,
    ;
    let level = levels[i] as int;
    assert(level == (if f[v][u] >= 0 {
        q
    } else {
        -q
    })) by {
        assert(1 * q == q && (-1) * q == -q);
        if m == 0 {
            assert(q == 0) by (nonlinear_arith)
                requires
                    step * q <= step / 2,
                    step >= 1,
                    q >= 0,
            ;
        }
        assert(0 * q == 0);
    }
    lemma_mpeg1_nearest(f[v][u] as int, step, level, scale as int, quant[v][u] as int);
}

/// Quantising a coefficient of an MPEG-1 non-intra block and reconstructing it: where
/// the level is not zero, at most half a step, and two more for rounding, is lost;
/// where it is zero, the coefficient was less than a step.
pub proof fn law_mpeg1_non_intra_coefficient_comes_back(
    f: [[i32; 8]; 8],
    scale: u8,
    quant: [[u8; 8]; 8],
    v: int,
    u: int,
)
    requires
        1 <= scale,
        0 <= v < 8,
        0 <= u < 8,
        1 <= quant[v][u],
        -2048 <= f[v][u] <= 2047,
        -(255 * (scale * quant[v][u])) <= 8 * f[v][u] <= 255 * (scale * quant[v][u]),
    ensures
        ({
            let r = non_intra_block(non_intra_levels(f, scale, quant), scale, quant)[v][u];
            let step = scale * quant[v][u];
            &&& r == 0 || within(16 * f[v][u], 16 * r, step + 32)
            &&& within(8 * f[v][u], 8 * r, step + 16)
        }),
{
    let levels = non_intra_levels(f, scale, quant);
    let step = scale as int * quant[v][u] as int;
    law_scan_then_inverse(false, v, u);
    let i = scan(false)[v][u] as int;
    lemma_block_entries(non_intra_coefficients(levels, scale, quant));
    assert(step >= 1) by (nonlinear_arith)
        requires
            1 <= scale,
            1 <= quant[v][u],
            step == scale as int * quant[v][u] as int,
    ;
    let m = if f[v][u] >= 0 {
        f[v][u] as int
    } else {
        -(f[v][u] as int)
    };
    let q = (8 * m) / step;
    lemma_quotient(8 * m, step);
    assert(q <= 255) by (nonlinear_arith)
        requires
            step * q <= 8 * m,
            8 * m <= 255 * step,
            step >= 1,
    ;
    lemma_mpeg1_dead_zone(
        f[v][u] as int,
        step,
        levels[i] as int,
        scale as int,
        quant[v][u] as int,
    );
}

/// What is lost of an MPEG-2 coefficient before saturation.
proof fn lemma_mpeg2_dequantised(f: int, step: int, level: int, weight: int, scale: int)
    requires
        1 <= scale,
        1 <= weight,
        step == scale * weight,
    ensures
        ({
            let m = if f >= 0 {
                f
            } else {
                -f
            };
            let q = (16 * m + step / 2) / step;
            let r = dequantised(level, false, BlockCoding::Intra, weight, scale, 1);
            level == (if f >= 0 {
                q
            } else {
                -q
            }) ==> within(32 * f, 32 * r, step + 32)
        }),
        ({
            let m = if f >= 0 {
                f
            } else {
                -f
            };
            let q = (16 * m) / step;
            let r = dequantised(level, false, BlockCoding::NonIntra, weight, scale, 1);
            level == (if f >= 0 {
                q
            } else {
                -q
            }) ==> {
                &&& level == 0 ==> r == 0 && -step < 16 * f < step
                &&& level != 0 ==> within(32 * f, 32 * r, step + 32)
            }
        }),
{
    assert(step >= 1) by (nonlinear_arith)
        requires
            1 <= scale,
            1 <= weight,
            step == scale * weight,
    ;
    let m = if f >= 0 {
        f
    } else {
        -f
    };
    let near = (16 * m + step / 2) / step;
    let below = (16 * m) / step;
    lemma_quotient(16 * m + step / 2, step);
    lemma_quotient(16 * m, step);
    assert(step * near >= 0 && step * below >= 0) by (nonlinear_arith)
        requires
            step >= 1,
            near >= 0,
            below >= 0,
    ;
    assert(((2 * near) * weight) * scale == 2 * (step * near)) by (nonlinear_arith)
        requires
            step == scale * weight,
    ;
    assert(((2 * (-near)) * weight) * scale == -(2 * (step * near))) by (nonlinear_arith)
        requires
            step == scale * weight,
    ;
    assert(((2 * below + 1) * weight) * scale == 2 * (step * below) + step) by (nonlinear_arith)
        requires
            step == scale * weight,
    ;
    assert(((2 * (-below) - 1) * weight) * scale == -(2 * (step * below) + step))
        by (nonlinear_arith)
        requires
            step == scale * weight,
    ;
    assert((0 * weight) * scale == 0) by (nonlinear_arith);
    assert(below == 0 ==> step * below == 0) by (nonlinear_arith);
    assert(near == 0 ==> step * near == 0) by (nonlinear_arith);
}

/// What is left of a coefficient after saturation and mismatch control.
proof fn lemma_controlled(d: [[i32; 8]; 8], f: int, v: int, u: int, bound: int)
    requires
        0 <= v < 8,
        0 <= u < 8,
        -2048 <= f <= 2047,
        within(32 * f, 32 * d[v][u], bound),
    ensures
        within(32 * f, 32 * mismatch_controlled(d)[v][u], bound + (if v == 7 && u == 7 {
            32int
        } else {
            0int
        })),
{
    law_mismatch_control(d);
    lemma_block_entries(|v: int, u: int| saturated(d[v][u] as int) as i32);
    let g = saturated_block(d);
    assert(g[v][u] == saturated(d[v][u] as int));
    if v == 7 && u == 7 {
        lemma_block_entries(
            |v: int, u: int|
                if v == 7 && u == 7 {
                    crate::mpeg2_dequantize::low_bit_toggled(g[7][7] as int) as i32
                } else {
                    g[v][u]
                },
        );
    }
}

/// Quantising a coefficient of an MPEG-2 block and reconstructing it, with saturation
/// and mismatch control, gives back about what it was. A step is a sixteenth of the
/// scale times the weight. An intra coefficient loses at most half a step, a non-intra
/// one too unless its level is zero, in which case it was less than a step; up to one
/// more is lost by rounding, and at the last place one more by mismatch control. The DC
/// coefficient of an intra block comes back to the nearest multiple of its factor. That
/// is so where the level is not beyond the greatest.
pub proof fn law_mpeg2_coefficient_comes_back(
    f: [[i32; 8]; 8],
    coding: BlockCoding,
    weight: [[u8; 8]; 8],
    scale: u8,
    dc_mult: i32,
    v: int,
    u: int,
)
    requires
        1 <= scale,
        0 <= v < 8,
        0 <= u < 8,
        1 <= weight[v][u],
        -2048 <= f[v][u] <= 2047,
        1 <= dc_mult <= 8,
        if v == 0 && u == 0 && coding == BlockCoding::Intra {
            0 <= f[0][0] <= dc_mult * (2048int / dc_mult as int - 1)
        } else {
            -(2047 * (scale * weight[v][u])) <= 16 * f[v][u] <= 2047 * (scale * weight[v][u])
        },
    ensures
        ({
            let r = reconstructed_block(
                quantised_block(f, coding, weight, scale, dc_mult),
                coding,
                weight,
                scale,
                dc_mult,
            )[v][u];
            let step = scale * weight[v][u];
            let control: int = if v == 7 && u == 7 {
                32
            } else {
                0
            };
            if v == 0 && u == 0 && coding == BlockCoding::Intra {
                within(2 * f[v][u], 2 * r, dc_mult as int)
            } else if coding == BlockCoding::Intra {
                within(32 * f[v][u], 32 * r, step + 32 + control)
            } else {
                &&& within(32 * f[v][u], 32 * r, 2 * step + 32 + control)
                &&& r < -1 || r > 1 ==> within(32 * f[v][u], 32 * r, step + 32 + control)
            }
        }),
{
    let qf = quantised_block(f, coding, weight, scale, dc_mult);
    let d = dequantised_block(qf, coding, weight, scale, dc_mult);
    let is_dc = intra_dc_entry(v, u, coding);
    let x = f[v][u] as int;
    let step = scale as int * weight[v][u] as int;
    lemma_block_entries(quantised_levels(f, coding, weight, scale, dc_mult));
    lemma_block_entries(
        |v: int, u: int|
            dequantised(
                qf[v][u] as int,
                intra_dc_entry(v, u, coding),
                coding,
                weight[v][u] as int,
                scale as int,
                dc_mult as int,
            ) as i32,
    );
    assert(step >= 1) by (nonlinear_arith)
        requires
            1 <= scale,
            1 <= weight[v][u],
            step == scale as int * weight[v][u] as int,
    ;
    let m = if x >= 0 {
        x
    } else {
        -x
    };
    if is_dc {
        let k = dc_mult as int;
        let q = (x + k / 2) / k;
        let top = 2048int / k - 1;
        lemma_quotient(x + k / 2, k);
        lemma_quotient(2048, k);
        assert(q <= top) by (nonlinear_arith)
            requires
                k * q <= x + k / 2,
                x <= k * top,
                1 <= k,
        ;
        assert(q >= 0);
        assert(1 * x == x);
        if x == 0 {
            assert(q == 0) by (nonlinear_arith)
                requires
                    k * q <= k / 2,
                    k >= 1,
                    q >= 0,
            ;
        }
        assert(qf[0][0] == q);
        assert(0 <= k * q <= 2048) by (nonlinear_arith)
            requires
                1 <= k,
                0 <= q <= top,
                k * (top + 1) <= 2048,
        ;
        assert(d[0][0] == k * q);
        law_mismatch_control(d);
        assert(k * q <= 2047) by (nonlinear_arith)
            requires
                1 <= k,
                0 <= q <= top,
                k * (top + 1) <= 2048,
        ;
    } else {
        let near = (16 * m + step / 2) / step;
        let below = (16 * m) / step;
        lemma_quotient(16 * m + step / 2, step);
        lemma_quotient(16 * m, step);
        assert(near <= 2047 && below <= 2047) by (nonlinear_arith)
            requires
                step * near <= 16 * m + step / 2,
                step * below <= 16 * m,
                16 * m <= 2047 * step,
                step >= 1,
        ;
        if m == 0 {
            assert(near == 0) by (nonlinear_arith)
                requires
                    step * near <= step / 2,
                    step >= 1,
                    near >= 0,
            ;
        }
        let level = qf[v][u] as int;
        assert(1 * near == near && (-1) * near == -near && 0 * near == 0);
        assert(coding == BlockCoding::Intra ==> level == (if x >= 0 {
            near
        } else {
            -near
        }));
        assert(coding == BlockCoding::NonIntra ==> level == (if x >= 0 {
            below
        } else {
            -below
        }));
        assert(step <= 255 * 255) by (nonlinear_arith)
            requires
                step == scale as int * weight[v][u] as int,
                scale <= 255,
                weight[v][u] <= 255,
        ;
        lemma_mpeg2_dequantised(x, step, level, weight[v][u] as int, scale as int);
        let r = dequantised(level, false, coding, weight[v][u] as int, scale as int, 1);
        let bound = if coding == BlockCoding::Intra || level != 0 {
            step + 32
        } else {
            2 * step + 32
        };
        assert(within(32 * x, 32 * r, bound));
        assert(-0x10_0000 <= r <= 0x10_0000) by (nonlinear_arith)
            requires
                within(32 * x, 32 * r, bound),
                -2048 <= x <= 2047,
                bound <= 2 * step + 32,
                step <= 255 * 255,
        ;
        assert(d[v][u] == r);
        lemma_controlled(d, x, v, u, bound);
        law_mismatch_control(d);
        if level == 0 && coding == BlockCoding::NonIntra {
            lemma_block_entries(|v: int, u: int| saturated(d[v][u] as int) as i32);
            let g = saturated_block(d);
            lemma_block_entries(
                |v: int, u: int|
                    if v == 7 && u == 7 {
                        crate::mpeg2_dequantize::low_bit_toggled(g[7][7] as int) as i32
                    } else {
                        g[v][u]
                    },
            );
        }
    }
}

/// A non-intra coefficient of an MPEG-2 block whose level is zero was less than a step.
pub proof fn law_mpeg2_zero_level_was_small(
    f: [[i32; 8]; 8],
    weight: [[u8; 8]; 8],
    scale: u8,
    dc_mult: i32,
    v: int,
    u: int,
)
    requires
        1 <= scale,
        0 <= v < 8,
        0 <= u < 8,
        1 <= weight[v][u],
        quantised_block(f, BlockCoding::NonIntra, weight, scale, dc_mult)[v][u] == 0,
    ensures
        -(scale * weight[v][u]) < 16 * f[v][u] < scale * weight[v][u],
{
    let step = scale as int * weight[v][u] as int;
    lemma_block_entries(quantised_levels(f, BlockCoding::NonIntra, weight, scale, dc_mult));
    assert(step >= 1) by (nonlinear_arith)
        requires
            1 <= scale,
            1 <= weight[v][u],
            step == scale as int * weight[v][u] as int,
    ;
    let m = if f[v][u] >= 0 {
        f[v][u] as int
    } else {
        -(f[v][u] as int)
    };
    let q = (16 * m) / step;
    lemma_quotient(16 * m, step);
    assert(q == 0 ==> step * q == 0) by (nonlinear_arith);
}

/// An MPEG-1 coefficient is its level times the step, cut down to an odd number: two
/// sixteenths of scale times matrix entry for each unit of an intra level, and one
/// sixteenth more for a non-intra level that is not zero. It has the sign of its level,
/// and is less than two below that product.
pub proof fn law_mpeg1_level_stands_for_steps(
    levels: Seq<i32>,
    scale: u8,
    quant: [[u8; 8]; 8],
    dc: i32,
    v: int,
    u: int,
)
    requires
        0 <= v < 8,
        0 <= u < 8,
        !(v == 0 && u == 0),
    ensures
        ({
            let z = levels[scan(false)[v][u] as int] as int;
            let size = if z < 0 {
                -z
            } else {
                z
            };
            let step = scale as int * quant[v][u] as int;
            let intra = intra_block(levels, scale, quant, dc)[v][u] as int;
            let other = non_intra_block(levels, scale, quant)[v][u] as int;
            &&& z == 0 ==> intra == 0 && other == 0
            &&& 2 * (size * step) <= 16 * 2047 && z > 0 ==> 0 <= 2 * (size * step) - 16 * intra < 32
            &&& 2 * (size * step) <= 16 * 2047 && z < 0 ==> 0 <= 2 * (size * step) + 16 * intra < 32
            &&& 2 * (size * step) + step <= 16 * 2047 && z > 0 ==> 0 <= 2 * (size * step) + step
                - 16 * other < 32
            &&& 2 * (size * step) + step <= 16 * 2047 && z < 0 ==> 0 <= 2 * (size * step) + step
                + 16 * other < 32
        }),
{
    let i = scan(false)[v][u] as int;
    let z = levels[i] as int;
    let size = if z < 0 {
        -z
    } else {
        z
    };
    let step = scale as int * quant[v][u] as int;
    lemma_block_entries(intra_coefficients(levels, scale, quant, dc));
    lemma_block_entries(non_intra_coefficients(levels, scale, quant));
    assert(size * step >= 0 && step >= 0) by (nonlinear_arith)
        requires
            size >= 0,
            step == scale as int * quant[v][u] as int,
            scale >= 0,
            quant[v][u] >= 0,
    ;
    assert((2 * size) * step == 2 * (size * step)) by (nonlinear_arith);
    assert((2 * (-size)) * step == -(2 * (size * step))) by (nonlinear_arith);
    assert((2 * size + 1) * step == 2 * (size * step) + step) by (nonlinear_arith);
    assert((2 * (-size) - 1) * step == -(2 * (size * step) + step)) by (nonlinear_arith);
    assert(0 * step == 0);
}

/// An MPEG-2 coefficient before saturation is its level times the step, cut down: a
/// sixteenth of scale times weight for each unit of a level, and half as much more for a
/// non-intra level that is not zero. It has the sign of its level, and is less than one
/// below that product.
pub proof fn law_mpeg2_level_stands_for_steps(
    q: int,
    coding: BlockCoding,
    weight: int,
    scale: int,
    dc_mult: int,
)
    requires
        0 <= weight,
        0 <= scale,
    ensures
        ({
            let size = if q < 0 {
                -q
            } else {
                q
            };
            let step = weight * scale;
            let more = if coding == BlockCoding::NonIntra && q != 0 {
                step
            } else {
                0
            };
            let r = dequantised(q, false, coding, weight, scale, dc_mult);
            &&& q >= 0 ==> 0 <= 2 * (size * step) + more - 32 * r < 32
            &&& q < 0 ==> 0 <= 2 * (size * step) + more + 32 * r < 32
            &&& dequantised(q, true, coding, weight, scale, dc_mult) == dc_mult * q
        }),
{
    let size = if q < 0 {
        -q
    } else {
        q
    };
    let step = weight * scale;
    assert(size * step >= 0 && step >= 0) by (nonlinear_arith)
        requires
            size >= 0,
            step == weight * scale,
            0 <= weight,
            0 <= scale,
    ;
    assert(((2 * size) * weight) * scale == 2 * (size * step)) by (nonlinear_arith)
        requires
            step == weight * scale,
    ;
    assert(((2 * (-size)) * weight) * scale == -(2 * (size * step))) by (nonlinear_arith)
        requires
            step == weight * scale,
    ;
    assert(((2 * size + 1) * weight) * scale == 2 * (size * step) + step) by (nonlinear_arith)
        requires
            step == weight * scale,
    ;
    assert(((2 * (-size) - 1) * weight) * scale == -(2 * (size * step) + step))
        by (nonlinear_arith)
        requires
            step == weight * scale,
    ;
    assert((0 * weight) * scale == 0) by (nonlinear_arith);
}

/// Whether a level is as many whole steps as fit between zero and a coefficient, of which
/// `parts` make up one, or `limit` where more than that fit. It has the coefficient's
/// sign.
pub open spec fn whole_steps(level: int, f: int, parts: int, step: int, limit: int) -> bool {
    let size = if level < 0 {
        -level
    } else {
        level
    };
    let m = if f < 0 {
        -f
    } else {
        f
    };
    &&& size <= limit
    &&& level > 0 ==> f > 0
    &&& level < 0 ==> f < 0
    &&& size * step <= parts * m
    &&& size < limit ==> parts * m < (size + 1) * step
}

/// Whether a level is the nearest number of steps to a coefficient, or `limit` where that
/// is more. Of two that are as near, it is the one further from zero.
pub open spec fn nearest_steps(level: int, f: int, parts: int, step: int, limit: int) -> bool {
    let size = if level < 0 {
        -level
    } else {
        level
    };
    let m = if f < 0 {
        -f
    } else {
        f
    };
    &&& size <= limit
    &&& level > 0 ==> f > 0
    &&& level < 0 ==> f < 0
    &&& 2 * (size * step) <= 2 * (parts * m) + step
    &&& size < limit ==> 2 * (parts * m) + step < 2 * ((size + 1) * step)
}

proof fn lemma_whole_steps(f: int, parts: int, step: int, limit: int)
    requires
        1 <= step,
        1 <= parts,
        0 <= limit,
    ensures
        whole_steps(
            clamp_int(dead_zone_level(f, parts, step), -limit, limit),
            f,
            parts,
            step,
            limit,
        ),
{
    let m = if f < 0 {
        -f
    } else {
        f
    };
    let q = (parts * m) / step;
    assert(parts * m >= 0) by (nonlinear_arith)
        requires
            m >= 0,
            parts >= 1,
    ;
    assert(parts * (-m) == -(parts * m)) by (nonlinear_arith);
    assert(m > 0 ==> parts * m > 0) by (nonlinear_arith)
        requires
            parts >= 1,
    ;
    lemma_quotient(parts * m, step);
    assert(f == 0 ==> parts * m == 0) by (nonlinear_arith)
        requires
            f == 0 ==> m == 0,
    ;
    assert(parts * m == 0 ==> q == 0) by (nonlinear_arith)
        requires
            step * q <= parts * m,
            step >= 1,
            q >= 0,
    ;
    let level = dead_zone_level(f, parts, step);
    assert(level == (if f < 0 {
        -q
    } else {
        q
    }));
    let size = if q > limit {
        limit
    } else {
        q
    };
    assert(size * step <= parts * m) by (nonlinear_arith)
        requires
            step * q <= parts * m,
            0 <= size <= q,
            step >= 1,
    ;
    assert((q + 1) * step == step * q + step) by (nonlinear_arith);
}

proof fn lemma_nearest_steps(f: int, parts: int, step: int, limit: int)
    requires
        1 <= step,
        1 <= parts,
        0 <= limit,
    ensures
        nearest_steps(
            clamp_int(nearest_level(f, parts, step), -limit, limit),
            f,
            parts,
            step,
            limit,
        ),
{
    let m = if f < 0 {
        -f
    } else {
        f
    };
    let total = parts * m + step / 2;
    let q = total / step;
    assert(parts * m >= 0) by (nonlinear_arith)
        requires
            m >= 0,
            parts >= 1,
    ;
    lemma_quotient(total, step);
    assert(f == 0 ==> parts * m == 0) by (nonlinear_arith)
        requires
            f == 0 ==> m == 0,
    ;
    assert(f == 0 ==> q == 0) by (nonlinear_arith)
        requires
            step * q <= total,
            f == 0 ==> total <= step / 2,
            step >= 1,
            q >= 0,
    ;
    let level = nearest_level(f, parts, step);
    assert(1 * q == q && (-1) * q == -q && 0 * q == 0);
    assert(level == (if f < 0 {
        -q
    } else {
        q
    }));
    let size = if q > limit {
        limit
    } else {
        q
    };
    assert(size * step <= total) by (nonlinear_arith)
        requires
            step * q <= total,
            0 <= size <= q,
            step >= 1,
    ;
    assert((q + 1) * step == step * q + step) by (nonlinear_arith);
    // An even and an odd number are never equal: the half that was cut off decides
    // nothing.
    assert((2 * (q + 1)) * step == 2 * ((q + 1) * step)) by (nonlinear_arith);
    let k = parts * m;
    assert(2 * k + step < 2 * ((q + 1) * step)) by {
        assert(k + step / 2 + 1 <= (q + 1) * step);
    }
}

/// The levels of an MPEG-1 block are eighths of a coefficient's steps, at most 255 of
/// them: the nearest number of an intra coefficient other than DC, the whole ones of a
/// non-intra coefficient. A step is scale times matrix entry.
pub proof fn law_mpeg1_levels_count_steps(
    f: [[i32; 8]; 8],
    scale: u8,
    quant: [[u8; 8]; 8],
    v: int,
    u: int,
)
    requires
        1 <= scale,
        0 <= v < 8,
        0 <= u < 8,
        1 <= quant[v][u],
    ensures
        ({
            let i = scan(false)[v][u] as int;
            let step = scale as int * quant[v][u] as int;
            &&& !(v == 0 && u == 0) ==> nearest_steps(
                intra_ac_levels(f, scale, quant)[i] as int,
                f[v][u] as int,
                8,
                step,
                255,
            )
            &&& whole_steps(
                non_intra_levels(f, scale, quant)[i] as int,
                f[v][u] as int,
                8,
                step,
                255,
            )
        }),
{
    let step = scale as int * quant[v][u] as int;
    assert(step >= 1) by (nonlinear_arith)
        requires
            1 <= scale,
            1 <= quant[v][u],
            step == scale as int * quant[v][u] as int,
    ;
    law_scan_then_inverse(false, v, u);
    let i = scan(false)[v][u] as int;
    assert(inverse_scan(false)[0] == (0u8, 0u8));
    lemma_whole_steps(f[v][u] as int, 8, step, 255);
    lemma_nearest_steps(f[v][u] as int, 8, step, 255);
}

/// The levels of an MPEG-2 block are sixteenths of a coefficient's steps, at most 2047 of
/// them: the nearest number of an intra coefficient, the whole ones of a non-intra
/// coefficient. That of an intra DC coefficient is the nearest number of its factor, from
/// 0 to as many as lie below 2048.
pub proof fn law_mpeg2_levels_count_steps(
    f: [[i32; 8]; 8],
    coding: BlockCoding,
    weight: [[u8; 8]; 8],
    scale: u8,
    dc_mult: i32,
    v: int,
    u: int,
)
    requires
        1 <= scale,
        0 <= v < 8,
        0 <= u < 8,
        1 <= weight[v][u],
        1 <= dc_mult <= 8,
    ensures
        ({
            let level = quantised_block(f, coding, weight, scale, dc_mult)[v][u] as int;
            let step = scale as int * weight[v][u] as int;
            let x = f[v][u] as int;
            if coding == BlockCoding::NonIntra {
                whole_steps(level, x, 16, step, 2047)
            } else if v == 0 && u == 0 {
                &&& x <= 0 ==> level == 0
                &&& x > 0 ==> nearest_steps(
                    level,
                    x,
                    1,
                    dc_mult as int,
                    2048int / dc_mult as int - 1,
                )
            } else {
                nearest_steps(level, x, 16, step, 2047)
            }
        }),
{
    let step = scale as int * weight[v][u] as int;
    let x = f[v][u] as int;
    assert(step >= 1) by (nonlinear_arith)
        requires
            1 <= scale,
            1 <= weight[v][u],
            step == scale as int * weight[v][u] as int,
    ;
    lemma_block_entries(quantised_levels(f, coding, weight, scale, dc_mult));
    if coding == BlockCoding::NonIntra {
        lemma_whole_steps(x, 16, step, 2047);
    } else if v == 0 && u == 0 {
        let k = dc_mult as int;
        let top = 2048int / k - 1;
        lemma_quotient(2048, k);
        assert(top >= 0) by (nonlinear_arith)
            requires
                2048 < k * (2048int / k) + k,
                1 <= k <= 8,
                top == 2048int / k - 1,
        ;
        assert(top <= 2047) by (nonlinear_arith)
            requires
                k * (2048int / k) <= 2048,
                1 <= k,
                top == 2048int / k - 1,
        ;
        lemma_nearest_steps(x, 1, k, top);
    } else {
        lemma_nearest_steps(x, 16, step, 2047);
    }
}

/// The DC coefficient of an MPEG-1 intra block comes back at most 4 away: the difference
/// that is coded counts eighths from the last coefficient of the component. That is so
/// where the difference is not beyond the greatest.
pub proof fn law_mpeg1_dc_comes_back(f: int, last: int)
    requires
        0 <= f,
        0 <= last,
        last % 8 == 0,
        -2040 <= f - last < 2044,
    ensures
        within(f, last + 8 * crate::mpeg1_encoder::dc_difference(f, last), 4),
        last + 8 * crate::mpeg1_encoder::dc_difference(f, last) >= 0,
{
}

} // verus!
