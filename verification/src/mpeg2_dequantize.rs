//! Inverse quantisation: weighting, saturation and mismatch control.

use crate::arith::{clamp_int, is_odd_i32, trunc_div, trunc_div_i32};
use crate::block::{block_of, lemma_block_entries, lemma_block_of};
use crate::error::{Error, Result};
use crate::picture::ChromaFormat;
use crate::picture_header::PictureCodingExtension;
use vstd::prelude::*;

verus! {

pub const ERR_DC_PRECISION_MULT: &'static str =
    "intra_dc_precision: only the 2-bit values 0..=3 are defined (Table 7-4)";

pub const ERR_SCALE_CODE_ZERO: &'static str = "quantiser_scale_code: code 0 is forbidden (Table 7-6)";

pub const ERR_SCALE_CODE_WIDE: &'static str =
    "quantiser_scale_code: code exceeds the 5-bit range (Table 7-6)";

/// The factor of the intra DC coefficient: 8, 4, 2 and 1 for precisions of 8 to
/// 11 bits.
pub open spec fn dc_mult_of(intra_dc_precision: u8) -> Option<int> {
    if intra_dc_precision == 0 {
        Some(8)
    } else if intra_dc_precision == 1 {
        Some(4)
    } else if intra_dc_precision == 2 {
        Some(2)
    } else if intra_dc_precision == 3 {
        Some(1)
    } else {
        None
    }
}

/// The factor of the intra DC coefficient.
pub fn intra_dc_mult(intra_dc_precision: u8) -> (res: Result<i32>)
    ensures
        match dc_mult_of(intra_dc_precision) {
            Some(m) => res == Ok::<i32, Error>(m as i32),
            None => res == Err::<i32, Error>(Error::InvalidBitstream(ERR_DC_PRECISION_MULT)),
        },
{
    match intra_dc_precision {
        0 => Ok(8),
        1 => Ok(4),
        2 => Ok(2),
        3 => Ok(1),
        _ => Err(Error::InvalidBitstream(ERR_DC_PRECISION_MULT)),
    }
}

/// The factor of the intra DC coefficient in the pictures of an extension.
pub fn intra_dc_mult_from_extension(ext: &PictureCodingExtension) -> (res: Result<i32>)
    ensures
        match dc_mult_of(ext.intra_dc_precision) {
            Some(m) => res == Ok::<i32, Error>(m as i32),
            None => res == Err::<i32, Error>(Error::InvalidBitstream(ERR_DC_PRECISION_MULT)),
        },
{
    intra_dc_mult(ext.intra_dc_precision)
}

/// The default weights of intra blocks.
pub const DEFAULT_INTRA_WEIGHT: [[u8; 8]; 8] = [
    [8, 16, 19, 22, 26, 27, 29, 34],
    [16, 16, 22, 24, 27, 29, 34, 37],
    [19, 22, 26, 27, 29, 34, 34, 38],
    [22, 22, 26, 27, 29, 34, 37, 40],
    [22, 26, 27, 29, 32, 35, 40, 48],
    [26, 27, 29, 32, 35, 40, 48, 58],
    [26, 27, 29, 34, 38, 46, 56, 69],
    [27, 29, 35, 38, 46, 56, 69, 83],
];

/// The default weights of non-intra blocks.
pub const DEFAULT_NON_INTRA_WEIGHT: [[u8; 8]; 8] = [
    [16, 16, 16, 16, 16, 16, 16, 16],
    [16, 16, 16, 16, 16, 16, 16, 16],
    [16, 16, 16, 16, 16, 16, 16, 16],
    [16, 16, 16, 16, 16, 16, 16, 16],
    [16, 16, 16, 16, 16, 16, 16, 16],
    [16, 16, 16, 16, 16, 16, 16, 16],
    [16, 16, 16, 16, 16, 16, 16, 16],
    [16, 16, 16, 16, 16, 16, 16, 16],
];

/// Whether a block belongs to an intra macroblock.
#[derive(Debug, Clone, Copy, PartialEq, Eq, Structural)]
pub enum BlockCoding {
    Intra,
    NonIntra,
}

/// Whether a block codes luminance or chrominance.
#[derive(Debug, Clone, Copy, PartialEq, Eq, Structural)]
pub enum Component {
    Luminance,
    Chrominance,
}

/// The weighting matrix of a block: intra or not, and a matrix of its own for
/// chrominance unless the format is 4:2:0.
pub open spec fn weight_index(
    coding: BlockCoding,
    component: Component,
    chroma_format: ChromaFormat,
) -> int {
    (if coding == BlockCoding::Intra {
        0int
    } else {
        1int
    }) + (if component == Component::Chrominance && chroma_format != ChromaFormat::Yuv420 {
        2int
    } else {
        0int
    })
}

/// The index of the weighting matrix of a block.
pub fn select_weighting_matrix_index(
    coding: BlockCoding,
    component: Component,
    chroma_format: ChromaFormat,
) -> (w: u8)
    ensures
        w == weight_index(coding, component, chroma_format),
        w < 4,
{
    match (coding, component, chroma_format) {
        (BlockCoding::Intra, _, ChromaFormat::Yuv420) => 0,
        (BlockCoding::NonIntra, _, ChromaFormat::Yuv420) => 1,
        (BlockCoding::Intra, Component::Luminance, _) => 0,
        (BlockCoding::NonIntra, Component::Luminance, _) => 1,
        (BlockCoding::Intra, Component::Chrominance, _) => 2,
        (BlockCoding::NonIntra, Component::Chrominance, _) => 3,
    }
}

/// The quantiser scale of each code where the scale is linear; code 0 has none.
pub const QUANTISER_SCALE_LINEAR: [u8; 32] = [
    0, 2, 4, 6, 8, 10, 12, 14, 16, 18, 20, 22, 24, 26, 28, 30, 32, 34, 36, 38, 40, 42, 44, 46, 48,
    50, 52, 54, 56, 58, 60, 62,
];

/// The quantiser scale of each code where the scale is not linear; code 0 has
/// none.
pub const QUANTISER_SCALE_NONLINEAR: [u8; 32] = [
    0, 1, 2, 3, 4, 5, 6, 7, 8, 10, 12, 14, 16, 18, 20, 22, 24, 28, 32, 36, 40, 44, 48, 52, 56, 64,
    72, 80, 88, 96, 104, 112,
];

/// The quantiser scale of a code.
pub open spec fn scale_of(code: u8, q_scale_type: bool) -> Result<u8> {
    if code == 0 {
        Err(Error::InvalidBitstream(ERR_SCALE_CODE_ZERO))
    } else if code > 31 {
        Err(Error::InvalidBitstream(ERR_SCALE_CODE_WIDE))
    } else if q_scale_type {
        Ok(QUANTISER_SCALE_NONLINEAR[code as int])
    } else {
        Ok(QUANTISER_SCALE_LINEAR[code as int])
    }
}

/// The quantiser scale of a code.
pub fn quantiser_scale(quantiser_scale_code: u8, q_scale_type: bool) -> (res: Result<u8>)
    ensures
        res == scale_of(quantiser_scale_code, q_scale_type),
{
    if quantiser_scale_code == 0 {
        return Err(Error::InvalidBitstream(ERR_SCALE_CODE_ZERO));
    }
    if quantiser_scale_code > 31 {
        return Err(Error::InvalidBitstream(ERR_SCALE_CODE_WIDE));
    }
    if q_scale_type {
        Ok(QUANTISER_SCALE_NONLINEAR[quantiser_scale_code as usize])
    } else {
        Ok(QUANTISER_SCALE_LINEAR[quantiser_scale_code as usize])
    }
}

/// The linear scale is twice the code; both scales are positive, grow with the
/// code and stay within 112.
pub proof fn law_quantiser_scale(a: u8, b: u8, q_scale_type: bool)
    requires
        1 <= a <= b <= 31,
    ensures
        scale_of(a, false) == Ok::<u8, Error>((2 * a) as u8),
        scale_of(a, q_scale_type) is Ok,
        1 <= scale_of(a, q_scale_type)->Ok_0 <= scale_of(b, q_scale_type)->Ok_0 <= 112,
        a < b ==> scale_of(a, q_scale_type)->Ok_0 < scale_of(b, q_scale_type)->Ok_0,
{
}

/// The least coefficient after saturation.
pub const F_SATURATION_MIN: i32 = -2048;

/// The greatest coefficient after saturation.
pub const F_SATURATION_MAX: i32 = 2047;

pub open spec fn sign_of(x: int) -> int {
    if x < 0 {
        -1
    } else if x > 0 {
        1
    } else {
        0
    }
}

/// -1, 0 or 1 as `x` is negative, zero or positive.
pub fn sign(x: i32) -> (r: i32)
    ensures
        r == sign_of(x as int),
{
    if x < 0 {
        -1
    } else if x == 0 {
        0
    } else {
        1
    }
}

pub open spec fn saturated(x: int) -> int {
    clamp_int(x, F_SATURATION_MIN as int, F_SATURATION_MAX as int)
}

/// `x` brought into the range from -2048 to 2047.
pub fn saturate(x: i32) -> (r: i32)
    ensures
        r == saturated(x as int),
{
    if x < F_SATURATION_MIN {
        F_SATURATION_MIN
    } else if x > F_SATURATION_MAX {
        F_SATURATION_MAX
    } else {
        x
    }
}

/// The odd multiple of half a step that a level stands for: a non-intra level is
/// moved half a step away from zero.
pub open spec fn half_steps(q: int, coding: BlockCoding) -> int {
    2 * q + (if coding == BlockCoding::Intra {
        0
    } else {
        sign_of(q)
    })
}

/// One reconstructed coefficient before saturation.
pub open spec fn dequantised(
    q: int,
    is_intra_dc: bool,
    coding: BlockCoding,
    weight: int,
    scale: int,
    dc_mult: int,
) -> int {
    if is_intra_dc {
        dc_mult * q
    } else {
        trunc_div((half_steps(q, coding) * weight) * scale, 32)
    }
}

/// Whether every product that a coefficient needs fits 32 bits.
pub open spec fn products_fit(
    q: int,
    is_intra_dc: bool,
    coding: BlockCoding,
    weight: int,
    scale: int,
    dc_mult: int,
) -> bool {
    if is_intra_dc {
        i32::MIN <= dc_mult * q <= i32::MAX
    } else {
        let h = half_steps(q, coding);
        &&& i32::MIN <= 2 * q <= i32::MAX
        &&& i32::MIN <= h <= i32::MAX
        &&& i32::MIN <= h * weight <= i32::MAX
        &&& i32::MIN <= (h * weight) * scale <= i32::MAX
    }
}

/// Whether the entry in row `v` and column `u` is the DC coefficient of an intra
/// block.
pub open spec fn intra_dc_entry(v: int, u: int, coding: BlockCoding) -> bool {
    v == 0 && u == 0 && coding == BlockCoding::Intra
}

/// Whether every product that a block needs fits 32 bits.
pub open spec fn block_products_fit(
    qf: [[i32; 8]; 8],
    coding: BlockCoding,
    weight: [[u8; 8]; 8],
    scale: u8,
    dc_mult: i32,
) -> bool {
    forall|v: int, u: int|
        #![trigger qf[v][u]]
        0 <= v < 8 && 0 <= u < 8 ==> products_fit(
            qf[v][u] as int,
            intra_dc_entry(v, u, coding),
            coding,
            weight[v][u] as int,
            scale as int,
            dc_mult as int,
        )
}

/// The reconstructed block before saturation.
pub open spec fn dequantised_block(
    qf: [[i32; 8]; 8],
    coding: BlockCoding,
    weight: [[u8; 8]; 8],
    scale: u8,
    dc_mult: i32,
) -> [[i32; 8]; 8] {
    block_of(
        |v: int, u: int|
            dequantised(
                qf[v][u] as int,
                intra_dc_entry(v, u, coding),
                coding,
                weight[v][u] as int,
                scale as int,
                dc_mult as int,
            ) as i32,
    )
}

fn dequantise_one(
    q: i32,
    is_intra_dc: bool,
    coding: BlockCoding,
    weight: u8,
    scale: u8,
    dc_mult: i32,
) -> (r: i32)
    requires
        products_fit(
            q as int,
            is_intra_dc,
            coding,
            weight as int,
            scale as int,
            dc_mult as int,
        ),
    ensures
        r == dequantised(
            q as int,
            is_intra_dc,
            coding,
            weight as int,
            scale as int,
            dc_mult as int,
        ),
{
    if is_intra_dc {
        dc_mult * q
    } else {
        let k: i32 = match coding {
            BlockCoding::Intra => 0,
            BlockCoding::NonIntra => sign(q),
        };
        let h: i32 = 2 * q + k;
        let hw: i32 = h * (weight as i32);
        trunc_div_i32(hw * (scale as i32), 32)
    }
}

/// Reconstructs a block up to, but without, saturation and mismatch control.
pub fn inverse_quantise_arithmetic(
    qf: &[[i32; 8]; 8],
    coding: BlockCoding,
    weight: &[[u8; 8]; 8],
    quantiser_scale_value: u8,
    intra_dc_mult_value: i32,
) -> (f: [[i32; 8]; 8])
    requires
        block_products_fit(*qf, coding, *weight, quantiser_scale_value, intra_dc_mult_value),
    ensures
        f == dequantised_block(*qf, coding, *weight, quantiser_scale_value, intra_dc_mult_value),
{
    let ghost want = |v: int, u: int|
        dequantised(
            qf[v][u] as int,
            intra_dc_entry(v, u, coding),
            coding,
            weight[v][u] as int,
            quantiser_scale_value as int,
            intra_dc_mult_value as int,
        ) as i32;
    let mut f = [[0i32; 8]; 8];
    let mut v: usize = 0;
    while v < 8
        invariant
            v <= 8,
            block_products_fit(*qf, coding, *weight, quantiser_scale_value, intra_dc_mult_value),
            want == (|v: int, u: int|
                dequantised(
                    qf[v][u] as int,
                    intra_dc_entry(v, u, coding),
                    coding,
                    weight[v][u] as int,
                    quantiser_scale_value as int,
                    intra_dc_mult_value as int,
                ) as i32),
            forall|a: int, b: int| 0 <= a < v && 0 <= b < 8 ==> #[trigger] f[a][b] == want(a, b),
        decreases 8 - v,
    {
        let mut u: usize = 0;
        while u < 8
            invariant
                u <= 8,
                v < 8,
                block_products_fit(
                    *qf,
                    coding,
                    *weight,
                    quantiser_scale_value,
                    intra_dc_mult_value,
                ),
                want == (|v: int, u: int|
                    dequantised(
                        qf[v][u] as int,
                        intra_dc_entry(v, u, coding),
                        coding,
                        weight[v][u] as int,
                        quantiser_scale_value as int,
                        intra_dc_mult_value as int,
                    ) as i32),
                forall|a: int, b: int|
                    0 <= a < v && 0 <= b < 8 ==> #[trigger] f[a][b] == want(a, b),
                forall|b: int| 0 <= b < u ==> #[trigger] f[v as int][b] == want(v as int, b),
            decreases 8 - u,
        {
            let dc = v == 0 && u == 0 && coding == BlockCoding::Intra;
            let q = qf[v][u];
            assert(products_fit(
                qf[v as int][u as int] as int,
                intra_dc_entry(v as int, u as int, coding),
                coding,
                weight[v as int][u as int] as int,
                quantiser_scale_value as int,
                intra_dc_mult_value as int,
            ));
            f[v][u] = dequantise_one(
                q,
                dc,
                coding,
                weight[v][u],
                quantiser_scale_value,
                intra_dc_mult_value,
            );
            u += 1;
        }
        v += 1;
    }
    proof {
        lemma_block_of(f, want);
    }
    f
}

/// The sum of the entries of a row.
pub open spec fn row_sum(r: [i32; 8]) -> int {
    r[0] + r[1] + r[2] + r[3] + r[4] + r[5] + r[6] + r[7]
}

/// The sum of the entries of a block.
pub open spec fn block_sum(b: [[i32; 8]; 8]) -> int {
    row_sum(b[0]) + row_sum(b[1]) + row_sum(b[2]) + row_sum(b[3]) + row_sum(b[4]) + row_sum(b[5])
        + row_sum(b[6]) + row_sum(b[7])
}

/// The block with every entry saturated.
pub open spec fn saturated_block(f: [[i32; 8]; 8]) -> [[i32; 8]; 8] {
    block_of(|v: int, u: int| saturated(f[v][u] as int) as i32)
}

/// `x` with its lowest bit inverted.
pub open spec fn low_bit_toggled(x: int) -> int {
    if x % 2 == 1 {
        x - 1
    } else {
        x + 1
    }
}

/// The block whose last entry differs from that of `f` in its lowest bit.
pub open spec fn last_toggled(f: [[i32; 8]; 8]) -> [[i32; 8]; 8] {
    block_of(
        |v: int, u: int|
            if v == 7 && u == 7 {
                low_bit_toggled(f[7][7] as int) as i32
            } else {
                f[v][u]
            },
    )
}

proof fn lemma_saturated_entries(f: [[i32; 8]; 8])
    ensures
        forall|v: int, u: int|
            0 <= v < 8 && 0 <= u < 8 ==> #[trigger] saturated_block(f)[v][u] == saturated(
                f[v][u] as int,
            ),
{
    lemma_block_entries(|v: int, u: int| saturated(f[v][u] as int) as i32);
}

proof fn lemma_toggled_entries(g: [[i32; 8]; 8])
    requires
        within_saturation(g),
    ensures
        forall|v: int, u: int|
            0 <= v < 8 && 0 <= u < 8 && !(v == 7 && u == 7) ==> #[trigger] last_toggled(g)[v][u]
                == g[v][u],
        last_toggled(g)[7][7] == low_bit_toggled(g[7][7] as int),
{
    lemma_block_entries(
        |v: int, u: int|
            if v == 7 && u == 7 {
                low_bit_toggled(g[7][7] as int) as i32
            } else {
                g[v][u]
            },
    );
}

/// The saturated block, its last entry toggled where the sum of all entries is
/// even.
pub open spec fn mismatch_controlled(f: [[i32; 8]; 8]) -> [[i32; 8]; 8] {
    let g = saturated_block(f);
    if block_sum(g) % 2 == 0 {
        last_toggled(g)
    } else {
        g
    }
}

pub open spec fn within_saturation(f: [[i32; 8]; 8]) -> bool {
    forall|v: int, u: int|
        0 <= v < 8 && 0 <= u < 8 ==> F_SATURATION_MIN <= #[trigger] f[v][u] <= F_SATURATION_MAX
}

fn sum_of_row(r: &[i32; 8]) -> (s: i32)
    requires
        forall|u: int| 0 <= u < 8 ==> F_SATURATION_MIN <= #[trigger] r[u] <= F_SATURATION_MAX,
    ensures
        s == row_sum(*r),
        -16384 <= s <= 16383,
{
    r[0] + r[1] + r[2] + r[3] + r[4] + r[5] + r[6] + r[7]
}

fn saturate_block(f_double_prime: &[[i32; 8]; 8]) -> (f: [[i32; 8]; 8])
    ensures
        f == saturated_block(*f_double_prime),
{
    let ghost want = |v: int, u: int| saturated(f_double_prime[v][u] as int) as i32;
    let mut f = [[0i32; 8]; 8];
    let mut v: usize = 0;
    while v < 8
        invariant
            v <= 8,
            want == (|v: int, u: int| saturated(f_double_prime[v][u] as int) as i32),
            forall|a: int, b: int| 0 <= a < v && 0 <= b < 8 ==> #[trigger] f[a][b] == want(a, b),
        decreases 8 - v,
    {
        let mut u: usize = 0;
        while u < 8
            invariant
                u <= 8,
                v < 8,
                want == (|v: int, u: int| saturated(f_double_prime[v][u] as int) as i32),
                forall|a: int, b: int|
                    0 <= a < v && 0 <= b < 8 ==> #[trigger] f[a][b] == want(a, b),
                forall|b: int| 0 <= b < u ==> #[trigger] f[v as int][b] == want(v as int, b),
            decreases 8 - u,
        {
            f[v][u] = saturate(f_double_prime[v][u]);
            u += 1;
        }
        v += 1;
    }
    proof {
        lemma_block_of(f, want);
    }
    f
}

fn sum_of_block(f: &[[i32; 8]; 8]) -> (sum: i32)
    requires
        within_saturation(*f),
    ensures
        sum == block_sum(*f),
{
    sum_of_row(&f[0]) + sum_of_row(&f[1]) + sum_of_row(&f[2]) + sum_of_row(&f[3]) + sum_of_row(
        &f[4],
    ) + sum_of_row(&f[5]) + sum_of_row(&f[6]) + sum_of_row(&f[7])
}

/// Saturates a block and makes the sum of its entries odd.
#[verifier::rlimit(40)]
pub fn saturate_and_mismatch(f_double_prime: &[[i32; 8]; 8]) -> (f: [[i32; 8]; 8])
    ensures
        f == mismatch_controlled(*f_double_prime),
{
    let mut f = saturate_block(f_double_prime);
    proof {
        lemma_saturated_entries(*f_double_prime);
    }
    let ghost g = f;
    let sum = sum_of_block(&f);
    if !is_odd_i32(sum) {
        let last: i32 = f[7][7];
        if is_odd_i32(last) {
            f[7][7] = last - 1;
        } else {
            f[7][7] = last + 1;
        }
        proof {
            lemma_block_of(
                f,
                |v: int, u: int|
                    if v == 7 && u == 7 {
                        low_bit_toggled(g[7][7] as int) as i32
                    } else {
                        g[v][u]
                    },
            );
        }
    }
    f
}

/// The reconstructed block: weighted, saturated and mismatch controlled.
pub open spec fn reconstructed_block(
    qf: [[i32; 8]; 8],
    coding: BlockCoding,
    weight: [[u8; 8]; 8],
    scale: u8,
    dc_mult: i32,
) -> [[i32; 8]; 8] {
    mismatch_controlled(dequantised_block(qf, coding, weight, scale, dc_mult))
}

/// Reconstructs a block from its levels.
pub fn inverse_quantise_block(
    qf: &[[i32; 8]; 8],
    coding: BlockCoding,
    weight: &[[u8; 8]; 8],
    quantiser_scale_value: u8,
    intra_dc_mult_value: i32,
) -> (f: [[i32; 8]; 8])
    requires
        block_products_fit(*qf, coding, *weight, quantiser_scale_value, intra_dc_mult_value),
    ensures
        f == reconstructed_block(*qf, coding, *weight, quantiser_scale_value, intra_dc_mult_value),
{
    saturate_and_mismatch(
        &inverse_quantise_arithmetic(
            qf,
            coding,
            weight,
            quantiser_scale_value,
            intra_dc_mult_value,
        ),
    )
}

/// After mismatch control every entry is saturated, and all but the last are as
/// saturation left them.
pub proof fn law_mismatch_control(f: [[i32; 8]; 8])
    ensures
        within_saturation(mismatch_controlled(f)),
        forall|v: int, u: int|
            0 <= v < 8 && 0 <= u < 8 && !(v == 7 && u == 7) ==> #[trigger] mismatch_controlled(
                f,
            )[v][u] == saturated(f[v][u] as int),
{
    lemma_saturated_entries(f);
    lemma_toggled_entries(saturated_block(f));
}

/// After mismatch control the sum of the entries is odd.
pub proof fn law_sum_is_odd(f: [[i32; 8]; 8])
    ensures
        block_sum(mismatch_controlled(f)) % 2 == 1,
{
    lemma_saturated_entries(f);
    let g = saturated_block(f);
    lemma_toggled_entries(g);
    let h = last_toggled(g);
    assert forall|v: int| 0 <= v < 7 implies row_sum(#[trigger] h[v]) == row_sum(g[v]) by {
        assert(h[v][0] == g[v][0] && h[v][1] == g[v][1] && h[v][2] == g[v][2] && h[v][3] == g[v][3]
            && h[v][4] == g[v][4] && h[v][5] == g[v][5] && h[v][6] == g[v][6] && h[v][7]
            == g[v][7]);
    }
    assert(h[7][0] == g[7][0] && h[7][1] == g[7][1] && h[7][2] == g[7][2] && h[7][3] == g[7][3]
        && h[7][4] == g[7][4] && h[7][5] == g[7][5] && h[7][6] == g[7][6]);
}

/// Levels of at most 2047 never overflow, whatever the weights and the scale.
pub proof fn lemma_small_levels_fit(
    qf: [[i32; 8]; 8],
    coding: BlockCoding,
    weight: [[u8; 8]; 8],
    scale: u8,
    dc_mult: i32,
)
    requires
        forall|v: int, u: int|
            0 <= v < 8 && 0 <= u < 8 ==> -2048 <= #[trigger] qf[v][u] <= 2047,
        0 <= dc_mult <= 8,
    ensures
        block_products_fit(qf, coding, weight, scale, dc_mult),
{
    assert forall|v: int, u: int|
        #![trigger qf[v][u]]
        0 <= v < 8 && 0 <= u < 8 implies products_fit(
        qf[v][u] as int,
        intra_dc_entry(v, u, coding),
        coding,
        weight[v][u] as int,
        scale as int,
        dc_mult as int,
    ) by {
        let q = qf[v][u] as int;
        let h = half_steps(q, coding);
        let w = weight[v][u] as int;
        let s = scale as int;
        let m = dc_mult as int;
        assert(-16384 <= m * q <= 16384) by (nonlinear_arith)
            requires
                0 <= m <= 8,
                -2048 <= q <= 2047,
        ;
        assert(-4097 * 255 <= h * w <= 4097 * 255) by (nonlinear_arith)
            requires
                -4097 <= h <= 4097,
                0 <= w <= 255,
        ;
        let hw = h * w;
        assert(-4097 * 255 * 255 <= hw * s <= 4097 * 255 * 255) by (nonlinear_arith)
            requires
                -4097 * 255 <= hw <= 4097 * 255,
                0 <= s <= 255,
        ;
    }
}

/// Luminance has the same two matrices in every format. Chrominance shares them where the
/// format is 4:2:0, and has two more of its own otherwise.
pub proof fn law_chrominance_has_its_own_matrices(coding: BlockCoding, format: ChromaFormat)
    ensures
        weight_index(coding, Component::Luminance, format) == weight_index(
            coding,
            Component::Luminance,
            ChromaFormat::Yuv420,
        ),
        weight_index(BlockCoding::Intra, Component::Luminance, format) < weight_index(
            BlockCoding::NonIntra,
            Component::Luminance,
            format,
        ) < 2,
        format == ChromaFormat::Yuv420 ==> weight_index(coding, Component::Chrominance, format)
            == weight_index(coding, Component::Luminance, format),
        format != ChromaFormat::Yuv420 ==> weight_index(coding, Component::Chrominance, format)
            == weight_index(coding, Component::Luminance, format) + 2,
{
}

/// The steps between the scales that are not linear double with every eight codes: 1
/// below the eighth, then 2, 4 and 8.
pub proof fn law_scale_steps_double(code: u8)
    requires
        1 <= code < 31,
    ensures
        ({
            let step = scale_of((code + 1) as u8, true)->Ok_0 - scale_of(code, true)->Ok_0;
            &&& code < 8 ==> step == 1 && scale_of(code, true)->Ok_0 == code
            &&& code < 23 ==> scale_of((code + 9) as u8, true)->Ok_0 - scale_of(
                (code + 8) as u8,
                true,
            )->Ok_0 == 2 * step
            &&& code == 8 ==> step == 2
        }),
{
}

/// Saturation goes to the nearest of the values from -2048 to 2047: none of them is
/// nearer.
pub proof fn law_saturation_is_nearest(x: int, y: int)
    requires
        -2048 <= y <= 2047,
    ensures
        -2048 <= saturated(x) <= 2047,
        x <= y ==> x <= saturated(x) <= y,
        y <= x ==> y <= saturated(x) <= x,
{
}

} // verus!
