//! The reconstruction of MPEG-1 coefficients from their levels, and the chain of
//! DC predictions.

use crate::arith::{is_odd_i32, trunc_div, trunc_div_i32};
use crate::block::{block_of, lemma_block_entries, lemma_block_of};
use crate::error::{Error, Result};
use crate::mpeg2_dequantize::{
    saturate, saturated, sign, sign_of, DEFAULT_INTRA_WEIGHT, DEFAULT_NON_INTRA_WEIGHT,
};
use crate::mpeg2_inverse_scan::{scan, SCAN};
use vstd::prelude::*;

verus! {

pub const ERR_QUANTIZER_SCALE: &'static str = "quantizer_scale outside 1..=31 (§2.4.3.6)";

pub const ERR_DC_OVERFLOW: &'static str = "dct_recon[0][0] outside the 32-bit range (§2.4.4.1)";

/// The value that the DC predictions restart from.
pub const DC_PREDICTOR_RESET: i32 = 1024;

/// The default intra matrix.
pub const DEFAULT_INTRA_QUANT: [[u8; 8]; 8] = DEFAULT_INTRA_WEIGHT;

/// The default non-intra matrix.
pub const DEFAULT_NON_INTRA_QUANT: [[u8; 8]; 8] = DEFAULT_NON_INTRA_WEIGHT;

/// Which DC prediction an intra block uses.
#[derive(Debug, Clone, Copy, PartialEq, Eq, Structural)]
pub enum IntraBlockKind {
    /// The first luminance block of a macroblock.
    LuminanceFirst,
    /// The other luminance blocks, predicted from the block before.
    LuminanceSubsequent,
    ChrominanceCb,
    ChrominanceCr,
}

/// The last DC coefficient of each component, and the address of the last intra
/// macroblock.
#[derive(Debug, Clone, Copy, PartialEq, Eq)]
pub struct IntraDcPredictors {
    pub y_past: i32,
    pub cb_past: i32,
    pub cr_past: i32,
    pub past_intra_address: i32,
}

impl IntraDcPredictors {
    pub open spec fn spec_at_slice_start() -> IntraDcPredictors {
        IntraDcPredictors {
            y_past: DC_PREDICTOR_RESET,
            cb_past: DC_PREDICTOR_RESET,
            cr_past: DC_PREDICTOR_RESET,
            past_intra_address: -2i32,
        }
    }

    /// The predictions at the start of a slice.
    pub fn at_slice_start() -> (p: Self)
        ensures
            p == Self::spec_at_slice_start(),
    {
        IntraDcPredictors {
            y_past: DC_PREDICTOR_RESET,
            cb_past: DC_PREDICTOR_RESET,
            cr_past: DC_PREDICTOR_RESET,
            past_intra_address: -2,
        }
    }

    /// The last DC coefficient of the component of a block.
    pub open spec fn past(self, kind: IntraBlockKind) -> i32 {
        match kind {
            IntraBlockKind::LuminanceFirst => self.y_past,
            IntraBlockKind::LuminanceSubsequent => self.y_past,
            IntraBlockKind::ChrominanceCb => self.cb_past,
            IntraBlockKind::ChrominanceCr => self.cr_past,
        }
    }

    /// The predictions after a block with the DC coefficient `dc`.
    pub open spec fn after_block(self, kind: IntraBlockKind, dc: i32) -> IntraDcPredictors {
        match kind {
            IntraBlockKind::LuminanceFirst => IntraDcPredictors { y_past: dc, ..self },
            IntraBlockKind::LuminanceSubsequent => IntraDcPredictors { y_past: dc, ..self },
            IntraBlockKind::ChrominanceCb => IntraDcPredictors { cb_past: dc, ..self },
            IntraBlockKind::ChrominanceCr => IntraDcPredictors { cr_past: dc, ..self },
        }
    }

    /// The predictions after an intra macroblock.
    pub open spec fn after_macroblock(self, address: i32) -> IntraDcPredictors {
        IntraDcPredictors { past_intra_address: address, ..self }
    }
}

/// What a DC differential is added to: the last DC coefficient of the component,
/// or the restart value where the macroblock does not follow an intra one. The
/// luminance blocks after the first always continue.
pub open spec fn dc_base_of(
    kind: IntraBlockKind,
    predictors: IntraDcPredictors,
    address: i32,
) -> i32 {
    if kind != IntraBlockKind::LuminanceSubsequent && address - predictors.past_intra_address > 1 {
        DC_PREDICTOR_RESET
    } else {
        predictors.past(kind)
    }
}

/// What a DC differential is added to.
pub fn dc_base(kind: IntraBlockKind, predictors: &IntraDcPredictors, address: i32) -> (r: i32)
    ensures
        r == dc_base_of(kind, *predictors, address),
{
    let reset = address as i64 - predictors.past_intra_address as i64 > 1;
    match kind {
        IntraBlockKind::LuminanceFirst => if reset {
            DC_PREDICTOR_RESET
        } else {
            predictors.y_past
        },
        IntraBlockKind::LuminanceSubsequent => predictors.y_past,
        IntraBlockKind::ChrominanceCb => if reset {
            DC_PREDICTOR_RESET
        } else {
            predictors.cb_past
        },
        IntraBlockKind::ChrominanceCr => if reset {
            DC_PREDICTOR_RESET
        } else {
            predictors.cr_past
        },
    }
}

/// Records that an intra macroblock is done.
pub fn finalise_intra_macroblock(predictors: &mut IntraDcPredictors, macroblock_address: i32)
    ensures
        *final(predictors) == old(predictors).after_macroblock(macroblock_address),
{
    predictors.past_intra_address = macroblock_address;
}

/// An even number is moved one toward zero; zero stays.
pub open spec fn made_odd(x: int) -> int {
    if x % 2 == 0 {
        x - sign_of(x)
    } else {
        x
    }
}

/// A reconstructed coefficient: half steps times the step size, made odd and
/// saturated.
pub open spec fn coefficient(half_steps: int, scale: int, quant: int) -> int {
    saturated(made_odd(trunc_div(half_steps * (scale * quant), 16)))
}

/// Whether levels are of the size that symbols can spell.
pub open spec fn levels_fit(dct_zz: Seq<i32>) -> bool {
    dct_zz.len() == 64 && forall|i: int|
        0 <= i < 64 ==> -0x8000 <= #[trigger] dct_zz[i] <= 0x7FFF
}

pub open spec fn intra_coefficients(
    dct_zz: Seq<i32>,
    scale: u8,
    quant: [[u8; 8]; 8],
    dc: i32,
) -> spec_fn(int, int) -> i32 {
    |m: int, n: int|
        if m == 0 && n == 0 {
            dc
        } else {
            coefficient(
                2 * dct_zz[scan(false)[m][n] as int],
                scale as int,
                quant[m][n] as int,
            ) as i32
        }
}

/// The coefficients of an intra block with the DC coefficient `dc`.
pub open spec fn intra_block(
    dct_zz: Seq<i32>,
    scale: u8,
    quant: [[u8; 8]; 8],
    dc: i32,
) -> [[i32; 8]; 8] {
    block_of(intra_coefficients(dct_zz, scale, quant, dc))
}

pub open spec fn non_intra_coefficients(
    dct_zz: Seq<i32>,
    scale: u8,
    quant: [[u8; 8]; 8],
) -> spec_fn(int, int) -> i32 {
    |m: int, n: int|
        {
            let z = dct_zz[scan(false)[m][n] as int] as int;
            coefficient(2 * z + sign_of(z), scale as int, quant[m][n] as int) as i32
        }
}

/// The coefficients of a non-intra block.
pub open spec fn non_intra_block(
    dct_zz: Seq<i32>,
    scale: u8,
    quant: [[u8; 8]; 8],
) -> [[i32; 8]; 8] {
    block_of(non_intra_coefficients(dct_zz, scale, quant))
}

fn reconstruct_coefficient(half_steps: i32, scale: u8, quant: u8) -> (r: i32)
    requires
        -0x1_0001 <= half_steps <= 0x1_0001,
        scale <= 31,
    ensures
        r == coefficient(half_steps as int, scale as int, quant as int),
{
    assert(0 <= scale * quant <= 31 * 255) by (nonlinear_arith)
        requires
            scale <= 31,
            quant <= 255,
    ;
    let step: i32 = (scale as i32) * (quant as i32);
    assert(-0x1_0001 * 7905 <= half_steps * step <= 0x1_0001 * 7905) by (nonlinear_arith)
        requires
            -0x1_0001 <= half_steps <= 0x1_0001,
            0 <= step <= 7905,
    ;
    let x = trunc_div_i32(half_steps * step, 16);
    let y: i32 = if is_odd_i32(x) {
        x
    } else {
        x - sign(x)
    };
    saturate(y)
}

/// Whether the scale of a slice or macroblock is one that exists.
pub open spec fn scale_valid(quantizer_scale: u8) -> bool {
    1 <= quantizer_scale <= 31
}

/// The coefficients of an intra block and the predictions after it.
pub open spec fn dequantized_intra(
    dct_zz: Seq<i32>,
    quantizer_scale: u8,
    quant: [[u8; 8]; 8],
    kind: IntraBlockKind,
    predictors: IntraDcPredictors,
    address: i32,
) -> (Result<[[i32; 8]; 8]>, IntraDcPredictors) {
    let dc = dc_base_of(kind, predictors, address) + 8 * dct_zz[0];
    if !scale_valid(quantizer_scale) {
        (Err(Error::InvalidBitstream(ERR_QUANTIZER_SCALE)), predictors)
    } else if !(i32::MIN <= dc <= i32::MAX) {
        (Err(Error::InvalidBitstream(ERR_DC_OVERFLOW)), predictors)
    } else {
        (
            Ok(intra_block(dct_zz, quantizer_scale, quant, dc as i32)),
            predictors.after_block(kind, dc as i32),
        )
    }
}

/// Reconstructs an intra block.
pub fn dequantize_intra_block(
    dct_zz: &[i32; 64],
    quantizer_scale: u8,
    intra_quant: &[[u8; 8]; 8],
    kind: IntraBlockKind,
    predictors: &mut IntraDcPredictors,
    macroblock_address: i32,
) -> (res: Result<[[i32; 8]; 8]>)
    requires
        levels_fit(dct_zz@),
    ensures
        (res, *final(predictors)) == dequantized_intra(
            dct_zz@,
            quantizer_scale,
            *intra_quant,
            kind,
            *old(predictors),
            macroblock_address,
        ),
{
    if quantizer_scale == 0 || quantizer_scale > 31 {
        return Err(Error::InvalidBitstream(ERR_QUANTIZER_SCALE));
    }
    let base = dc_base(kind, predictors, macroblock_address);
    let wide: i64 = base as i64 + 8 * (dct_zz[0] as i64);
    if wide < i32::MIN as i64 || wide > i32::MAX as i64 {
        return Err(Error::InvalidBitstream(ERR_DC_OVERFLOW));
    }
    let dc = wide as i32;
    let mut recon = [[0i32; 8]; 8];
    let ghost want = intra_coefficients(dct_zz@, quantizer_scale, *intra_quant, dc);
    let mut m: usize = 0;
    while m < 8
        invariant
            m <= 8,
            levels_fit(dct_zz@),
            scale_valid(quantizer_scale),
            want == intra_coefficients(dct_zz@, quantizer_scale, *intra_quant, dc),
            forall|a: int, b: int|
                0 <= a < m && 0 <= b < 8 ==> #[trigger] recon[a][b] == want(a, b),
        decreases 8 - m,
    {
        let mut n: usize = 0;
        while n < 8
            invariant
                n <= 8,
                m < 8,
                levels_fit(dct_zz@),
                scale_valid(quantizer_scale),
                want == intra_coefficients(dct_zz@, quantizer_scale, *intra_quant, dc),
                forall|a: int, b: int|
                    0 <= a < m && 0 <= b < 8 ==> #[trigger] recon[a][b] == want(a, b),
                forall|b: int| 0 <= b < n ==> #[trigger] recon[m as int][b] == want(m as int, b),
            decreases 8 - n,
        {
            let i = SCAN[m][n] as usize;
            assert(i < 64);
            let z = dct_zz[i];
            recon[m][n] = if m == 0 && n == 0 {
                dc
            } else {
                reconstruct_coefficient(2 * z, quantizer_scale, intra_quant[m][n])
            };
            n += 1;
        }
        m += 1;
    }
    proof {
        lemma_block_of(recon, want);
    }
    match kind {
        IntraBlockKind::LuminanceFirst => {
            predictors.y_past = dc;
        },
        IntraBlockKind::LuminanceSubsequent => {
            predictors.y_past = dc;
        },
        IntraBlockKind::ChrominanceCb => {
            predictors.cb_past = dc;
        },
        IntraBlockKind::ChrominanceCr => {
            predictors.cr_past = dc;
        },
    }
    Ok(recon)
}

/// The coefficients of a non-intra block.
pub open spec fn dequantized_non_intra(
    dct_zz: Seq<i32>,
    quantizer_scale: u8,
    quant: [[u8; 8]; 8],
) -> Result<[[i32; 8]; 8]> {
    if !scale_valid(quantizer_scale) {
        Err(Error::InvalidBitstream(ERR_QUANTIZER_SCALE))
    } else {
        Ok(non_intra_block(dct_zz, quantizer_scale, quant))
    }
}

/// Reconstructs a non-intra block.
pub fn dequantize_non_intra_block(
    dct_zz: &[i32; 64],
    quantizer_scale: u8,
    non_intra_quant: &[[u8; 8]; 8],
) -> (res: Result<[[i32; 8]; 8]>)
    requires
        levels_fit(dct_zz@),
    ensures
        res == dequantized_non_intra(dct_zz@, quantizer_scale, *non_intra_quant),
{
    if quantizer_scale == 0 || quantizer_scale > 31 {
        return Err(Error::InvalidBitstream(ERR_QUANTIZER_SCALE));
    }
    let mut recon = [[0i32; 8]; 8];
    let ghost want = non_intra_coefficients(dct_zz@, quantizer_scale, *non_intra_quant);
    let mut m: usize = 0;
    while m < 8
        invariant
            m <= 8,
            levels_fit(dct_zz@),
            scale_valid(quantizer_scale),
            want == non_intra_coefficients(dct_zz@, quantizer_scale, *non_intra_quant),
            forall|a: int, b: int|
                0 <= a < m && 0 <= b < 8 ==> #[trigger] recon[a][b] == want(a, b),
        decreases 8 - m,
    {
        let mut n: usize = 0;
        while n < 8
            invariant
                n <= 8,
                m < 8,
                levels_fit(dct_zz@),
                scale_valid(quantizer_scale),
                want == non_intra_coefficients(dct_zz@, quantizer_scale, *non_intra_quant),
                forall|a: int, b: int|
                    0 <= a < m && 0 <= b < 8 ==> #[trigger] recon[a][b] == want(a, b),
                forall|b: int| 0 <= b < n ==> #[trigger] recon[m as int][b] == want(m as int, b),
            decreases 8 - n,
        {
            let i = SCAN[m][n] as usize;
            assert(i < 64);
            let z = dct_zz[i];
            let half_steps: i32 = 2 * z + sign(z);
            recon[m][n] =
            reconstruct_coefficient(half_steps, quantizer_scale, non_intra_quant[m][n]);
            n += 1;
        }
        m += 1;
    }
    proof {
        lemma_block_of(recon, want);
    }
    Ok(recon)
}

/// A reconstructed coefficient is zero, odd, or saturated.
pub proof fn law_coefficients_are_odd(half_steps: int, scale: int, quant: int)
    ensures
        ({
            let c = coefficient(half_steps, scale, quant);
            c == 0 || c % 2 == 1 || c == -2048
        }),
{
}

/// DC coefficients add up: one is eight times its difference more than the last of its
/// component, which is 1024, the middle of the range, at the start of a slice and where
/// the macroblock before was not intra; blocks of one component leave the others alone.
pub proof fn law_dc_adds_up(
    first: Seq<i32>,
    second: Seq<i32>,
    scale: u8,
    quant: [[u8; 8]; 8],
    predictors: IntraDcPredictors,
    address: i32,
)
    requires
        scale_valid(scale),
        -2048 <= first[0] <= 2047,
        -2048 <= second[0] <= 2047,
        address - predictors.past_intra_address > 1,
        -0x10_0000 <= predictors.y_past <= 0x10_0000,
        -0x10_0000 <= predictors.cb_past <= 0x10_0000,
    ensures
        ({
            let (a, mid) = dequantized_intra(
                first,
                scale,
                quant,
                IntraBlockKind::LuminanceFirst,
                predictors,
                address,
            );
            let (b, after) = dequantized_intra(
                second,
                scale,
                quant,
                IntraBlockKind::LuminanceSubsequent,
                mid,
                address,
            );
            let (c, _) = dequantized_intra(
                second,
                scale,
                quant,
                IntraBlockKind::ChrominanceCb,
                after,
                address,
            );
            let (d, _) = dequantized_intra(
                second,
                scale,
                quant,
                IntraBlockKind::ChrominanceCr,
                after.after_macroblock((address - 1) as i32),
                address,
            );
            &&& a is Ok && a->Ok_0[0][0] == 1024 + 8 * first[0]
            &&& b is Ok && b->Ok_0[0][0] == a->Ok_0[0][0] + 8 * second[0]
            &&& c is Ok && c->Ok_0[0][0] == 1024 + 8 * second[0]
            &&& after.cb_past == predictors.cb_past && after.cr_past == predictors.cr_past
            &&& after.y_past == b->Ok_0[0][0]
            &&& address > i32::MIN && -0x10_0000 <= predictors.cr_past <= 0x10_0000 ==> d is Ok
                && d->Ok_0[0][0] == predictors.cr_past + 8 * second[0]
        }),
        IntraDcPredictors::spec_at_slice_start().past_intra_address == -2,
        IntraDcPredictors::spec_at_slice_start().y_past == 1024,
{
    let (a, mid) = dequantized_intra(
        first,
        scale,
        quant,
        IntraBlockKind::LuminanceFirst,
        predictors,
        address,
    );
    let da = (1024 + 8 * first[0]) as i32;
    let db = (da + 8 * second[0]) as i32;
    let dc = (1024 + 8 * second[0]) as i32;
    let dd = (predictors.cr_past + 8 * second[0]) as i32;
    lemma_block_entries(intra_coefficients(first, scale, quant, da));
    lemma_block_entries(intra_coefficients(second, scale, quant, db));
    lemma_block_entries(intra_coefficients(second, scale, quant, dc));
    lemma_block_entries(intra_coefficients(second, scale, quant, dd));
}

/// Where a macroblock directly follows an intra macroblock, its DC coefficients go on
/// from those of that macroblock, each component from its own; otherwise the first of a
/// component starts from 1024. The later luminance blocks go on from the one before in
/// any event.
pub proof fn law_neighbours_share_dc(predictors: IntraDcPredictors, address: i32)
    requires
        address > predictors.past_intra_address,
    ensures
        ({
            let follows = address == predictors.past_intra_address + 1;
            let p = predictors;
            &&& dc_base_of(IntraBlockKind::LuminanceFirst, p, address) == (if follows {
                p.y_past
            } else {
                1024
            })
            &&& dc_base_of(IntraBlockKind::LuminanceSubsequent, p, address) == p.y_past
            &&& dc_base_of(IntraBlockKind::ChrominanceCb, p, address) == (if follows {
                p.cb_past
            } else {
                1024
            })
            &&& dc_base_of(IntraBlockKind::ChrominanceCr, p, address) == (if follows {
                p.cr_past
            } else {
                1024
            })
            &&& p.after_macroblock(address).past_intra_address == address
            &&& p.after_macroblock(address).y_past == p.y_past
        }),
{
}

} // verus!
