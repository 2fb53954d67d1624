//! One block of an MPEG-2 macroblock, from its bits to its samples.

use crate::bits::{addressable, reader_bits, reader_pos};
use crate::block::{
    block_of, gives_samples, is_function, lemma_block_entries, lemma_block_of, samples_in_range,
    value_of,
};
use crate::error::{Error, Result};
use crate::mpeg2_block_dc::{dc_block_at, decode_dc_block, ColourComponent, DcPredictors};
use crate::mpeg2_dct_coeff::{
    coeff_at, CoefficientPosition, DctCoeff, DctCoeffStep, TableSelection,
};
use crate::mpeg2_dequantize::{
    dc_mult_of, inverse_quantise_block, lemma_small_levels_fit, reconstructed_block, BlockCoding,
};
use crate::mpeg2_inverse_scan::{apply_inverse_scan, law_scan_then_inverse, scan};
use oxideav_core::bits::BitReader;
use vstd::prelude::*;

verus! {

pub const ERR_BLOCK_DC_PRECISION: &'static str =
    "intra_dc_precision: only 0..=3 are defined (Table 6-13)";

pub const ERR_BLOCK_SCALE: &'static str = "quantiser_scale_value: 0 is forbidden (Table 7-6 entry)";

pub const ERR_BLOCK_PREDICTORS: &'static str =
    "DcPredictors.intra_dc_precision must match BlockContext.intra_dc_precision (§7.2.1)";

pub const ERR_BLOCK_OVERRUN: &'static str = "§7.2.2: walker position + run exceeded 63";

/// What the blocks of a macroblock have in common.
#[derive(Debug, Clone, Copy)]
pub struct BlockContext {
    pub intra_vlc_format: bool,
    pub alternate_scan: bool,
    /// From 0 to 3.
    pub intra_dc_precision: u8,
    /// The quantiser scale itself, not its code.
    pub quantiser_scale_value: u8,
}

/// The factor of the intra DC coefficient.
pub fn intra_dc_mult_local(intra_dc_precision: u8) -> (res: Result<i32>)
    ensures
        match dc_mult_of(intra_dc_precision) {
            Some(m) => res == Ok::<i32, Error>(m as i32),
            None => res == Err::<i32, Error>(Error::InvalidBitstream(ERR_BLOCK_DC_PRECISION)),
        },
{
    match intra_dc_precision {
        0 => Ok(8),
        1 => Ok(4),
        2 => Ok(2),
        3 => Ok(1),
        _ => Err(Error::InvalidBitstream(ERR_BLOCK_DC_PRECISION)),
    }
}

/// A decoded block at each stage of its decoding.
#[derive(Debug, Clone, Copy, PartialEq, Eq)]
pub struct DecodedBlock {
    /// The levels in coded order.
    pub qfs: [i32; 64],
    /// The levels in their places.
    pub qf: [[i32; 8]; 8],
    /// The reconstructed coefficients.
    pub f_quant: [[i32; 8]; 8],
    /// The samples, or sample differences.
    pub f_pel: [[i16; 8]; 8],
    /// The bit position after the block.
    pub end_of_block_bit_position: u64,
}

/// The array that holds 64 given entries.
pub open spec fn array_of(q: Seq<i32>) -> [i32; 64] {
    choose|a: [i32; 64]| a@ == q
}

pub proof fn lemma_array_of(a: [i32; 64])
    ensures
        array_of(a@) == a,
{
    let b = array_of(a@);
    assert(b@ == a@);
    assert forall|i: int| 0 <= i < 64 implies b[i] == a[i] by {
        assert(b@[i] == a@[i]);
    }
    assert(b =~= a);
}

/// The levels of a block, from the symbols at `at` on: each level is placed
/// `run` entries after the last, until the end of block.
pub open spec fn walk_at(
    s: Seq<bool>,
    at: int,
    table: TableSelection,
    position: CoefficientPosition,
    index: int,
    qfs: Seq<i32>,
) -> (Result<Seq<i32>>, int)
    decreases 64 - index,
{
    let (step, next) = coeff_at(s, at, table, position);
    match step {
        Err(e) => (Err(e), next),
        Ok(step) => match step.symbol {
            DctCoeff::EndOfBlock => (Ok(qfs), next),
            DctCoeff::RunLevel { run, signed_level, .. } => if index + run >= 64 {
                (Err(Error::InvalidBitstream(ERR_BLOCK_OVERRUN)), next)
            } else {
                walk_at(
                    s,
                    next,
                    table,
                    CoefficientPosition::Next,
                    index + run + 1,
                    qfs.update(index + run, signed_level as i32),
                )
            },
        },
    }
}

/// Whether every level is one that a block can hold.
pub open spec fn levels_in_range(qfs: Seq<i32>) -> bool {
    forall|i: int| 0 <= i < qfs.len() ==> -2047 <= #[trigger] qfs[i] <= 2047
}

/// Reads the symbols of a block into `qfs`, from entry `start` on.
pub fn walk_coefficients(
    br: &mut BitReader<'_>,
    table: TableSelection,
    position: CoefficientPosition,
    start: usize,
    qfs: &mut [i32; 64],
) -> (res: Result<u64>)
    requires
        addressable(*old(br)),
        start <= 64,
        levels_in_range(old(qfs)@),
    ensures
        reader_bits(*final(br)) == reader_bits(*old(br)),
        ({
            let (want, next) = walk_at(
                reader_bits(*old(br)),
                reader_pos(*old(br)) as int,
                table,
                position,
                start as int,
                old(qfs)@,
            );
            &&& reader_pos(*final(br)) == next
            &&& match want {
                Ok(levels) => res == Ok::<u64, Error>(next as u64) && final(qfs)@ == levels,
                Err(e) => res == Err::<u64, Error>(e),
            }
        }),
        levels_in_range(final(qfs)@),
{
    let ghost s = reader_bits(*br);
    let ghost whole = walk_at(
        s,
        reader_pos(*br) as int,
        table,
        position,
        start as int,
        qfs@,
    );
    let mut index: usize = start;
    let mut now = position;
    loop
        invariant
            index <= 64,
            reader_bits(*br) == s,
            addressable(*br),
            s == reader_bits(*old(br)),
            levels_in_range(qfs@),
            whole == walk_at(
                s,
                reader_pos(*old(br)) as int,
                table,
                position,
                start as int,
                old(qfs)@,
            ),
            walk_at(s, reader_pos(*br) as int, table, now, index as int, qfs@) == whole,
        decreases 64 - index,
    {
        let step = DctCoeffStep::parse(br, table, now)?;
        match step.symbol {
            DctCoeff::EndOfBlock => {
                return Ok(step.bit_position_after);
            },
            DctCoeff::RunLevel { run, signed_level, .. } => {
                let target: usize = index + run as usize;
                if target >= 64 {
                    return Err(Error::InvalidBitstream(ERR_BLOCK_OVERRUN));
                }
                let ghost before = qfs@;
                qfs[target] = signed_level as i32;
                assert(qfs@ =~= before.update(target as int, signed_level as i32));
                index = target + 1;
                now = CoefficientPosition::Next;
            },
        }
    }
}

pub open spec fn placed_levels(qfs: Seq<i32>, alternate_scan: bool) -> spec_fn(int, int) -> i32 {
    |v: int, u: int| qfs[scan(alternate_scan)[v][u] as int]
}

/// The levels in their places.
pub open spec fn level_block(qfs: Seq<i32>, alternate_scan: bool) -> [[i32; 8]; 8] {
    block_of(placed_levels(qfs, alternate_scan))
}

pub open spec fn coding_of(macroblock_intra: bool) -> BlockCoding {
    if macroblock_intra {
        BlockCoding::Intra
    } else {
        BlockCoding::NonIntra
    }
}

/// The block that decoded levels stand for.
pub open spec fn block_from_levels<F: Fn([[i32; 8]; 8]) -> [[i16; 8]; 8]>(
    qfs: Seq<i32>,
    end: int,
    ctx: BlockContext,
    macroblock_intra: bool,
    weight: [[u8; 8]; 8],
    idct: F,
) -> DecodedBlock {
    let qf = level_block(qfs, ctx.alternate_scan);
    let f_quant = reconstructed_block(
        qf,
        coding_of(macroblock_intra),
        weight,
        ctx.quantiser_scale_value,
        dc_mult_of(ctx.intra_dc_precision)->0 as i32,
    );
    DecodedBlock {
        qfs: array_of(qfs),
        qf,
        f_quant,
        f_pel: value_of(idct, f_quant),
        end_of_block_bit_position: end as u64,
    }
}

/// No level yet.
pub open spec fn no_levels() -> Seq<i32> {
    Seq::new(64, |i: int| 0i32)
}

/// What is wrong with the context of a block, if anything.
pub open spec fn context_error(ctx: BlockContext, predictors: DcPredictors) -> Option<Error> {
    if ctx.intra_dc_precision > 3 {
        Some(Error::InvalidBitstream(ERR_BLOCK_DC_PRECISION))
    } else if ctx.quantiser_scale_value == 0 {
        Some(Error::InvalidBitstream(ERR_BLOCK_SCALE))
    } else if predictors.intra_dc_precision != ctx.intra_dc_precision {
        Some(Error::InvalidBitstream(ERR_BLOCK_PREDICTORS))
    } else {
        None
    }
}

/// The block at `at`, the position after it, and the predictors that it leaves:
/// an intra block starts with its DC coefficient, and its other levels follow; a
/// non-intra block consists of levels alone.
#[verifier::opaque]
pub open spec fn block_at<F: Fn([[i32; 8]; 8]) -> [[i16; 8]; 8]>(
    s: Seq<bool>,
    at: int,
    ctx: BlockContext,
    predictors: DcPredictors,
    component: ColourComponent,
    macroblock_intra: bool,
    weight: [[u8; 8]; 8],
    idct: F,
) -> (Result<DecodedBlock>, int, DcPredictors) {
    let table = TableSelection::spec_from_context(ctx.intra_vlc_format, macroblock_intra);
    match context_error(ctx, predictors) {
        Some(e) => (Err(e), at, predictors),
        None => if macroblock_intra {
            let (dc, p1, after) = dc_block_at(s, at, predictors, component);
            match dc {
                Err(e) => (Err(e), p1, after),
                Ok(dc) => {
                    let (levels, p2) = walk_at(
                        s,
                        p1,
                        table,
                        CoefficientPosition::Next,
                        1,
                        no_levels().update(0, dc.qfs_zero),
                    );
                    match levels {
                        Err(e) => (Err(e), p2, after),
                        Ok(levels) => (
                            Ok(block_from_levels(levels, p2, ctx, true, weight, idct)),
                            p2,
                            after,
                        ),
                    }
                },
            }
        } else {
            let (levels, p) = walk_at(
                s,
                at,
                table,
                CoefficientPosition::First,
                0,
                no_levels(),
            );
            match levels {
                Err(e) => (Err(e), p, predictors),
                Ok(levels) => (
                    Ok(block_from_levels(levels, p, ctx, false, weight, idct)),
                    p,
                    predictors,
                ),
            }
        },
    }
}

/// Puts levels into their places.
pub fn place_levels(qfs: &[i32; 64], alternate_scan: bool) -> (qf: [[i32; 8]; 8])
    requires
        levels_in_range(qfs@),
    ensures
        qf == level_block(qfs@, alternate_scan),
        forall|v: int, u: int|
            0 <= v < 8 && 0 <= u < 8 ==> -2048 <= #[trigger] qf[v][u] <= 2047,
{
    let mut narrow = [0i16; 64];
    let mut i: usize = 0;
    while i < 64
        invariant
            i <= 64,
            levels_in_range(qfs@),
            forall|j: int| 0 <= j < i ==> #[trigger] narrow@[j] == qfs@[j],
        decreases 64 - i,
    {
        assert(-2047 <= qfs@[i as int] <= 2047);
        narrow[i] = qfs[i] as i16;
        i += 1;
    }
    let qf_narrow = apply_inverse_scan(&narrow, alternate_scan);
    proof {
        lemma_block_entries(|v: int, u: int| narrow@[scan(alternate_scan)[v][u] as int]);
    }
    let ghost want = placed_levels(qfs@, alternate_scan);
    assert forall|a: int, b: int| 0 <= a < 8 && 0 <= b < 8 implies #[trigger] qf_narrow[a][b]
        == want(a, b) by {
        law_scan_then_inverse(alternate_scan, a, b);
    }
    let mut qf = [[0i32; 8]; 8];
    let mut v: usize = 0;
    while v < 8
        invariant
            v <= 8,
            forall|a: int, b: int|
                0 <= a < 8 && 0 <= b < 8 ==> #[trigger] qf_narrow[a][b] == want(a, b),
            forall|a: int, b: int| 0 <= a < v && 0 <= b < 8 ==> #[trigger] qf[a][b] == want(a, b),
        decreases 8 - v,
    {
        let mut u: usize = 0;
        while u < 8
            invariant
                u <= 8,
                v < 8,
                forall|a: int, b: int|
                    0 <= a < 8 && 0 <= b < 8 ==> #[trigger] qf_narrow[a][b] == want(a, b),
                forall|a: int, b: int|
                    0 <= a < v && 0 <= b < 8 ==> #[trigger] qf[a][b] == want(a, b),
                forall|b: int| 0 <= b < u ==> #[trigger] qf[v as int][b] == want(v as int, b),
            decreases 8 - u,
        {
            qf[v][u] = qf_narrow[v][u] as i32;
            u += 1;
        }
        v += 1;
    }
    proof {
        lemma_block_of(qf, want);
        assert forall|v: int, u: int| 0 <= v < 8 && 0 <= u < 8 implies -2048 <= #[trigger] qf[v][u]
            <= 2047 by {
            law_scan_then_inverse(alternate_scan, v, u);
            assert(qf[v][u] == qfs@[scan(alternate_scan)[v][u] as int]);
        }
    }
    qf
}

/// Decodes one block. `idct` is the inverse transform.
pub fn decode_block<F: Fn([[i32; 8]; 8]) -> [[i16; 8]; 8]>(
    br: &mut BitReader<'_>,
    ctx: &BlockContext,
    dc_predictors: &mut DcPredictors,
    component: ColourComponent,
    macroblock_intra: bool,
    weight: &[[u8; 8]; 8],
    idct: &F,
) -> (res: Result<DecodedBlock>)
    requires
        addressable(*old(br)),
        macroblock_intra ==> old(dc_predictors).roomy_for(component),
        is_function(*idct),
    ensures
        reader_bits(*final(br)) == reader_bits(*old(br)),
        (res, reader_pos(*final(br)) as int, *final(dc_predictors)) == block_at(
            reader_bits(*old(br)),
            reader_pos(*old(br)) as int,
            *ctx,
            *old(dc_predictors),
            component,
            macroblock_intra,
            *weight,
            *idct,
        ),
        macroblock_intra && old(dc_predictors).roomy() ==> final(dc_predictors).roomy(),
        final(dc_predictors).intra_dc_precision == old(dc_predictors).intra_dc_precision,
{
    proof {
        reveal(block_at);
    }
    if ctx.intra_dc_precision > 3 {
        return Err(Error::InvalidBitstream(ERR_BLOCK_DC_PRECISION));
    }
    if ctx.quantiser_scale_value == 0 {
        return Err(Error::InvalidBitstream(ERR_BLOCK_SCALE));
    }
    if dc_predictors.intra_dc_precision != ctx.intra_dc_precision {
        return Err(Error::InvalidBitstream(ERR_BLOCK_PREDICTORS));
    }
    let table = TableSelection::from_context(ctx.intra_vlc_format, macroblock_intra);
    let mut qfs = [0i32; 64];
    assert(qfs@ =~= no_levels());
    let end_of_block_bit_position = if macroblock_intra {
        let dc = decode_dc_block(br, dc_predictors, component)?;
        qfs[0] = dc.qfs_zero;
        assert(qfs@ =~= no_levels().update(0, dc.qfs_zero));
        walk_coefficients(br, table, CoefficientPosition::Next, 1, &mut qfs)?
    } else {
        walk_coefficients(br, table, CoefficientPosition::First, 0, &mut qfs)?
    };
    let qf = place_levels(&qfs, ctx.alternate_scan);
    let coding = if macroblock_intra {
        BlockCoding::Intra
    } else {
        BlockCoding::NonIntra
    };
    let intra_dc_mult_value = intra_dc_mult_local(ctx.intra_dc_precision)?;
    proof {
        lemma_small_levels_fit(
            qf,
            coding,
            *weight,
            ctx.quantiser_scale_value,
            intra_dc_mult_value,
        );
        lemma_array_of(qfs);
    }
    let f_quant = inverse_quantise_block(
        &qf,
        coding,
        weight,
        ctx.quantiser_scale_value,
        intra_dc_mult_value,
    );
    let f_pel = idct(f_quant);
    Ok(DecodedBlock { qfs, qf, f_quant, f_pel, end_of_block_bit_position })
}

/// Reading levels does not move back.
pub proof fn lemma_walk_advances(
    s: Seq<bool>,
    at: int,
    table: TableSelection,
    position: CoefficientPosition,
    index: int,
    qfs: Seq<i32>,
)
    ensures
        walk_at(s, at, table, position, index, qfs).1 >= at,
    decreases 64 - index,
{
    let (step, next) = coeff_at(s, at, table, position);
    if let Ok(step) = step {
        if let DctCoeff::RunLevel { run, signed_level, .. } = step.symbol {
            if index + run < 64 {
                lemma_walk_advances(
                    s,
                    next,
                    table,
                    CoefficientPosition::Next,
                    index + run + 1,
                    qfs.update(index + run, signed_level as i32),
                );
            }
        }
    }
}

/// Reading a block does not move back, and leaves room in the predictors.
pub proof fn lemma_block_advances<F: Fn([[i32; 8]; 8]) -> [[i16; 8]; 8]>(
    s: Seq<bool>,
    at: int,
    ctx: BlockContext,
    predictors: DcPredictors,
    component: ColourComponent,
    macroblock_intra: bool,
    weight: [[u8; 8]; 8],
    idct: F,
)
    requires
        predictors.roomy(),
    ensures
        ({
            let (_, next, after) = block_at(
                s,
                at,
                ctx,
                predictors,
                component,
                macroblock_intra,
                weight,
                idct,
            );
            &&& next >= at
            &&& after.roomy()
            &&& after.intra_dc_precision == predictors.intra_dc_precision
        }),
{
    reveal(block_at);
    vstd::arithmetic::power2::lemma2_to64();
    let table = TableSelection::spec_from_context(ctx.intra_vlc_format, macroblock_intra);
    if macroblock_intra {
        let (dc, p1, after) = dc_block_at(s, at, predictors, component);
        if let Ok(dc) = dc {
            lemma_walk_advances(
                s,
                p1,
                table,
                CoefficientPosition::Next,
                1,
                no_levels().update(0, dc.qfs_zero),
            );
        }
    } else {
        lemma_walk_advances(s, at, table, CoefficientPosition::First, 0, no_levels());
    }
}

/// An array holds any 64 entries.
proof fn lemma_array_entries(q: Seq<i32>)
    requires
        q.len() == 64,
    ensures
        array_of(q)@ == q,
{
    let a: [i32; 64] = [
        q[0], q[1], q[2], q[3], q[4], q[5], q[6], q[7],
        q[8], q[9], q[10], q[11], q[12], q[13], q[14], q[15],
        q[16], q[17], q[18], q[19], q[20], q[21], q[22], q[23],
        q[24], q[25], q[26], q[27], q[28], q[29], q[30], q[31],
        q[32], q[33], q[34], q[35], q[36], q[37], q[38], q[39],
        q[40], q[41], q[42], q[43], q[44], q[45], q[46], q[47],
        q[48], q[49], q[50], q[51], q[52], q[53], q[54], q[55],
        q[56], q[57], q[58], q[59], q[60], q[61], q[62], q[63],
    ];
    assert(a@ =~= q);
}

/// The levels that are read go into the entries from `index` on.
proof fn lemma_walk_keeps(
    s: Seq<bool>,
    at: int,
    table: TableSelection,
    position: CoefficientPosition,
    index: int,
    qfs: Seq<i32>,
)
    requires
        0 <= index,
        qfs.len() == 64,
    ensures
        walk_at(s, at, table, position, index, qfs).0 matches Ok(levels) ==> levels.len() == 64 && (
        forall|i: int| 0 <= i < index && i < 64 ==> levels[i] == qfs[i]),
    decreases 64 - index,
{
    let (step, next) = coeff_at(s, at, table, position);
    if let Ok(step) = step {
        if let DctCoeff::RunLevel { run, signed_level, .. } = step.symbol {
            if index + run < 64 {
                lemma_walk_keeps(
                    s,
                    next,
                    table,
                    CoefficientPosition::Next,
                    index + run + 1,
                    qfs.update(index + run, signed_level as i32),
                );
            }
        }
    }
}

/// Of a block that is decoded: its levels in their places are its levels in coded
/// order, scanned; its coefficients are reconstructed from these; its samples lie
/// within nine bits where those of the transform do; it ends where the reader stands.
/// An intra block leaves its DC level as the predictor of its component, and every
/// other predictor stays as it was.
pub proof fn law_decoded_block<F: Fn([[i32; 8]; 8]) -> [[i16; 8]; 8]>(
    s: Seq<bool>,
    at: int,
    ctx: BlockContext,
    predictors: DcPredictors,
    component: ColourComponent,
    macroblock_intra: bool,
    weight: [[u8; 8]; 8],
    idct: F,
)
    requires
        block_at(s, at, ctx, predictors, component, macroblock_intra, weight, idct).0 is Ok,
    ensures
        ({
            let (block, next, after) = block_at(
                s,
                at,
                ctx,
                predictors,
                component,
                macroblock_intra,
                weight,
                idct,
            );
            let b = block->Ok_0;
            &&& forall|v: int, u: int|
                0 <= v < 8 && 0 <= u < 8 ==> #[trigger] b.qf[v][u] == b.qfs[scan(
                    ctx.alternate_scan,
                )[v][u] as int]
            &&& b.f_quant == reconstructed_block(
                b.qf,
                coding_of(macroblock_intra),
                weight,
                ctx.quantiser_scale_value,
                dc_mult_of(ctx.intra_dc_precision)->0 as i32,
            )
            &&& b.f_pel == value_of(idct, b.f_quant)
            &&& gives_samples(idct) ==> samples_in_range(b.f_pel)
            &&& b.end_of_block_bit_position == next as u64
            &&& after == (if macroblock_intra {
                predictors.spec_set(component, b.qfs[0])
            } else {
                predictors
            })
        }),
{
    reveal(block_at);
    let table = TableSelection::spec_from_context(ctx.intra_vlc_format, macroblock_intra);
    let (levels, after) = if macroblock_intra {
        let (dc, p1, after) = dc_block_at(s, at, predictors, component);
        let start = no_levels().update(0, dc->Ok_0.qfs_zero);
        lemma_walk_keeps(s, p1, table, CoefficientPosition::Next, 1, start);
        (walk_at(s, p1, table, CoefficientPosition::Next, 1, start).0->Ok_0, after)
    } else {
        lemma_walk_keeps(s, at, table, CoefficientPosition::First, 0, no_levels());
        (
            walk_at(s, at, table, CoefficientPosition::First, 0, no_levels()).0->Ok_0,
            predictors,
        )
    };
    lemma_array_entries(levels);
    let alt = ctx.alternate_scan;
    let b = block_at(
        s,
        at,
        ctx,
        predictors,
        component,
        macroblock_intra,
        weight,
        idct,
    ).0->Ok_0;
    lemma_block_entries(placed_levels(levels, alt));
    assert forall|v: int, u: int| 0 <= v < 8 && 0 <= u < 8 implies #[trigger] b.qf[v][u]
        == b.qfs[scan(alt)[v][u] as int] by {
        law_scan_then_inverse(alt, v, u);
        assert(b.qfs@[scan(alt)[v][u] as int] == levels[scan(alt)[v][u] as int]);
    }
    assert(b.qfs@[0] == levels[0]);
}

} // verus!
