//! One block of an MPEG-1 macroblock, from its bits to its samples.

use crate::bits::{
    addressable, holds_at, lemma_holds_at_split, lemma_value_bits_len, reader_bits, reader_pos,
    reads_as,
};
use crate::block::{gives_samples, is_function, samples_in_range, value_of};
use crate::dct_coeff::{
    law_mpeg1_coeff_round_trip, law_mpeg1_end_of_block_round_trip, mpeg1_coeff_at,
    mpeg1_coeff_bits, parse_mpeg1_coeff,
};
use crate::dequantize::{
    dequantize_intra_block, dequantize_non_intra_block, dequantized_intra, dequantized_non_intra,
    levels_fit, IntraBlockKind, IntraDcPredictors,
};
use crate::error::{Error, Result};
use crate::mpeg2_block_dc::{
    dc_bits, dc_diff, dc_size_at, differential_at, lemma_dc_round_trip, lemma_diff_field,
    match_dc_size, read_dc_differential, reconstruct_dc_diff, DcComponent,
};
use crate::mpeg2_block_decoder::{
    array_of, lemma_array_of, level_block, no_levels, place_levels, DecodedBlock,
};
use crate::mpeg2_dct_coeff::{eob_symbol_bits, CoefficientPosition, DctCoeff, TableSelection};
use oxideav_core::bits::BitReader;
use vstd::prelude::*;

verus! {

pub const ERR_BLOCK_INDEX: &'static str =
    "mpeg1 intra block index out of the 4:2:0 range 0..=5 (§2.4.3.7)";

pub const ERR_MPEG1_DC_SIZE: &'static str =
    "dct_dc_size: no Table B.5a / B.5b codeword matches the bit prefix (§2.4.3.7)";

pub const ERR_NEXT_OVERRUN: &'static str =
    "dct_coeff_next run overflows the 64-coefficient block (§2.4.3.7)";

pub const ERR_FIRST_END: &'static str = "dct_coeff_first cannot be end_of_block (§2.4.3.7)";

pub const ERR_FIRST_OVERRUN: &'static str =
    "dct_coeff_first run outside the 64-coefficient block (§2.4.3.7)";

/// The kind of an intra block by its index in the macroblock.
pub open spec fn kind_of(block_index: u8) -> Result<IntraBlockKind> {
    if block_index == 0 {
        Ok(IntraBlockKind::LuminanceFirst)
    } else if block_index <= 3 {
        Ok(IntraBlockKind::LuminanceSubsequent)
    } else if block_index == 4 {
        Ok(IntraBlockKind::ChrominanceCb)
    } else if block_index == 5 {
        Ok(IntraBlockKind::ChrominanceCr)
    } else {
        Err(Error::InvalidBitstream(ERR_BLOCK_INDEX))
    }
}

/// The kind of an intra block by its index in the macroblock.
pub fn intra_block_kind(block_index: u8) -> (res: Result<IntraBlockKind>)
    ensures
        res == kind_of(block_index),
{
    Ok(
        match block_index {
            0 => IntraBlockKind::LuminanceFirst,
            1 | 2 | 3 => IntraBlockKind::LuminanceSubsequent,
            4 => IntraBlockKind::ChrominanceCb,
            5 => IntraBlockKind::ChrominanceCr,
            _ => {
                return Err(Error::InvalidBitstream(ERR_BLOCK_INDEX));
            },
        },
    )
}

/// The DC table of a block by its index in the macroblock.
pub open spec fn dc_component_of(block_index: int) -> DcComponent {
    if block_index < 4 {
        DcComponent::Luminance
    } else {
        DcComponent::Chrominance
    }
}

/// The DC table of a block by its index in the macroblock.
pub fn dc_component_for(block_index: usize) -> (c: DcComponent)
    ensures
        c == dc_component_of(block_index as int),
{
    if block_index < 4 {
        DcComponent::Luminance
    } else {
        DcComponent::Chrominance
    }
}

/// The DC difference at `at`: a size of at most 8 bits, and the differential.
pub open spec fn mpeg1_dc_at(s: Seq<bool>, at: int, component: DcComponent) -> (Result<i32>, int) {
    let (size, p) = dc_size_at(s, at, component, 9, ERR_MPEG1_DC_SIZE);
    match size {
        Err(e) => (Err(e), p),
        Ok(size) => {
            let (raw, q) = differential_at(s, p, size);
            match raw {
                Err(e) => (Err(e), q),
                Ok(raw) => (Ok(dc_diff(size, raw as int) as i32), q),
            }
        },
    }
}

/// Reads a DC difference.
pub fn read_mpeg1_dc(br: &mut BitReader<'_>, component: DcComponent) -> (res: Result<i32>)
    ensures
        reads_as(
            *old(br),
            *final(br),
            res,
            mpeg1_dc_at(reader_bits(*old(br)), reader_pos(*old(br)) as int, component),
        ),
        res matches Ok(d) ==> -255 <= d <= 255,
{
    proof {
        vstd::arithmetic::power2::lemma2_to64();
    }
    let size = match_dc_size(br, component, 9, ERR_MPEG1_DC_SIZE)?;
    let raw = read_dc_differential(br, size)?;
    let ghost n = size;
    assert(vstd::arithmetic::power2::pow2(n as nat) <= 256);
    Ok(reconstruct_dc_diff(size, raw))
}

/// The levels of a block from the symbols at `at` on, where `last` is the index of
/// the level before: each level comes `run + 1` entries after the last, until the
/// end of block.
pub open spec fn mpeg1_walk_at(
    s: Seq<bool>,
    at: int,
    last: int,
    dct_zz: Seq<i32>,
) -> (Result<Seq<i32>>, int)
    decreases 64 - last,
{
    let (step, next) = mpeg1_coeff_at(s, at, CoefficientPosition::Next);
    match step {
        Err(e) => (Err(e), next),
        Ok(step) => match step.symbol {
            DctCoeff::EndOfBlock => (Ok(dct_zz), next),
            DctCoeff::RunLevel { run, signed_level, .. } => if last + run + 1 >= 64 {
                (Err(Error::InvalidBitstream(ERR_NEXT_OVERRUN)), next)
            } else {
                mpeg1_walk_at(
                    s,
                    next,
                    last + run + 1,
                    dct_zz.update(last + run + 1, signed_level as i32),
                )
            },
        },
    }
}

/// Whether every level is one that an MPEG-1 block can hold.
pub open spec fn mpeg1_levels(dct_zz: Seq<i32>) -> bool {
    dct_zz.len() == 64 && forall|i: int|
        0 <= i < 64 ==> -255 <= #[trigger] dct_zz[i] <= 255
}

/// Reads the symbols of a block into `dct_zz`, after the level at `start`.
pub fn walk_next_coefficients(
    br: &mut BitReader<'_>,
    dct_zz: &mut [i32; 64],
    start: usize,
) -> (res: Result<()>)
    requires
        addressable(*old(br)),
        start < 64,
        mpeg1_levels(old(dct_zz)@),
    ensures
        reader_bits(*final(br)) == reader_bits(*old(br)),
        ({
            let (want, next) = mpeg1_walk_at(
                reader_bits(*old(br)),
                reader_pos(*old(br)) as int,
                start as int,
                old(dct_zz)@,
            );
            &&& reader_pos(*final(br)) == next
            &&& match want {
                Ok(levels) => res == Ok::<(), Error>(()) && final(dct_zz)@ == levels,
                Err(e) => res == Err::<(), Error>(e),
            }
        }),
        mpeg1_levels(final(dct_zz)@),
{
    let ghost s = reader_bits(*br);
    let ghost whole = mpeg1_walk_at(s, reader_pos(*br) as int, start as int, dct_zz@);
    let mut i: usize = start;
    loop
        invariant
            i < 64,
            reader_bits(*br) == s,
            addressable(*br),
            s == reader_bits(*old(br)),
            mpeg1_levels(dct_zz@),
            whole == mpeg1_walk_at(
                s,
                reader_pos(*old(br)) as int,
                start as int,
                old(dct_zz)@,
            ),
            mpeg1_walk_at(s, reader_pos(*br) as int, i as int, dct_zz@) == whole,
        decreases 64 - i,
    {
        let step = parse_mpeg1_coeff(br, CoefficientPosition::Next)?;
        match step.symbol {
            DctCoeff::EndOfBlock => {
                return Ok(());
            },
            DctCoeff::RunLevel { run, signed_level, .. } => {
                let target: usize = i + run as usize + 1;
                if target >= 64 {
                    return Err(Error::InvalidBitstream(ERR_NEXT_OVERRUN));
                }
                let ghost before = dct_zz@;
                dct_zz[target] = signed_level as i32;
                assert(dct_zz@ =~= before.update(target as int, signed_level as i32));
                i = target;
            },
        }
    }
}

/// The block of given levels and coefficients.
pub open spec fn mpeg1_block<F: Fn([[i32; 8]; 8]) -> [[i16; 8]; 8]>(
    dct_zz: Seq<i32>,
    dct_recon: [[i32; 8]; 8],
    end: int,
    idct: F,
) -> DecodedBlock {
    DecodedBlock {
        qfs: array_of(dct_zz),
        qf: level_block(dct_zz, false),
        f_quant: dct_recon,
        f_pel: value_of(idct, dct_recon),
        end_of_block_bit_position: end as u64,
    }
}

/// The block of intra levels, and the predictions after it.
pub open spec fn intra_from_levels<F: Fn([[i32; 8]; 8]) -> [[i16; 8]; 8]>(
    dct_zz: Seq<i32>,
    end: int,
    kind: IntraBlockKind,
    quantizer_scale: u8,
    intra_quant: [[u8; 8]; 8],
    predictors: IntraDcPredictors,
    address: i32,
    idct: F,
) -> (Result<DecodedBlock>, IntraDcPredictors) {
    let (recon, after) = dequantized_intra(
        dct_zz,
        quantizer_scale,
        intra_quant,
        kind,
        predictors,
        address,
    );
    match recon {
        Err(e) => (Err(e), after),
        Ok(recon) => (Ok(mpeg1_block(dct_zz, recon, end, idct)), after),
    }
}

/// The intra levels at `at`, with those after the DC difference where `with_ac`.
pub open spec fn intra_levels_at(
    s: Seq<bool>,
    at: int,
    block_index: u8,
    with_ac: bool,
) -> (Result<Seq<i32>>, int) {
    let (dc, p) = mpeg1_dc_at(s, at, dc_component_of(block_index as int));
    match dc {
        Err(e) => (Err(e), p),
        Ok(dc) => if with_ac {
            mpeg1_walk_at(s, p, 0, no_levels().update(0, dc))
        } else {
            (Ok(no_levels().update(0, dc)), p)
        },
    }
}

/// The intra block at `at`, the position after it, and the predictions that it
/// leaves. The blocks of a D-picture have no levels but the DC difference, and no
/// end of block.
#[verifier::opaque]
pub open spec fn mpeg1_intra_at<F: Fn([[i32; 8]; 8]) -> [[i16; 8]; 8]>(
    s: Seq<bool>,
    at: int,
    block_index: u8,
    with_ac: bool,
    quantizer_scale: u8,
    intra_quant: [[u8; 8]; 8],
    predictors: IntraDcPredictors,
    address: i32,
    idct: F,
) -> (Result<DecodedBlock>, int, IntraDcPredictors) {
    match kind_of(block_index) {
        Err(e) => (Err(e), at, predictors),
        Ok(kind) => {
            let (levels, p) = intra_levels_at(s, at, block_index, with_ac);
            match levels {
                Err(e) => (Err(e), p, predictors),
                Ok(levels) => {
                    let (block, after) = intra_from_levels(
                        levels,
                        p,
                        kind,
                        quantizer_scale,
                        intra_quant,
                        predictors,
                        address,
                        idct,
                    );
                    (block, p, after)
                },
            }
        },
    }
}

fn finish_intra<F: Fn([[i32; 8]; 8]) -> [[i16; 8]; 8]>(
    dct_zz: [i32; 64],
    end: u64,
    kind: IntraBlockKind,
    quantizer_scale: u8,
    intra_quant: &[[u8; 8]; 8],
    predictors: &mut IntraDcPredictors,
    macroblock_address: i32,
    idct: &F,
) -> (res: Result<DecodedBlock>)
    requires
        is_function(*idct),
        mpeg1_levels(dct_zz@),
    ensures
        (res, *final(predictors)) == intra_from_levels(
            dct_zz@,
            end as int,
            kind,
            quantizer_scale,
            *intra_quant,
            *old(predictors),
            macroblock_address,
            *idct,
        ),
{
    assert(levels_fit(dct_zz@));
    let dct_recon = dequantize_intra_block(
        &dct_zz,
        quantizer_scale,
        intra_quant,
        kind,
        predictors,
        macroblock_address,
    )?;
    let f_pel = idct(dct_recon);
    proof {
        lemma_array_of(dct_zz);
        assert(call_ensures(*idct, (dct_recon,), f_pel));
    }
    Ok(
        DecodedBlock {
            qfs: dct_zz,
            qf: place_levels(&dct_zz, false),
            f_quant: dct_recon,
            f_pel,
            end_of_block_bit_position: end,
        },
    )
}

/// Decodes an intra block. `idct` is the inverse transform.
pub fn decode_intra_block<F: Fn([[i32; 8]; 8]) -> [[i16; 8]; 8]>(
    br: &mut BitReader<'_>,
    block_index: u8,
    quantizer_scale: u8,
    intra_quant: &[[u8; 8]; 8],
    predictors: &mut IntraDcPredictors,
    macroblock_address: i32,
    idct: &F,
) -> (res: Result<DecodedBlock>)
    requires
        addressable(*old(br)),
        is_function(*idct),
    ensures
        reader_bits(*final(br)) == reader_bits(*old(br)),
        (res, reader_pos(*final(br)) as int, *final(predictors)) == mpeg1_intra_at(
            reader_bits(*old(br)),
            reader_pos(*old(br)) as int,
            block_index,
            true,
            quantizer_scale,
            *intra_quant,
            *old(predictors),
            macroblock_address,
            *idct,
        ),
{
    proof {
        reveal(mpeg1_intra_at);
    }
    let kind = intra_block_kind(block_index)?;
    let mut dct_zz = [0i32; 64];
    let dc = read_mpeg1_dc(br, dc_component_for(block_index as usize))?;
    dct_zz[0] = dc;
    assert(dct_zz@ =~= no_levels().update(0, dc));
    walk_next_coefficients(br, &mut dct_zz, 0)?;
    finish_intra(
        dct_zz,
        br.bit_position(),
        kind,
        quantizer_scale,
        intra_quant,
        predictors,
        macroblock_address,
        idct,
    )
}

/// Decodes a block of a D-picture. `idct` is the inverse transform.
pub fn decode_d_block<F: Fn([[i32; 8]; 8]) -> [[i16; 8]; 8]>(
    br: &mut BitReader<'_>,
    block_index: u8,
    quantizer_scale: u8,
    intra_quant: &[[u8; 8]; 8],
    predictors: &mut IntraDcPredictors,
    macroblock_address: i32,
    idct: &F,
) -> (res: Result<DecodedBlock>)
    requires
        addressable(*old(br)),
        is_function(*idct),
    ensures
        reader_bits(*final(br)) == reader_bits(*old(br)),
        (res, reader_pos(*final(br)) as int, *final(predictors)) == mpeg1_intra_at(
            reader_bits(*old(br)),
            reader_pos(*old(br)) as int,
            block_index,
            false,
            quantizer_scale,
            *intra_quant,
            *old(predictors),
            macroblock_address,
            *idct,
        ),
{
    proof {
        reveal(mpeg1_intra_at);
    }
    let kind = intra_block_kind(block_index)?;
    let mut dct_zz = [0i32; 64];
    let dc = read_mpeg1_dc(br, dc_component_for(block_index as usize))?;
    dct_zz[0] = dc;
    assert(dct_zz@ =~= no_levels().update(0, dc));
    finish_intra(
        dct_zz,
        br.bit_position(),
        kind,
        quantizer_scale,
        intra_quant,
        predictors,
        macroblock_address,
        idct,
    )
}

/// The non-intra levels at `at`.
pub open spec fn non_intra_levels_at(s: Seq<bool>, at: int) -> (Result<Seq<i32>>, int) {
    let (first, p) = mpeg1_coeff_at(s, at, CoefficientPosition::First);
    match first {
        Err(e) => (Err(e), p),
        Ok(step) => match step.symbol {
            DctCoeff::EndOfBlock => (Err(Error::InvalidBitstream(ERR_FIRST_END)), p),
            DctCoeff::RunLevel { run, signed_level, .. } => if run >= 64 {
                (Err(Error::InvalidBitstream(ERR_FIRST_OVERRUN)), p)
            } else {
                mpeg1_walk_at(
                    s,
                    p,
                    run as int,
                    no_levels().update(run as int, signed_level as i32),
                )
            },
        },
    }
}

/// The non-intra block at `at`, and the position after it.
#[verifier::opaque]
pub open spec fn mpeg1_non_intra_at<F: Fn([[i32; 8]; 8]) -> [[i16; 8]; 8]>(
    s: Seq<bool>,
    at: int,
    quantizer_scale: u8,
    non_intra_quant: [[u8; 8]; 8],
    idct: F,
) -> (Result<DecodedBlock>, int) {
    let (levels, p) = non_intra_levels_at(s, at);
    match levels {
        Err(e) => (Err(e), p),
        Ok(levels) => match dequantized_non_intra(levels, quantizer_scale, non_intra_quant) {
            Err(e) => (Err(e), p),
            Ok(recon) => (Ok(mpeg1_block(levels, recon, p, idct)), p),
        },
    }
}

/// Decodes a non-intra block. `idct` is the inverse transform.
pub fn decode_non_intra_block<F: Fn([[i32; 8]; 8]) -> [[i16; 8]; 8]>(
    br: &mut BitReader<'_>,
    quantizer_scale: u8,
    non_intra_quant: &[[u8; 8]; 8],
    idct: &F,
) -> (res: Result<DecodedBlock>)
    requires
        addressable(*old(br)),
        is_function(*idct),
    ensures
        reads_as(
            *old(br),
            *final(br),
            res,
            mpeg1_non_intra_at(
                reader_bits(*old(br)),
                reader_pos(*old(br)) as int,
                quantizer_scale,
                *non_intra_quant,
                *idct,
            ),
        ),
{
    proof {
        reveal(mpeg1_non_intra_at);
    }
    let mut dct_zz = [0i32; 64];
    let first = parse_mpeg1_coeff(br, CoefficientPosition::First)?;
    match first.symbol {
        DctCoeff::EndOfBlock => {
            return Err(Error::InvalidBitstream(ERR_FIRST_END));
        },
        DctCoeff::RunLevel { run, signed_level, .. } => {
            let i = run as usize;
            if i >= 64 {
                return Err(Error::InvalidBitstream(ERR_FIRST_OVERRUN));
            }
            dct_zz[i] = signed_level as i32;
            assert(dct_zz@ =~= no_levels().update(run as int, signed_level as i32));
            walk_next_coefficients(br, &mut dct_zz, i)?;
        },
    }
    assert(levels_fit(dct_zz@));
    let dct_recon = dequantize_non_intra_block(&dct_zz, quantizer_scale, non_intra_quant)?;
    let f_pel = idct(dct_recon);
    proof {
        lemma_array_of(dct_zz);
        assert(call_ensures(*idct, (dct_recon,), f_pel));
    }
    Ok(
        DecodedBlock {
            qfs: dct_zz,
            qf: place_levels(&dct_zz, false),
            f_quant: dct_recon,
            f_pel,
            end_of_block_bit_position: br.bit_position(),
        },
    )
}

// ---------------------------------------------------------------------------
// The bits of levels
// ---------------------------------------------------------------------------

/// The bits of the levels from entry `j` on, where `last` is the index of the
/// level before, with the end of block.
pub open spec fn next_levels_bits(dct_zz: Seq<i32>, last: int, j: int) -> Seq<bool>
    decreases 64 - j,
{
    if j >= 64 {
        eob_symbol_bits(TableSelection::TableZero)
    } else if dct_zz[j] == 0 {
        next_levels_bits(dct_zz, last, j + 1)
    } else {
        mpeg1_coeff_bits(CoefficientPosition::Next, j - last - 1, dct_zz[j] as int)
            + next_levels_bits(dct_zz, j, j + 1)
    }
}

/// The first entry from `j` on that holds a level; 64 where none does.
pub open spec fn first_level(dct_zz: Seq<i32>, j: int) -> int
    decreases 64 - j,
{
    if j >= 64 {
        64
    } else if dct_zz[j] != 0 {
        j
    } else {
        first_level(dct_zz, j + 1)
    }
}

/// The bits of a non-intra block.
pub open spec fn non_intra_bits(dct_zz: Seq<i32>) -> Seq<bool> {
    let j = first_level(dct_zz, 0);
    if j >= 64 {
        eob_symbol_bits(TableSelection::TableZero)
    } else {
        mpeg1_coeff_bits(CoefficientPosition::First, j, dct_zz[j] as int) + next_levels_bits(
            dct_zz,
            j,
            j + 1,
        )
    }
}

/// The bits of an intra block.
pub open spec fn intra_bits(block_index: int, dct_zz: Seq<i32>) -> Seq<bool> {
    dc_bits(dc_component_of(block_index), dct_zz[0] as int) + next_levels_bits(dct_zz, 0, 1)
}

/// The levels with those from entry `j` on left out.
pub open spec fn levels_before(dct_zz: Seq<i32>, j: int) -> Seq<i32> {
    Seq::new(64, |i: int| if i < j { dct_zz[i] } else { 0i32 })
}

/// Levels that were written are read back.
pub proof fn lemma_next_levels_read(
    s: Seq<bool>,
    at: int,
    dct_zz: Seq<i32>,
    last: int,
    j: int,
)
    requires
        mpeg1_levels(dct_zz),
        0 <= last < j <= 64,
        forall|i: int| last < i < j ==> #[trigger] dct_zz[i] == 0,
        holds_at(s, at, next_levels_bits(dct_zz, last, j)),
    ensures
        mpeg1_walk_at(s, at, last, levels_before(dct_zz, j)) == (
            Ok::<Seq<i32>, Error>(dct_zz),
            at + next_levels_bits(dct_zz, last, j).len(),
        ),
    decreases 64 - j,
{
    if j >= 64 {
        lemma_value_bits_len(0b10, 2);
        law_mpeg1_end_of_block_round_trip(s, at);
        assert(levels_before(dct_zz, j) =~= dct_zz);
    } else if dct_zz[j] == 0 {
        assert(levels_before(dct_zz, j) =~= levels_before(dct_zz, j + 1));
        lemma_next_levels_read(s, at, dct_zz, last, j + 1);
    } else {
        let run = j - last - 1;
        let head = mpeg1_coeff_bits(CoefficientPosition::Next, run, dct_zz[j] as int);
        let tail = next_levels_bits(dct_zz, j, j + 1);
        lemma_holds_at_split(s, at, head, tail);
        law_mpeg1_coeff_round_trip(
            s,
            at,
            CoefficientPosition::Next,
            run,
            dct_zz[j] as int,
        );
        assert(levels_before(dct_zz, j).update(j, dct_zz[j]) =~= levels_before(dct_zz, j + 1));
        lemma_next_levels_read(s, at + head.len(), dct_zz, j, j + 1);
    }
}

pub proof fn lemma_first_level(dct_zz: Seq<i32>, j: int)
    requires
        0 <= j <= 64,
    ensures
        j <= first_level(dct_zz, j) <= 64,
        forall|i: int| j <= i < first_level(dct_zz, j) ==> #[trigger] dct_zz[i] == 0,
        first_level(dct_zz, j) < 64 ==> dct_zz[first_level(dct_zz, j)] != 0,
    decreases 64 - j,
{
    if j < 64 && dct_zz[j] == 0 {
        lemma_first_level(dct_zz, j + 1);
    }
}

/// The levels of an intra block that was written are read back, and the reader
/// ends where the writer did.
pub proof fn law_intra_levels_round_trip(
    s: Seq<bool>,
    at: int,
    block_index: u8,
    dct_zz: Seq<i32>,
)
    requires
        mpeg1_levels(dct_zz),
        holds_at(s, at, intra_bits(block_index as int, dct_zz)),
    ensures
        intra_levels_at(s, at, block_index, true) == (
            Ok::<Seq<i32>, Error>(dct_zz),
            at + intra_bits(block_index as int, dct_zz).len(),
        ),
{
    let component = dc_component_of(block_index as int);
    let head = dc_bits(component, dct_zz[0] as int);
    lemma_diff_field(dct_zz[0] as int);
    lemma_holds_at_split(s, at, head, next_levels_bits(dct_zz, 0, 1));
    lemma_dc_round_trip(s, at, component, 9, ERR_MPEG1_DC_SIZE, dct_zz[0] as int);
    lemma_next_levels_read(s, at + head.len(), dct_zz, 0, 1);
    assert(levels_before(dct_zz, 1) =~= no_levels().update(0, dct_zz[0]));
}

/// The levels of a non-intra block that was written are read back, provided that
/// there is one, and the reader ends where the writer did.
pub proof fn law_non_intra_levels_round_trip(s: Seq<bool>, at: int, dct_zz: Seq<i32>)
    requires
        mpeg1_levels(dct_zz),
        exists|i: int| 0 <= i < 64 && #[trigger] dct_zz[i] != 0,
        holds_at(s, at, non_intra_bits(dct_zz)),
    ensures
        non_intra_levels_at(s, at) == (
            Ok::<Seq<i32>, Error>(dct_zz),
            at + non_intra_bits(dct_zz).len(),
        ),
{
    lemma_first_level(dct_zz, 0);
    let j = first_level(dct_zz, 0);
    let head = mpeg1_coeff_bits(CoefficientPosition::First, j, dct_zz[j] as int);
    lemma_holds_at_split(s, at, head, next_levels_bits(dct_zz, j, j + 1));
    law_mpeg1_coeff_round_trip(s, at, CoefficientPosition::First, j, dct_zz[j] as int);
    lemma_next_levels_read(s, at + head.len(), dct_zz, j, j + 1);
    assert(levels_before(dct_zz, j + 1) =~= no_levels().update(j, dct_zz[j]));
}

/// Reading levels does not move back.
pub proof fn lemma_mpeg1_walk_advances(s: Seq<bool>, at: int, last: int, dct_zz: Seq<i32>)
    ensures
        mpeg1_walk_at(s, at, last, dct_zz).1 >= at,
    decreases 64 - last,
{
    let (step, next) = mpeg1_coeff_at(s, at, CoefficientPosition::Next);
    if let Ok(step) = step {
        if let DctCoeff::RunLevel { run, signed_level, .. } = step.symbol {
            if last + run + 1 < 64 {
                lemma_mpeg1_walk_advances(
                    s,
                    next,
                    last + run + 1,
                    dct_zz.update(last + run + 1, signed_level as i32),
                );
            }
        }
    }
}

/// Reading intra levels does not move back.
pub proof fn lemma_intra_levels_advance(
    s: Seq<bool>,
    at: int,
    block_index: u8,
    with_ac: bool,
)
    ensures
        intra_levels_at(s, at, block_index, with_ac).1 >= at,
{
    let (dc, p) = mpeg1_dc_at(s, at, dc_component_of(block_index as int));
    if let Ok(dc) = dc {
        lemma_mpeg1_walk_advances(s, p, 0, no_levels().update(0, dc));
    }
}

/// Reading non-intra levels does not move back.
pub proof fn lemma_non_intra_levels_advance(s: Seq<bool>, at: int)
    ensures
        non_intra_levels_at(s, at).1 >= at,
{
    let (first, p) = mpeg1_coeff_at(s, at, CoefficientPosition::First);
    if let Ok(step) = first {
        if let DctCoeff::RunLevel { run, signed_level, .. } = step.symbol {
            if run < 64 {
                lemma_mpeg1_walk_advances(
                    s,
                    p,
                    run as int,
                    no_levels().update(run as int, signed_level as i32),
                );
            }
        }
    }
}

/// Reading a block does not move back.
pub proof fn lemma_mpeg1_blocks_advance<F: Fn([[i32; 8]; 8]) -> [[i16; 8]; 8]>(
    s: Seq<bool>,
    at: int,
    block_index: u8,
    with_ac: bool,
    quantizer_scale: u8,
    quant: [[u8; 8]; 8],
    predictors: IntraDcPredictors,
    address: i32,
    idct: F,
)
    ensures
        mpeg1_intra_at(
            s,
            at,
            block_index,
            with_ac,
            quantizer_scale,
            quant,
            predictors,
            address,
            idct,
        ).1 >= at,
        mpeg1_non_intra_at(s, at, quantizer_scale, quant, idct).1 >= at,
{
    reveal(mpeg1_intra_at);
    reveal(mpeg1_non_intra_at);
    lemma_intra_levels_advance(s, at, block_index, with_ac);
    lemma_non_intra_levels_advance(s, at);
}

/// The samples of an intra block, or of a block of a D-picture, lie within nine bits
/// where those of the transform do.
pub proof fn law_intra_samples_in_range<F: Fn([[i32; 8]; 8]) -> [[i16; 8]; 8]>(
    s: Seq<bool>,
    at: int,
    block_index: u8,
    with_ac: bool,
    quantizer_scale: u8,
    intra_quant: [[u8; 8]; 8],
    predictors: IntraDcPredictors,
    address: i32,
    idct: F,
)
    requires
        gives_samples(idct),
    ensures
        mpeg1_intra_at(
            s,
            at,
            block_index,
            with_ac,
            quantizer_scale,
            intra_quant,
            predictors,
            address,
            idct,
        ).0 matches Ok(b) ==> b.f_pel == value_of(idct, b.f_quant) && samples_in_range(b.f_pel),
{
    reveal(mpeg1_intra_at);
}

/// The samples of a non-intra block lie within nine bits where those of the transform
/// do.
pub proof fn law_non_intra_samples_in_range<F: Fn([[i32; 8]; 8]) -> [[i16; 8]; 8]>(
    s: Seq<bool>,
    at: int,
    quantizer_scale: u8,
    non_intra_quant: [[u8; 8]; 8],
    idct: F,
)
    requires
        gives_samples(idct),
    ensures
        mpeg1_non_intra_at(s, at, quantizer_scale, non_intra_quant, idct).0 matches Ok(b)
            ==> b.f_pel == value_of(idct, b.f_quant) && samples_in_range(b.f_pel),
{
    reveal(mpeg1_non_intra_at);
}

/// A block of a D-picture is flat: all its coefficients but the DC coefficient are zero.
pub proof fn law_d_block_is_flat<F: Fn([[i32; 8]; 8]) -> [[i16; 8]; 8]>(
    s: Seq<bool>,
    at: int,
    block_index: u8,
    quantizer_scale: u8,
    intra_quant: [[u8; 8]; 8],
    predictors: IntraDcPredictors,
    address: i32,
    idct: F,
    v: int,
    u: int,
)
    requires
        0 <= v < 8,
        0 <= u < 8,
        !(v == 0 && u == 0),
    ensures
        mpeg1_intra_at(
            s,
            at,
            block_index,
            false,
            quantizer_scale,
            intra_quant,
            predictors,
            address,
            idct,
        ).0 matches Ok(b) ==> b.f_quant[v][u] == 0,
{
    reveal(mpeg1_intra_at);
    let (dc, _) = mpeg1_dc_at(s, at, dc_component_of(block_index as int));
    if let Ok(dc) = dc {
        if let Ok(kind) = kind_of(block_index) {
            let levels = no_levels().update(0, dc);
            let now = (crate::dequantize::dc_base_of(kind, predictors, address) + 8 * levels[0])
                as i32;
            crate::mpeg2_inverse_scan::law_scan_then_inverse(false, v, u);
            assert(crate::mpeg2_inverse_scan::scan(false)[v][u] != 0);
            crate::block::lemma_block_entries(
                crate::dequantize::intra_coefficients(levels, quantizer_scale, intra_quant, now),
            );
            let step = quantizer_scale as int * intra_quant[v][u] as int;
            assert(0 * step == 0);
        }
    }
}

} // verus!
