//! The coefficient symbols of MPEG-1 blocks: the codewords of Table B-14 with the
//! one- and two-byte escape of Table B.5f.

use crate::bits::{
    addressable, be_value, codeword_at, lemma_value_bits_len, lemma_value_bits_read, read_field,
    read_flag, reader_bits, reader_pos, reads_as, value_bits, writer_bits,
};
use crate::error::{Error, Result};
use crate::mpeg2_dct_coeff::{
    coeff_row_at, coeff_rows, eob_symbol_bits, find_code, find_row, lemma_coeff_row_unique,
    lemma_coeff_rows, lemma_row_codes_unique, row_codes, CoefficientPosition, DctCoeff,
    DctCoeffStep, TableSelection, EOB_B14_BITS, EOB_B14_CODE, ERR_NO_CODEWORD, ESCAPE_BITS,
    ESCAPE_CODE,
};
use crate::vlc::{at_codeword, lemma_prefix_free, lemma_written_codeword};
use oxideav_core::bits::{BitReader, BitWriter};
use vstd::arithmetic::power2::lemma2_to64;
use vstd::prelude::*;

verus! {

pub const ERR_ESCAPE_LEVEL: &'static str =
    "escape level: the byte pair is not listed in Table B.5f (§2.4.3.7)";

/// The level that a byte spells alone.
pub open spec fn short_level(first: int) -> int {
    if first >= 0x80 {
        first - 0x100
    } else {
        first
    }
}

/// Whether a level is spelt with two bytes: the first then says its sign.
pub open spec fn takes_two_bytes(first: int) -> bool {
    first == 0 || first == 0x80
}

/// The level that two bytes spell, if any.
pub open spec fn long_level(first: int, second: int) -> Option<int> {
    if first == 0 && 0x80 <= second {
        Some(second)
    } else if first == 0x80 && 1 <= second <= 0x80 {
        Some(second - 0x100)
    } else {
        None
    }
}

pub open spec fn escaped(run: int, level: int, next: int) -> DctCoeffStep {
    DctCoeffStep {
        symbol: DctCoeff::RunLevel { run: run as u8, signed_level: level as i16, escape: true },
        bit_position_after: next as u64,
    }
}

/// The escaped symbol at `at`.
pub open spec fn mpeg1_escape_at(s: Seq<bool>, at: int) -> (Result<DctCoeffStep>, int) {
    let run = be_value(s, at + 6, 6);
    let first = be_value(s, at + 12, 8);
    if !takes_two_bytes(first) {
        (Ok(escaped(run, short_level(first), at + 20)), at + 20)
    } else if at + 28 > s.len() {
        (Err(Error::ShortHeader), at + 20)
    } else {
        match long_level(first, be_value(s, at + 20, 8)) {
            Some(level) => (Ok(escaped(run, level, at + 28)), at + 28),
            None => (Err(Error::InvalidBitstream(ERR_ESCAPE_LEVEL)), at + 28),
        }
    }
}

/// The symbol at `at`, and the position after it.
pub open spec fn mpeg1_coeff_at(
    s: Seq<bool>,
    at: int,
    position: CoefficientPosition,
) -> (Result<DctCoeffStep>, int) {
    let table = TableSelection::TableZero;
    if at >= s.len() {
        (Err(Error::ShortHeader), at)
    } else if exists|i: int| coeff_row_at(s, at, table, position, i) {
        let i = choose|i: int| coeff_row_at(s, at, table, position, i);
        let row = coeff_rows(table)[i];
        let next = at + row.1 + 1;
        (
            Ok(
                (DctCoeffStep {
                    symbol: DctCoeff::RunLevel {
                        run: row.2,
                        signed_level: (if s[at + row.1] {
                            -(row.3 as int)
                        } else {
                            row.3 as int
                        }) as i16,
                        escape: false,
                    },
                    bit_position_after: next as u64,
                }),
            ),
            next,
        )
    } else if codeword_at(s, at, ESCAPE_CODE as int, ESCAPE_BITS as int) && at + 20 <= s.len() {
        mpeg1_escape_at(s, at)
    } else if position == CoefficientPosition::Next && codeword_at(
        s,
        at,
        EOB_B14_CODE as int,
        EOB_B14_BITS as int,
    ) {
        (
            Ok(
                (DctCoeffStep {
                    symbol: DctCoeff::EndOfBlock,
                    bit_position_after: (at + 2) as u64,
                }),
            ),
            at + 2,
        )
    } else {
        (Err(Error::InvalidBitstream(ERR_NO_CODEWORD)), at)
    }
}

/// Whether a symbol has a run and a level that an MPEG-1 block can hold.
pub open spec fn mpeg1_symbol(step: DctCoeffStep) -> bool {
    step.symbol matches DctCoeff::RunLevel { run, signed_level, .. } ==> run <= 63 && -255
        <= signed_level <= 255 && signed_level != 0
}

/// Reads the symbol at the cursor. Nothing is consumed where none matches.
pub fn parse_mpeg1_coeff(br: &mut BitReader<'_>, position: CoefficientPosition) -> (res: Result<
    DctCoeffStep,
>)
    requires
        addressable(*old(br)),
    ensures
        reads_as(
            *old(br),
            *final(br),
            res,
            mpeg1_coeff_at(reader_bits(*old(br)), reader_pos(*old(br)) as int, position),
        ),
        res matches Ok(step) ==> mpeg1_symbol(step),
{
    let ghost s = reader_bits(*br);
    let ghost at = reader_pos(*br) as int;
    let table = TableSelection::TableZero;
    if br.bits_remaining() == 0 {
        return Err(Error::ShortHeader);
    }
    match find_row(br, table, position) {
        Some(row) => {
            proof {
                let i = choose|i: int|
                    #[trigger] coeff_row_at(s, at, table, position, i) && row == coeff_rows(
                        table,
                    )[i];
                lemma_coeff_row_unique(s, at, table, position, i);
                lemma_coeff_rows(table, i, i);
            }
            let _ = br.skip(row.1 as u32);
            let negative = read_flag(br)?;
            let signed_level: i16 = if negative {
                -(row.3 as i16)
            } else {
                row.3 as i16
            };
            return Ok(
                DctCoeffStep {
                    symbol: DctCoeff::RunLevel { run: row.2, signed_level, escape: false },
                    bit_position_after: br.bit_position(),
                },
            );
        },
        None => {},
    }
    if br.bits_remaining() >= 20 && at_codeword(br, ESCAPE_CODE, ESCAPE_BITS) {
        return parse_mpeg1_escape(br);
    }
    if position == CoefficientPosition::Next && at_codeword(br, EOB_B14_CODE, EOB_B14_BITS) {
        let _ = br.skip(EOB_B14_BITS);
        return Ok(
            DctCoeffStep { symbol: DctCoeff::EndOfBlock, bit_position_after: br.bit_position() },
        );
    }
    Err(Error::InvalidBitstream(ERR_NO_CODEWORD))
}

/// Reads an escaped symbol, the escape codeword included.
fn parse_mpeg1_escape(br: &mut BitReader<'_>) -> (res: Result<DctCoeffStep>)
    requires
        addressable(*old(br)),
        reader_pos(*old(br)) + 20 <= reader_bits(*old(br)).len(),
    ensures
        reads_as(
            *old(br),
            *final(br),
            res,
            mpeg1_escape_at(reader_bits(*old(br)), reader_pos(*old(br)) as int),
        ),
        res matches Ok(step) ==> mpeg1_symbol(step),
{
    proof {
        lemma2_to64();
    }
    let _ = br.skip(ESCAPE_BITS);
    let run = read_field(br, 6)? as u8;
    let first = read_field(br, 8)?;
    if first != 0 && first != 0x80 {
        let signed_level: i16 = if first >= 0x80 {
            (first as i32 - 0x100) as i16
        } else {
            first as i16
        };
        return Ok(
            DctCoeffStep {
                symbol: DctCoeff::RunLevel { run, signed_level, escape: true },
                bit_position_after: br.bit_position(),
            },
        );
    }
    let second = read_field(br, 8)?;
    let signed_level: i16 = if first == 0 && second >= 0x80 {
        second as i16
    } else if first == 0x80 && 1 <= second && second <= 0x80 {
        (second as i32 - 0x100) as i16
    } else {
        return Err(Error::InvalidBitstream(ERR_ESCAPE_LEVEL));
    };
    Ok(
        DctCoeffStep {
            symbol: DctCoeff::RunLevel { run, signed_level, escape: true },
            bit_position_after: br.bit_position(),
        },
    )
}

/// The bits of an escaped level.
pub open spec fn escape_level_bits(level: int) -> Seq<bool> {
    if level >= 128 {
        value_bits(0, 8) + value_bits(level, 8)
    } else if level > 0 {
        value_bits(level, 8)
    } else if level > -128 {
        value_bits(level + 0x100, 8)
    } else {
        value_bits(0x80, 8) + value_bits(level + 0x100, 8)
    }
}

/// The bits of a run and a level: a codeword of Table B-14 and a sign bit where
/// it has one for them, else an escape.
pub open spec fn mpeg1_coeff_bits(
    position: CoefficientPosition,
    run: int,
    level: int,
) -> Seq<bool> {
    let table = TableSelection::TableZero;
    if exists|i: int| row_codes(table, position, run, level, i) {
        let i = choose|i: int| row_codes(table, position, run, level, i);
        let row = coeff_rows(table)[i];
        value_bits(row.0 as int, row.1 as int).push(level < 0)
    } else {
        value_bits(ESCAPE_CODE as int, 6) + value_bits(run, 6) + escape_level_bits(level)
    }
}

/// Writes a run and a level.
pub fn encode_mpeg1_coeff(
    bw: &mut BitWriter,
    position: CoefficientPosition,
    run: u8,
    level: i16,
)
    requires
        run <= 63,
        -255 <= level <= 255,
        level != 0,
    ensures
        writer_bits(*final(bw)) == writer_bits(*old(bw)) + mpeg1_coeff_bits(
            position,
            run as int,
            level as int,
        ),
{
    let ghost before = writer_bits(*bw);
    let table = TableSelection::TableZero;
    match find_code(table, position, run, level) {
        Some(row) => {
            proof {
                let i = choose|i: int|
                    #[trigger] row_codes(table, position, run as int, level as int, i) && row
                        == coeff_rows(table)[i];
                lemma_row_codes_unique(table, position, run as int, level as int, i);
                lemma_coeff_rows(table, i, i);
            }
            bw.write_u32(row.0 as u32, row.1 as u32);
            bw.write_bit(level < 0);
        },
        None => {
            bw.write_u32(ESCAPE_CODE, ESCAPE_BITS);
            bw.write_u32(run as u32, 6);
            if level >= 128 {
                bw.write_u32(0, 8);
                bw.write_u32(level as u32, 8);
            } else if level > 0 {
                bw.write_u32(level as u32, 8);
            } else if level > -128 {
                bw.write_u32((level as i32 + 0x100) as u32, 8);
            } else {
                bw.write_u32(0x80, 8);
                bw.write_u32((level as i32 + 0x100) as u32, 8);
            }
        },
    }
    assert(writer_bits(*bw) =~= before + mpeg1_coeff_bits(position, run as int, level as int));
}

proof fn lemma_escape_level_read(s: Seq<bool>, at: int, level: int)
    requires
        -255 <= level <= 255,
        level != 0,
        0 <= at,
        at + escape_level_bits(level).len() <= s.len(),
        s.subrange(at, at + escape_level_bits(level).len()) == escape_level_bits(level),
    ensures
        ({
            let first = be_value(s, at, 8);
            if -127 <= level <= 127 {
                escape_level_bits(level).len() == 8 && !takes_two_bytes(first) && short_level(
                    first,
                ) == level
            } else {
                escape_level_bits(level).len() == 16 && takes_two_bytes(first) && long_level(
                    first,
                    be_value(s, at + 8, 8),
                ) == Some(level)
            }
        }),
{
    lemma2_to64();
    let all = escape_level_bits(level);
    let (a, b) = if level >= 128 {
        (0int, level)
    } else if level > 0 {
        (level, 0int)
    } else if level > -128 {
        (level + 0x100, 0int)
    } else {
        (0x80int, level + 0x100)
    };
    lemma_value_bits_len(a, 8);
    lemma_value_bits_len(b, 8);
    let w = s.subrange(at, at + all.len());
    assert(s.subrange(at, at + 8) =~= w.subrange(0, 8));
    assert(all.subrange(0, 8) =~= value_bits(a, 8));
    lemma_value_bits_read(s, at, a, 8);
    if !(-127 <= level <= 127) {
        assert(s.subrange(at + 8, at + 16) =~= w.subrange(8, 16));
        assert(all.subrange(8, 16) =~= value_bits(b, 8));
        lemma_value_bits_read(s, at + 8, b, 8);
    }
}

/// A symbol that was written is read back, and the reader ends where the writer
/// did.
pub proof fn law_mpeg1_coeff_round_trip(
    s: Seq<bool>,
    at: int,
    position: CoefficientPosition,
    run: int,
    level: int,
)
    requires
        0 <= run <= 63,
        -255 <= level <= 255,
        level != 0,
        0 <= at,
        at + mpeg1_coeff_bits(position, run, level).len() <= s.len(),
        s.subrange(at, at + mpeg1_coeff_bits(position, run, level).len()) == mpeg1_coeff_bits(
            position,
            run,
            level,
        ),
    ensures
        ({
            let (read, next) = mpeg1_coeff_at(s, at, position);
            &&& next == at + mpeg1_coeff_bits(position, run, level).len()
            &&& read is Ok
            &&& read->Ok_0.symbol matches DctCoeff::RunLevel { run: r, signed_level: l, .. }
            &&& r == run
            &&& l == level
        }),
        mpeg1_coeff_bits(position, run, level).len() > 0,
{
    let table = TableSelection::TableZero;
    let all = mpeg1_coeff_bits(position, run, level);
    let w = s.subrange(at, at + all.len());
    if exists|i: int| row_codes(table, position, run, level, i) {
        let i = choose|i: int| row_codes(table, position, run, level, i);
        let row = coeff_rows(table)[i];
        let n = row.1 as int;
        lemma_coeff_rows(table, i, i);
        lemma_value_bits_len(row.0 as int, n);
        assert(s.subrange(at, at + n) =~= w.subrange(0, n));
        assert(all.subrange(0, n) =~= value_bits(row.0 as int, n));
        lemma_written_codeword(s, at, row.0 as int, n);
        assert(s[at + n] == w[n]);
        assert(coeff_row_at(s, at, table, position, i));
        lemma_coeff_row_unique(s, at, table, position, i);
    } else {
        lemma2_to64();
        lemma_value_bits_len(ESCAPE_CODE as int, 6);
        lemma_value_bits_len(run, 6);
        let tail = escape_level_bits(level);
        let m = tail.len();
        assert(s.subrange(at, at + 6) =~= w.subrange(0, 6));
        assert(all.subrange(0, 6) =~= value_bits(ESCAPE_CODE as int, 6));
        lemma_written_codeword(s, at, ESCAPE_CODE as int, 6);
        assert(s.subrange(at + 6, at + 12) =~= w.subrange(6, 12));
        assert(all.subrange(6, 12) =~= value_bits(run, 6));
        lemma_value_bits_read(s, at + 6, run, 6);
        assert(s.subrange(at + 12, at + 12 + m) =~= w.subrange(12, (12 + m) as int));
        assert(all.subrange(12, (12 + m) as int) =~= tail);
        lemma_escape_level_read(s, at + 12, level);
        assert forall|i: int| !#[trigger] coeff_row_at(s, at, table, position, i) by {
            if coeff_row_at(s, at, table, position, i) {
                lemma_coeff_rows(table, i, i);
                let row = coeff_rows(table)[i];
                lemma_prefix_free(
                    s,
                    at,
                    row.0 as int,
                    row.1 as int,
                    ESCAPE_CODE as int,
                    ESCAPE_BITS as int,
                );
            }
        }
    }
}

/// An end of block that was written is read back, after any coefficient but
/// none.
pub proof fn law_mpeg1_end_of_block_round_trip(s: Seq<bool>, at: int)
    requires
        0 <= at,
        at + 2 <= s.len(),
        s.subrange(at, at + 2) == eob_symbol_bits(TableSelection::TableZero),
    ensures
        mpeg1_coeff_at(s, at, CoefficientPosition::Next) == (
            Ok::<DctCoeffStep, Error>(
                (DctCoeffStep {
                    symbol: DctCoeff::EndOfBlock,
                    bit_position_after: (at + 2) as u64,
                }),
            ),
            at + 2,
        ),
{
    let table = TableSelection::TableZero;
    crate::mpeg2_dct_coeff::law_end_of_block_round_trip(s, at, table);
    lemma_written_codeword(s, at, EOB_B14_CODE as int, 2);
    lemma_prefix_free(s, at, EOB_B14_CODE as int, 2, ESCAPE_CODE as int, ESCAPE_BITS as int);
    assert forall|i: int|
        !#[trigger] coeff_row_at(s, at, table, CoefficientPosition::Next, i) by {
        if coeff_row_at(s, at, table, CoefficientPosition::Next, i) {
            lemma_coeff_rows(table, i, i);
            let row = coeff_rows(table)[i];
            lemma_prefix_free(s, at, row.0 as int, row.1 as int, EOB_B14_CODE as int, 2);
        }
    }
}

/// A byte alone spells a level in two's complement, and the byte of the opposite level is
/// its opposite. Two bytes go further: 0 and then the level from 128 on, and for the
/// opposite level 128 and then the opposite byte.
pub proof fn law_escaped_levels_have_opposites(byte: int)
    requires
        1 <= byte <= 0xFF,
    ensures
        byte < 0x80 ==> !takes_two_bytes(byte) && short_level(byte) == byte,
        byte != 0x80 ==> !takes_two_bytes(byte) && short_level(0x100 - byte) == -short_level(
            byte,
        ),
        takes_two_bytes(0),
        takes_two_bytes(0x80),
        long_level(0, byte) == (if byte >= 128 {
            Some(byte)
        } else {
            None
        }),
        byte >= 128 ==> long_level(0x80, 0x100 - byte) == Some(-byte),
        byte < 128 ==> long_level(0x80, 0x100 - byte) is None,
{
}

/// The bit after a codeword is the sign of its level: set where the level is negative.
pub proof fn law_mpeg1_sign_follows_codeword(
    s: Seq<bool>,
    at: int,
    position: CoefficientPosition,
)
    ensures
        mpeg1_coeff_at(s, at, position) matches (Ok(read), next) ==> (
        read.symbol matches DctCoeff::RunLevel { signed_level, escape, .. } ==> (!escape
            ==> signed_level != 0 && (signed_level < 0 <==> s[next - 1]))),
{
    let table = TableSelection::TableZero;
    if exists|i: int| coeff_row_at(s, at, table, position, i) {
        let i = choose|i: int| coeff_row_at(s, at, table, position, i);
        crate::mpeg2_dct_coeff::lemma_coeff_rows(table, i, i);
    }
}

} // verus!
