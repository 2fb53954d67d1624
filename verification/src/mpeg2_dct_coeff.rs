//! The run-level codewords of MPEG-2 coefficients.

use crate::bits::{
    addressable, be_value, codeword_at, lemma_value_bits_len, lemma_value_bits_read, read_field,
    read_flag, reader_bits, reader_pos, reads_as, value_bits, writer_bits,
};
use crate::error::{Error, Result};
use crate::vlc::{at_codeword, fits_length, lemma_prefix_free, lemma_written_codeword, prefix_free};
use oxideav_core::bits::{BitReader, BitWriter};
use vstd::arithmetic::power2::lemma2_to64;
use vstd::prelude::*;

verus! {

pub const ERR_NO_CODEWORD: &'static str =
    "mpeg2_dct_coeff: no Table B-14 / B-15 / B-16 codeword matches the bit prefix (§7.2.2)";

pub const ERR_ESCAPE_ZERO: &'static str =
    "mpeg2_dct_coeff: Table B-16 signed_level = 0 is forbidden";

pub const ERR_ESCAPE_MIN: &'static str =
    "mpeg2_dct_coeff: Table B-16 signed_level wire word 0x800 (= -2048) is not listed";

/// Table B-14, part 1: the codeword without its sign bit, its length in bits, the run
/// and the level.
pub const TABLE_B14_PAGE1: [(u16, u8, u8, u8); 32] = [
    (0b1, 1, 0, 1),
    (0b11, 2, 0, 1),
    (0b011, 3, 1, 1),
    (0b0100, 4, 0, 2),
    (0b0101, 4, 2, 1),
    (0b0010_1, 5, 0, 3),
    (0b0011_1, 5, 3, 1),
    (0b0011_0, 5, 4, 1),
    (0b0001_10, 6, 1, 2),
    (0b0001_11, 6, 5, 1),
    (0b0001_01, 6, 6, 1),
    (0b0001_00, 6, 7, 1),
    (0b0000_110, 7, 0, 4),
    (0b0000_100, 7, 2, 2),
    (0b0000_111, 7, 8, 1),
    (0b0000_101, 7, 9, 1),
    (0b0010_0110, 8, 0, 5),
    (0b0010_0001, 8, 0, 6),
    (0b0010_0101, 8, 1, 3),
    (0b0010_0100, 8, 3, 2),
    (0b0010_0111, 8, 10, 1),
    (0b0010_0011, 8, 11, 1),
    (0b0010_0010, 8, 12, 1),
    (0b0010_0000, 8, 13, 1),
    (0b0000_0010_10, 10, 0, 7),
    (0b0000_0011_00, 10, 1, 4),
    (0b0000_0010_11, 10, 2, 3),
    (0b0000_0011_11, 10, 4, 2),
    (0b0000_0010_01, 10, 5, 2),
    (0b0000_0011_10, 10, 14, 1),
    (0b0000_0011_01, 10, 15, 1),
    (0b0000_0010_00, 10, 16, 1),
];

/// Table B-14, part 2: the codeword without its sign bit, its length in bits, the run
/// and the level.
pub const TABLE_B14_PAGE2: [(u16, u8, u8, u8); 32] = [
    (0b0000_0001_1101, 12, 0, 8),
    (0b0000_0001_1000, 12, 0, 9),
    (0b0000_0001_0011, 12, 0, 10),
    (0b0000_0001_0000, 12, 0, 11),
    (0b0000_0001_1011, 12, 1, 5),
    (0b0000_0001_0100, 12, 2, 4),
    (0b0000_0001_1100, 12, 3, 3),
    (0b0000_0001_0010, 12, 4, 3),
    (0b0000_0001_1110, 12, 6, 2),
    (0b0000_0001_0101, 12, 7, 2),
    (0b0000_0001_0001, 12, 8, 2),
    (0b0000_0001_1111, 12, 17, 1),
    (0b0000_0001_1010, 12, 18, 1),
    (0b0000_0001_1001, 12, 19, 1),
    (0b0000_0001_0111, 12, 20, 1),
    (0b0000_0001_0110, 12, 21, 1),
    (0b0000_0000_1101_0, 13, 0, 12),
    (0b0000_0000_1100_1, 13, 0, 13),
    (0b0000_0000_1100_0, 13, 0, 14),
    (0b0000_0000_1011_1, 13, 0, 15),
    (0b0000_0000_1011_0, 13, 1, 6),
    (0b0000_0000_1010_1, 13, 1, 7),
    (0b0000_0000_1010_0, 13, 2, 5),
    (0b0000_0000_1001_1, 13, 3, 4),
    (0b0000_0000_1001_0, 13, 5, 3),
    (0b0000_0000_1000_1, 13, 9, 2),
    (0b0000_0000_1000_0, 13, 10, 2),
    (0b0000_0000_1111_1, 13, 22, 1),
    (0b0000_0000_1111_0, 13, 23, 1),
    (0b0000_0000_1110_1, 13, 24, 1),
    (0b0000_0000_1110_0, 13, 25, 1),
    (0b0000_0000_1101_1, 13, 26, 1),
];

/// Table B-14, part 3: the codeword without its sign bit, its length in bits, the run
/// and the level.
pub const TABLE_B14_PAGE3: [(u16, u8, u8, u8); 32] = [
    (0b0000_0000_0111_11, 14, 0, 16),
    (0b0000_0000_0111_10, 14, 0, 17),
    (0b0000_0000_0111_01, 14, 0, 18),
    (0b0000_0000_0111_00, 14, 0, 19),
    (0b0000_0000_0110_11, 14, 0, 20),
    (0b0000_0000_0110_10, 14, 0, 21),
    (0b0000_0000_0110_01, 14, 0, 22),
    (0b0000_0000_0110_00, 14, 0, 23),
    (0b0000_0000_0101_11, 14, 0, 24),
    (0b0000_0000_0101_10, 14, 0, 25),
    (0b0000_0000_0101_01, 14, 0, 26),
    (0b0000_0000_0101_00, 14, 0, 27),
    (0b0000_0000_0100_11, 14, 0, 28),
    (0b0000_0000_0100_10, 14, 0, 29),
    (0b0000_0000_0100_01, 14, 0, 30),
    (0b0000_0000_0100_00, 14, 0, 31),
    (0b0000_0000_0011_000, 15, 0, 32),
    (0b0000_0000_0010_111, 15, 0, 33),
    (0b0000_0000_0010_110, 15, 0, 34),
    (0b0000_0000_0010_101, 15, 0, 35),
    (0b0000_0000_0010_100, 15, 0, 36),
    (0b0000_0000_0010_011, 15, 0, 37),
    (0b0000_0000_0010_010, 15, 0, 38),
    (0b0000_0000_0010_001, 15, 0, 39),
    (0b0000_0000_0010_000, 15, 0, 40),
    (0b0000_0000_0011_111, 15, 1, 8),
    (0b0000_0000_0011_110, 15, 1, 9),
    (0b0000_0000_0011_101, 15, 1, 10),
    (0b0000_0000_0011_100, 15, 1, 11),
    (0b0000_0000_0011_011, 15, 1, 12),
    (0b0000_0000_0011_010, 15, 1, 13),
    (0b0000_0000_0011_001, 15, 1, 14),
];

/// Table B-14, part 4: the codeword without its sign bit, its length in bits, the run
/// and the level.
pub const TABLE_B14_PAGE4: [(u16, u8, u8, u8); 16] = [
    (0b0000_0000_0001_0011, 16, 1, 15),
    (0b0000_0000_0001_0010, 16, 1, 16),
    (0b0000_0000_0001_0001, 16, 1, 17),
    (0b0000_0000_0001_0000, 16, 1, 18),
    (0b0000_0000_0001_0100, 16, 6, 3),
    (0b0000_0000_0001_1010, 16, 11, 2),
    (0b0000_0000_0001_1001, 16, 12, 2),
    (0b0000_0000_0001_1000, 16, 13, 2),
    (0b0000_0000_0001_0111, 16, 14, 2),
    (0b0000_0000_0001_0110, 16, 15, 2),
    (0b0000_0000_0001_0101, 16, 16, 2),
    (0b0000_0000_0001_1111, 16, 27, 1),
    (0b0000_0000_0001_1110, 16, 28, 1),
    (0b0000_0000_0001_1101, 16, 29, 1),
    (0b0000_0000_0001_1100, 16, 30, 1),
    (0b0000_0000_0001_1011, 16, 31, 1),
];

/// Table B-15, part 1: the codeword without its sign bit, its length in bits, the run
/// and the level.
pub const TABLE_B15_PAGE1: [(u16, u8, u8, u8); 31] = [
    (0b10, 2, 0, 1),
    (0b010, 3, 1, 1),
    (0b110, 3, 0, 2),
    (0b0010_1, 5, 2, 1),
    (0b0111, 4, 0, 3),
    (0b0011_1, 5, 3, 1),
    (0b0001_10, 6, 4, 1),
    (0b0011_0, 5, 1, 2),
    (0b0001_11, 6, 5, 1),
    (0b0000_110, 7, 6, 1),
    (0b0000_100, 7, 7, 1),
    (0b1110_0, 5, 0, 4),
    (0b0000_111, 7, 2, 2),
    (0b0000_101, 7, 8, 1),
    (0b1111_000, 7, 9, 1),
    (0b1110_1, 5, 0, 5),
    (0b0001_01, 6, 0, 6),
    (0b1111_001, 7, 1, 3),
    (0b0010_0110, 8, 3, 2),
    (0b1111_010, 7, 10, 1),
    (0b0010_0001, 8, 11, 1),
    (0b0010_0101, 8, 12, 1),
    (0b0010_0100, 8, 13, 1),
    (0b0001_00, 6, 0, 7),
    (0b0010_0111, 8, 1, 4),
    (0b1111_1100, 8, 2, 3),
    (0b1111_1101, 8, 4, 2),
    (0b0000_0010_0, 9, 5, 2),
    (0b0000_0010_1, 9, 14, 1),
    (0b0000_0011_1, 9, 15, 1),
    (0b0000_0011_01, 10, 16, 1),
];

/// Table B-15, part 2: the codeword without its sign bit, its length in bits, the run
/// and the level.
pub const TABLE_B15_PAGE2: [(u16, u8, u8, u8); 32] = [
    (0b1111_011, 7, 0, 8),
    (0b1111_100, 7, 0, 9),
    (0b0010_0011, 8, 0, 10),
    (0b0010_0010, 8, 0, 11),
    (0b0010_0000, 8, 1, 5),
    (0b0000_0011_00, 10, 2, 4),
    (0b0000_0001_1100, 12, 3, 3),
    (0b0000_0001_0010, 12, 4, 3),
    (0b0000_0001_1110, 12, 6, 2),
    (0b0000_0001_0101, 12, 7, 2),
    (0b0000_0001_0001, 12, 8, 2),
    (0b0000_0001_1111, 12, 17, 1),
    (0b0000_0001_1010, 12, 18, 1),
    (0b0000_0001_1001, 12, 19, 1),
    (0b0000_0001_0111, 12, 20, 1),
    (0b0000_0001_0110, 12, 21, 1),
    (0b1111_1010, 8, 0, 12),
    (0b1111_1011, 8, 0, 13),
    (0b1111_1110, 8, 0, 14),
    (0b1111_1111, 8, 0, 15),
    (0b0000_0000_1011_0, 13, 1, 6),
    (0b0000_0000_1010_1, 13, 1, 7),
    (0b0000_0000_1010_0, 13, 2, 5),
    (0b0000_0000_1001_1, 13, 3, 4),
    (0b0000_0000_1001_0, 13, 5, 3),
    (0b0000_0000_1000_1, 13, 9, 2),
    (0b0000_0000_1000_0, 13, 10, 2),
    (0b0000_0000_1111_1, 13, 22, 1),
    (0b0000_0000_1111_0, 13, 23, 1),
    (0b0000_0000_1110_1, 13, 24, 1),
    (0b0000_0000_1110_0, 13, 25, 1),
    (0b0000_0000_1101_1, 13, 26, 1),
];

/// Table B-15, part 3: the codeword without its sign bit, its length in bits, the run
/// and the level.
pub const TABLE_B15_PAGE3: [(u16, u8, u8, u8); 32] = [
    (0b0000_0000_0111_11, 14, 0, 16),
    (0b0000_0000_0111_10, 14, 0, 17),
    (0b0000_0000_0111_01, 14, 0, 18),
    (0b0000_0000_0111_00, 14, 0, 19),
    (0b0000_0000_0110_11, 14, 0, 20),
    (0b0000_0000_0110_10, 14, 0, 21),
    (0b0000_0000_0110_01, 14, 0, 22),
    (0b0000_0000_0110_00, 14, 0, 23),
    (0b0000_0000_0101_11, 14, 0, 24),
    (0b0000_0000_0101_10, 14, 0, 25),
    (0b0000_0000_0101_01, 14, 0, 26),
    (0b0000_0000_0101_00, 14, 0, 27),
    (0b0000_0000_0100_11, 14, 0, 28),
    (0b0000_0000_0100_10, 14, 0, 29),
    (0b0000_0000_0100_01, 14, 0, 30),
    (0b0000_0000_0100_00, 14, 0, 31),
    (0b0000_0000_0011_000, 15, 0, 32),
    (0b0000_0000_0010_111, 15, 0, 33),
    (0b0000_0000_0010_110, 15, 0, 34),
    (0b0000_0000_0010_101, 15, 0, 35),
    (0b0000_0000_0010_100, 15, 0, 36),
    (0b0000_0000_0010_011, 15, 0, 37),
    (0b0000_0000_0010_010, 15, 0, 38),
    (0b0000_0000_0010_001, 15, 0, 39),
    (0b0000_0000_0010_000, 15, 0, 40),
    (0b0000_0000_0011_111, 15, 1, 8),
    (0b0000_0000_0011_110, 15, 1, 9),
    (0b0000_0000_0011_101, 15, 1, 10),
    (0b0000_0000_0011_100, 15, 1, 11),
    (0b0000_0000_0011_011, 15, 1, 12),
    (0b0000_0000_0011_010, 15, 1, 13),
    (0b0000_0000_0011_001, 15, 1, 14),
];

/// Table B-15, part 4: the codeword without its sign bit, its length in bits, the run
/// and the level.
pub const TABLE_B15_PAGE4: [(u16, u8, u8, u8); 16] = [
    (0b0000_0000_0001_0011, 16, 1, 15),
    (0b0000_0000_0001_0010, 16, 1, 16),
    (0b0000_0000_0001_0001, 16, 1, 17),
    (0b0000_0000_0001_0000, 16, 1, 18),
    (0b0000_0000_0001_0100, 16, 6, 3),
    (0b0000_0000_0001_1010, 16, 11, 2),
    (0b0000_0000_0001_1001, 16, 12, 2),
    (0b0000_0000_0001_1000, 16, 13, 2),
    (0b0000_0000_0001_0111, 16, 14, 2),
    (0b0000_0000_0001_0110, 16, 15, 2),
    (0b0000_0000_0001_0101, 16, 16, 2),
    (0b0000_0000_0001_1111, 16, 27, 1),
    (0b0000_0000_0001_1110, 16, 28, 1),
    (0b0000_0000_0001_1101, 16, 29, 1),
    (0b0000_0000_0001_1100, 16, 30, 1),
    (0b0000_0000_0001_1011, 16, 31, 1),
];

/// `end_of_block` in Table B-14.
pub const EOB_B14_CODE: u32 = 0b10;

pub const EOB_B14_BITS: u32 = 2;

/// `end_of_block` in Table B-15.
pub const EOB_B15_CODE: u32 = 0b0110;

pub const EOB_B15_BITS: u32 = 4;

/// The escape codeword of both tables.
pub const ESCAPE_CODE: u32 = 0b0000_01;

pub const ESCAPE_BITS: u32 = 6;

/// The run of an escape.
pub const ESCAPE_RUN_BITS: u32 = 6;

/// The level of an escape, in two's complement.
pub const ESCAPE_LEVEL_BITS: u32 = 12;

pub const ESCAPE_PAYLOAD_BITS: u32 = 18;

/// The greatest length of a codeword with its sign bit.
pub const MAX_CODE_LEN: u32 = 17;

/// The greatest run.
pub const MAX_RUN: u8 = 63;

/// The least level of an escape.
pub const ESCAPE_SIGNED_LEVEL_MIN: i16 = -2047;

/// The greatest level of an escape.
pub const ESCAPE_SIGNED_LEVEL_MAX: i16 = 2047;

/// Which table a block is coded with.
#[derive(Debug, Clone, Copy, PartialEq, Eq, Structural)]
pub enum TableSelection {
    /// Table B-14.
    TableZero,
    /// Table B-15.
    TableOne,
}

impl TableSelection {
    pub open spec fn spec_from_context(intra_vlc_format: bool, macroblock_intra: bool) -> Self {
        if intra_vlc_format && macroblock_intra {
            TableSelection::TableOne
        } else {
            TableSelection::TableZero
        }
    }

    /// The table of a block: Table B-15 for intra blocks where the picture asks
    /// for it, else Table B-14.
    pub fn from_context(intra_vlc_format: bool, macroblock_intra: bool) -> (r: Self)
        ensures
            r == Self::spec_from_context(intra_vlc_format, macroblock_intra),
    {
        match (intra_vlc_format, macroblock_intra) {
            (true, true) => TableSelection::TableOne,
            _ => TableSelection::TableZero,
        }
    }
}

/// Whether a coefficient is the first of a non-intra block.
#[derive(Debug, Clone, Copy, PartialEq, Eq, Structural)]
pub enum CoefficientPosition {
    First,
    Next,
}

/// A decoded symbol.
#[derive(Debug, Clone, Copy, PartialEq, Eq, Structural)]
pub enum DctCoeff {
    /// `run` zero coefficients and one of value `signed_level`.
    RunLevel {
        run: u8,
        signed_level: i16,
        /// Whether the symbol was escaped.
        escape: bool,
    },
    /// No coefficient of the block is left.
    EndOfBlock,
}

/// A decoded symbol and where it ended.
#[derive(Debug, Clone, Copy, PartialEq, Eq, Structural)]
pub struct DctCoeffStep {
    pub symbol: DctCoeff,
    /// The bit position after the symbol.
    pub bit_position_after: u64,
}

/// The rows of a table.
pub open spec fn coeff_rows(table: TableSelection) -> Seq<(u16, u8, u8, u8)> {
    match table {
        TableSelection::TableZero => TABLE_B14_PAGE1@ + TABLE_B14_PAGE2@ + TABLE_B14_PAGE3@
            + TABLE_B14_PAGE4@,
        TableSelection::TableOne => TABLE_B15_PAGE1@ + TABLE_B15_PAGE2@ + TABLE_B15_PAGE3@
            + TABLE_B15_PAGE4@,
    }
}

/// Whether a row may be used at a position. Table B-14 has two codewords for run
/// 0 and level 1: the one-bit codeword of the first coefficient of a block, and
/// the two-bit codeword of every other.
pub open spec fn row_allowed(
    table: TableSelection,
    position: CoefficientPosition,
    row: (u16, u8, u8, u8),
) -> bool {
    table == TableSelection::TableOne || {
        &&& !(row.1 == 1 && position == CoefficientPosition::Next)
        &&& !(row.1 == 2 && row.0 == 0b11 && position == CoefficientPosition::First)
    }
}

/// Whether the codeword of row `i`, with a sign bit after it, stands at `at`.
pub open spec fn coeff_row_at(
    s: Seq<bool>,
    at: int,
    table: TableSelection,
    position: CoefficientPosition,
    i: int,
) -> bool {
    let rows = coeff_rows(table);
    &&& 0 <= i < rows.len()
    &&& row_allowed(table, position, rows[i])
    &&& codeword_at(s, at, rows[i].0 as int, rows[i].1 as int)
    &&& at + rows[i].1 + 1 <= s.len()
}

pub open spec fn eob_code(table: TableSelection) -> int {
    match table {
        TableSelection::TableZero => EOB_B14_CODE as int,
        TableSelection::TableOne => EOB_B15_CODE as int,
    }
}

pub open spec fn eob_bits(table: TableSelection) -> int {
    match table {
        TableSelection::TableZero => EOB_B14_BITS as int,
        TableSelection::TableOne => EOB_B15_BITS as int,
    }
}

/// The level that 12 bits spell.
pub open spec fn escape_level(word: int) -> int {
    if word >= 0x800 {
        word - 0x1000
    } else {
        word
    }
}

/// The escaped symbol at `at`: the codeword and the run take six bits each, the level
/// twelve. The words of level 0 and level -2048 are forbidden.
pub open spec fn escape_at(s: Seq<bool>, at: int) -> (Result<DctCoeffStep>, int) {
    let word = be_value(s, at + 12, 12);
    if at + 6 > s.len() {
        (Err(Error::ShortHeader), at)
    } else if at + 12 > s.len() {
        (Err(Error::ShortHeader), at + 6)
    } else if at + 24 > s.len() {
        (Err(Error::ShortHeader), at + 12)
    } else if word == 0 {
        (Err(Error::InvalidBitstream(ERR_ESCAPE_ZERO)), at + 24)
    } else if word == 0x800 {
        (Err(Error::InvalidBitstream(ERR_ESCAPE_MIN)), at + 24)
    } else {
        (
            Ok(
                (DctCoeffStep {
                    symbol: DctCoeff::RunLevel {
                        run: be_value(s, at + 6, 6) as u8,
                        signed_level: escape_level(word) as i16,
                        escape: true,
                    },
                    bit_position_after: (at + 24) as u64,
                }),
            ),
            at + 24,
        )
    }
}

/// The symbol at `at`, and the position after it.
pub open spec fn coeff_at(
    s: Seq<bool>,
    at: int,
    table: TableSelection,
    position: CoefficientPosition,
) -> (Result<DctCoeffStep>, int) {
    if at >= s.len() {
        (Err(Error::ShortHeader), at)
    } else if exists|i: int| coeff_row_at(s, at, table, position, i) {
        let i = choose|i: int| coeff_row_at(s, at, table, position, i);
        let row = coeff_rows(table)[i];
        let next = at + row.1 + 1;
        (
            Ok(
                (DctCoeffStep {
                    symbol: DctCoeff::RunLevel {
                        run: row.2,
                        signed_level: (if s[at + row.1] {
                            -(row.3 as int)
                        } else {
                            row.3 as int
                        }) as i16,
                        escape: false,
                    },
                    bit_position_after: next as u64,
                }),
            ),
            next,
        )
    } else if codeword_at(s, at, ESCAPE_CODE as int, ESCAPE_BITS as int) && at + 24 <= s.len() {
        escape_at(s, at)
    } else if position == CoefficientPosition::Next && codeword_at(
        s,
        at,
        eob_code(table),
        eob_bits(table),
    ) {
        let next = at + eob_bits(table);
        (
            Ok(
                (DctCoeffStep {
                    symbol: DctCoeff::EndOfBlock,
                    bit_position_after: next as u64,
                }),
            ),
            next,
        )
    } else {
        (Err(Error::InvalidBitstream(ERR_NO_CODEWORD)), at)
    }
}

/// What the rows of a table are like: at any one position their codewords, the
/// escape and the end of block are prefix-free, no run and level occur twice, and
/// everything fits its field.
pub proof fn lemma_coeff_rows(table: TableSelection, i: int, j: int)
    requires
        0 <= i < coeff_rows(table).len(),
        0 <= j < coeff_rows(table).len(),
    ensures
        ({
            let a = coeff_rows(table)[i];
            let b = coeff_rows(table)[j];
            &&& fits_length(a.0 as int, a.1 as int)
            &&& 1 <= a.1 <= 16
            &&& a.2 <= 31
            &&& 1 <= a.3 <= 40
            &&& prefix_free(a.0 as int, a.1 as int, ESCAPE_CODE as int, ESCAPE_BITS as int)
            &&& row_allowed(table, CoefficientPosition::Next, a) ==> prefix_free(
                a.0 as int,
                a.1 as int,
                eob_code(table),
                eob_bits(table),
            )
            &&& i != j ==> forall|position: CoefficientPosition|
                row_allowed(table, position, a) && row_allowed(table, position, b) ==> #[trigger]
                pair_distinct(position, a, b)
        }),
{
    match table {
        TableSelection::TableZero => {
            lemma_b14_fields(i);
            lemma_b14_escape(i);
            lemma_b14_escape(j);
            if i != j && !(i == 0 && j == 1) && !(i == 1 && j == 0) {
                if i < j {
                    lemma_b14_codewords(i, j);
                } else {
                    lemma_b14_codewords(j, i);
                }
                lemma_b14_symbols(i, j);
            }
        },
        TableSelection::TableOne => {
            lemma_b15_fields(i);
            lemma_b15_escape(i);
            if i != j {
                if i < j {
                    lemma_b15_codewords(i, j);
                } else {
                    lemma_b15_codewords(j, i);
                }
                lemma_b15_symbols(i, j);
            }
        },
    }
}

/// Whether neither codeword is a prefix of the other and the rows stand for
/// different symbols.
pub open spec fn pair_distinct(
    position: CoefficientPosition,
    a: (u16, u8, u8, u8),
    b: (u16, u8, u8, u8),
) -> bool {
    &&& prefix_free(a.0 as int, a.1 as int, b.0 as int, b.1 as int)
    &&& a.2 != b.2 || a.3 != b.3
}

proof fn lemma_b14_fields(i: int)
    requires
        0 <= i < 112,
    ensures
        ({
            let a = coeff_rows(TableSelection::TableZero)[i];
            &&& fits_length(a.0 as int, a.1 as int)
            &&& a.2 <= 31
            &&& 1 <= a.3 <= 40
        }),
{
}

proof fn lemma_b14_escape(i: int)
    requires
        0 <= i < 112,
    ensures
        ({
            let a = coeff_rows(TableSelection::TableZero)[i];
            &&& prefix_free(a.0 as int, a.1 as int, 0b0000_01, 6)
            &&& i != 0 ==> prefix_free(a.0 as int, a.1 as int, 0b10, 2)
            &&& i == 0 <==> a.1 == 1
            &&& i == 1 <==> a.1 == 2
            &&& i == 1 ==> a.0 == 0b11
        }),
{
}

#[verifier::rlimit(60)]
proof fn lemma_b14_codewords(i: int, j: int)
    requires
        0 <= i < j < 112,
        !(i == 0 && j == 1),
    ensures
        prefix_free(
            coeff_rows(TableSelection::TableZero)[i].0 as int,
            coeff_rows(TableSelection::TableZero)[i].1 as int,
            coeff_rows(TableSelection::TableZero)[j].0 as int,
            coeff_rows(TableSelection::TableZero)[j].1 as int,
        ),
{
}

proof fn lemma_b14_symbols(i: int, j: int)
    requires
        0 <= i < 112,
        0 <= j < 112,
        i != j && !(i == 0 && j == 1) && !(i == 1 && j == 0),
    ensures
        coeff_rows(TableSelection::TableZero)[i].2 != coeff_rows(TableSelection::TableZero)[j].2 || coeff_rows(
            TableSelection::TableZero,
        )[i].3 != coeff_rows(TableSelection::TableZero)[j].3,
{
}

proof fn lemma_b15_fields(i: int)
    requires
        0 <= i < 111,
    ensures
        ({
            let a = coeff_rows(TableSelection::TableOne)[i];
            &&& fits_length(a.0 as int, a.1 as int)
            &&& a.2 <= 31
            &&& 1 <= a.3 <= 40
        }),
{
}

proof fn lemma_b15_escape(i: int)
    requires
        0 <= i < 111,
    ensures
        ({
            let a = coeff_rows(TableSelection::TableOne)[i];
            &&& prefix_free(a.0 as int, a.1 as int, 0b0000_01, 6)
            &&& prefix_free(a.0 as int, a.1 as int, 0b0110, 4)
        }),
{
}

#[verifier::rlimit(60)]
proof fn lemma_b15_codewords(i: int, j: int)
    requires
        0 <= i < j < 111,
    ensures
        prefix_free(
            coeff_rows(TableSelection::TableOne)[i].0 as int,
            coeff_rows(TableSelection::TableOne)[i].1 as int,
            coeff_rows(TableSelection::TableOne)[j].0 as int,
            coeff_rows(TableSelection::TableOne)[j].1 as int,
        ),
{
}

proof fn lemma_b15_symbols(i: int, j: int)
    requires
        0 <= i < 111,
        0 <= j < 111,
        i != j,
    ensures
        coeff_rows(TableSelection::TableOne)[i].2 != coeff_rows(TableSelection::TableOne)[j].2 || coeff_rows(
            TableSelection::TableOne,
        )[i].3 != coeff_rows(TableSelection::TableOne)[j].3,
{
}

/// At most one row stands at a position.
pub proof fn lemma_coeff_row_unique(
    s: Seq<bool>,
    at: int,
    table: TableSelection,
    position: CoefficientPosition,
    i: int,
)
    requires
        coeff_row_at(s, at, table, position, i),
    ensures
        forall|j: int| #[trigger] coeff_row_at(s, at, table, position, j) ==> j == i,
{
    assert forall|j: int| #[trigger] coeff_row_at(s, at, table, position, j) implies j == i by {
        lemma_coeff_rows(table, i, j);
        let a = coeff_rows(table)[i];
        let b = coeff_rows(table)[j];
        if i != j {
            assert(pair_distinct(position, a, b));
            lemma_coeff_rows(table, j, i);
            lemma_prefix_free(s, at, a.0 as int, a.1 as int, b.0 as int, b.1 as int);
        }
    }
}

/// The first row of a page that stands at the cursor.
fn find_in_page(
    br: &mut BitReader<'_>,
    page: &[(u16, u8, u8, u8)],
    table: TableSelection,
    position: CoefficientPosition,
) -> (found: Option<(u16, u8, u8, u8)>)
    requires
        forall|k: int| 0 <= k < page@.len() ==> 1 <= (#[trigger] page@[k]).1 <= 16,
    ensures
        reader_bits(*final(br)) == reader_bits(*old(br)),
        reader_pos(*final(br)) == reader_pos(*old(br)),
        match found {
            Some(row) => exists|k: int|
                0 <= k < page@.len() && row == #[trigger] page@[k] && row_stands(
                    reader_bits(*old(br)),
                    reader_pos(*old(br)) as int,
                    table,
                    position,
                    row,
                ),
            None => forall|k: int|
                0 <= k < page@.len() ==> !row_stands(
                    reader_bits(*old(br)),
                    reader_pos(*old(br)) as int,
                    table,
                    position,
                    #[trigger] page@[k],
                ),
        },
{
    let ghost s = reader_bits(*br);
    let ghost at = reader_pos(*br) as int;
    let mut k: usize = 0;
    while k < page.len()
        invariant
            k <= page@.len(),
            s == reader_bits(*old(br)),
            at == reader_pos(*old(br)),
            reader_bits(*br) == s,
            reader_pos(*br) == at,
            forall|k: int| 0 <= k < page@.len() ==> 1 <= (#[trigger] page@[k]).1 <= 16,
            forall|j: int|
                0 <= j < k ==> !row_stands(s, at, table, position, #[trigger] page@[j]),
        decreases page@.len() - k,
    {
        let row = page[k];
        assert(row == page@[k as int]);
        let allowed = table == TableSelection::TableOne || (!(row.1 == 1 && position
            == CoefficientPosition::Next) && !(row.1 == 2 && row.0 == 0b11 && position
            == CoefficientPosition::First));
        if allowed && at_codeword(br, row.0 as u32, row.1 as u32) {
            let with_sign = br.peek_u32(row.1 as u32 + 1);
            if with_sign.is_ok() {
                return Some(row);
            }
        }
        k += 1;
    }
    None
}

/// Whether a row may be used here and its codeword, with a sign bit after it,
/// stands at `at`.
pub open spec fn row_stands(
    s: Seq<bool>,
    at: int,
    table: TableSelection,
    position: CoefficientPosition,
    row: (u16, u8, u8, u8),
) -> bool {
    &&& row_allowed(table, position, row)
    &&& codeword_at(s, at, row.0 as int, row.1 as int)
    &&& at + row.1 + 1 <= s.len()
}

/// The row of the table that stands at the cursor. Nothing is consumed.
pub fn find_row(
    br: &mut BitReader<'_>,
    table: TableSelection,
    position: CoefficientPosition,
) -> (found: Option<(u16, u8, u8, u8)>)
    ensures
        reader_bits(*final(br)) == reader_bits(*old(br)),
        reader_pos(*final(br)) == reader_pos(*old(br)),
        ({
            let s = reader_bits(*old(br));
            let at = reader_pos(*old(br)) as int;
            match found {
                Some(row) => exists|i: int|
                    #[trigger] coeff_row_at(s, at, table, position, i) && row == coeff_rows(
                        table,
                    )[i],
                None => forall|i: int| !#[trigger] coeff_row_at(s, at, table, position, i),
            }
        }),
{
    let ghost s = reader_bits(*br);
    let ghost at = reader_pos(*br) as int;
    let pages: [&[(u16, u8, u8, u8)]; 4] = match table {
        TableSelection::TableZero => [
            TABLE_B14_PAGE1.as_slice(),
            TABLE_B14_PAGE2.as_slice(),
            TABLE_B14_PAGE3.as_slice(),
            TABLE_B14_PAGE4.as_slice(),
        ],
        TableSelection::TableOne => [
            TABLE_B15_PAGE1.as_slice(),
            TABLE_B15_PAGE2.as_slice(),
            TABLE_B15_PAGE3.as_slice(),
            TABLE_B15_PAGE4.as_slice(),
        ],
    };
    let ghost rows = coeff_rows(table);
    assert(rows =~= pages@[0]@ + pages@[1]@ + pages@[2]@ + pages@[3]@);
    proof {
        assert forall|i: int| 0 <= i < rows.len() implies 1 <= (#[trigger] rows[i]).1 <= 16 by {
            lemma_coeff_rows(table, i, i);
        }
        assert forall|p: int, k: int|
            0 <= p < 4 && 0 <= k < pages@[p]@.len() implies 1 <= (#[trigger] pages@[p]@[k]).1
            <= 16 by {
            assert(pages@[p]@[k] == rows[page_start(pages@, p) + k]);
        }
    }
    let mut p: usize = 0;
    while p < 4
        invariant
            p <= 4,
            s == reader_bits(*old(br)),
            at == reader_pos(*old(br)),
            reader_bits(*br) == s,
            reader_pos(*br) == at,
            rows == coeff_rows(table),
            rows =~= pages@[0]@ + pages@[1]@ + pages@[2]@ + pages@[3]@,
            forall|p: int, k: int|
                0 <= p < 4 && 0 <= k < pages@[p]@.len() ==> 1 <= (#[trigger] pages@[p]@[k]).1 <= 16,
            forall|i: int|
                0 <= i < page_start(pages@, p as int) ==> !#[trigger] coeff_row_at(
                    s,
                    at,
                    table,
                    position,
                    i,
                ),
        decreases 4 - p,
    {
        let page = pages[p];
        match find_in_page(br, page, table, position) {
            Some(row) => {
                proof {
                    let k = choose|k: int| 0 <= k < page@.len() && row == #[trigger] page@[k];
                    let i = page_start(pages@, p as int) + k;
                    assert(rows[i] == page@[k]);
                    assert(coeff_row_at(s, at, table, position, i));
                }
                return Some(row);
            },
            None => {},
        }
        proof {
            assert forall|i: int|
                0 <= i < page_start(pages@, p + 1) implies !#[trigger] coeff_row_at(
                s,
                at,
                table,
                position,
                i,
            ) by {
                let k = i - page_start(pages@, p as int);
                if k >= 0 {
                    assert(rows[i] == page@[k]);
                    assert(!row_stands(s, at, table, position, page@[k]));
                }
            }
        }
        p += 1;
    }
    None
}

/// How many rows precede page `p`.
spec fn page_start(pages: Seq<&[(u16, u8, u8, u8)]>, p: int) -> int {
    (if p > 0 {
        pages[0]@.len() as int
    } else {
        0
    }) + (if p > 1 {
        pages[1]@.len() as int
    } else {
        0
    }) + (if p > 2 {
        pages[2]@.len() as int
    } else {
        0
    }) + (if p > 3 {
        pages[3]@.len() as int
    } else {
        0
    })
}

impl DctCoeffStep {
    /// Reads the symbol at the cursor. Nothing is consumed where none matches.
    pub fn parse(
        br: &mut BitReader<'_>,
        table: TableSelection,
        position: CoefficientPosition,
    ) -> (res: Result<Self>)
        requires
            addressable(*old(br)),
        ensures
            reads_as(
                *old(br),
                *final(br),
                res,
                coeff_at(reader_bits(*old(br)), reader_pos(*old(br)) as int, table, position),
            ),
            res matches Ok(step) ==> (step.symbol matches DctCoeff::RunLevel {
                run,
                signed_level,
                ..
            } ==> run <= 63 && -2047 <= signed_level <= 2047 && signed_level != 0),
    {
        let ghost s = reader_bits(*br);
        let ghost at = reader_pos(*br) as int;
        if br.bits_remaining() == 0 {
            return Err(Error::ShortHeader);
        }
        match find_row(br, table, position) {
            Some(row) => {
                proof {
                    let i = choose|i: int|
                        #[trigger] coeff_row_at(s, at, table, position, i) && row == coeff_rows(
                            table,
                        )[i];
                    lemma_coeff_row_unique(s, at, table, position, i);
                    lemma_coeff_rows(table, i, i);
                }
                let _ = br.skip(row.1 as u32);
                let negative = read_flag(br)?;
                let signed_level: i16 = if negative {
                    -(row.3 as i16)
                } else {
                    row.3 as i16
                };
                return Ok(
                    DctCoeffStep {
                        symbol: DctCoeff::RunLevel { run: row.2, signed_level, escape: false },
                        bit_position_after: br.bit_position(),
                    },
                );
            },
            None => {},
        }
        if br.bits_remaining() >= 24 && at_codeword(br, ESCAPE_CODE, ESCAPE_BITS) {
            return Self::parse_escape(br);
        }
        let (code, bits) = match table {
            TableSelection::TableZero => (EOB_B14_CODE, EOB_B14_BITS),
            TableSelection::TableOne => (EOB_B15_CODE, EOB_B15_BITS),
        };
        if position == CoefficientPosition::Next && at_codeword(br, code, bits) {
            let _ = br.skip(bits);
            return Ok(
                DctCoeffStep {
                    symbol: DctCoeff::EndOfBlock,
                    bit_position_after: br.bit_position(),
                },
            );
        }
        Err(Error::InvalidBitstream(ERR_NO_CODEWORD))
    }

    /// Reads an escaped symbol, the escape codeword included.
    pub fn parse_escape(br: &mut BitReader<'_>) -> (res: Result<Self>)
        requires
            addressable(*old(br)),
        ensures
            reads_as(
                *old(br),
                *final(br),
                res,
                escape_at(reader_bits(*old(br)), reader_pos(*old(br)) as int),
            ),
            res matches Ok(step) ==> (step.symbol matches DctCoeff::RunLevel {
                run,
                signed_level,
                ..
            } ==> run <= 63 && -2047 <= signed_level <= 2047 && signed_level != 0),
    {
        proof {
            lemma2_to64();
        }
        read_field(br, ESCAPE_BITS)?;
        let run = read_field(br, ESCAPE_RUN_BITS)? as u8;
        let word = read_field(br, ESCAPE_LEVEL_BITS)?;
        if word == 0 {
            return Err(Error::InvalidBitstream(ERR_ESCAPE_ZERO));
        }
        if word == 0x800 {
            return Err(Error::InvalidBitstream(ERR_ESCAPE_MIN));
        }
        let signed_level: i16 = if word >= 0x800 {
            (word as i32 - 0x1000) as i16
        } else {
            word as i16
        };
        Ok(
            DctCoeffStep {
                symbol: DctCoeff::RunLevel { run, signed_level, escape: true },
                bit_position_after: br.bit_position(),
            },
        )
    }
}

// ---------------------------------------------------------------------------
// Writing a symbol
// ---------------------------------------------------------------------------

/// Whether row `i` stands for a run and a level at a position.
pub open spec fn row_codes(
    table: TableSelection,
    position: CoefficientPosition,
    run: int,
    level: int,
    i: int,
) -> bool {
    let rows = coeff_rows(table);
    &&& 0 <= i < rows.len()
    &&& row_allowed(table, position, rows[i])
    &&& rows[i].2 == run
    &&& rows[i].3 == crate::mpeg2_block_dc::magnitude(level)
}

/// The bits of an escaped symbol.
pub open spec fn escape_symbol_bits(run: int, level: int) -> Seq<bool> {
    value_bits(ESCAPE_CODE as int, 6) + value_bits(run, 6) + value_bits(
        if level < 0 {
            level + 0x1000
        } else {
            level
        },
        12,
    )
}

/// The bits of a run and a level: a codeword of the table and a sign bit where it
/// has one for them, else an escape.
pub open spec fn coeff_bits(
    table: TableSelection,
    position: CoefficientPosition,
    run: int,
    level: int,
) -> Seq<bool> {
    if exists|i: int| row_codes(table, position, run, level, i) {
        let i = choose|i: int| row_codes(table, position, run, level, i);
        let row = coeff_rows(table)[i];
        value_bits(row.0 as int, row.1 as int).push(level < 0)
    } else {
        escape_symbol_bits(run, level)
    }
}

/// The bits of an end of block.
pub open spec fn eob_symbol_bits(table: TableSelection) -> Seq<bool> {
    value_bits(eob_code(table), eob_bits(table))
}

pub proof fn lemma_row_codes_unique(
    table: TableSelection,
    position: CoefficientPosition,
    run: int,
    level: int,
    i: int,
)
    requires
        row_codes(table, position, run, level, i),
    ensures
        forall|j: int| #[trigger] row_codes(table, position, run, level, j) ==> j == i,
{
    assert forall|j: int| #[trigger] row_codes(table, position, run, level, j) implies j == i by {
        lemma_coeff_rows(table, i, j);
        if i != j {
            assert(pair_distinct(position, coeff_rows(table)[i], coeff_rows(table)[j]));
        }
    }
}

/// The row of a page that stands for a run and a level at a position.
fn page_code(
    page: &[(u16, u8, u8, u8)],
    table: TableSelection,
    position: CoefficientPosition,
    run: u8,
    level: u16,
) -> (found: Option<(u16, u8, u8, u8)>)
    ensures
        match found {
            Some(row) => exists|k: int|
                0 <= k < page@.len() && row == #[trigger] page@[k] && row_allowed(
                    table,
                    position,
                    row,
                ) && row.2 == run && row.3 == level,
            None => forall|k: int|
                0 <= k < page@.len() ==> !(row_allowed(table, position, #[trigger] page@[k])
                    && page@[k].2 == run && page@[k].3 == level),
        },
{
    let mut k: usize = 0;
    while k < page.len()
        invariant
            k <= page@.len(),
            forall|j: int|
                0 <= j < k ==> !(row_allowed(table, position, #[trigger] page@[j]) && page@[j].2
                    == run && page@[j].3 == level),
        decreases page@.len() - k,
    {
        let row = page[k];
        assert(row == page@[k as int]);
        let allowed = table == TableSelection::TableOne || (!(row.1 == 1 && position
            == CoefficientPosition::Next) && !(row.1 == 2 && row.0 == 0b11 && position
            == CoefficientPosition::First));
        if allowed && row.2 == run && row.3 as u16 == level {
            return Some(row);
        }
        k += 1;
    }
    None
}

/// The row of the table that stands for a run and a level at a position.
pub fn find_code(
    table: TableSelection,
    position: CoefficientPosition,
    run: u8,
    level: i16,
) -> (found: Option<(u16, u8, u8, u8)>)
    requires
        -2047 <= level <= 2047,
    ensures
        match found {
            Some(row) => exists|i: int|
                #[trigger] row_codes(table, position, run as int, level as int, i) && row
                    == coeff_rows(table)[i],
            None => forall|i: int|
                !#[trigger] row_codes(table, position, run as int, level as int, i),
        },
{
    let magnitude: u16 = if level < 0 {
        (-level) as u16
    } else {
        level as u16
    };
    let pages: [&[(u16, u8, u8, u8)]; 4] = match table {
        TableSelection::TableZero => [
            TABLE_B14_PAGE1.as_slice(),
            TABLE_B14_PAGE2.as_slice(),
            TABLE_B14_PAGE3.as_slice(),
            TABLE_B14_PAGE4.as_slice(),
        ],
        TableSelection::TableOne => [
            TABLE_B15_PAGE1.as_slice(),
            TABLE_B15_PAGE2.as_slice(),
            TABLE_B15_PAGE3.as_slice(),
            TABLE_B15_PAGE4.as_slice(),
        ],
    };
    let ghost rows = coeff_rows(table);
    assert(rows =~= pages@[0]@ + pages@[1]@ + pages@[2]@ + pages@[3]@);
    let mut p: usize = 0;
    while p < 4
        invariant
            p <= 4,
            rows == coeff_rows(table),
            rows =~= pages@[0]@ + pages@[1]@ + pages@[2]@ + pages@[3]@,
            magnitude == crate::mpeg2_block_dc::magnitude(level as int),
            forall|i: int|
                0 <= i < page_start(pages@, p as int) ==> !#[trigger] row_codes(
                    table,
                    position,
                    run as int,
                    level as int,
                    i,
                ),
        decreases 4 - p,
    {
        let page = pages[p];
        match page_code(page, table, position, run, magnitude) {
            Some(row) => {
                proof {
                    let k = choose|k: int|
                        0 <= k < page@.len() && row == #[trigger] page@[k] && row_allowed(
                            table,
                            position,
                            row,
                        ) && row.2 == run && row.3 == magnitude;
                    let i = page_start(pages@, p as int) + k;
                    assert(rows[i] == page@[k]);
                    assert(row_codes(table, position, run as int, level as int, i));
                }
                return Some(row);
            },
            None => {},
        }
        proof {
            assert forall|i: int|
                0 <= i < page_start(pages@, p + 1) implies !#[trigger] row_codes(
                table,
                position,
                run as int,
                level as int,
                i,
            ) by {
                let k = i - page_start(pages@, p as int);
                if k >= 0 {
                    assert(rows[i] == page@[k]);
                }
            }
        }
        p += 1;
    }
    None
}

/// Writes a run and a level.
pub fn encode_dct_coeff(
    bw: &mut BitWriter,
    table: TableSelection,
    position: CoefficientPosition,
    run: u8,
    level: i16,
)
    requires
        run <= 63,
        -2047 <= level <= 2047,
        level != 0,
    ensures
        writer_bits(*final(bw)) == writer_bits(*old(bw)) + coeff_bits(
            table,
            position,
            run as int,
            level as int,
        ),
{
    let ghost before = writer_bits(*bw);
    match find_code(table, position, run, level) {
        Some(row) => {
            proof {
                let i = choose|i: int|
                    #[trigger] row_codes(table, position, run as int, level as int, i) && row
                        == coeff_rows(table)[i];
                lemma_row_codes_unique(table, position, run as int, level as int, i);
                lemma_coeff_rows(table, i, i);
            }
            bw.write_u32(row.0 as u32, row.1 as u32);
            bw.write_bit(level < 0);
        },
        None => {
            bw.write_u32(ESCAPE_CODE, ESCAPE_BITS);
            bw.write_u32(run as u32, ESCAPE_RUN_BITS);
            let word: i32 = if level < 0 {
                level as i32 + 0x1000
            } else {
                level as i32
            };
            bw.write_u32(word as u32, ESCAPE_LEVEL_BITS);
        },
    }
    assert(writer_bits(*bw) =~= before + coeff_bits(table, position, run as int, level as int));
}

/// Writes an end of block.
pub fn encode_end_of_block(bw: &mut BitWriter, table: TableSelection)
    ensures
        writer_bits(*final(bw)) == writer_bits(*old(bw)) + eob_symbol_bits(table),
{
    match table {
        TableSelection::TableZero => bw.write_u32(EOB_B14_CODE, EOB_B14_BITS),
        TableSelection::TableOne => bw.write_u32(EOB_B15_CODE, EOB_B15_BITS),
    }
}

/// A symbol that was written is read back, and the reader ends where the writer
/// did.
pub proof fn law_coeff_round_trip(
    s: Seq<bool>,
    at: int,
    table: TableSelection,
    position: CoefficientPosition,
    run: int,
    level: int,
)
    requires
        0 <= run <= 63,
        -2047 <= level <= 2047,
        level != 0,
        0 <= at,
        at + coeff_bits(table, position, run, level).len() <= s.len(),
        s.subrange(at, at + coeff_bits(table, position, run, level).len()) == coeff_bits(
            table,
            position,
            run,
            level,
        ),
    ensures
        ({
            let (read, next) = coeff_at(s, at, table, position);
            &&& next == at + coeff_bits(table, position, run, level).len()
            &&& read is Ok
            &&& read->Ok_0.symbol matches DctCoeff::RunLevel { run: r, signed_level: l, .. }
            &&& r == run
            &&& l == level
        }),
{
    let all = coeff_bits(table, position, run, level);
    let w = s.subrange(at, at + all.len());
    if exists|i: int| row_codes(table, position, run, level, i) {
        let i = choose|i: int| row_codes(table, position, run, level, i);
        let row = coeff_rows(table)[i];
        let n = row.1 as int;
        lemma_coeff_rows(table, i, i);
        lemma_value_bits_len(row.0 as int, n);
        assert(s.subrange(at, at + n) =~= w.subrange(0, n));
        assert(all.subrange(0, n) =~= value_bits(row.0 as int, n));
        lemma_written_codeword(s, at, row.0 as int, n);
        assert(s[at + n] == w[n]);
        assert(coeff_row_at(s, at, table, position, i));
        lemma_coeff_row_unique(s, at, table, position, i);
    } else {
        let word = if level < 0 {
            level + 0x1000
        } else {
            level
        };
        lemma2_to64();
        lemma_value_bits_len(ESCAPE_CODE as int, 6);
        lemma_value_bits_len(run, 6);
        lemma_value_bits_len(word, 12);
        assert(s.subrange(at, at + 6) =~= w.subrange(0, 6));
        assert(all.subrange(0, 6) =~= value_bits(ESCAPE_CODE as int, 6));
        lemma_written_codeword(s, at, ESCAPE_CODE as int, 6);
        assert(s.subrange(at + 6, at + 12) =~= w.subrange(6, 12));
        assert(all.subrange(6, 12) =~= value_bits(run, 6));
        lemma_value_bits_read(s, at + 6, run, 6);
        assert(s.subrange(at + 12, at + 24) =~= w.subrange(12, 24));
        assert(all.subrange(12, 24) =~= value_bits(word, 12));
        lemma_value_bits_read(s, at + 12, word, 12);
        assert forall|i: int| !#[trigger] coeff_row_at(s, at, table, position, i) by {
            if coeff_row_at(s, at, table, position, i) {
                lemma_coeff_rows(table, i, i);
                let row = coeff_rows(table)[i];
                lemma_prefix_free(
                    s,
                    at,
                    row.0 as int,
                    row.1 as int,
                    ESCAPE_CODE as int,
                    ESCAPE_BITS as int,
                );
            }
        }
    }
}

/// An end of block that was written is read back, after any coefficient but
/// none.
pub proof fn law_end_of_block_round_trip(s: Seq<bool>, at: int, table: TableSelection)
    requires
        0 <= at,
        at + eob_bits(table) <= s.len(),
        s.subrange(at, at + eob_bits(table)) == eob_symbol_bits(table),
    ensures
        coeff_at(s, at, table, CoefficientPosition::Next) == (
            Ok::<DctCoeffStep, Error>(
                (DctCoeffStep {
                    symbol: DctCoeff::EndOfBlock,
                    bit_position_after: (at + eob_bits(table)) as u64,
                }),
            ),
            at + eob_bits(table),
        ),
{
    lemma_written_codeword(s, at, eob_code(table), eob_bits(table));
    lemma_prefix_free(
        s,
        at,
        eob_code(table),
        eob_bits(table),
        ESCAPE_CODE as int,
        ESCAPE_BITS as int,
    );
    assert forall|i: int|
        !#[trigger] coeff_row_at(s, at, table, CoefficientPosition::Next, i) by {
        if coeff_row_at(s, at, table, CoefficientPosition::Next, i) {
            lemma_coeff_rows(table, i, i);
            let row = coeff_rows(table)[i];
            lemma_prefix_free(
                s,
                at,
                row.0 as int,
                row.1 as int,
                eob_code(table),
                eob_bits(table),
            );
        }
    }
}

/// Twelve bits spell a level in two's complement: the word of the opposite level is its
/// opposite.
pub proof fn law_escape_levels_have_opposites(word: int)
    requires
        1 <= word < 0x1000,
        word != 0x800,
    ensures
        escape_level(0x1000 - word) == -escape_level(word),
        word < 0x800 ==> escape_level(word) == word,
{
}

/// The bit after a codeword is the sign of its level: set where the level is negative.
pub proof fn law_sign_follows_codeword(
    s: Seq<bool>,
    at: int,
    table: TableSelection,
    position: CoefficientPosition,
)
    ensures
        coeff_at(s, at, table, position) matches (Ok(read), next) ==> (
        read.symbol matches DctCoeff::RunLevel { signed_level, escape, .. } ==> (!escape
            ==> signed_level != 0 && (signed_level < 0 <==> s[next - 1]))),
{
    if exists|i: int| coeff_row_at(s, at, table, position, i) {
        let i = choose|i: int| coeff_row_at(s, at, table, position, i);
        lemma_coeff_rows(table, i, i);
    }
}

/// The second table serves intra blocks alone, and those only where the picture asks for
/// it.
pub proof fn law_second_table_is_for_intra(intra_vlc_format: bool, macroblock_intra: bool)
    ensures
        TableSelection::spec_from_context(intra_vlc_format, macroblock_intra)
            == TableSelection::TableOne <==> intra_vlc_format && macroblock_intra,
{
}

} // verus!
