//! How far the address of a macroblock is ahead of the one before.

use crate::bits::{
    addressable, codeword_at, lemma_value_bits_len, reader_bits, reader_pos, reads_as, value_bits,
};
use crate::error::{Error, Result};
use crate::vlc::{at_codeword, fits_length, lemma_prefix_free, lemma_written_codeword, prefix_free};
use oxideav_core::bits::BitReader;
use vstd::prelude::*;

verus! {

pub const ERR_INCREMENT: &'static str =
    "macroblock_address_increment: no Table B-1 codeword matches the bit prefix";

pub const ERR_INCREMENT_RANGE: &'static str =
    "macroblock_address_increment outside the 32-bit range";

/// Table B-1, in the order of the increments from 1 on: the codeword and its
/// length in bits.
pub const TABLE_B1: [(u16, u8); 33] = [
    (0b1, 1),
    (0b011, 3),
    (0b010, 3),
    (0b0011, 4),
    (0b0010, 4),
    (0b0001_1, 5),
    (0b0001_0, 5),
    (0b0000_111, 7),
    (0b0000_110, 7),
    (0b0000_1011, 8),
    (0b0000_1010, 8),
    (0b0000_1001, 8),
    (0b0000_1000, 8),
    (0b0000_0111, 8),
    (0b0000_0110, 8),
    (0b0000_0101_11, 10),
    (0b0000_0101_10, 10),
    (0b0000_0101_01, 10),
    (0b0000_0101_00, 10),
    (0b0000_0100_11, 10),
    (0b0000_0100_10, 10),
    (0b0000_0100_011, 11),
    (0b0000_0100_010, 11),
    (0b0000_0100_001, 11),
    (0b0000_0100_000, 11),
    (0b0000_0011_111, 11),
    (0b0000_0011_110, 11),
    (0b0000_0011_101, 11),
    (0b0000_0011_100, 11),
    (0b0000_0011_011, 11),
    (0b0000_0011_010, 11),
    (0b0000_0011_001, 11),
    (0b0000_0011_000, 11),
];

/// The codeword that adds 33 to the increment after it.
pub const ESCAPE_INCREMENT: u32 = 0b0000_0001_000;

/// The codeword that adds nothing; in MPEG-1 only.
pub const STUFFING: u32 = 0b0000_0001_111;

/// The length of both.
pub const ESCAPE_INCREMENT_BITS: u32 = 11;

/// Which standard the increments are read by.
#[derive(Debug, Clone, Copy, PartialEq, Eq, Structural)]
pub struct MbAddressIncrementContext {
    /// Whether stuffing may stand before an increment.
    pub mpeg1: bool,
}

impl MbAddressIncrementContext {
    pub fn mpeg1() -> (c: Self)
        ensures
            c == (MbAddressIncrementContext { mpeg1: true }),
    {
        MbAddressIncrementContext { mpeg1: true }
    }

    pub fn mpeg2() -> (c: Self)
        ensures
            c == (MbAddressIncrementContext { mpeg1: false }),
    {
        MbAddressIncrementContext { mpeg1: false }
    }
}

/// A decoded increment.
#[derive(Debug, Clone, Copy, PartialEq, Eq, Structural)]
pub struct MbAddressIncrement {
    /// At least 1.
    pub value: u32,
    /// The bit position after the element.
    pub bit_position_after: u64,
}

/// Whether the codeword of row `i` stands at `at`.
pub open spec fn b1_row_at(s: Seq<bool>, at: int, i: int) -> bool {
    0 <= i < 33 && codeword_at(s, at, TABLE_B1[i].0 as int, TABLE_B1[i].1 as int)
}

pub open spec fn stuffing_at(s: Seq<bool>, at: int) -> bool {
    codeword_at(s, at, STUFFING as int, 11)
}

pub open spec fn escape_increment_at(s: Seq<bool>, at: int) -> bool {
    codeword_at(s, at, ESCAPE_INCREMENT as int, 11)
}

/// The increment at `at`, added to `sum`, and the position after it.
pub open spec fn increment_from(s: Seq<bool>, at: int, mpeg1: bool, sum: int) -> (
    Result<MbAddressIncrement>,
    int,
)
    decreases s.len() - at,
{
    if mpeg1 && stuffing_at(s, at) {
        increment_from(s, at + 11, mpeg1, sum)
    } else if escape_increment_at(s, at) {
        if sum + 66 > u32::MAX {
            (Err(Error::InvalidBitstream(ERR_INCREMENT_RANGE)), at)
        } else {
            increment_from(s, at + 11, mpeg1, sum + 33)
        }
    } else if exists|i: int| b1_row_at(s, at, i) {
        let i = choose|i: int| b1_row_at(s, at, i);
        let next = at + TABLE_B1[i].1;
        (
            Ok(
                (MbAddressIncrement {
                    value: (sum + i + 1) as u32,
                    bit_position_after: next as u64,
                }),
            ),
            next,
        )
    } else {
        (Err(Error::InvalidBitstream(ERR_INCREMENT)), at)
    }
}

/// The increment at `at`, and the position after it.
pub open spec fn increment_at(s: Seq<bool>, at: int, mpeg1: bool) -> (
    Result<MbAddressIncrement>,
    int,
) {
    increment_from(s, at, mpeg1, 0)
}

/// The codewords are prefix-free and fit their lengths.
proof fn lemma_b1_prefix_free(i: int, j: int)
    requires
        0 <= i < 33,
        0 <= j < 33,
    ensures
        i != j ==> prefix_free(
            TABLE_B1[i].0 as int,
            TABLE_B1[i].1 as int,
            TABLE_B1[j].0 as int,
            TABLE_B1[j].1 as int,
        ),
        prefix_free(TABLE_B1[i].0 as int, TABLE_B1[i].1 as int, ESCAPE_INCREMENT as int, 11),
        prefix_free(TABLE_B1[i].0 as int, TABLE_B1[i].1 as int, STUFFING as int, 11),
        1 <= TABLE_B1[i].1 <= 11,
        fits_length(TABLE_B1[i].0 as int, TABLE_B1[i].1 as int),
{
}

proof fn lemma_b1_row_unique(s: Seq<bool>, at: int, i: int)
    requires
        b1_row_at(s, at, i),
    ensures
        forall|j: int| #[trigger] b1_row_at(s, at, j) ==> j == i,
{
    assert forall|j: int| #[trigger] b1_row_at(s, at, j) implies j == i by {
        lemma_b1_prefix_free(i, j);
        lemma_b1_prefix_free(j, i);
        if i != j {
            lemma_prefix_free(
                s,
                at,
                TABLE_B1[i].0 as int,
                TABLE_B1[i].1 as int,
                TABLE_B1[j].0 as int,
                TABLE_B1[j].1 as int,
            );
        }
    }
}

/// Reading an increment moves on.
pub proof fn lemma_increment_advances(s: Seq<bool>, at: int, mpeg1: bool, sum: int)
    requires
        0 <= sum,
        sum + 33 <= u32::MAX,
    ensures
        increment_from(s, at, mpeg1, sum).1 >= at,
        increment_from(s, at, mpeg1, sum).0 is Ok ==> increment_from(s, at, mpeg1, sum).1 > at,
        increment_from(s, at, mpeg1, sum).0 is Ok ==> increment_from(
            s,
            at,
            mpeg1,
            sum,
        ).0->Ok_0.value >= 1,
    decreases s.len() - at,
{
    if mpeg1 && stuffing_at(s, at) {
        lemma_increment_advances(s, at + 11, mpeg1, sum);
    } else if escape_increment_at(s, at) {
        if sum + 66 <= u32::MAX {
            lemma_increment_advances(s, at + 11, mpeg1, sum + 33);
        }
    } else if exists|i: int| b1_row_at(s, at, i) {
        let i = choose|i: int| b1_row_at(s, at, i);
        lemma_b1_prefix_free(i, i);
    }
}

impl MbAddressIncrement {
    /// Reads an increment with the stuffing and escapes before it.
    pub fn parse(br: &mut BitReader<'_>, ctx: MbAddressIncrementContext) -> (res: Result<Self>)
        requires
            addressable(*old(br)),
        ensures
            reads_as(
                *old(br),
                *final(br),
                res,
                increment_at(reader_bits(*old(br)), reader_pos(*old(br)) as int, ctx.mpeg1),
            ),
    {
        let ghost s = reader_bits(*br);
        let ghost whole = increment_at(s, reader_pos(*br) as int, ctx.mpeg1);
        let mut sum: u32 = 0;
        loop
            invariant
                reader_bits(*br) == s,
                s == reader_bits(*old(br)),
                addressable(*br),
                reader_pos(*br) <= s.len() || reader_pos(*br) == reader_pos(*old(br)),
                sum + 33 <= u32::MAX,
                whole == increment_at(s, reader_pos(*old(br)) as int, ctx.mpeg1),
                increment_from(s, reader_pos(*br) as int, ctx.mpeg1, sum as int) == whole,
            decreases s.len() - reader_pos(*br),
        {
            if ctx.mpeg1 && at_codeword(br, STUFFING, ESCAPE_INCREMENT_BITS) {
                let _ = br.skip(ESCAPE_INCREMENT_BITS);
                continue;
            }
            if at_codeword(br, ESCAPE_INCREMENT, ESCAPE_INCREMENT_BITS) {
                if sum > u32::MAX - 66 {
                    return Err(Error::InvalidBitstream(ERR_INCREMENT_RANGE));
                }
                let _ = br.skip(ESCAPE_INCREMENT_BITS);
                sum += 33;
                continue;
            }
            return match_b1(br, sum);
        }
    }
}

/// Reads a codeword of Table B-1.
fn match_b1(br: &mut BitReader<'_>, sum: u32) -> (res: Result<MbAddressIncrement>)
    requires
        addressable(*old(br)),
        sum + 33 <= u32::MAX,
        !escape_increment_at(reader_bits(*old(br)), reader_pos(*old(br)) as int),
    ensures
        reads_as(
            *old(br),
            *final(br),
            res,
            increment_from(reader_bits(*old(br)), reader_pos(*old(br)) as int, false, sum as int),
        ),
{
    let ghost s = reader_bits(*br);
    let ghost at = reader_pos(*br) as int;
    let mut i: usize = 0;
    while i < 33
        invariant
            i <= 33,
            sum + 33 <= u32::MAX,
            reader_bits(*br) == s,
            reader_pos(*br) == at,
            s == reader_bits(*old(br)),
            at == reader_pos(*old(br)),
            addressable(*br),
            !escape_increment_at(s, at),
            forall|j: int| 0 <= j < i ==> !b1_row_at(s, at, j),
        decreases 33 - i,
    {
        let row = TABLE_B1[i];
        proof {
            lemma_b1_prefix_free(i as int, i as int);
        }
        if at_codeword(br, row.0 as u32, row.1 as u32) {
            proof {
                assert(b1_row_at(s, at, i as int));
                lemma_b1_row_unique(s, at, i as int);
            }
            let _ = br.skip(row.1 as u32);
            return Ok(
                MbAddressIncrement {
                    value: sum + i as u32 + 1,
                    bit_position_after: br.bit_position(),
                },
            );
        }
        i += 1;
    }
    Err(Error::InvalidBitstream(ERR_INCREMENT))
}

/// An increment of up to 33 that was written as its codeword is read back.
pub proof fn law_increment_round_trip(s: Seq<bool>, at: int, mpeg1: bool, value: int)
    requires
        1 <= value <= 33,
        ({
            let row = TABLE_B1[value - 1];
            crate::bits::holds_at(s, at, value_bits(row.0 as int, row.1 as int))
        }),
    ensures
        ({
            let next = at + TABLE_B1[value - 1].1;
            increment_at(s, at, mpeg1) == (
                Ok::<MbAddressIncrement, Error>(
                    (MbAddressIncrement { value: value as u32, bit_position_after: next as u64 }),
                ),
                next,
            )
        }),
{
    let i = value - 1;
    let row = TABLE_B1[i];
    lemma_b1_prefix_free(i, i);
    lemma_value_bits_len(row.0 as int, row.1 as int);
    lemma_written_codeword(s, at, row.0 as int, row.1 as int);
    lemma_prefix_free(s, at, row.0 as int, row.1 as int, ESCAPE_INCREMENT as int, 11);
    lemma_prefix_free(s, at, row.0 as int, row.1 as int, STUFFING as int, 11);
    assert(b1_row_at(s, at, i));
    lemma_b1_row_unique(s, at, i);
}

/// What is added beforehand is added to what is read.
proof fn lemma_sum_is_added(s: Seq<bool>, at: int, mpeg1: bool, a: int, b: int)
    requires
        0 <= a,
        0 <= b,
        a + b + 33 <= u32::MAX,
        increment_from(s, at, mpeg1, a + b).0 is Ok,
    ensures
        ({
            let (more, next) = increment_from(s, at, mpeg1, a + b);
            let (less, end) = increment_from(s, at, mpeg1, a);
            &&& less is Ok
            &&& more->Ok_0.value == less->Ok_0.value + b
            &&& next == end
        }),
    decreases s.len() - at,
{
    if mpeg1 && stuffing_at(s, at) {
        lemma_sum_is_added(s, at + 11, mpeg1, a, b);
    } else if escape_increment_at(s, at) {
        lemma_sum_is_added(s, at + 11, mpeg1, a + 33, b);
    }
}

/// An escape adds 33 to the increment after it; stuffing, which only MPEG-1 has, adds
/// nothing.
pub proof fn law_escape_adds_33(s: Seq<bool>, at: int, mpeg1: bool)
    ensures
        escape_increment_at(s, at) && increment_at(s, at, mpeg1).0 is Ok ==> {
            let (read, next) = increment_at(s, at, mpeg1);
            let (rest, end) = increment_at(s, at + 11, mpeg1);
            &&& rest is Ok
            &&& read->Ok_0.value == rest->Ok_0.value + 33
            &&& next == end
        },
        mpeg1 && stuffing_at(s, at) ==> increment_at(s, at, mpeg1) == increment_at(
            s,
            at + 11,
            mpeg1,
        ),
{
    if escape_increment_at(s, at) && increment_at(s, at, mpeg1).0 is Ok {
        lemma_sum_is_added(s, at + 11, mpeg1, 0, 33);
    }
}

} // verus!
