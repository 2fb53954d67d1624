//! What a macroblock carries.

use crate::bits::{
    addressable, codeword_at, holds_at, lemma_value_bits_len, reader_bits, reader_pos, reads_as,
    value_bits,
};
use crate::error::{Error, Result};
use crate::picture_header::PictureCodingType;
use crate::vlc::{at_codeword, fits_length, lemma_prefix_free, lemma_written_codeword, prefix_free};
use oxideav_core::bits::BitReader;
use vstd::prelude::*;

verus! {

pub const ERR_MACROBLOCK_TYPE: &'static str =
    "macroblock_type: no Table B-2 / B-3 / B-4 codeword matches the bit prefix";

/// A decoded `macroblock_type`.
#[derive(Debug, Clone, Copy, PartialEq, Eq)]
pub struct MacroblockType {
    pub macroblock_quant: bool,
    pub macroblock_motion_forward: bool,
    pub macroblock_motion_backward: bool,
    pub macroblock_pattern: bool,
    pub macroblock_intra: bool,
    pub spatial_temporal_weight_code_flag: bool,
    /// The bit position after the codeword.
    pub bit_position_after: u64,
}

/// Table B-2, of I-pictures: the codeword, its length in bits, and whether a
/// quantiser scale, forward vectors, backward vectors and a pattern follow, and
/// whether the macroblock is intra.
pub const TABLE_B2: [(u16, u8, bool, bool, bool, bool, bool); 2] = [
    (0b1, 1, false, false, false, false, true),
    (0b01, 2, true, false, false, false, true),
];

/// Table B-3, of P-pictures.
pub const TABLE_B3: [(u16, u8, bool, bool, bool, bool, bool); 7] = [
    (0b1, 1, false, true, false, true, false),
    (0b01, 2, false, false, false, true, false),
    (0b001, 3, false, true, false, false, false),
    (0b0001_1, 5, false, false, false, false, true),
    (0b0001_0, 5, true, true, false, true, false),
    (0b0000_1, 5, true, false, false, true, false),
    (0b0000_01, 6, true, false, false, false, true),
];

/// Table B-4, of B-pictures.
pub const TABLE_B4: [(u16, u8, bool, bool, bool, bool, bool); 11] = [
    (0b10, 2, false, true, true, false, false),
    (0b11, 2, false, true, true, true, false),
    (0b010, 3, false, false, true, false, false),
    (0b011, 3, false, false, true, true, false),
    (0b0010, 4, false, true, false, false, false),
    (0b0011, 4, false, true, false, true, false),
    (0b0001_1, 5, false, false, false, false, true),
    (0b0001_0, 5, true, true, true, true, false),
    (0b0000_11, 6, true, true, false, true, false),
    (0b0000_10, 6, true, false, true, true, false),
    (0b0000_01, 6, true, false, false, false, true),
];

/// The table of a picture; a D-picture has the first row of Table B-2 alone.
pub open spec fn type_rows(coding: PictureCodingType) -> Seq<
    (u16, u8, bool, bool, bool, bool, bool),
> {
    match coding {
        PictureCodingType::Intra => TABLE_B2@,
        PictureCodingType::Predictive => TABLE_B3@,
        PictureCodingType::Bidirectional => TABLE_B4@,
        PictureCodingType::DcIntra => TABLE_B2@.subrange(0, 1),
    }
}

pub open spec fn type_of_row(
    row: (u16, u8, bool, bool, bool, bool, bool),
    next: int,
) -> MacroblockType {
    MacroblockType {
        macroblock_quant: row.2,
        macroblock_motion_forward: row.3,
        macroblock_motion_backward: row.4,
        macroblock_pattern: row.5,
        macroblock_intra: row.6,
        spatial_temporal_weight_code_flag: false,
        bit_position_after: next as u64,
    }
}

/// The type of the first row, from row `i` on, whose codeword stands at `at`, and
/// the position after it.
pub open spec fn type_from(
    s: Seq<bool>,
    at: int,
    rows: Seq<(u16, u8, bool, bool, bool, bool, bool)>,
    i: int,
) -> (Result<MacroblockType>, int)
    decreases rows.len() - i,
{
    if i >= rows.len() {
        (Err(Error::InvalidBitstream(ERR_MACROBLOCK_TYPE)), at)
    } else if codeword_at(s, at, rows[i].0 as int, rows[i].1 as int) {
        (Ok(type_of_row(rows[i], at + rows[i].1)), at + rows[i].1)
    } else {
        type_from(s, at, rows, i + 1)
    }
}

/// The `macroblock_type` at `at`, and the position after it.
pub open spec fn macroblock_type_at(s: Seq<bool>, at: int, coding: PictureCodingType) -> (
    Result<MacroblockType>,
    int,
) {
    type_from(s, at, type_rows(coding), 0)
}

/// Reading a type does not move back.
pub proof fn lemma_type_advances(
    s: Seq<bool>,
    at: int,
    rows: Seq<(u16, u8, bool, bool, bool, bool, bool)>,
    i: int,
)
    ensures
        type_from(s, at, rows, i).1 >= at,
    decreases rows.len() - i,
{
    if i < rows.len() {
        lemma_type_advances(s, at, rows, i + 1);
    }
}

fn match_rows(
    br: &mut BitReader<'_>,
    rows: &[(u16, u8, bool, bool, bool, bool, bool)],
) -> (res: Result<MacroblockType>)
    requires
        addressable(*old(br)),
        forall|i: int| 0 <= i < rows@.len() ==> 1 <= (#[trigger] rows@[i]).1 <= 6,
    ensures
        reads_as(
            *old(br),
            *final(br),
            res,
            type_from(reader_bits(*old(br)), reader_pos(*old(br)) as int, rows@, 0),
        ),
{
    let ghost s = reader_bits(*br);
    let ghost at = reader_pos(*br) as int;
    let mut i: usize = 0;
    while i < rows.len()
        invariant
            i <= rows@.len(),
            reader_bits(*br) == s,
            reader_pos(*br) == at,
            addressable(*br),
            s == reader_bits(*old(br)),
            at == reader_pos(*old(br)),
            forall|i: int| 0 <= i < rows@.len() ==> 1 <= (#[trigger] rows@[i]).1 <= 6,
            type_from(s, at, rows@, i as int) == type_from(s, at, rows@, 0),
        decreases rows@.len() - i,
    {
        let row = rows[i];
        assert(row == rows@[i as int]);
        if at_codeword(br, row.0 as u32, row.1 as u32) {
            let _ = br.skip(row.1 as u32);
            return Ok(
                MacroblockType {
                    macroblock_quant: row.2,
                    macroblock_motion_forward: row.3,
                    macroblock_motion_backward: row.4,
                    macroblock_pattern: row.5,
                    macroblock_intra: row.6,
                    spatial_temporal_weight_code_flag: false,
                    bit_position_after: br.bit_position(),
                },
            );
        }
        i += 1;
    }
    Err(Error::InvalidBitstream(ERR_MACROBLOCK_TYPE))
}

impl MacroblockType {
    /// Reads the type of a macroblock of a picture.
    pub fn parse(br: &mut BitReader<'_>, coding: PictureCodingType) -> (res: Result<Self>)
        requires
            addressable(*old(br)),
        ensures
            reads_as(
                *old(br),
                *final(br),
                res,
                macroblock_type_at(reader_bits(*old(br)), reader_pos(*old(br)) as int, coding),
            ),
    {
        match coding {
            PictureCodingType::Intra => match_rows(br, TABLE_B2.as_slice()),
            PictureCodingType::Predictive => match_rows(br, TABLE_B3.as_slice()),
            PictureCodingType::Bidirectional => match_rows(br, TABLE_B4.as_slice()),
            PictureCodingType::DcIntra => {
                let row = TABLE_B2[0];
                let rows = [row];
                assert(rows@ =~= TABLE_B2@.subrange(0, 1));
                match_rows(br, rows.as_slice())
            },
        }
    }
}

/// No codeword of a table begins with that of an earlier row.
proof fn lemma_type_rows(coding: PictureCodingType, i: int, j: int)
    requires
        0 <= j < i < type_rows(coding).len(),
    ensures
        ({
            let rows = type_rows(coding);
            prefix_free(
                rows[i].0 as int,
                rows[i].1 as int,
                rows[j].0 as int,
                rows[j].1 as int,
            )
        }),
{
}

/// Every codeword of a table fits its length.
proof fn lemma_type_row_fits(coding: PictureCodingType, i: int)
    requires
        0 <= i < type_rows(coding).len(),
    ensures
        ({
            let row = type_rows(coding)[i];
            fits_length(row.0 as int, row.1 as int)
        }),
{
}

proof fn lemma_type_from(s: Seq<bool>, at: int, coding: PictureCodingType, i: int, j: int)
    requires
        0 <= j <= i < type_rows(coding).len(),
        codeword_at(
            s,
            at,
            type_rows(coding)[i].0 as int,
            type_rows(coding)[i].1 as int,
        ),
    ensures
        ({
            let row = type_rows(coding)[i];
            let next = at + row.1;
            type_from(s, at, type_rows(coding), j) == (
                Ok::<MacroblockType, Error>(type_of_row(row, next)),
                next,
            )
        }),
    decreases i - j,
{
    if j < i {
        let rows = type_rows(coding);
        lemma_type_rows(coding, i, j);
        lemma_prefix_free(
            s,
            at,
            rows[i].0 as int,
            rows[i].1 as int,
            rows[j].0 as int,
            rows[j].1 as int,
        );
        lemma_type_from(s, at, coding, i, j + 1);
    }
}

/// A type that was written as its codeword is read back.
pub proof fn law_type_round_trip(s: Seq<bool>, at: int, coding: PictureCodingType, i: int)
    requires
        0 <= i < type_rows(coding).len(),
        holds_at(
            s,
            at,
            value_bits(type_rows(coding)[i].0 as int, type_rows(coding)[i].1 as int),
        ),
    ensures
        ({
            let row = type_rows(coding)[i];
            let next = at + row.1;
            macroblock_type_at(s, at, coding) == (
                Ok::<MacroblockType, Error>(type_of_row(row, next)),
                next,
            )
        }),
{
    let row = type_rows(coding)[i];
    lemma_type_row_fits(coding, i);
    lemma_value_bits_len(row.0 as int, row.1 as int);
    lemma_written_codeword(s, at, row.0 as int, row.1 as int);
    lemma_type_from(s, at, coding, i, 0);
}

/// Types are consistent: an intra macroblock has neither vectors nor a pattern, a new
/// quantiser scale comes only with blocks to scale, an I-picture has intra macroblocks
/// only, a P-picture no backward vectors, and a macroblock of a B-picture that is not
/// intra at least one vector. No two types of a picture are the same.
pub proof fn law_types_are_consistent(coding: PictureCodingType, i: int, j: int)
    requires
        0 <= i < type_rows(coding).len(),
        0 <= j < type_rows(coding).len(),
    ensures
        ({
            let t = type_of_row(type_rows(coding)[i], 0);
            let u = type_of_row(type_rows(coding)[j], 0);
            let forward = t.macroblock_motion_forward;
            let backward = t.macroblock_motion_backward;
            &&& t.macroblock_intra ==> !forward && !backward && !t.macroblock_pattern
            &&& t.macroblock_quant ==> t.macroblock_intra || t.macroblock_pattern
            &&& coding == PictureCodingType::Intra || coding == PictureCodingType::DcIntra
                ==> t.macroblock_intra
            &&& coding == PictureCodingType::Predictive ==> !backward && (t.macroblock_intra
                || forward || t.macroblock_pattern)
            &&& coding == PictureCodingType::Bidirectional ==> t.macroblock_intra || forward
                || backward
            &&& i != j ==> t != u
        }),
{
}

} // verus!
