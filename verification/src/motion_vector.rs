//! The `motion_vectors(s)` element: motion codes, residuals and dual-prime
//! differentials.

use crate::bits::{
    addressable, be_value, codeword_at, lemma_be_value_bounds, lemma_value_bits_len,
    lemma_value_bits_read, read_field, read_flag, reader_bits, reader_pos, reads_as, value_bits,
    writer_bits,
};
use crate::error::{Error, Result};
use crate::macroblock_modes::{MotionType, MvFormat};
use crate::vlc::{at_codeword, fits_length, lemma_prefix_free, lemma_written_codeword, prefix_free};
use oxideav_core::bits::{BitReader, BitWriter};
use vstd::arithmetic::power2::{lemma2_to64, pow2};
use vstd::prelude::*;

verus! {

pub const ERR_MOTION_CODE: &'static str =
    "motion_code: no Table B-10 codeword matches the bit prefix (§6.2.5.2.1)";

pub const ERR_RESIDUAL_F_CODE: &'static str =
    "motion_vector: f_code outside the §6.3.11 1..=9 range cannot drive motion_residual width";

pub const ERR_VECTOR_COUNT: &'static str =
    "motion_vectors: motion_vector_count must be 1 or 2 (Tables 6-17 / 6-18)";

/// Table B-10, in the order of the values: the codeword, its length in bits and
/// the motion code it stands for.
pub const TABLE_B10: [(u16, u8, i8); 33] = [
    (0b0000_0011_001, 11, -16),
    (0b0000_0011_011, 11, -15),
    (0b0000_0011_101, 11, -14),
    (0b0000_0011_111, 11, -13),
    (0b0000_0100_001, 11, -12),
    (0b0000_0100_011, 11, -11),
    (0b0000_0100_11, 10, -10),
    (0b0000_0101_01, 10, -9),
    (0b0000_0101_11, 10, -8),
    (0b0000_0111, 8, -7),
    (0b0000_1001, 8, -6),
    (0b0000_1011, 8, -5),
    (0b0000_111, 7, -4),
    (0b0001_1, 5, -3),
    (0b0011, 4, -2),
    (0b011, 3, -1),
    (0b1, 1, 0),
    (0b010, 3, 1),
    (0b0010, 4, 2),
    (0b0001_0, 5, 3),
    (0b0000_110, 7, 4),
    (0b0000_1010, 8, 5),
    (0b0000_1000, 8, 6),
    (0b0000_0110, 8, 7),
    (0b0000_0101_10, 10, 8),
    (0b0000_0101_00, 10, 9),
    (0b0000_0100_10, 10, 10),
    (0b0000_0100_010, 11, 11),
    (0b0000_0100_000, 11, 12),
    (0b0000_0011_110, 11, 13),
    (0b0000_0011_100, 11, 14),
    (0b0000_0011_010, 11, 15),
    (0b0000_0011_000, 11, 16),
];

/// One row of Table B-10.
#[derive(Debug, Clone, Copy, PartialEq, Eq, Structural)]
pub struct MotionCodeEntry {
    /// The codeword, right-justified.
    pub code: u16,
    /// Its length in bits.
    pub bits: u8,
    /// The motion code, from -16 to 16.
    pub value: i8,
}

pub open spec fn b10_entry(i: int) -> MotionCodeEntry {
    MotionCodeEntry { code: TABLE_B10[i].0, bits: TABLE_B10[i].1, value: TABLE_B10[i].2 }
}

/// Whether the codeword of row `i` stands at `at`.
pub open spec fn b10_row_at(s: Seq<bool>, at: int, i: int) -> bool {
    0 <= i < 33 && codeword_at(s, at, TABLE_B10[i].0 as int, TABLE_B10[i].1 as int)
}

/// The row whose codeword stands at `at`, and the position after it.
pub open spec fn motion_code_entry_at(s: Seq<bool>, at: int) -> (Result<MotionCodeEntry>, int) {
    if exists|i: int| b10_row_at(s, at, i) {
        let i = choose|i: int| b10_row_at(s, at, i);
        (Ok(b10_entry(i)), at + TABLE_B10[i].1)
    } else {
        (Err(Error::InvalidBitstream(ERR_MOTION_CODE)), at)
    }
}

/// The motion code at `at`, and the position after it.
pub open spec fn motion_code_at(s: Seq<bool>, at: int) -> (Result<i8>, int) {
    let (entry, next) = motion_code_entry_at(s, at);
    match entry {
        Ok(e) => (Ok(e.value), next),
        Err(e) => (Err(e), next),
    }
}

/// The codewords of Table B-10 are prefix-free, fit their lengths, and come in
/// the order of their values.
pub proof fn lemma_b10_prefix_free(i: int, j: int)
    requires
        0 <= i < 33,
        0 <= j < 33,
    ensures
        i != j ==> prefix_free(
            TABLE_B10[i].0 as int,
            TABLE_B10[i].1 as int,
            TABLE_B10[j].0 as int,
            TABLE_B10[j].1 as int,
        ),
        1 <= TABLE_B10[i].1 <= 11,
        fits_length(TABLE_B10[i].0 as int, TABLE_B10[i].1 as int),
        TABLE_B10[i].2 == i - 16,
{
}

proof fn lemma_b10_row_unique(s: Seq<bool>, at: int, i: int)
    requires
        b10_row_at(s, at, i),
    ensures
        motion_code_entry_at(s, at) == (Ok::<MotionCodeEntry, Error>(b10_entry(i)), at
            + TABLE_B10[i].1),
{
    let j = choose|j: int| b10_row_at(s, at, j);
    lemma_b10_prefix_free(i, j);
    if i != j {
        lemma_prefix_free(
            s,
            at,
            TABLE_B10[i].0 as int,
            TABLE_B10[i].1 as int,
            TABLE_B10[j].0 as int,
            TABLE_B10[j].1 as int,
        );
    }
}

/// Reads the Table B-10 row at the cursor. Nothing is consumed where no
/// codeword matches.
pub fn match_b10(br: &mut BitReader<'_>) -> (res: Result<MotionCodeEntry>)
    ensures
        reads_as(
            *old(br),
            *final(br),
            res,
            motion_code_entry_at(reader_bits(*old(br)), reader_pos(*old(br)) as int),
        ),
{
    let ghost s = reader_bits(*br);
    let ghost at = reader_pos(*br) as int;
    let mut i: usize = 0;
    while i < 33
        invariant
            i <= 33,
            reader_bits(*br) == s,
            reader_pos(*br) == at,
            s == reader_bits(*old(br)),
            at == reader_pos(*old(br)),
            forall|j: int| 0 <= j < i ==> !b10_row_at(s, at, j),
        decreases 33 - i,
    {
        let row = TABLE_B10[i];
        proof {
            lemma_b10_prefix_free(i as int, i as int);
        }
        if at_codeword(br, row.0 as u32, row.1 as u32) {
            proof {
                assert(b10_row_at(s, at, i as int));
                lemma_b10_row_unique(s, at, i as int);
            }
            let _ = br.skip(row.1 as u32);
            return Ok(MotionCodeEntry { code: row.0, bits: row.1, value: row.2 });
        }
        i += 1;
    }
    Err(Error::InvalidBitstream(ERR_MOTION_CODE))
}

/// Reads a motion code. MPEG-1 Table B.4 holds the same codewords.
pub fn match_motion_code(br: &mut BitReader<'_>) -> (res: Result<i8>)
    ensures
        reads_as(
            *old(br),
            *final(br),
            res,
            motion_code_at(reader_bits(*old(br)), reader_pos(*old(br)) as int),
        ),
        res matches Ok(v) ==> -16 <= v <= 16,
{
    proof {
        assert forall|i: int| 0 <= i < 33 implies -16 <= #[trigger] b10_entry(i).value <= 16 by {
            lemma_b10_prefix_free(i, i);
        }
    }
    match match_b10(br) {
        Ok(entry) => Ok(entry.value),
        Err(e) => Err(e),
    }
}

/// The `dmvector` at `at` (Table B-11: `0`, `10` and `11` for 0, 1 and -1).
pub open spec fn dmvector_at(s: Seq<bool>, at: int) -> (Result<i8>, int) {
    if at >= s.len() {
        (Err(Error::ShortHeader), at)
    } else if !s[at] {
        (Ok(0i8), at + 1)
    } else if at + 1 >= s.len() {
        (Err(Error::ShortHeader), at + 1)
    } else {
        (Ok(if s[at + 1] {
            -1i8
        } else {
            1i8
        }), at + 2)
    }
}

/// Reads a `dmvector`.
pub fn match_b11(br: &mut BitReader<'_>) -> (res: Result<i8>)
    ensures
        reads_as(
            *old(br),
            *final(br),
            res,
            dmvector_at(reader_bits(*old(br)), reader_pos(*old(br)) as int),
        ),
{
    let first = read_flag(br)?;
    if !first {
        return Ok(0);
    }
    let second = read_flag(br)?;
    Ok(if second {
        -1
    } else {
        1
    })
}

/// One decoded `motion_vector(r, s)`.
#[derive(Debug, Clone, Copy, PartialEq, Eq)]
pub struct MotionVector {
    /// The horizontal motion code, from -16 to 16.
    pub motion_code_horiz: i8,
    /// The horizontal residual, present when the `f_code` is not 1 and the
    /// motion code is not 0.
    pub motion_residual_horiz: Option<u8>,
    /// The horizontal dual-prime differential, present in dual-prime
    /// macroblocks.
    pub dmvector_horiz: Option<i8>,
    pub motion_code_vert: i8,
    pub motion_residual_vert: Option<u8>,
    pub dmvector_vert: Option<i8>,
    /// The bit position after the element.
    pub bit_position_after: u64,
}

/// The residual that follows motion code `code` at `at`.
pub open spec fn residual_at(s: Seq<bool>, at: int, f_code: u8, code: i8) -> (
    Result<Option<u8>>,
    int,
) {
    if f_code == 1 || code == 0 {
        (Ok(None), at)
    } else if !(2 <= f_code <= 9) {
        (Err(Error::InvalidBitstream(ERR_RESIDUAL_F_CODE)), at)
    } else if at + (f_code - 1) > s.len() {
        (Err(Error::ShortHeader), at)
    } else {
        (Ok(Some(be_value(s, at, f_code - 1) as u8)), at + (f_code - 1))
    }
}

/// One component of a vector at `at`: motion code, residual and, in a dual-prime
/// macroblock, differential.
#[verifier::opaque]
pub open spec fn component_at(s: Seq<bool>, at: int, f_code: u8, dmv: bool) -> (
    Result<(i8, Option<u8>, Option<i8>)>,
    int,
) {
    let (code, p1) = motion_code_at(s, at);
    match code {
        Err(e) => (Err(e), p1),
        Ok(code) => {
            let (residual, p2) = residual_at(s, p1, f_code, code);
            match residual {
                Err(e) => (Err(e), p2),
                Ok(residual) => if dmv {
                    let (d, p3) = dmvector_at(s, p2);
                    match d {
                        Err(e) => (Err(e), p3),
                        Ok(d) => (Ok((code, residual, Some(d))), p3),
                    }
                } else {
                    (Ok((code, residual, None)), p2)
                },
            }
        },
    }
}

/// The `motion_vector(r, s)` at `at`: its horizontal and then its vertical
/// component.
pub open spec fn motion_vector_at(
    s: Seq<bool>,
    at: int,
    f_code_horiz: u8,
    f_code_vert: u8,
    dmv: bool,
) -> (Result<MotionVector>, int) {
    let (h, p1) = component_at(s, at, f_code_horiz, dmv);
    match h {
        Err(e) => (Err(e), p1),
        Ok(h) => {
            let (v, p2) = component_at(s, p1, f_code_vert, dmv);
            match v {
                Err(e) => (Err(e), p2),
                Ok(v) => (
                    Ok(
                        (MotionVector {
                            motion_code_horiz: h.0,
                            motion_residual_horiz: h.1,
                            dmvector_horiz: h.2,
                            motion_code_vert: v.0,
                            motion_residual_vert: v.1,
                            dmvector_vert: v.2,
                            bit_position_after: p2 as u64,
                        }),
                    ),
                    p2,
                ),
            }
        },
    }
}

impl MotionVector {
    /// Reads a `motion_vector(r, s)` for the two `f_code` values of its
    /// direction.
    pub fn parse(
        br: &mut BitReader<'_>,
        f_code_horiz: u8,
        f_code_vert: u8,
        dmv: bool,
    ) -> (res: Result<MotionVector>)
        requires
            addressable(*old(br)),
        ensures
            reads_as(
                *old(br),
                *final(br),
                res,
                motion_vector_at(
                    reader_bits(*old(br)),
                    reader_pos(*old(br)) as int,
                    f_code_horiz,
                    f_code_vert,
                    dmv,
                ),
            ),
    {
        let h = MotionVector::parse_component(br, f_code_horiz, dmv)?;
        let v = MotionVector::parse_component(br, f_code_vert, dmv)?;
        Ok(
            MotionVector {
                motion_code_horiz: h.0,
                motion_residual_horiz: h.1,
                dmvector_horiz: h.2,
                motion_code_vert: v.0,
                motion_residual_vert: v.1,
                dmvector_vert: v.2,
                bit_position_after: br.bit_position(),
            },
        )
    }

    /// Reads one component of a vector.
    pub fn parse_component(br: &mut BitReader<'_>, f_code: u8, dmv: bool) -> (res: Result<
        (i8, Option<u8>, Option<i8>),
    >)
        ensures
            reads_as(
                *old(br),
                *final(br),
                res,
                component_at(reader_bits(*old(br)), reader_pos(*old(br)) as int, f_code, dmv),
            ),
    {
        proof {
            reveal(component_at);
        }
        let motion_code = match_motion_code(br)?;
        let motion_residual = if f_code != 1 && motion_code != 0 {
            if f_code < 2 || f_code > 9 {
                return Err(Error::InvalidBitstream(ERR_RESIDUAL_F_CODE));
            }
            proof {
                lemma2_to64();
            }
            let residual = read_field(br, (f_code - 1) as u32)?;
            Some(residual as u8)
        } else {
            None
        };
        let dmvector = if dmv {
            Some(match_b11(br)?)
        } else {
            None
        };
        Ok((motion_code, motion_residual, dmvector))
    }
}

/// The direction that `motion_vectors(s)` is read for.
#[derive(Debug, Clone, Copy, PartialEq, Eq, Structural)]
pub enum MotionVectorsKind {
    /// From the past reference.
    Forward,
    /// From the future reference; in B-pictures only.
    Backward,
}

/// The `f_code[s][t]` values of the picture.
#[derive(Debug, Clone, Copy, PartialEq, Eq)]
pub struct MotionVectorsContext {
    pub f_code_fwd_horiz: u8,
    pub f_code_fwd_vert: u8,
    pub f_code_bwd_horiz: u8,
    pub f_code_bwd_vert: u8,
}

impl MotionVectorsContext {
    pub open spec fn spec_for_kind(self, kind: MotionVectorsKind) -> (u8, u8) {
        match kind {
            MotionVectorsKind::Forward => (self.f_code_fwd_horiz, self.f_code_fwd_vert),
            MotionVectorsKind::Backward => (self.f_code_bwd_horiz, self.f_code_bwd_vert),
        }
    }

    /// The horizontal and the vertical `f_code` of a direction.
    pub fn for_kind(&self, kind: MotionVectorsKind) -> (r: (u8, u8))
        ensures
            r == self.spec_for_kind(kind),
    {
        match kind {
            MotionVectorsKind::Forward => (self.f_code_fwd_horiz, self.f_code_fwd_vert),
            MotionVectorsKind::Backward => (self.f_code_bwd_horiz, self.f_code_bwd_vert),
        }
    }
}

/// A vector of `motion_vectors(s)` with the reference field it selects.
#[derive(Debug, Clone, Copy, PartialEq, Eq)]
pub struct MotionVectorEntry {
    /// The bottom reference field where true, the top one where false; absent
    /// where the syntax has no `motion_vertical_field_select`.
    pub vertical_field_select: Option<bool>,
    pub motion_vector: MotionVector,
}

/// The vectors of one direction of a macroblock.
#[derive(Debug, Clone, PartialEq, Eq)]
pub struct MotionVectors {
    pub kind: MotionVectorsKind,
    /// One or two vectors, in the order of the bitstream.
    pub entries: Vec<MotionVectorEntry>,
    /// The bit position after the element.
    pub bit_position_after: u64,
}

/// One entry of `motion_vectors(s)` at `at`.
pub open spec fn motion_entry_at(
    s: Seq<bool>,
    at: int,
    select_present: bool,
    f_codes: (u8, u8),
    dmv: bool,
) -> (Result<MotionVectorEntry>, int) {
    if select_present && at >= s.len() {
        (Err(Error::ShortHeader), at)
    } else {
        let p = if select_present {
            at + 1
        } else {
            at
        };
        let (mv, next) = motion_vector_at(s, p, f_codes.0, f_codes.1, dmv);
        match mv {
            Err(e) => (Err(e), next),
            Ok(mv) => (
                Ok(
                    (MotionVectorEntry {
                        vertical_field_select: if select_present {
                            Some(s[at])
                        } else {
                            None
                        },
                        motion_vector: mv,
                    }),
                ),
                next,
            ),
        }
    }
}

/// The entries of the `motion_vectors(s)` at `at`. With one vector the field
/// select is present for field vectors that are not dual-prime; with two it
/// always is.
pub open spec fn motion_vectors_at(
    s: Seq<bool>,
    at: int,
    motion_type: MotionType,
    f_codes: (u8, u8),
) -> (Result<Seq<MotionVectorEntry>>, int) {
    if motion_type.motion_vector_count == 1 {
        let select = motion_type.mv_format == MvFormat::Field && !motion_type.dmv;
        let (e, p) = motion_entry_at(s, at, select, f_codes, motion_type.dmv);
        match e {
            Err(e) => (Err(e), p),
            Ok(e) => (Ok(seq![e]), p),
        }
    } else if motion_type.motion_vector_count == 2 {
        let (first, p1) = motion_entry_at(s, at, true, f_codes, motion_type.dmv);
        match first {
            Err(e) => (Err(e), p1),
            Ok(first) => {
                let (second, p2) = motion_entry_at(s, p1, true, f_codes, motion_type.dmv);
                match second {
                    Err(e) => (Err(e), p2),
                    Ok(second) => (Ok(seq![first, second]), p2),
                }
            },
        }
    } else {
        (Err(Error::InvalidBitstream(ERR_VECTOR_COUNT)), at)
    }
}

impl MotionVectorEntry {
    /// Reads one entry of `motion_vectors(s)`.
    pub fn parse(
        br: &mut BitReader<'_>,
        select_present: bool,
        f_codes: (u8, u8),
        dmv: bool,
    ) -> (res: Result<MotionVectorEntry>)
        requires
            addressable(*old(br)),
        ensures
            reads_as(
                *old(br),
                *final(br),
                res,
                motion_entry_at(
                    reader_bits(*old(br)),
                    reader_pos(*old(br)) as int,
                    select_present,
                    f_codes,
                    dmv,
                ),
            ),
    {
        let vertical_field_select = if select_present {
            Some(read_flag(br)?)
        } else {
            None
        };
        let motion_vector = MotionVector::parse(br, f_codes.0, f_codes.1, dmv)?;
        Ok(MotionVectorEntry { vertical_field_select, motion_vector })
    }
}

impl MotionVectors {
    /// Reads the `motion_vectors(s)` of direction `kind`.
    pub fn parse(
        br: &mut BitReader<'_>,
        kind: MotionVectorsKind,
        motion_type: &MotionType,
        ctx: &MotionVectorsContext,
    ) -> (res: Result<MotionVectors>)
        requires
            addressable(*old(br)),
        ensures
            reader_bits(*final(br)) == reader_bits(*old(br)),
            ({
                let (want, next) = motion_vectors_at(
                    reader_bits(*old(br)),
                    reader_pos(*old(br)) as int,
                    *motion_type,
                    ctx.spec_for_kind(kind),
                );
                &&& reader_pos(*final(br)) == next
                &&& match res {
                    Ok(mvs) => want == Ok::<Seq<MotionVectorEntry>, Error>(mvs.entries@) && mvs.kind
                        == kind && mvs.bit_position_after == next,
                    Err(e) => want == Err::<Seq<MotionVectorEntry>, Error>(e),
                }
            }),
    {
        let f_codes = ctx.for_kind(kind);
        let mut entries: Vec<MotionVectorEntry> = Vec::with_capacity(2);
        if motion_type.motion_vector_count == 1 {
            let select = motion_type.mv_format == MvFormat::Field && !motion_type.dmv;
            let entry = MotionVectorEntry::parse(br, select, f_codes, motion_type.dmv)?;
            entries.push(entry);
            assert(entries@ =~= seq![entry]);
        } else if motion_type.motion_vector_count == 2 {
            let first = MotionVectorEntry::parse(br, true, f_codes, motion_type.dmv)?;
            entries.push(first);
            let second = MotionVectorEntry::parse(br, true, f_codes, motion_type.dmv)?;
            entries.push(second);
            assert(entries@ =~= seq![first, second]);
        } else {
            return Err(Error::InvalidBitstream(ERR_VECTOR_COUNT));
        }
        Ok(MotionVectors { kind, entries, bit_position_after: br.bit_position() })
    }
}

// ---------------------------------------------------------------------------
// Writing a vector component
// ---------------------------------------------------------------------------

/// How many half samples one step of the motion code spans: `2^(f_code - 1)`.
pub open spec fn code_step(f_code: u8) -> int {
    pow2((f_code - 1) as nat) as int
}

/// The vector difference that a motion code and its residual stand for.
pub open spec fn component_delta(code: i8, residual: Option<u8>, f_code: u8) -> int {
    let r = match residual {
        Some(r) => r as int,
        None => 0,
    };
    if code == 0 {
        0
    } else if code > 0 {
        (code - 1) * code_step(f_code) + r + 1
    } else {
        (code + 1) * code_step(f_code) - r - 1
    }
}

/// The motion code that a difference is written with.
pub open spec fn delta_code(delta: int, f_code: u8) -> int {
    if delta == 0 {
        0
    } else if delta > 0 {
        (delta - 1) / code_step(f_code) + 1
    } else {
        -((-delta - 1) / code_step(f_code) + 1)
    }
}

/// The residual that a difference is written with.
pub open spec fn delta_residual(delta: int, f_code: u8) -> int {
    if delta >= 0 {
        (delta - 1) % code_step(f_code)
    } else {
        (-delta - 1) % code_step(f_code)
    }
}

/// The bits of a vector component: the codeword of its motion code and, where
/// the `f_code` is not 1 and the difference not 0, the residual.
pub open spec fn component_bits(delta: int, f_code: u8) -> Seq<bool> {
    let row = TABLE_B10[delta_code(delta, f_code) + 16];
    value_bits(row.0 as int, row.1 as int) + (if f_code != 1 && delta != 0 {
        value_bits(delta_residual(delta, f_code), f_code - 1)
    } else {
        Seq::empty()
    })
}

/// Whether a difference can be written with an `f_code`.
pub open spec fn delta_codable(delta: int, f_code: u8) -> bool {
    1 <= f_code <= 9 && -16 * code_step(f_code) <= delta <= 16 * code_step(f_code)
}

pub proof fn lemma_delta_code(delta: int, f_code: u8)
    requires
        delta_codable(delta, f_code),
    ensures
        -16 <= delta_code(delta, f_code) <= 16,
        delta_code(delta, f_code) == 0 <==> delta == 0,
        delta > 0 ==> delta == (delta_code(delta, f_code) - 1) * code_step(f_code)
            + delta_residual(delta, f_code) + 1,
        delta < 0 ==> delta == (delta_code(delta, f_code) + 1) * code_step(f_code)
            - delta_residual(delta, f_code) - 1,
        0 <= delta_residual(delta, f_code) < code_step(f_code),
        1 <= code_step(f_code) <= 256,
        f_code == 1 ==> code_step(f_code) == 1,
{
    lemma2_to64();
    let f = code_step(f_code);
    let m = if delta > 0 {
        delta - 1
    } else {
        -delta - 1
    };
    if delta != 0 {
        vstd::arithmetic::div_mod::lemma_fundamental_div_mod(m, f);
        assert(0 <= m / f <= 15) by (nonlinear_arith)
            requires
                0 <= m < 16 * f,
                f > 0,
        ;
        assert((-(m / f + 1) + 1) * f == -(f * (m / f))) by (nonlinear_arith);
        assert((m / f + 1 - 1) * f == f * (m / f)) by (nonlinear_arith);
    }
}

/// Writes one vector component as its difference from the prediction.
pub fn encode_motion_component(bw: &mut BitWriter, delta: i32, f_code: u8)
    requires
        delta_codable(delta as int, f_code),
    ensures
        writer_bits(*final(bw)) == writer_bits(*old(bw)) + component_bits(delta as int, f_code),
{
    proof {
        lemma_delta_code(delta as int, f_code);
        lemma2_to64();
    }
    let f: i32 = match f_code {
        1 => 1,
        2 => 2,
        3 => 4,
        4 => 8,
        5 => 16,
        6 => 32,
        7 => 64,
        8 => 128,
        _ => 256,
    };
    assert(f == code_step(f_code));
    let ghost before = writer_bits(*bw);
    if delta == 0 {
        let row = TABLE_B10[16];
        bw.write_u32(row.0 as u32, row.1 as u32);
        assert(writer_bits(*bw) =~= before + component_bits(delta as int, f_code));
        return;
    }
    let magnitude: i32 = if delta > 0 {
        delta - 1
    } else {
        -delta - 1
    };
    let step: i32 = magnitude / f + 1;
    let code: i32 = if delta > 0 {
        step
    } else {
        -step
    };
    assert(code == delta_code(delta as int, f_code));
    let row = TABLE_B10[(code + 16) as usize];
    proof {
        lemma_b10_prefix_free(code + 16, code + 16);
    }
    bw.write_u32(row.0 as u32, row.1 as u32);
    if f_code != 1 {
        let residual: i32 = magnitude % f;
        bw.write_u32(residual as u32, (f_code - 1) as u32);
    }
    assert(writer_bits(*bw) =~= before + component_bits(delta as int, f_code));
}

/// A component that was written is read back as the same difference, and the
/// reader ends where the writer did.
pub proof fn law_component_round_trip(s: Seq<bool>, at: int, delta: int, f_code: u8)
    requires
        delta_codable(delta, f_code),
        0 <= at,
        at + component_bits(delta, f_code).len() <= s.len(),
        s.subrange(at, at + component_bits(delta, f_code).len()) == component_bits(delta, f_code),
    ensures
        ({
            let (read, next) = component_at(s, at, f_code, false);
            &&& next == at + component_bits(delta, f_code).len()
            &&& read == Ok::<(i8, Option<u8>, Option<i8>), Error>(
                (
                    delta_code(delta, f_code) as i8,
                    if f_code != 1 && delta != 0 {
                        Some(delta_residual(delta, f_code) as u8)
                    } else {
                        None
                    },
                    None,
                ),
            )
            &&& component_delta(read->Ok_0.0, read->Ok_0.1, f_code) == delta
        }),
{
    reveal(component_at);
    lemma_delta_code(delta, f_code);
    lemma2_to64();
    let code = delta_code(delta, f_code);
    let i = code + 16;
    let row = TABLE_B10[i];
    lemma_b10_prefix_free(i, i);
    let head = value_bits(row.0 as int, row.1 as int);
    let n = row.1 as int;
    lemma_value_bits_len(row.0 as int, n);
    lemma_value_bits_len(delta_residual(delta, f_code), f_code - 1);
    let all = component_bits(delta, f_code);
    let w = s.subrange(at, at + all.len());
    assert(s.subrange(at, at + n) =~= w.subrange(0, n));
    assert(all.subrange(0, n) =~= head);
    lemma_written_codeword(s, at, row.0 as int, n);
    assert(b10_row_at(s, at, i));
    lemma_b10_row_unique(s, at, i);
    assert(motion_code_at(s, at) == (Ok::<i8, Error>(code as i8), at + n));
    if f_code != 1 && delta != 0 {
        let r = delta_residual(delta, f_code);
        assert(s.subrange(at + n, at + n + (f_code - 1)) =~= w.subrange(n, n + (f_code - 1)));
        assert(all.subrange(n, n + (f_code - 1)) =~= value_bits(r, f_code - 1));
        lemma_value_bits_read(s, at + n, r, f_code - 1);
    }
}

/// Whether a vector has motion codes of Table B-10 and residuals of its `f_code`
/// values.
pub open spec fn vector_in_range(v: MotionVector, f_codes: (u8, u8)) -> bool {
    &&& -16 <= v.motion_code_horiz <= 16
    &&& -16 <= v.motion_code_vert <= 16
    &&& v.motion_residual_horiz matches Some(r) ==> r < code_step(f_codes.0)
    &&& v.motion_residual_vert matches Some(r) ==> r < code_step(f_codes.1)
}

/// Whether there is a vector, and all are in range.
pub open spec fn entries_in_range(entries: Seq<MotionVectorEntry>, f_codes: (u8, u8)) -> bool {
    entries.len() > 0 && forall|i: int|
        0 <= i < entries.len() ==> vector_in_range(
            (#[trigger] entries[i]).motion_vector,
            f_codes,
        )
}

proof fn lemma_component_read(s: Seq<bool>, at: int, f_code: u8, dmv: bool)
    ensures
        component_at(s, at, f_code, dmv).1 >= at,
        component_at(s, at, f_code, dmv).0 matches Ok(c) ==> -16 <= c.0 <= 16 && (c.1 matches Some(
            r,
        ) ==> r < code_step(f_code)),
{
    reveal(component_at);
    lemma2_to64();
    assert forall|i: int| 0 <= i < 33 implies -16 <= #[trigger] b10_entry(i).value <= 16 by {
        lemma_b10_prefix_free(i, i);
    }
    let (code, p) = motion_code_at(s, at);
    if 2 <= f_code <= 9 {
        lemma_be_value_bounds(s, p, f_code - 1);
    }
}

proof fn lemma_entry_read(
    s: Seq<bool>,
    at: int,
    select_present: bool,
    f_codes: (u8, u8),
    dmv: bool,
)
    ensures
        motion_entry_at(s, at, select_present, f_codes, dmv).1 >= at,
        motion_entry_at(s, at, select_present, f_codes, dmv).0 matches Ok(e) ==> vector_in_range(
            e.motion_vector,
            f_codes,
        ),
{
    let p = if select_present {
        at + 1
    } else {
        at
    };
    lemma_component_read(s, p, f_codes.0, dmv);
    lemma_component_read(s, component_at(s, p, f_codes.0, dmv).1, f_codes.1, dmv);
}

/// Reading vectors does not move back, and vectors that were read are in range.
pub proof fn lemma_motion_vectors_read(
    s: Seq<bool>,
    at: int,
    motion_type: MotionType,
    f_codes: (u8, u8),
)
    ensures
        motion_vectors_at(s, at, motion_type, f_codes).1 >= at,
        motion_vectors_at(s, at, motion_type, f_codes).0 matches Ok(entries) ==> entries_in_range(
            entries,
            f_codes,
        ),
{
    let dmv = motion_type.dmv;
    if motion_type.motion_vector_count == 1 {
        let select = motion_type.mv_format == MvFormat::Field && !dmv;
        lemma_entry_read(s, at, select, f_codes, dmv);
    } else if motion_type.motion_vector_count == 2 {
        lemma_entry_read(s, at, true, f_codes, dmv);
        let p1 = motion_entry_at(s, at, true, f_codes, dmv).1;
        lemma_entry_read(s, p1, true, f_codes, dmv);
    }
}

/// The codes and residuals of an `f_code` stand for consecutive differences: the residual
/// of `f_code - 1` bits counts from the difference after the last one of the code before,
/// and negative codes stand for the opposite differences. Code 1 starts at 1.
pub proof fn law_differences_are_consecutive(code: i8, r: u8, f_code: u8)
    requires
        1 <= code <= 16,
        1 <= f_code <= 9,
        r < pow2((f_code - 1) as nat),
    ensures
        component_delta(0, None, f_code) == 0,
        component_delta(1, Some(0), f_code) == 1,
        r > 0 ==> component_delta(code, Some(r), f_code) == component_delta(
            code,
            Some((r - 1) as u8),
            f_code,
        ) + 1,
        code > 1 && r == pow2((f_code - 1) as nat) - 1 ==> component_delta(
            code,
            Some(0),
            f_code,
        ) == component_delta((code - 1) as i8, Some(r), f_code) + 1,
        component_delta(-code as i8, Some(r), f_code) == -component_delta(
            code,
            Some(r),
            f_code,
        ),
        f_code == 1 ==> component_delta(code, None, f_code) == code,
{
    lemma2_to64();
    let f = code_step(f_code);
    assert((code - 1) * f == (code - 2) * f + f) by (nonlinear_arith);
    assert((-code + 1) * f == -((code - 1) * f)) by (nonlinear_arith);
    if f_code == 1 {
        assert((code - 1) * f == code - 1) by (nonlinear_arith)
            requires
                f == 1,
        ;
    }
}

/// A differential is -1, 0 or 1: none where its first bit is zero, and else a step whose
/// sign is the second bit.
pub proof fn law_differential_is_a_step(s: Seq<bool>, at: int)
    requires
        0 <= at,
    ensures
        dmvector_at(s, at) matches (Ok(d), next) ==> {
            &&& d == 0 <==> !s[at]
            &&& d != 0 ==> next == at + 2 && (d == -1 || d == 1) && (d < 0 <==> s[at + 1])
            &&& d == 0 ==> next == at + 1
            &&& next <= s.len()
        },
        at + 2 <= s.len() ==> dmvector_at(s, at).0 is Ok,
{
}

} // verus!
