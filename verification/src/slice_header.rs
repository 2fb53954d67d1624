//! Slices: where they stand in a picture, and their headers.

use crate::bits::{
    be_value, bits_of, holds_at, lemma_holds_field, lemma_holds_flag, read_field, read_flag,
    reader_bits, reader_pos, value_bits,
};
use crate::error::{Error, Result};
use crate::picture_header::{extra_information_at, lemma_extra_information_end};
use crate::stream_writer::{slice_header_bits, FIRST_SLICE_START_CODE};
use oxideav_core::bits::BitReader;
use vstd::arithmetic::power2::lemma2_to64;
use vstd::prelude::*;

verus! {

pub const ERR_SLICE_START_CODE: &'static str =
    "slice_start_code outside 0x00000101..=0x000001AF (Table 6-1)";

pub const ERR_SLICE_SCALE: &'static str = "quantiser_scale_code: code 0 is forbidden";

/// The greatest slice start code.
pub const LAST_SLICE_START_CODE: u32 = 0x0000_01AF;

/// What a slice header is read with.
#[derive(Debug, Clone, Copy, PartialEq, Eq)]
pub struct SliceContext {
    pub vertical_size: u32,
}

impl SliceContext {
    pub fn non_scalable(vertical_size: u32) -> (c: Self)
        ensures
            c == (SliceContext { vertical_size }),
    {
        SliceContext { vertical_size }
    }
}

/// A decoded slice header.
#[derive(Debug, Clone, Copy, PartialEq, Eq)]
pub struct SliceHeader {
    /// The macroblock row of the slice, counted from 1.
    pub slice_vertical_position: u16,
    /// From 1 to 31.
    pub quantiser_scale_code: u8,
    /// The bit position of the first macroblock.
    pub body_bit_position: u64,
}

/// The quantiser scale at `at` and what follows it, for a slice at a position.
pub open spec fn slice_scale_at(s: Seq<bool>, at: int, position: int) -> Result<SliceHeader> {
    if at + 5 > s.len() {
        Err(Error::ShortHeader)
    } else if be_value(s, at, 5) == 0 {
        Err(Error::InvalidBitstream(ERR_SLICE_SCALE))
    } else {
        let (extra, next) = extra_information_at(s, at + 5);
        match extra {
            Err(e) => Err(e),
            Ok(_) => Ok(
                (SliceHeader {
                    slice_vertical_position: position as u16,
                    quantiser_scale_code: be_value(s, at, 5) as u8,
                    body_bit_position: next as u64,
                }),
            ),
        }
    }
}

/// The header that the bits of a slice start with. Where the picture has more than
/// 2800 lines, three bits extend the position of the start code.
pub open spec fn slice_header_of(s: Seq<bool>, vertical_size: u32) -> Result<SliceHeader> {
    if s.len() < 32 {
        Err(Error::ShortHeader)
    } else {
        let code = be_value(s, 0, 32);
        if !(FIRST_SLICE_START_CODE <= code <= LAST_SLICE_START_CODE) {
            Err(Error::InvalidBitstream(ERR_SLICE_START_CODE))
        } else if vertical_size <= 2800 {
            slice_scale_at(s, 32, code - 0x100)
        } else if s.len() < 35 {
            Err(Error::ShortHeader)
        } else {
            slice_scale_at(s, 35, 128 * be_value(s, 32, 3) + (code - 0x100))
        }
    }
}

/// Passes over extra information.
fn skip_extra_information(br: &mut BitReader<'_>) -> (res: Result<()>)
    requires
        reader_pos(*old(br)) <= reader_bits(*old(br)).len(),
    ensures
        reader_bits(*final(br)) == reader_bits(*old(br)),
        ({
            let (want, next) = extra_information_at(
                reader_bits(*old(br)),
                reader_pos(*old(br)) as int,
            );
            match want {
                Ok(_) => res == Ok::<(), Error>(()) && reader_pos(*final(br)) == next,
                Err(e) => res == Err::<(), Error>(e),
            }
        }),
{
    let ghost s = reader_bits(*br);
    let ghost whole = extra_information_at(s, reader_pos(*br) as int);
    loop
        invariant
            reader_bits(*br) == s,
            s == reader_bits(*old(br)),
            reader_pos(*br) <= s.len(),
            whole == extra_information_at(s, reader_pos(*old(br)) as int),
            ({
                let (rest, next) = extra_information_at(s, reader_pos(*br) as int);
                match rest {
                    Ok(_) => whole.0 is Ok && whole.1 == next,
                    Err(e) => whole.0 == Err::<Seq<u8>, Error>(e),
                }
            }),
        decreases s.len() - reader_pos(*br),
    {
        if !read_flag(br)? {
            return Ok(());
        }
        let _ = read_field(br, 8)?;
    }
}

fn parse_scale(br: &mut BitReader<'_>, position: u16) -> (res: Result<SliceHeader>)
    requires
        crate::bits::addressable(*old(br)),
        reader_pos(*old(br)) <= reader_bits(*old(br)).len(),
    ensures
        res == slice_scale_at(
            reader_bits(*old(br)),
            reader_pos(*old(br)) as int,
            position as int,
        ),
{
    proof {
        lemma2_to64();
    }
    let scale = read_field(br, 5)?;
    if scale == 0 {
        return Err(Error::InvalidBitstream(ERR_SLICE_SCALE));
    }
    skip_extra_information(br)?;
    Ok(
        SliceHeader {
            slice_vertical_position: position,
            quantiser_scale_code: scale as u8,
            body_bit_position: br.bit_position(),
        },
    )
}

impl SliceHeader {
    /// Reads the header at the start of a slice.
    pub fn parse(buf: &[u8], ctx: SliceContext) -> (res: Result<Self>)
        requires
            8 * buf@.len() <= u64::MAX,
        ensures
            res == slice_header_of(bits_of(buf@), ctx.vertical_size),
            res matches Ok(h) ==> 1 <= h.slice_vertical_position <= 1071 && 1
                <= h.quantiser_scale_code <= 31 && h.body_bit_position <= 8 * buf@.len(),
    {
        proof {
            lemma2_to64();
            lemma_header_bounds(bits_of(buf@), ctx.vertical_size);
        }
        let mut br = BitReader::new(buf);
        let code = read_field(&mut br, 32)?;
        if code < FIRST_SLICE_START_CODE || code > LAST_SLICE_START_CODE {
            return Err(Error::InvalidBitstream(ERR_SLICE_START_CODE));
        }
        let low = (code - 0x100) as u16;
        if ctx.vertical_size > 2800 {
            let extension = read_field(&mut br, 3)? as u16;
            parse_scale(&mut br, 128 * extension + low)
        } else {
            parse_scale(&mut br, low)
        }
    }
}

proof fn lemma_header_bounds(s: Seq<bool>, vertical_size: u32)
    requires
        s.len() <= u64::MAX,
    ensures
        slice_header_of(s, vertical_size) matches Ok(h) ==> 1 <= h.slice_vertical_position <= 1071
            && 1 <= h.quantiser_scale_code <= 31 && h.body_bit_position <= s.len(),
{
    lemma2_to64();
    crate::bits::lemma_be_value_bounds(s, 32, 3);
    crate::bits::lemma_be_value_bounds(s, 32, 5);
    crate::bits::lemma_be_value_bounds(s, 35, 5);
    if s.len() >= 37 {
        lemma_extra_information_end(s, 37);
    }
    if s.len() >= 40 {
        lemma_extra_information_end(s, 40);
    }
}

/// A slice header that was written is read back.
pub proof fn law_slice_header_round_trip(
    s: Seq<bool>,
    mb_row: int,
    quantiser_scale_code: u8,
    vertical_size: u32,
)
    requires
        0 <= mb_row < 175,
        1 <= quantiser_scale_code <= 31,
        vertical_size <= 2800,
        holds_at(s, 0, slice_header_bits(mb_row, quantiser_scale_code)),
    ensures
        slice_header_of(s, vertical_size) == Ok::<SliceHeader, Error>(
            (SliceHeader {
                slice_vertical_position: (mb_row + 1) as u16,
                quantiser_scale_code,
                body_bit_position: 38,
            }),
        ),
{
    lemma2_to64();
    let code = value_bits(FIRST_SLICE_START_CODE + mb_row, 32);
    let scale = value_bits(quantiser_scale_code as int, 5);
    assert(slice_header_bits(mb_row, quantiser_scale_code) =~= code + (scale + (seq![false]
        + Seq::empty())));
    lemma_holds_field(
        s,
        0,
        FIRST_SLICE_START_CODE + mb_row,
        32,
        scale + (seq![false] + Seq::empty()),
    );
    lemma_holds_field(s, 32, quantiser_scale_code as int, 5, seq![false] + Seq::empty());
    lemma_holds_flag(s, 37, false, Seq::empty());
}

// ---------------------------------------------------------------------------
// Start codes
// ---------------------------------------------------------------------------

/// Whether a start code prefix stands at byte `i`.
pub open spec fn prefix_stands(buf: Seq<u8>, i: int) -> bool {
    buf[i] == 0 && buf[i + 1] == 0 && buf[i + 2] == 1
}

/// The first slice start code from byte `from` on.
pub open spec fn slice_start_from(buf: Seq<u8>, from: int) -> Option<int>
    decreases buf.len() - from,
{
    if from + 4 > buf.len() {
        None
    } else if prefix_stands(buf, from) && 0x01 <= buf[from + 3] <= 0xAF {
        Some(from)
    } else {
        slice_start_from(buf, from + 1)
    }
}

/// The first start code of any kind from byte `from` on.
pub open spec fn next_start_from(buf: Seq<u8>, from: int) -> Option<int>
    decreases buf.len() - from,
{
    if from + 3 > buf.len() {
        None
    } else if prefix_stands(buf, from) {
        Some(from)
    } else {
        next_start_from(buf, from + 1)
    }
}

pub proof fn lemma_start_codes(buf: Seq<u8>, from: int)
    ensures
        slice_start_from(buf, from) matches Some(i) ==> from <= i && i + 4 <= buf.len(),
        next_start_from(buf, from) matches Some(i) ==> from <= i && i + 3 <= buf.len(),
    decreases buf.len() - from,
{
    if from + 3 <= buf.len() {
        lemma_start_codes(buf, from + 1);
    }
}

/// Finds the first slice start code from byte `from` on.
pub fn find_slice_start_code(buf: &[u8], from: usize) -> (r: Option<usize>)
    requires
        from <= buf@.len(),
    ensures
        match r {
            Some(i) => slice_start_from(buf@, from as int) == Some(i as int) && from <= i && i + 4
                <= buf@.len(),
            None => slice_start_from(buf@, from as int) is None,
        },
{
    let len: usize = buf.len();
    let mut i: usize = from;
    while len - i >= 4
        invariant
            from <= i <= len,
            len == buf@.len(),
            slice_start_from(buf@, i as int) == slice_start_from(buf@, from as int),
        decreases len - i,
    {
        if buf[i] == 0 && buf[i + 1] == 0 && buf[i + 2] == 1 && buf[i + 3] >= 0x01 && buf[i + 3]
            <= 0xAF {
            return Some(i);
        }
        i += 1;
    }
    None
}

/// Finds the first start code of any kind from byte `from` on.
pub fn find_next_start_code(buf: &[u8], from: usize) -> (r: Option<usize>)
    requires
        from <= buf@.len(),
    ensures
        match r {
            Some(i) => next_start_from(buf@, from as int) == Some(i as int) && from <= i && i + 3
                <= buf@.len(),
            None => next_start_from(buf@, from as int) is None,
        },
{
    let len: usize = buf.len();
    let mut i: usize = from;
    while len - i >= 3
        invariant
            from <= i <= len,
            len == buf@.len(),
            next_start_from(buf@, i as int) == next_start_from(buf@, from as int),
        decreases len - i,
    {
        if buf[i] == 0 && buf[i + 1] == 0 && buf[i + 2] == 1 {
            return Some(i);
        }
        i += 1;
    }
    None
}

/// Where the slice that starts at byte `start` ends: at the next start code, or at
/// the end of the bytes.
pub open spec fn slice_end(buf: Seq<u8>, start: int) -> int {
    match next_start_from(buf, start + 4) {
        Some(i) => i,
        None => buf.len() as int,
    }
}

/// Finds where the slice that starts at byte `start` ends.
pub fn find_slice_end(buf: &[u8], start: usize) -> (end: usize)
    requires
        start + 4 <= buf@.len(),
    ensures
        end == slice_end(buf@, start as int),
        start + 4 <= end <= buf@.len(),
{
    let len: usize = buf.len();
    match find_next_start_code(buf, start + 4) {
        Some(i) => i,
        None => len,
    }
}

/// The slice start code that is found is one, and the first: three bytes 0, 0, 1 and a
/// fourth from 1 to 175. None is found only where there is none.
pub proof fn law_first_slice_is_found(buf: Seq<u8>, from: int)
    requires
        0 <= from,
    ensures
        ({
            let found = slice_start_from(buf, from);
            let end = match found {
                Some(i) => i,
                None => buf.len() - 3,
            };
            &&& found matches Some(i) ==> from <= i && i + 3 < buf.len() && buf[i] == 0
                && buf[i + 1] == 0 && buf[i + 2] == 1 && 1 <= buf[i + 3] <= 175
            &&& forall|j: int|
                from <= j < end && #[trigger] buf[j] == 0 && buf[j + 1] == 0 && buf[j + 2] == 1
                    ==> buf[j + 3] == 0 || buf[j + 3] > 175
        }),
    decreases buf.len() - from,
{
    if from + 4 <= buf.len() {
        law_first_slice_is_found(buf, from + 1);
    }
}

/// The start code that is found is one, and the first: three bytes 0, 0, 1. None is found
/// only where there is none.
pub proof fn law_first_start_code_is_found(buf: Seq<u8>, from: int)
    requires
        0 <= from,
    ensures
        ({
            let found = next_start_from(buf, from);
            let end = match found {
                Some(i) => i,
                None => buf.len() - 2,
            };
            &&& found matches Some(i) ==> from <= i && i + 2 < buf.len() && buf[i] == 0
                && buf[i + 1] == 0 && buf[i + 2] == 1
            &&& forall|j: int|
                from <= j < end && #[trigger] buf[j] == 0 && buf[j + 1] == 0 ==> buf[j + 2] != 1
        }),
    decreases buf.len() - from,
{
    if from + 3 <= buf.len() {
        law_first_start_code_is_found(buf, from + 1);
    }
}

/// A slice ends before the first start code after its own, or with the bytes.
pub proof fn law_slice_ends_at_a_start_code(buf: Seq<u8>, start: int)
    requires
        0 <= start,
        start + 4 <= buf.len(),
    ensures
        ({
            let end = slice_end(buf, start);
            &&& start + 4 <= end <= buf.len()
            &&& end < buf.len() ==> end + 2 < buf.len() && buf[end] == 0 && buf[end + 1] == 0
                && buf[end + 2] == 1
            &&& forall|j: int|
                start + 4 <= j < end && j + 2 < buf.len() && #[trigger] buf[j] == 0
                    && buf[j + 1] == 0 ==> buf[j + 2] != 1
        }),
{
    law_first_start_code_is_found(buf, start + 4);
}

} // verus!
