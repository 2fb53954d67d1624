//! The `picture_display_extension()`: frame centre offsets for pan and scan, and
//! the offset that carries over between pictures.

use crate::bits::{
    be_value, bits_of, read_field, read_flag, reader_bits, reader_pos, reads_as, sign_extended,
};
use crate::error::{Error, Result};
use crate::picture_header::{PictureStructure, EXTENSION_START_CODE};
use oxideav_core::bits::BitReader;
use vstd::prelude::*;
use vstd::slice::slice_subrange;

verus! {

/// The extension identifier of a picture display extension.
pub const PICTURE_DISPLAY_EXTENSION_ID: u32 = 0b0111;

/// The most offsets that one extension carries.
pub const MAX_FRAME_CENTRE_OFFSETS: usize = 3;

pub const ERR_EXTENSION_CODE: &'static str = "extension_start_code: expected 0x000001B5 (§6.3.4)";

pub const ERR_DISPLAY_ID: &'static str =
    "extension_start_code_identifier: expected '0111' Picture Display Extension ID (Table 6-2)";

pub const ERR_MARKER_HORIZONTAL: &'static str =
    "marker_bit after frame_centre_horizontal_offset (§6.2.3.3)";

pub const ERR_MARKER_VERTICAL: &'static str =
    "marker_bit after frame_centre_vertical_offset (§6.2.3.3)";

/// An offset of the frame centre from the centre of the display rectangle, in
/// sixteenths of a sample.
#[derive(Debug, Clone, Copy, PartialEq, Eq)]
pub struct FrameCentreOffset {
    /// Positive to the right.
    pub horizontal: i32,
    /// Positive downward, in frame lines.
    pub vertical: i32,
}

impl Default for FrameCentreOffset {
    fn default() -> (o: Self)
        ensures
            o == (FrameCentreOffset { horizontal: 0, vertical: 0 }),
    {
        FrameCentreOffset { horizontal: 0, vertical: 0 }
    }
}

/// A decoded `picture_display_extension()`.
#[derive(Debug, Clone, Copy, PartialEq, Eq)]
pub struct PictureDisplayExtension {
    /// How many of the offsets are in use.
    pub count: u8,
    /// The offsets in the order of the bitstream; the unused ones are zero.
    pub offsets: [FrameCentreOffset; MAX_FRAME_CENTRE_OFFSETS],
}

impl Default for PictureDisplayExtension {
    fn default() -> (x: Self)
        ensures
            x.count == 0,
            forall|i: int|
                0 <= i < 3 ==> x.offsets[i] == (FrameCentreOffset { horizontal: 0, vertical: 0 }),
    {
        PictureDisplayExtension {
            count: 0,
            offsets: [FrameCentreOffset { horizontal: 0, vertical: 0 };MAX_FRAME_CENTRE_OFFSETS],
        }
    }
}

/// What the number of offsets depends on.
#[derive(Debug, Clone, Copy, PartialEq, Eq)]
pub struct PictureDisplayContext {
    pub progressive_sequence: bool,
    pub picture_structure: PictureStructure,
    pub repeat_first_field: bool,
    pub top_field_first: bool,
}

/// How many fields or frames a picture is displayed as, and so how many offsets
/// it has.
pub open spec fn offset_count(ctx: PictureDisplayContext) -> int {
    if ctx.progressive_sequence {
        if !ctx.repeat_first_field {
            1
        } else if ctx.top_field_first {
            3
        } else {
            2
        }
    } else if ctx.picture_structure != PictureStructure::Frame {
        1
    } else if ctx.repeat_first_field {
        3
    } else {
        2
    }
}

/// How many offsets the extension of a picture carries.
pub fn number_of_frame_centre_offsets(ctx: PictureDisplayContext) -> (n: u8)
    ensures
        n == offset_count(ctx),
        1 <= n <= 3,
{
    if ctx.progressive_sequence {
        if ctx.repeat_first_field {
            if ctx.top_field_first {
                3
            } else {
                2
            }
        } else {
            1
        }
    } else {
        match ctx.picture_structure {
            PictureStructure::TopField | PictureStructure::BottomField => 1,
            PictureStructure::Frame => if ctx.repeat_first_field {
                3
            } else {
                2
            },
        }
    }
}

/// One offset at `at`: two signed 16-bit fields, each followed by a one bit.
pub open spec fn offset_at(s: Seq<bool>, at: int) -> (Result<FrameCentreOffset>, int) {
    if at + 16 > s.len() {
        (Err(Error::ShortHeader), at)
    } else if at + 17 > s.len() {
        (Err(Error::ShortHeader), at + 16)
    } else if !s[at + 16] {
        (Err(Error::InvalidBitstream(ERR_MARKER_HORIZONTAL)), at + 17)
    } else if at + 33 > s.len() {
        (Err(Error::ShortHeader), at + 17)
    } else if at + 34 > s.len() {
        (Err(Error::ShortHeader), at + 33)
    } else if !s[at + 33] {
        (Err(Error::InvalidBitstream(ERR_MARKER_VERTICAL)), at + 34)
    } else {
        (
            Ok(
                (FrameCentreOffset {
                    horizontal: sign_extended(be_value(s, at, 16), 16) as i32,
                    vertical: sign_extended(be_value(s, at + 17, 16), 16) as i32,
                }),
            ),
            at + 34,
        )
    }
}

/// The first `k` offsets at `at`.
pub open spec fn offsets_at(s: Seq<bool>, at: int, k: int) -> (Result<Seq<FrameCentreOffset>>, int)
    decreases k,
{
    if k <= 0 {
        (Ok(Seq::empty()), at)
    } else {
        let (first, p) = offsets_at(s, at, k - 1);
        match first {
            Err(e) => (Err(e), p),
            Ok(first) => {
                let (last, next) = offset_at(s, p);
                match last {
                    Err(e) => (Err(e), next),
                    Ok(last) => (Ok(first.push(last)), next),
                }
            },
        }
    }
}

/// The offsets of the `picture_display_extension()` at `at`.
pub open spec fn display_extension_at(s: Seq<bool>, at: int, ctx: PictureDisplayContext) -> (
    Result<Seq<FrameCentreOffset>>,
    int,
) {
    if at + 32 > s.len() {
        (Err(Error::ShortHeader), at)
    } else if be_value(s, at, 32) != EXTENSION_START_CODE {
        (Err(Error::InvalidBitstream(ERR_EXTENSION_CODE)), at + 32)
    } else if at + 36 > s.len() {
        (Err(Error::ShortHeader), at + 32)
    } else if be_value(s, at + 32, 4) != PICTURE_DISPLAY_EXTENSION_ID {
        (Err(Error::InvalidBitstream(ERR_DISPLAY_ID)), at + 36)
    } else {
        offsets_at(s, at + 36, offset_count(ctx))
    }
}

/// Whether an extension holds the offsets `want` and zeroes after them.
pub open spec fn holds_offsets(x: PictureDisplayExtension, want: Seq<FrameCentreOffset>) -> bool {
    &&& x.count == want.len() <= 3
    &&& forall|i: int|
        #![trigger x.offsets[i]]
        0 <= i < 3 ==> x.offsets[i] == (if i < want.len() {
            want[i]
        } else {
            (FrameCentreOffset { horizontal: 0, vertical: 0 })
        })
}

impl PictureDisplayExtension {
    /// The offsets in use.
    pub fn offsets(&self) -> (r: &[FrameCentreOffset])
        requires
            self.count <= 3,
        ensures
            r@ == self.offsets@.subrange(0, self.count as int),
    {
        slice_subrange(self.offsets.as_slice(), 0, self.count as usize)
    }

    /// Reads the picture display extension that `buf` starts with.
    pub fn parse(buf: &[u8], ctx: PictureDisplayContext) -> (res: Result<Self>)
        ensures
            match display_extension_at(bits_of(buf@), 0, ctx).0 {
                Ok(want) => res is Ok && holds_offsets(res->Ok_0, want),
                Err(e) => res == Err::<Self, Error>(e),
            },
    {
        let mut br = BitReader::new(buf);
        Self::parse_with_reader(&mut br, ctx)
    }

    /// Reads the picture display extension at the cursor.
    pub fn parse_with_reader(br: &mut BitReader<'_>, ctx: PictureDisplayContext) -> (res: Result<
        Self,
    >)
        ensures
            reader_bits(*final(br)) == reader_bits(*old(br)),
            ({
                let (want, next) = display_extension_at(
                    reader_bits(*old(br)),
                    reader_pos(*old(br)) as int,
                    ctx,
                );
                &&& reader_pos(*final(br)) == next
                &&& match want {
                    Ok(want) => res is Ok && holds_offsets(res->Ok_0, want),
                    Err(e) => res == Err::<Self, Error>(e),
                }
            }),
    {
        let ghost s = reader_bits(*br);
        let ghost at = reader_pos(*br) as int;
        let code = read_field(br, 32)?;
        if code != EXTENSION_START_CODE {
            return Err(Error::InvalidBitstream(ERR_EXTENSION_CODE));
        }
        let id = read_field(br, 4)?;
        if id != PICTURE_DISPLAY_EXTENSION_ID {
            return Err(Error::InvalidBitstream(ERR_DISPLAY_ID));
        }
        let count = number_of_frame_centre_offsets(ctx);
        let mut offsets: [FrameCentreOffset; MAX_FRAME_CENTRE_OFFSETS] = [
            FrameCentreOffset { horizontal: 0, vertical: 0 };
            MAX_FRAME_CENTRE_OFFSETS
        ];
        let mut i: u8 = 0;
        while i < count
            invariant
                i <= count <= 3,
                count == offset_count(ctx),
                s == reader_bits(*old(br)),
                at == reader_pos(*old(br)),
                reader_bits(*br) == s,
                display_extension_at(s, at, ctx) == offsets_at(s, at + 36, count as int),
                offsets_at(s, at + 36, i as int).0 is Ok,
                offsets_at(s, at + 36, i as int).1 == reader_pos(*br),
                offsets_at(s, at + 36, i as int).0->Ok_0.len() == i,
                forall|j: int|
                    #![trigger offsets[j]]
                    0 <= j < 3 ==> offsets[j] == (if j < i {
                        offsets_at(s, at + 36, i as int).0->Ok_0[j]
                    } else {
                        (FrameCentreOffset { horizontal: 0, vertical: 0 })
                    }),
            decreases count - i,
        {
            proof {
                reveal_with_fuel(offsets_at, 4);
            }
            let offset = FrameCentreOffset::read(br)?;
            offsets[i as usize] = offset;
            i += 1;
        }
        Ok(PictureDisplayExtension { count, offsets })
    }
}

impl FrameCentreOffset {
    /// Reads one offset with its marker bits.
    pub fn read(br: &mut BitReader<'_>) -> (res: Result<Self>)
        ensures
            reads_as(
                *old(br),
                *final(br),
                res,
                offset_at(reader_bits(*old(br)), reader_pos(*old(br)) as int),
            ),
    {
        let horizontal = read_signed(br, 16)?;
        expect_marker_bit(br, ERR_MARKER_HORIZONTAL)?;
        let vertical = read_signed(br, 16)?;
        expect_marker_bit(br, ERR_MARKER_VERTICAL)?;
        Ok(FrameCentreOffset { horizontal, vertical })
    }
}

/// The two's complement field of `n` bits at `at`.
pub open spec fn signed_at(s: Seq<bool>, at: int, n: int) -> (Result<i32>, int) {
    if at + n > s.len() {
        (Err(Error::ShortHeader), at)
    } else {
        (Ok(sign_extended(be_value(s, at, n), n) as i32), at + n)
    }
}

/// Reads an `n`-bit two's complement field.
pub fn read_signed(br: &mut BitReader<'_>, n: u32) -> (res: Result<i32>)
    requires
        1 <= n <= 32,
    ensures
        reads_as(
            *old(br),
            *final(br),
            res,
            signed_at(reader_bits(*old(br)), reader_pos(*old(br)) as int, n as int),
        ),
{
    match br.read_i32(n) {
        Ok(v) => Ok(v),
        Err(_) => Err(Error::ShortHeader),
    }
}

/// The marker bit at `at`, which shall be one.
pub open spec fn marker_at(s: Seq<bool>, at: int, msg: &'static str) -> (Result<()>, int) {
    if at >= s.len() {
        (Err(Error::ShortHeader), at)
    } else if !s[at] {
        (Err(Error::InvalidBitstream(msg)), at + 1)
    } else {
        (Ok(()), at + 1)
    }
}

/// Reads a marker bit and rejects a zero one with `msg`.
pub fn expect_marker_bit(br: &mut BitReader<'_>, msg: &'static str) -> (res: Result<()>)
    ensures
        reads_as(
            *old(br),
            *final(br),
            res,
            marker_at(reader_bits(*old(br)), reader_pos(*old(br)) as int, msg),
        ),
{
    if read_flag(br)? {
        Ok(())
    } else {
        Err(Error::InvalidBitstream(msg))
    }
}

/// What an offset applies to.
#[derive(Debug, Clone, Copy, PartialEq, Eq, Structural)]
pub enum FieldUsage {
    /// Every picture without an extension of its own.
    BetweenPictures,
    /// The picture that the extension belongs to.
    PerPicture,
}

/// The offset in force: the last one decoded since the sequence header, or zero.
#[derive(Debug, Clone, Copy, PartialEq, Eq)]
pub struct FrameCentreOffsetState {
    pub current: FrameCentreOffset,
}

impl Default for FrameCentreOffsetState {
    fn default() -> (s: Self)
        ensures
            s.current == (FrameCentreOffset { horizontal: 0, vertical: 0 }),
    {
        FrameCentreOffsetState::zero()
    }
}

impl FrameCentreOffsetState {
    /// The state after a sequence header.
    pub fn zero() -> (s: Self)
        ensures
            s.current == (FrameCentreOffset { horizontal: 0, vertical: 0 }),
    {
        FrameCentreOffsetState { current: FrameCentreOffset { horizontal: 0, vertical: 0 } }
    }

    /// Returns to the state after a sequence header.
    pub fn reset_to_zero(&mut self)
        ensures
            final(self).current == (FrameCentreOffset { horizontal: 0, vertical: 0 }),
    {
        *self = Self::zero();
    }

    /// Takes over the first offset of an extension; one without offsets changes
    /// nothing.
    pub fn apply(&mut self, ext: &PictureDisplayExtension)
        ensures
            final(self).current == (if ext.count > 0 {
                ext.offsets[0]
            } else {
                old(self).current
            }),
    {
        if ext.count > 0 {
            self.current = ext.offsets[0];
        }
    }
}

} // verus!
