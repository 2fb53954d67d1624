//! The slices of a picture, one after the other.

use crate::bits::bits_of;
use crate::error::{Error, Result};
use crate::frame_assembly::{frame_fits, FrameBuffer, FrameContents};
use crate::slice_header::{
    lemma_start_codes, next_start_from, slice_end, slice_header_of, slice_start_from, SliceHeader,
};
use vstd::prelude::*;

verus! {

/// Whether all that is counted in a picture of this size fits the machine.
pub open spec fn picture_fits(width: int, height: int) -> bool {
    &&& width <= u32::MAX
    &&& height <= u32::MAX
    &&& frame_fits(width, height)
}

/// Whether decoding a picture from byte `offset` on comes to a macroblock that has to
/// be put in its column, where `comes` says so of one slice, or why that slice is
/// refused before.
pub open spec fn comes_to_macroblock(
    picture: Seq<u8>,
    offset: int,
    vertical_size: u32,
    beyond: int,
    comes: spec_fn(Seq<u8>, SliceHeader) -> Result<bool>,
) -> bool
    decreases picture.len() - offset,
{
    proof {
        lemma_start_codes(picture, offset);
        match slice_start_from(picture, offset) {
            Some(start) => {
                lemma_start_codes(picture, start + 4);
            },
            None => {},
        }
    }
    match slice_start_from(picture, offset) {
        None => false,
        Some(start) => {
            let buf = slice_bytes(picture, start, beyond);
            match slice_header_of(bits_of(buf), vertical_size) {
                Err(_) => false,
                Ok(header) => match comes(buf, header) {
                    Err(_) => false,
                    Ok(true) => true,
                    Ok(false) => comes_to_macroblock(
                        picture,
                        slice_end(picture, start),
                        vertical_size,
                        beyond,
                        comes,
                    ),
                },
            }
        },
    }
}

/// The bytes that the slice at `start` is read from: up to the next start code, and
/// `beyond` more where there are so many.
pub open spec fn slice_bytes(picture: Seq<u8>, start: int, beyond: int) -> Seq<u8> {
    let end = slice_end(picture, start) + beyond;
    picture.subrange(
        start,
        if end < picture.len() {
            end
        } else {
            picture.len() as int
        },
    )
}

/// A frame and a count after the slices of a picture from byte `offset` on, where
/// `slice` says what one slice makes of a frame and how many macroblocks it adds to
/// the count.
pub open spec fn decoded_slices(
    picture: Seq<u8>,
    offset: int,
    vertical_size: u32,
    beyond: int,
    frame: FrameContents,
    placed: int,
    slice: spec_fn(Seq<u8>, SliceHeader, FrameContents) -> Result<(FrameContents, int)>,
) -> Result<(FrameContents, int)>
    decreases picture.len() - offset,
{
    proof {
        lemma_start_codes(picture, offset);
        match slice_start_from(picture, offset) {
            Some(start) => {
                lemma_start_codes(picture, start + 4);
            },
            None => {},
        }
    }
    match slice_start_from(picture, offset) {
        None => Ok((frame, placed)),
        Some(start) => {
            let buf = slice_bytes(picture, start, beyond);
            match slice_header_of(bits_of(buf), vertical_size) {
                Err(e) => Err(e),
                Ok(header) => match slice(buf, header, frame) {
                    Err(e) => Err(e),
                    Ok((after, count)) => decoded_slices(
                        picture,
                        slice_end(picture, start),
                        vertical_size,
                        beyond,
                        after,
                        placed + count,
                        slice,
                    ),
                },
            }
        },
    }
}

/// Whether a frame and a count, or an error, are those that are wanted.
pub open spec fn decoded_as(
    res: Result<(FrameBuffer, usize)>,
    want: Result<(FrameContents, int)>,
) -> bool {
    match res {
        Ok((frame, placed)) => want is Ok && frame@ == want->Ok_0.0 && placed == capped(
            want->Ok_0.1,
        ),
        Err(e) => want == Err::<(FrameContents, int), Error>(e),
    }
}

/// Whether there is no frame exactly where a macroblock has no column to lie in, and
/// otherwise what is wanted.
pub open spec fn decoded_unless(
    res: Result<Option<(FrameBuffer, usize)>>,
    columnless: bool,
    want: Result<(FrameContents, int)>,
) -> bool {
    match res {
        Ok(None) => columnless,
        Ok(Some(r)) => !columnless && decoded_as(Ok(r), want),
        Err(e) => !columnless && decoded_as(Err(e), want),
    }
}

/// A count that stops at the greatest number.
pub open spec fn capped(count: int) -> int {
    if count > usize::MAX {
        usize::MAX as int
    } else {
        count
    }
}

/// The bytes of a picture from its first slice start code on.
pub open spec fn from_first_slice(picture: Seq<u8>) -> Seq<u8> {
    match slice_start_from(picture, 0) {
        Some(start) => picture.subrange(start, picture.len() as int),
        None => Seq::empty(),
    }
}

/// A place that moves with the bytes.
spec fn moved(place: Option<int>, by: int) -> Option<int> {
    match place {
        Some(i) => Some(i + by),
        None => None,
    }
}

/// Start codes are found in the rest of some bytes where they are found in all.
proof fn lemma_codes_moved(buf: Seq<u8>, by: int, from: int)
    requires
        0 <= by <= buf.len(),
        0 <= from,
    ensures
        slice_start_from(buf, by + from) == moved(
            slice_start_from(buf.subrange(by, buf.len() as int), from),
            by,
        ),
        next_start_from(buf, by + from) == moved(
            next_start_from(buf.subrange(by, buf.len() as int), from),
            by,
        ),
    decreases buf.len() - by - from,
{
    let rest = buf.subrange(by, buf.len() as int);
    if by + from + 3 <= buf.len() {
        assert(rest[from] == buf[by + from]);
        assert(rest[from + 1] == buf[by + from + 1]);
        assert(rest[from + 2] == buf[by + from + 2]);
        if by + from + 4 <= buf.len() {
            assert(rest[from + 3] == buf[by + from + 3]);
        }
        lemma_codes_moved(buf, by, from + 1);
    }
}

/// The slices of the rest of a picture.
proof fn lemma_slices_moved(
    picture: Seq<u8>,
    by: int,
    offset: int,
    vertical_size: u32,
    beyond: int,
    frame: FrameContents,
    placed: int,
    slice: spec_fn(Seq<u8>, SliceHeader, FrameContents) -> Result<(FrameContents, int)>,
)
    requires
        0 <= by <= picture.len(),
        0 <= offset,
        0 <= beyond,
    ensures
        decoded_slices(
            picture.subrange(by, picture.len() as int),
            offset,
            vertical_size,
            beyond,
            frame,
            placed,
            slice,
        ) == decoded_slices(picture, by + offset, vertical_size, beyond, frame, placed, slice),
    decreases picture.len() - by - offset,
{
    let rest = picture.subrange(by, picture.len() as int);
    lemma_codes_moved(picture, by, offset);
    lemma_start_codes(rest, offset);
    if let Some(start) = slice_start_from(rest, offset) {
        lemma_codes_moved(picture, by, start + 4);
        lemma_start_codes(rest, start + 4);
        let end = slice_end(rest, start);
        assert(slice_end(picture, by + start) == by + end);
        let buf = slice_bytes(rest, start, beyond);
        assert(buf =~= slice_bytes(picture, by + start, beyond));
        if let Ok(header) = slice_header_of(bits_of(buf), vertical_size) {
            if let Ok((after, count)) = slice(buf, header, frame) {
                lemma_slices_moved(
                    picture,
                    by,
                    end,
                    vertical_size,
                    beyond,
                    after,
                    placed + count,
                    slice,
                );
            }
        }
    }
}

/// What stands before the first slice start code of a picture, such as its header, may
/// be left out.
pub proof fn law_decoding_starts_at_the_first_slice(
    picture: Seq<u8>,
    vertical_size: u32,
    beyond: int,
    frame: FrameContents,
    slice: spec_fn(Seq<u8>, SliceHeader, FrameContents) -> Result<(FrameContents, int)>,
)
    requires
        0 <= beyond,
    ensures
        decoded_slices(
            from_first_slice(picture),
            0,
            vertical_size,
            beyond,
            frame,
            0,
            slice,
        ) == decoded_slices(picture, 0, vertical_size, beyond, frame, 0, slice),
{
    lemma_start_codes(picture, 0);
    if let Some(start) = slice_start_from(picture, 0) {
        lemma_slices_moved(picture, start, 0, vertical_size, beyond, frame, 0, slice);
        lemma_found_again(picture, 0);
    }
}

/// The first slice start code is found from itself on.
proof fn lemma_found_again(buf: Seq<u8>, from: int)
    ensures
        slice_start_from(buf, from) matches Some(start) ==> slice_start_from(buf, start) == Some(
            start,
        ),
    decreases buf.len() - from,
{
    if from + 4 <= buf.len() {
        lemma_found_again(buf, from + 1);
    }
}

} // verus!
