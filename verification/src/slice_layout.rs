//! Pictures that are made of slices: the slices that were written are the ones that
//! are found.

use crate::bits::{
    be_value, bits_of, lemma_be_value_bounds, lemma_be_value_split, lemma_value_bits_len,
    lemma_value_bits_read, value_bits,
};
use crate::error::{Error, Result};
use crate::frame_assembly::FrameContents;
use crate::picture_slices::{decoded_slices, slice_bytes};
use crate::slice_header::{
    next_start_from, prefix_stands, slice_end, slice_header_of, slice_start_from, SliceHeader,
};
use crate::zero_runs::one_in;
use vstd::arithmetic::power2::lemma2_to64;
use vstd::prelude::*;

verus! {

/// The bits of some of the bytes.
pub proof fn lemma_bits_of_subrange(buf: Seq<u8>, a: int, b: int)
    requires
        0 <= a <= b <= buf.len(),
    ensures
        bits_of(buf.subrange(a, b)) == bits_of(buf).subrange(8 * a, 8 * b),
{
    let part = buf.subrange(a, b);
    assert forall|k: int| 0 <= k < 8 * (b - a) implies bits_of(part)[k] == #[trigger] bits_of(
        buf,
    ).subrange(8 * a, 8 * b)[k] by {
        assert((8 * a + k) / 8 == a + k / 8);
        assert((8 * a + k) % 8 == k % 8);
        assert(part[k / 8] == buf[a + k / 8]);
    }
    assert(bits_of(part) =~= bits_of(buf).subrange(8 * a, 8 * b));
}

/// A byte is the number that its bits spell.
pub proof fn lemma_byte_value(buf: Seq<u8>, i: int)
    requires
        0 <= i < buf.len(),
    ensures
        be_value(bits_of(buf), 8 * i, 8) == buf[i],
{
    lemma2_to64();
    let v = buf[i] as int;
    lemma_value_bits_len(v, 8);
    let w = bits_of(buf).subrange(8 * i, 8 * i + 8);
    assert forall|j: int| 0 <= j < 8 implies w[j] == #[trigger] value_bits(v, 8)[j] by {
        assert((8 * i + j) / 8 == i);
        assert((8 * i + j) % 8 == j);
    }
    assert(w =~= value_bits(v, 8));
    lemma_value_bits_read(bits_of(buf), 8 * i, v, 8);
}

/// The four bytes of a start code.
pub proof fn lemma_start_code_bytes(buf: Seq<u8>, i: int, last: int)
    requires
        0 <= i,
        i + 4 <= buf.len(),
        0 <= last < 256,
        be_value(bits_of(buf), 8 * i, 32) == 0x100 + last,
    ensures
        prefix_stands(buf, i),
        buf[i + 3] == last,
{
    let s = bits_of(buf);
    lemma2_to64();
    lemma_byte_value(buf, i);
    lemma_byte_value(buf, i + 1);
    lemma_byte_value(buf, i + 2);
    lemma_byte_value(buf, i + 3);
    lemma_be_value_split(s, 8 * i, 24, 8);
    lemma_be_value_split(s, 8 * i, 16, 8);
    lemma_be_value_split(s, 8 * i, 8, 8);
    lemma_be_value_bounds(s, 8 * i, 24);
    lemma_be_value_bounds(s, 8 * i, 16);
    assert(be_value(s, 8 * i, 32) == be_value(s, 8 * i, 24) * 256 + buf[i + 3]);
    assert(be_value(s, 8 * i, 24) == 1);
    assert(be_value(s, 8 * i, 24) == be_value(s, 8 * i, 16) * 256 + buf[i + 2]);
    assert(be_value(s, 8 * i, 16) == 0);
    assert(be_value(s, 8 * i, 16) == buf[i] * 256 + buf[i + 1]);
}

/// A number of at most 22 leading zeros is not that of a prefix.
proof fn lemma_zero_value(s: Seq<bool>, at: int, n: int, q: int)
    requires
        at <= q < at + n,
        s[q],
    ensures
        be_value(s, at, n) > 0,
    decreases n,
{
    if q < at + n - 1 {
        lemma_zero_value(s, at, n - 1, q);
    } else {
        lemma_be_value_bounds(s, at, n - 1);
    }
}

/// Where a one is among the first 23 bits no start code stands.
pub proof fn lemma_no_prefix(buf: Seq<u8>, i: int)
    requires
        0 <= i,
        i + 3 <= buf.len(),
        one_in(bits_of(buf), 8 * i, 8 * i + 23),
    ensures
        !prefix_stands(buf, i),
{
    let s = bits_of(buf);
    let q = choose|q: int| 8 * i <= q < 8 * i + 23 && 0 <= q < s.len() && #[trigger] s[q];
    lemma2_to64();
    lemma_byte_value(buf, i);
    lemma_byte_value(buf, i + 1);
    lemma_byte_value(buf, i + 2);
    if q < 8 * i + 8 {
        lemma_zero_value(s, 8 * i, 8, q);
    } else if q < 8 * i + 16 {
        lemma_zero_value(s, 8 * (i + 1), 8, q);
    } else {
        lemma_zero_value(s, 8 * (i + 2), 7, q);
        lemma_be_value_split(s, 8 * (i + 2), 7, 1);
        lemma_be_value_bounds(s, 8 * (i + 2) + 7, 1);
    }
}

/// Where no start code stands the search goes on.
pub proof fn lemma_search_passes(buf: Seq<u8>, from: int, to: int)
    requires
        0 <= from <= to <= buf.len(),
        forall|i: int| from <= i < to && i + 3 <= buf.len() ==> !#[trigger] prefix_stands(buf, i),
    ensures
        next_start_from(buf, from) == next_start_from(buf, to),
        slice_start_from(buf, from) == slice_start_from(buf, to),
    decreases to - from,
{
    if from < to {
        if from + 3 <= buf.len() {
            assert(!prefix_stands(buf, from));
        }
        lemma_search_passes(buf, from + 1, to);
    }
}

/// Whether no start code stands from byte `from` on and before byte `to`.
pub open spec fn free_of_codes(buf: Seq<u8>, from: int, to: int) -> bool {
    forall|i: int| from <= i < to && i + 3 <= buf.len() ==> !#[trigger] prefix_stands(buf, i)
}

/// The bytes from `from` to `to` hold no start code where every 23 bits in a row of
/// them hold a one, and where they end at another start code or at the end.
pub proof fn lemma_free_of_codes(buf: Seq<u8>, from: int, to: int)
    requires
        0 <= from <= to <= buf.len(),
        forall|i: int|
            from <= i && i + 3 <= to ==> #[trigger] one_in(bits_of(buf), 8 * i, 8 * i + 23),
        to < buf.len() ==> to + 3 <= buf.len() && prefix_stands(buf, to),
    ensures
        free_of_codes(buf, from, to),
{
    assert forall|i: int| from <= i < to && i + 3 <= buf.len() implies !#[trigger] prefix_stands(
        buf,
        i,
    ) by {
        if i + 3 <= to {
            assert(one_in(bits_of(buf), 8 * i, 8 * i + 23));
            lemma_no_prefix(buf, i);
        } else if i + 2 == to {
            assert(buf[to] == 0);
        } else {
            assert(buf[to + 1] == 0);
        }
    }
}

/// Whether the slice from byte `a` to byte `b` of a picture turns one frame into
/// another and counts `count`.
pub open spec fn slice_turns(
    picture: Seq<u8>,
    a: int,
    b: int,
    vertical_size: u32,
    beyond: int,
    before: FrameContents,
    after: FrameContents,
    count: int,
    slice: spec_fn(Seq<u8>, SliceHeader, FrameContents) -> Result<(FrameContents, int)>,
) -> bool {
    let buf = slice_bytes(picture, a, beyond);
    &&& a + 4 <= b <= picture.len()
    &&& prefix_stands(picture, a)
    &&& 0x01 <= picture[a + 3] <= 0xAF
    &&& free_of_codes(picture, a + 4, b)
    &&& b < picture.len() ==> b + 3 <= picture.len() && prefix_stands(picture, b)
    &&& slice_header_of(bits_of(buf), vertical_size) is Ok
    &&& slice(buf, slice_header_of(bits_of(buf), vertical_size)->Ok_0, before) == Ok::<
        (FrameContents, int),
        Error,
    >((after, count))
}

/// Where a slice ends that the next one, or the end, follows.
pub proof fn lemma_slice_ends_there(picture: Seq<u8>, a: int, b: int)
    requires
        0 <= a,
        a + 4 <= b <= picture.len(),
        free_of_codes(picture, a + 4, b),
        b < picture.len() ==> b + 3 <= picture.len() && prefix_stands(picture, b),
    ensures
        slice_end(picture, a) == b,
{
    lemma_search_passes(picture, a + 4, b);
}

/// A picture whose slices stand one after the other from byte `starts[0]` on, each
/// of which turns one frame into the next, is decoded to the last frame.
pub proof fn lemma_slices_decoded(
    picture: Seq<u8>,
    r: int,
    starts: Seq<int>,
    frames: Seq<FrameContents>,
    vertical_size: u32,
    beyond: int,
    placed: int,
    each: int,
    slice: spec_fn(Seq<u8>, SliceHeader, FrameContents) -> Result<(FrameContents, int)>,
)
    requires
        starts.len() == frames.len(),
        0 <= r < starts.len(),
        forall|k: int| 0 <= k < starts.len() ==> 0 <= #[trigger] starts[k],
        starts[starts.len() - 1] == picture.len(),
        forall|k: int|
            0 <= k < starts.len() - 1 ==> slice_turns(
                picture,
                #[trigger] starts[k],
                starts[k + 1],
                vertical_size,
                beyond,
                frames[k],
                frames[k + 1],
                each,
                slice,
            ),
    ensures
        decoded_slices(
            picture,
            starts[r],
            vertical_size,
            beyond,
            frames[r],
            placed,
            slice,
        ) == Ok::<(FrameContents, int), Error>(
            (frames[frames.len() - 1], placed + (starts.len() - 1 - r) * each),
        ),
    decreases starts.len() - r,
{
    if r == starts.len() - 1 {
        assert((starts.len() - 1 - r) * each == 0) by (nonlinear_arith)
            requires
                r == starts.len() - 1,
        ;
    } else {
        let a = starts[r];
        let b = starts[r + 1];
        lemma_slice_ends_there(picture, a, b);
        lemma_slices_decoded(
            picture,
            r + 1,
            starts,
            frames,
            vertical_size,
            beyond,
            placed + each,
            each,
            slice,
        );
        let left = starts.len() - 1 - r;
        assert(left * each == each + (left - 1) * each) by (nonlinear_arith);
    }
}

} // verus!
