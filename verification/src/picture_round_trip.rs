//! Pictures whose slices were written one after the other: the decoder finds the
//! slices where they were written.

use crate::bits::{
    be_value, bits_of, holds_at, lemma_be_value_bounds, lemma_be_value_split,
    lemma_holds_at_split, lemma_holds_field, lemma_value_bits_len, value_bits, zero_padded,
};
use crate::encoded_bits::{
    added, lemma_added, lemma_added_twice, lemma_slice_free_of_codes, lemma_zero_field, stands,
};
use crate::error::{Error, Result};
use crate::frame_assembly::FrameContents;
use crate::mpeg2_block_dc::bit_length;
use crate::picture_header::{
    PictureCodingType, EXTENSION_START_CODE, PICTURE_CODING_EXTENSION_ID, PICTURE_START_CODE,
};
use crate::picture_slices::{decoded_slices, slice_bytes};
use crate::slice_header::{prefix_stands, slice_header_of, slice_start_from, SliceHeader};
use crate::slice_layout::{
    free_of_codes, lemma_bits_of_subrange, lemma_byte_value, lemma_free_of_codes,
    lemma_search_passes, lemma_slice_ends_there, lemma_slices_decoded, lemma_start_code_bytes,
    slice_turns,
};
use crate::slice_macroblock_walk::slice_ends;
use crate::start_codes::{
    codes_in, holds_codes, lemma_code_is_one, lemma_codes_split, lemma_one_code, picture_codes,
};
use crate::stream_writer::{
    coding_type_code, extension_bits, extension_flags, hint_bits, lemma_slice_header_len,
    picture_header_bits, slice_header_bits, written_extension, PictureCodingExtensionParams,
    FIRST_SLICE_START_CODE,
};
use crate::zero_runs::{
    broken_up, lemma_field_broken_up, lemma_joined, lemma_loosened, lemma_one_in, lemma_suffixed,
    one_in,
};
use vstd::arithmetic::power2::lemma2_to64;
use vstd::prelude::*;

verus! {

/// The slices of a picture as they were written: slice `r` starts after
/// `starts[r]`, ends with `ends[r]`, and is filled to a byte; every 23 bits in a row
/// of its macroblocks hold a one.
pub struct WrittenSlices {
    pub scale: u8,
    pub starts: Seq<Seq<bool>>,
    pub ends: Seq<Seq<bool>>,
}

impl WrittenSlices {
    /// Whether slice `r` stands where it belongs.
    pub open spec fn slice_ok(self, r: int) -> bool {
        let headed = self.starts[r] + slice_header_bits(r, self.scale);
        &&& self.starts[r + 1] == zero_padded(self.ends[r])
        &&& headed.is_prefix_of(self.ends[r])
        &&& broken_up(added(headed, self.ends[r]), 0, 15)
    }

    pub open spec fn ok(self) -> bool {
        &&& self.starts.len() == self.ends.len() + 1
        &&& self.ends.len() <= 180
        &&& 1 <= self.scale <= 31
        &&& self.starts[0].len() % 8 == 0
        &&& forall|r: int| 0 <= r < self.ends.len() ==> #[trigger] self.slice_ok(r)
    }

    /// All that was written.
    pub open spec fn whole(self) -> Seq<bool> {
        self.starts[self.ends.len() as int]
    }

    /// The byte that slice `r` starts at, of a picture that starts after `base` bits.
    pub open spec fn byte_of(self, base: int, r: int) -> int {
        (self.starts[r].len() - base) / 8
    }
}

#[verifier::spinoff_prover]
proof fn lemma_padded(b: Seq<bool>)
    ensures
        b.is_prefix_of(zero_padded(b)),
        zero_padded(b).len() % 8 == 0,
        b.len() <= zero_padded(b).len() < b.len() + 8,
        forall|k: int| b.len() <= k < zero_padded(b).len() ==> !#[trigger] zero_padded(b)[k],
{
    assert(b.is_prefix_of(zero_padded(b)));
}

/// Slices are added to what was written before.
#[verifier::spinoff_prover]
pub proof fn lemma_slices_grow(x: WrittenSlices, k: int, r: int)
    requires
        x.ok(),
        0 <= k <= r <= x.ends.len(),
    ensures
        x.starts[k].is_prefix_of(x.starts[r]),
        x.starts[r].len() % 8 == 0,
        x.starts[k].len() + 40 * (r - k) <= x.starts[r].len(),
    decreases r,
{
    if r == 0 {
        assert(x.starts[0].is_prefix_of(x.starts[0]));
    } else {
        assert(x.slice_ok(r - 1));
        lemma_padded(x.ends[r - 1]);
        let headed = x.starts[r - 1] + slice_header_bits(r - 1, x.scale);
        lemma_slice_header_len(r - 1, x.scale);
        lemma_added(x.starts[r - 1], slice_header_bits(r - 1, x.scale));
        lemma_added_twice(x.starts[r - 1], headed, x.ends[r - 1]);
        lemma_added_twice(x.starts[r - 1], x.ends[r - 1], x.starts[r]);
        if k < r {
            lemma_slices_grow(x, k, r - 1);
            lemma_added_twice(x.starts[k], x.starts[r - 1], x.starts[r]);
        } else {
            assert(x.starts[k].is_prefix_of(x.starts[r]));
        }
    }
}

/// Whether the bytes of a picture are what was written after `base` bits.
pub open spec fn picture_holds(x: WrittenSlices, picture: Seq<u8>, base: int) -> bool {
    &&& 0 <= base <= x.starts[0].len()
    &&& base % 8 == 0
    &&& bits_of(picture) == x.whole().subrange(base, x.whole().len() as int)
}

/// The picture is as long as what was written.
#[verifier::spinoff_prover]
proof fn lemma_picture_len(x: WrittenSlices, picture: Seq<u8>, base: int)
    requires
        x.ok(),
        picture_holds(x, picture, base),
    ensures
        8 * picture.len() == x.whole().len() - base,
        x.byte_of(base, x.ends.len() as int) == picture.len(),
{
    lemma_slices_grow(x, 0, x.ends.len() as int);
    assert(bits_of(picture).len() == 8 * picture.len());
}

/// Where slice `r` stands in the picture.
#[verifier::spinoff_prover]
#[verifier::rlimit(40)]
proof fn lemma_slice_place(x: WrittenSlices, picture: Seq<u8>, base: int, r: int)
    requires
        x.ok(),
        0 <= r < x.ends.len(),
        picture_holds(x, picture, base),
    ensures
        ({
            let a = x.byte_of(base, r);
            let b = x.byte_of(base, r + 1);
            &&& 0 <= a
            &&& a + 4 <= b <= picture.len()
            &&& 8 * a == x.starts[r].len() - base
            &&& 8 * b == x.starts[r + 1].len() - base
            &&& x.ends[r].len() <= x.starts[r + 1].len() < x.ends[r].len() + 8
            &&& x.starts[r].len() + 38 <= x.ends[r].len()
        }),
{
    lemma_picture_len(x, picture, base);
    lemma_slices_grow(x, 0, r);
    lemma_slices_grow(x, r, r + 1);
    lemma_slices_grow(x, r + 1, x.ends.len() as int);
    assert(x.slice_ok(r));
    lemma_padded(x.ends[r]);
    lemma_slice_header_len(r, x.scale);
}

/// What stands in the picture where slice `r` was written.
#[verifier::spinoff_prover]
#[verifier::rlimit(40)]
proof fn lemma_slice_bits(x: WrittenSlices, picture: Seq<u8>, base: int, r: int)
    requires
        x.ok(),
        0 <= r < x.ends.len(),
        picture_holds(x, picture, base),
    ensures
        ({
            let s = bits_of(picture);
            &&& forall|k: int|
                x.starts[r].len() <= k < x.ends[r].len() ==> #[trigger] x.ends[r][k] == s[k - base]
            &&& forall|k: int|
                x.ends[r].len() - base <= k < x.starts[r + 1].len() - base ==> !#[trigger] s[k]
        }),
{
    let s = bits_of(picture);
    let end = x.ends[r];
    let whole = x.whole();
    lemma_slice_place(x, picture, base, r);
    lemma_slices_grow(x, 0, r);
    lemma_slices_grow(x, r + 1, x.ends.len() as int);
    assert(x.slice_ok(r));
    lemma_padded(end);
    lemma_added_twice(end, x.starts[r + 1], whole);
    assert forall|k: int| x.starts[r].len() <= k < end.len() implies #[trigger] end[k] == s[k
        - base] by {
        assert(whole.subrange(0, end.len() as int)[k] == whole[k]);
    }
    assert forall|k: int|
        end.len() - base <= k < x.starts[r + 1].len() - base implies !#[trigger] s[k] by {
        let j = k + base;
        assert(whole.subrange(0, x.starts[r + 1].len() as int)[j] == whole[j]);
        assert(!zero_padded(end)[j]);
    }
}

/// The start code of slice `r`.
#[verifier::spinoff_prover]
proof fn lemma_slice_code(x: WrittenSlices, picture: Seq<u8>, base: int, r: int)
    requires
        x.ok(),
        0 <= r < x.ends.len(),
        picture_holds(x, picture, base),
    ensures
        prefix_stands(picture, x.byte_of(base, r)),
        picture[x.byte_of(base, r) + 3] == r + 1,
{
    let s = bits_of(picture);
    let end = x.ends[r];
    let a = x.byte_of(base, r);
    lemma_slice_place(x, picture, base, r);
    lemma_slice_bits(x, picture, base, r);
    assert(x.slice_ok(r));
    let head = slice_header_bits(r, x.scale);
    let headed = x.starts[r] + head;
    let code = value_bits(FIRST_SLICE_START_CODE + r, 32);
    let rest = value_bits(x.scale as int, 5).push(false);
    lemma_slice_header_len(r, x.scale);
    lemma_value_bits_len(FIRST_SLICE_START_CODE + r, 32);
    lemma_value_bits_len(x.scale as int, 5);
    assert forall|j: int| 0 <= j < 38 implies s[8 * a + j] == #[trigger] head[j] by {
        let k = x.starts[r].len() + j;
        assert(headed[k] == head[j]);
        assert(end.subrange(0, headed.len() as int)[k] == headed[k]);
        assert(end[k] == s[k - base]);
    }
    assert(s.subrange(8 * a, 8 * a + 38) =~= head);
    assert(head =~= code + rest);
    lemma2_to64();
    lemma_holds_field(s, 8 * a, FIRST_SLICE_START_CODE + r, 32, rest);
    lemma_start_code_bytes(picture, a, r + 1);
}

/// The bits of a slice after its start code.
#[verifier::spinoff_prover]
proof fn lemma_slice_body(x: WrittenSlices, picture: Seq<u8>, base: int, r: int)
    requires
        x.ok(),
        0 <= r < x.ends.len(),
        picture_holds(x, picture, base),
    ensures
        free_of_codes(
            picture,
            x.byte_of(base, r) + 4,
            x.byte_of(base, r + 1),
        ),
{
    let s = bits_of(picture);
    let end = x.ends[r];
    let a = x.byte_of(base, r);
    let b = x.byte_of(base, r + 1);
    lemma_slice_place(x, picture, base, r);
    lemma_slice_bits(x, picture, base, r);
    lemma_picture_len(x, picture, base);
    assert(x.slice_ok(r));
    if r + 1 < x.ends.len() {
        lemma_slice_place(x, picture, base, r + 1);
        lemma_slice_code(x, picture, base, r + 1);
    }
    let head = slice_header_bits(r, x.scale);
    let headed = x.starts[r] + head;
    let rest = added(headed, end);
    let scale = value_bits(x.scale as int, 5);
    let body = scale + seq![false] + rest;
    lemma2_to64();
    assert(1 <= bit_length(x.scale as int) <= 5) by {
        reveal_with_fuel(bit_length, 7);
    }
    lemma_field_broken_up(x.scale as int, 5);
    lemma_loosened(
        scale,
        5 - bit_length(x.scale as int),
        bit_length(x.scale as int) - 1,
        4,
        4,
    );
    lemma_suffixed(scale, 4, 4, seq![false]);
    lemma_joined(scale + seq![false], 4, 5, rest, 0, 15);
    lemma_value_bits_len(FIRST_SLICE_START_CODE + r, 32);
    lemma_value_bits_len(x.scale as int, 5);
    lemma_slice_header_len(r, x.scale);
    let from = 8 * a + 32;
    assert(body.len() == end.len() - x.starts[r].len() - 32);
    assert(s.subrange(from, from + body.len()) =~= body) by {
        assert forall|j: int| 0 <= j < body.len() implies s[from + j] == #[trigger] body[j] by {
            let k = x.starts[r].len() + 32 + j;
            assert(end[k] == s[k - base]);
            if j < 6 {
                assert(headed[k] == head[32 + j]);
                assert(head[32 + j] == (scale + seq![false])[j]);
                assert(end.subrange(0, headed.len() as int)[k] == headed[k]);
            } else {
                assert(rest[j - 6] == end[k]);
            }
        }
    }
    lemma_slice_free_of_codes(picture, a, b, body, 4, 15);
}

/// Whether a decoder that reads the bytes of slice `r` turns one frame into another.
pub open spec fn slice_reads(
    x: WrittenSlices,
    r: int,
    buf: Seq<u8>,
    vertical_size: u32,
    before: FrameContents,
    after: FrameContents,
    count: int,
    slice: spec_fn(Seq<u8>, SliceHeader, FrameContents) -> Result<(FrameContents, int)>,
) -> bool {
    let s = bits_of(buf);
    stands(s, x.starts[r].len() as int, x.ends[r]) && slice_ends(
        s,
        x.ends[r].len() - x.starts[r].len(),
    ) ==> {
        let header = slice_header_of(s, vertical_size);
        &&& header is Ok
        &&& slice(buf, header->Ok_0, before) == Ok::<(FrameContents, int), Error>((after, count))
    }
}

/// The bytes that a slice is decoded from hold it, and end it.
#[verifier::spinoff_prover]
proof fn lemma_slice_bytes(x: WrittenSlices, picture: Seq<u8>, base: int, r: int, beyond: int)
    requires
        x.ok(),
        0 <= r < x.ends.len(),
        picture_holds(x, picture, base),
        0 <= beyond,
    ensures
        ({
            let buf = slice_bytes(picture, x.byte_of(base, r), beyond);
            &&& stands(bits_of(buf), x.starts[r].len() as int, x.ends[r])
            &&& slice_ends(bits_of(buf), x.ends[r].len() - x.starts[r].len())
        }),
{
    let s = bits_of(picture);
    let a = x.byte_of(base, r);
    let b = x.byte_of(base, r + 1);
    let end = x.ends[r];
    lemma_slice_place(x, picture, base, r);
    lemma_slice_bits(x, picture, base, r);
    lemma_slice_body(x, picture, base, r);
    lemma_picture_len(x, picture, base);
    if r + 1 < x.ends.len() {
        lemma_slice_place(x, picture, base, r + 1);
        lemma_slice_code(x, picture, base, r + 1);
    }
    lemma_slice_ends_there(picture, a, b);
    let c = if b + beyond < picture.len() {
        b + beyond
    } else {
        picture.len() as int
    };
    let buf = slice_bytes(picture, a, beyond);
    assert(buf == picture.subrange(a, c));
    lemma_bits_of_subrange(picture, a, c);
    let t = bits_of(buf);
    assert forall|k: int| x.starts[r].len() <= k < end.len() implies #[trigger] end[k] == t[k
        - x.starts[r].len()] by {
        assert(end[k] == s[k - base]);
    }
    let at = end.len() - x.starts[r].len();
    let left = t.len() - at;
    let n = if left < 23 {
        left
    } else {
        23
    };
    if left > 0 {
        assert forall|k: int| at <= k < at + n implies !#[trigger] t[k] by {
            let j = 8 * a + k;
            assert(t[k] == s[j]);
            if j >= 8 * b {
                lemma_prefix_zero_bits(picture, b, j - 8 * b);
            }
        }
        lemma_zero_field(t, at, n);
    }
}

/// The first 23 bits of a start code are zero.
#[verifier::spinoff_prover]
proof fn lemma_prefix_zero_bits(picture: Seq<u8>, b: int, j: int)
    requires
        0 <= b,
        b + 3 <= picture.len(),
        prefix_stands(picture, b),
        0 <= j < 23,
    ensures
        !bits_of(picture)[8 * b + j],
{
    let s = bits_of(picture);
    lemma_value_bits_len(0, 8);
    assert((8 * b + j) / 8 == b + j / 8);
    assert((8 * b + j) % 8 == j % 8);
    reveal_with_fuel(value_bits, 9);
    assert(forall|k: int| 0 <= k < 8 ==> !#[trigger] value_bits(0, 8)[k]);
    assert(forall|k: int| 0 <= k < 7 ==> !#[trigger] value_bits(1, 8)[k]);
}

/// A picture whose slices were written one after the other, each of which a decoder
/// turns into the frame after it, is decoded to the last frame.
#[verifier::spinoff_prover]
pub proof fn lemma_picture_read(
    x: WrittenSlices,
    picture: Seq<u8>,
    base: int,
    frames: Seq<FrameContents>,
    vertical_size: u32,
    beyond: int,
    each: int,
    slice: spec_fn(Seq<u8>, SliceHeader, FrameContents) -> Result<(FrameContents, int)>,
)
    requires
        x.ok(),
        x.ends.len() <= 175,
        picture_holds(x, picture, base),
        0 <= beyond,
        slice_start_from(picture, 0) == slice_start_from(picture, x.byte_of(base, 0)),
        frames.len() == x.starts.len(),
        forall|r: int, buf: Seq<u8>|
            0 <= r < x.ends.len() ==> #[trigger] slice_reads(
                x,
                r,
                buf,
                vertical_size,
                frames[r],
                frames[r + 1],
                each,
                slice,
            ),
    ensures
        decoded_slices(picture, 0, vertical_size, beyond, frames[0], 0, slice) == Ok::<
            (FrameContents, int),
            Error,
        >((frames[frames.len() - 1], x.ends.len() * each)),
{
    let h = x.ends.len() as int;
    let starts = Seq::new((h + 1) as nat, |r: int| x.byte_of(base, r));
    lemma_slices_grow(x, 0, h);
    assert forall|k: int| 0 <= k < starts.len() implies 0 <= #[trigger] starts[k] by {
        lemma_slices_grow(x, 0, k);
    }
    lemma_picture_len(x, picture, base);
    assert forall|k: int| 0 <= k < starts.len() - 1 implies slice_turns(
        picture,
        #[trigger] starts[k],
        starts[k + 1],
        vertical_size,
        beyond,
        frames[k],
        frames[k + 1],
        each,
        slice,
    ) by {
        lemma_slice_place(x, picture, base, k);
        lemma_slice_code(x, picture, base, k);
        lemma_slice_body(x, picture, base, k);
        lemma_picture_len(x, picture, base);
        lemma_slice_bytes(x, picture, base, k, beyond);
        let buf = slice_bytes(picture, starts[k], beyond);
        assert(slice_reads(
            x,
            k,
            buf,
            vertical_size,
            frames[k],
            frames[k + 1],
            each,
            slice,
        ));
        if k + 1 < h {
            lemma_slice_place(x, picture, base, k + 1);
            lemma_slice_code(x, picture, base, k + 1);
        }
    }
    lemma_slices_decoded(
        picture,
        0,
        starts,
        frames,
        vertical_size,
        beyond,
        0,
        each,
        slice,
    );
}

/// Bits in a field of ones.
#[verifier::spinoff_prover]
proof fn lemma_ones_field(s: Seq<bool>, at: int, k: int)
    requires
        holds_at(s, at, value_bits(0xFFFF, 16)),
        0 <= k < 16,
    ensures
        s[at + k],
{
    lemma_value_bits_len(0xFFFF, 16);
    reveal_with_fuel(value_bits, 17);
    let w = s.subrange(at, at + 16);
    assert(w[k] == s[at + k]);
    assert(value_bits(0xFFFF, 16)[k]);
}

/// The picture header in front of the first slice is passed over.
#[verifier::spinoff_prover]
pub proof fn lemma_header_passed(
    picture: Seq<u8>,
    first: int,
    temporal_reference: u16,
    t: PictureCodingType,
    forward_f_code: u8,
    backward_f_code: u8,
)
    requires
        holds_at(
            bits_of(picture),
            0,
            picture_header_bits(temporal_reference, t, forward_f_code, backward_f_code),
        ),
        8 <= first <= 9,
        first <= picture.len(),
        first < picture.len() ==> first + 3 <= picture.len() && prefix_stands(picture, first),
    ensures
        slice_start_from(picture, 0) == slice_start_from(picture, first),
        prefix_stands(picture, 0),
        picture[3] == 0,
        free_of_codes(picture, 1, first),
{
    let s = bits_of(picture);
    lemma2_to64();
    let tail = seq![false];
    let b = hint_bits(t.spec_uses_backward(), backward_f_code) + tail;
    let f = hint_bits(t.spec_uses_forward(), forward_f_code) + b;
    let ones = value_bits(0xFFFF, 16);
    let v = ones + f;
    let c = value_bits(coding_type_code(t), 3) + v;
    let reference = value_bits(temporal_reference as int, 10);
    lemma_holds_field(s, 0, PICTURE_START_CODE as int, 32, reference + c);
    lemma_value_bits_len(temporal_reference as int, 10);
    lemma_holds_at_split(s, 32, reference, c);
    lemma_value_bits_len(coding_type_code(t), 3);
    lemma_holds_at_split(s, 42, value_bits(coding_type_code(t), 3), v);
    lemma_holds_at_split(s, 45, ones, f);
    lemma_start_code_bytes(picture, 0, 0);
    lemma_byte_value(picture, 2);
    assert(s[23]) by {
        lemma_be_value_split(s, 16, 7, 1);
        lemma_be_value_bounds(s, 16, 7);
        reveal_with_fuel(be_value, 2);
    }
    lemma_ones_field(s, 45, 0);
    lemma_ones_field(s, 45, 5);
    assert forall|i: int| 1 <= i && i + 3 <= first implies #[trigger] one_in(
        s,
        8 * i,
        8 * i + 23,
    ) by {
        if i <= 2 {
            lemma_one_in(s, 8 * i, 8 * i + 23, 23);
        } else if i <= 5 {
            lemma_one_in(s, 8 * i, 8 * i + 23, 45);
        } else {
            lemma_one_in(s, 8 * i, 8 * i + 23, 50);
        }
    }
    lemma_free_of_codes(picture, 1, first);
    lemma_search_passes(picture, 1, first);
}

/// How many bits a picture header has.
pub open spec fn header_len(t: PictureCodingType) -> int {
    62 + (if t.spec_uses_forward() {
        4int
    } else {
        0int
    }) + (if t.spec_uses_backward() {
        4int
    } else {
        0int
    })
}

#[verifier::spinoff_prover]
pub proof fn lemma_header_len(
    temporal_reference: u16,
    t: PictureCodingType,
    forward_f_code: u8,
    backward_f_code: u8,
)
    ensures
        picture_header_bits(temporal_reference, t, forward_f_code, backward_f_code).len()
            == header_len(t),
{
    lemma_value_bits_len(PICTURE_START_CODE as int, 32);
    lemma_value_bits_len(temporal_reference as int, 10);
    lemma_value_bits_len(coding_type_code(t), 3);
    lemma_value_bits_len(0xFFFF, 16);
    lemma_value_bits_len(forward_f_code as int, 3);
    lemma_value_bits_len(backward_f_code as int, 3);
}

/// A picture whose slices follow its header is searched from its first slice on.
#[verifier::spinoff_prover]
pub proof fn lemma_first_slice_found(
    x: WrittenSlices,
    picture: Seq<u8>,
    before: Seq<bool>,
    temporal_reference: u16,
    t: PictureCodingType,
    forward_f_code: u8,
    backward_f_code: u8,
)
    requires
        x.ok(),
        before.len() % 8 == 0,
        x.starts[0] == zero_padded(
            before + picture_header_bits(temporal_reference, t, forward_f_code, backward_f_code),
        ),
        picture_holds(x, picture, before.len() as int),
    ensures
        slice_start_from(picture, 0) == slice_start_from(
            picture,
            x.byte_of(before.len() as int, 0),
        ),
        8 <= x.byte_of(before.len() as int, 0) <= picture.len(),
        prefix_stands(picture, 0),
        picture[3] == 0,
        free_of_codes(picture, 1, x.byte_of(before.len() as int, 0)),
{
    let s = bits_of(picture);
    let base = before.len() as int;
    let header = picture_header_bits(temporal_reference, t, forward_f_code, backward_f_code);
    let first = x.byte_of(base, 0);
    lemma_header_len(temporal_reference, t, forward_f_code, backward_f_code);
    lemma_padded(before + header);
    lemma_picture_len(x, picture, base);
    lemma_slices_grow(x, 0, x.ends.len() as int);
    let n = header.len() as int;
    assert forall|j: int| 0 <= j < n implies s[j] == #[trigger] header[j] by {
        let k = base + j;
        assert((before + header)[k] == header[j]);
        assert(x.starts[0].subrange(0, (before + header).len() as int)[k] == x.starts[0][k]);
        assert(x.whole().subrange(0, x.starts[0].len() as int)[k] == x.whole()[k]);
    }
    assert(s.subrange(0, n) =~= header);
    if x.ends.len() > 0 {
        lemma_slice_place(x, picture, base, 0);
        lemma_slice_code(x, picture, base, 0);
    }
    lemma_header_passed(
        picture,
        first,
        temporal_reference,
        t,
        forward_f_code,
        backward_f_code,
    );
}

/// The start codes of a picture up to slice `r`.
#[verifier::spinoff_prover]
proof fn lemma_slice_codes(x: WrittenSlices, picture: Seq<u8>, base: int, r: int)
    requires
        x.ok(),
        picture_holds(x, picture, base),
        0 <= r <= x.ends.len(),
        8 <= x.byte_of(base, 0) <= picture.len(),
        prefix_stands(picture, 0),
        picture[3] == 0,
        free_of_codes(picture, 1, x.byte_of(base, 0)),
    ensures
        codes_in(picture, 0, x.byte_of(base, r)) == picture_codes(r),
        8 <= x.byte_of(base, r) <= picture.len(),
    decreases r,
{
    if r == 0 {
        lemma_one_code(picture, 0, x.byte_of(base, 0));
        assert(picture_codes(0) =~= seq![0u8]);
    } else {
        let a = x.byte_of(base, r - 1);
        let b = x.byte_of(base, r);
        lemma_slice_codes(x, picture, base, r - 1);
        lemma_slice_place(x, picture, base, r - 1);
        lemma_slice_code(x, picture, base, r - 1);
        lemma_slice_body(x, picture, base, r - 1);
        lemma_code_is_one(picture, a);
        lemma_one_code(picture, a, b);
        lemma_codes_split(picture, 0, a, b);
        assert(picture_codes(r) =~= picture_codes(r - 1) + seq![r as u8]);
    }
}

/// A picture that was written holds its own start code and those of its slices.
#[verifier::spinoff_prover]
pub proof fn lemma_picture_codes(
    x: WrittenSlices,
    picture: Seq<u8>,
    before: Seq<bool>,
    temporal_reference: u16,
    t: PictureCodingType,
    forward_f_code: u8,
    backward_f_code: u8,
)
    requires
        x.ok(),
        before.len() % 8 == 0,
        x.starts[0] == zero_padded(
            before + picture_header_bits(temporal_reference, t, forward_f_code, backward_f_code),
        ),
        picture_holds(x, picture, before.len() as int),
    ensures
        holds_codes(picture, picture_codes(x.ends.len() as int)),
{
    reveal(holds_codes);
    let base = before.len() as int;
    let h = x.ends.len() as int;
    lemma_first_slice_found(
        x,
        picture,
        before,
        temporal_reference,
        t,
        forward_f_code,
        backward_f_code,
    );
    lemma_slice_codes(x, picture, base, h);
    lemma_picture_len(x, picture, base);
    let last = picture.len() - 3;
    if h > 0 {
        let a = x.byte_of(base, h - 1);
        lemma_slice_place(x, picture, base, h - 1);
        lemma_slice_code(x, picture, base, h - 1);
        lemma_slice_body(x, picture, base, h - 1);
        lemma_code_is_one(picture, a);
        assert(!prefix_stands(picture, last));
    } else {
        assert(!prefix_stands(picture, last));
    }
}

/// How many bits a picture coding extension has.
#[verifier::spinoff_prover]
pub proof fn lemma_extension_len(p: PictureCodingExtensionParams)
    ensures
        extension_bits(p).len() == 66,
{
    let x = written_extension(p);
    lemma_value_bits_len(EXTENSION_START_CODE as int, 32);
    lemma_value_bits_len(PICTURE_CODING_EXTENSION_ID as int, 4);
    lemma_value_bits_len(x.f_code_fwd_horiz as int, 4);
    lemma_value_bits_len(x.f_code_fwd_vert as int, 4);
    lemma_value_bits_len(x.f_code_bwd_horiz as int, 4);
    lemma_value_bits_len(x.f_code_bwd_vert as int, 4);
    lemma_value_bits_len(x.intra_dc_precision as int, 2);
    lemma_value_bits_len(3, 2);
}

/// The picture coding extension in front of the first slice is passed over.
#[verifier::spinoff_prover]
proof fn lemma_extension_passed(picture: Seq<u8>, a: int, p: PictureCodingExtensionParams)
    requires
        0 <= a,
        a + 9 <= picture.len(),
        holds_at(bits_of(picture), 8 * a, extension_bits(p)),
        a + 9 < picture.len() ==> a + 12 <= picture.len() && prefix_stands(picture, a + 9),
    ensures
        prefix_stands(picture, a),
        slice_start_from(picture, a) == slice_start_from(picture, a + 9),
{
    let s = bits_of(picture);
    let x = written_extension(p);
    lemma2_to64();
    let structure = value_bits(3, 2) + extension_flags(x);
    let precision = value_bits(x.intra_dc_precision as int, 2) + structure;
    let bv = value_bits(x.f_code_bwd_vert as int, 4) + precision;
    let bh = value_bits(x.f_code_bwd_horiz as int, 4) + bv;
    let fv = value_bits(x.f_code_fwd_vert as int, 4) + bh;
    let fh = value_bits(x.f_code_fwd_horiz as int, 4) + fv;
    let id = value_bits(PICTURE_CODING_EXTENSION_ID as int, 4) + fh;
    let at = 8 * a;
    lemma_holds_field(s, at, EXTENSION_START_CODE as int, 32, id);
    lemma_value_bits_len(PICTURE_CODING_EXTENSION_ID as int, 4);
    lemma_holds_at_split(s, at + 32, value_bits(PICTURE_CODING_EXTENSION_ID as int, 4), fh);
    lemma_value_bits_len(x.f_code_fwd_horiz as int, 4);
    lemma_holds_at_split(s, at + 36, value_bits(x.f_code_fwd_horiz as int, 4), fv);
    lemma_value_bits_len(x.f_code_fwd_vert as int, 4);
    lemma_holds_at_split(s, at + 40, value_bits(x.f_code_fwd_vert as int, 4), bh);
    lemma_value_bits_len(x.f_code_bwd_horiz as int, 4);
    lemma_holds_at_split(s, at + 44, value_bits(x.f_code_bwd_horiz as int, 4), bv);
    lemma_value_bits_len(x.f_code_bwd_vert as int, 4);
    lemma_holds_at_split(s, at + 48, value_bits(x.f_code_bwd_vert as int, 4), precision);
    lemma_value_bits_len(x.intra_dc_precision as int, 2);
    lemma_holds_at_split(s, at + 52, value_bits(x.intra_dc_precision as int, 2), structure);
    lemma_value_bits_len(3, 2);
    lemma_holds_at_split(s, at + 54, value_bits(3, 2), extension_flags(x));
    lemma_start_code_bytes(picture, a, 0xB5);
    lemma_byte_value(picture, a + 2);
    assert(s[at + 23]) by {
        lemma_be_value_split(s, at + 16, 7, 1);
        lemma_be_value_bounds(s, at + 16, 7);
        reveal_with_fuel(be_value, 2);
    }
    assert(s[at + 32]) by {
        reveal_with_fuel(value_bits, 5);
        assert(value_bits(0b1000, 4)[0]);
        assert(s.subrange(at + 32, at + 36)[0] == s[at + 32]);
    }
    assert(s[at + 54]) by {
        reveal_with_fuel(value_bits, 3);
        assert(value_bits(3, 2)[0]);
        assert(s.subrange(at + 54, at + 56)[0] == s[at + 54]);
    }
    assert forall|i: int| a + 1 <= i && i + 3 <= a + 9 implies #[trigger] one_in(
        s,
        8 * i,
        8 * i + 23,
    ) by {
        if i <= a + 2 {
            lemma_one_in(s, 8 * i, 8 * i + 23, at + 23);
        } else if i <= a + 4 {
            lemma_one_in(s, 8 * i, 8 * i + 23, at + 32);
        } else {
            lemma_one_in(s, 8 * i, 8 * i + 23, at + 54);
        }
    }
    lemma_free_of_codes(picture, a + 1, a + 9);
    lemma_search_passes(picture, a + 1, a + 9);
}

/// What a picture starts with stands at its start.
#[verifier::spinoff_prover]
proof fn lemma_picture_starts(
    x: WrittenSlices,
    picture: Seq<u8>,
    before: Seq<bool>,
    mid: Seq<bool>,
    b: Seq<bool>,
)
    requires
        x.ok(),
        picture_holds(x, picture, before.len() as int),
        before.len() <= mid.len(),
        (mid + b).is_prefix_of(x.starts[0]),
    ensures
        holds_at(bits_of(picture), mid.len() - before.len(), b),
{
    let s = bits_of(picture);
    let base = before.len() as int;
    let at = mid.len() - base;
    let n = b.len() as int;
    lemma_slices_grow(x, 0, x.ends.len() as int);
    assert forall|j: int| 0 <= j < n implies s[at + j] == #[trigger] b[j] by {
        let k = mid.len() + j;
        assert((mid + b)[k] == b[j]);
        assert(x.starts[0].subrange(0, (mid + b).len() as int)[k] == x.starts[0][k]);
        assert(x.whole().subrange(0, x.starts[0].len() as int)[k] == x.whole()[k]);
    }
    assert(s.subrange(at, at + n) =~= b);
}

/// Where the bits `first` and `second` stand that a picture starts with; `mid` is
/// what comes before `second`.
#[verifier::spinoff_prover]
proof fn lemma_two_heads(
    x: WrittenSlices,
    picture: Seq<u8>,
    before: Seq<bool>,
    first: Seq<bool>,
    mid: Seq<bool>,
    second: Seq<bool>,
)
    requires
        x.ok(),
        picture_holds(x, picture, before.len() as int),
        (before + first).is_prefix_of(mid),
        (mid + second).is_prefix_of(x.starts[0]),
    ensures
        holds_at(bits_of(picture), 0, first),
        holds_at(bits_of(picture), mid.len() - before.len(), second),
{
    lemma_head_under(before + first, mid, second, x.starts[0]);
    lemma_picture_starts(x, picture, before, before, first);
    lemma_picture_starts(x, picture, before, mid, second);
}

/// What is filled and followed by more is still there.
#[verifier::spinoff_prover]
proof fn lemma_head_under(head: Seq<bool>, mid: Seq<bool>, more: Seq<bool>, all: Seq<bool>)
    requires
        head.is_prefix_of(mid),
        (mid + more).is_prefix_of(all),
    ensures
        head.is_prefix_of(all),
{
    lemma_added(mid, more);
    lemma_added_twice(head, mid, mid + more);
    lemma_added_twice(head, mid + more, all);
}

/// A picture whose slices follow its header and its coding extension is searched
/// from its first slice on.
#[verifier::spinoff_prover]
#[verifier::rlimit(40)]
pub proof fn lemma_extended_slice_found(
    x: WrittenSlices,
    picture: Seq<u8>,
    before: Seq<bool>,
    temporal_reference: u16,
    t: PictureCodingType,
    forward_f_code: u8,
    backward_f_code: u8,
    p: PictureCodingExtensionParams,
)
    requires
        x.ok(),
        before.len() % 8 == 0,
        t != PictureCodingType::Bidirectional,
        x.starts[0] == zero_padded(
            zero_padded(
                before + picture_header_bits(
                    temporal_reference,
                    t,
                    forward_f_code,
                    backward_f_code,
                ),
            ) + extension_bits(p),
        ),
        picture_holds(x, picture, before.len() as int),
    ensures
        slice_start_from(picture, 0) == slice_start_from(
            picture,
            x.byte_of(before.len() as int, 0),
        ),
{
    let base = before.len() as int;
    let header = picture_header_bits(temporal_reference, t, forward_f_code, backward_f_code);
    let mid = zero_padded(before + header);
    let a = (mid.len() - base) / 8;
    lemma_header_len(temporal_reference, t, forward_f_code, backward_f_code);
    lemma_extension_len(p);
    lemma_padded(before + header);
    lemma_padded(mid + extension_bits(p));
    lemma_two_heads(x, picture, before, header, mid, extension_bits(p));
    assert(8 * a == mid.len() - base);
    assert(x.byte_of(base, 0) == a + 9);
    assert(a + 9 <= picture.len()) by {
        lemma_picture_len(x, picture, base);
        lemma_slices_grow(x, 0, x.ends.len() as int);
    }
    assert(a + 9 < picture.len() ==> a + 12 <= picture.len() && prefix_stands(picture, a + 9)) by {
        lemma_picture_len(x, picture, base);
        if x.ends.len() > 0 {
            lemma_slice_place(x, picture, base, 0);
            lemma_slice_code(x, picture, base, 0);
        }
    }
    lemma_extension_passed(picture, a, p);
    lemma_header_passed(
        picture,
        a,
        temporal_reference,
        t,
        forward_f_code,
        backward_f_code,
    );
}

/// A picture adds whole bytes to what was written before.
#[verifier::spinoff_prover]
pub proof fn lemma_whole_bytes_added(x: WrittenSlices, before: Seq<bool>, header: Seq<bool>)
    requires
        x.ok(),
        x.starts[0] == zero_padded(before + header),
    ensures
        before.is_prefix_of(x.whole()),
        x.whole().len() % 8 == 0,
        holds_at(x.whole(), before.len() as int, header),
{
    let n = x.ends.len() as int;
    lemma_padded(before + header);
    lemma_slices_grow(x, 0, n);
    lemma_added(before, header);
    lemma_added_twice(before, before + header, x.starts[0]);
    lemma_added_twice(before, x.starts[0], x.whole());
    lemma_added_twice(before + header, x.starts[0], x.whole());
    let w = x.whole();
    let headed = w.subrange(0, (before + header).len() as int);
    assert(headed == before + header);
    assert(w.subrange(before.len() as int, headed.len() as int) =~= headed.subrange(
        before.len() as int,
        headed.len() as int,
    ));
    assert((before + header).subrange(before.len() as int, headed.len() as int) =~= header);
}

} // verus!
