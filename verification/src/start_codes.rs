//! The start codes that a stream of bytes holds.

use crate::slice_header::prefix_stands;
use crate::slice_layout::free_of_codes;
use vstd::prelude::*;

verus! {

/// The values of the start codes that begin from byte `from` on and before byte `to`,
/// in order.
pub open spec fn codes_in(buf: Seq<u8>, from: int, to: int) -> Seq<u8>
    decreases to - from,
{
    if from >= to {
        Seq::empty()
    } else if from + 4 <= buf.len() && prefix_stands(buf, from) {
        seq![buf[from + 3]] + codes_in(buf, from + 1, to)
    } else {
        codes_in(buf, from + 1, to)
    }
}

/// The values of all start codes, in order.
pub open spec fn start_codes(buf: Seq<u8>) -> Seq<u8> {
    codes_in(buf, 0, buf.len() as int)
}

/// Whether bytes begin with a start code, do not break off within one, and hold the
/// start codes `codes`.
#[verifier::opaque]
pub open spec fn holds_codes(buf: Seq<u8>, codes: Seq<u8>) -> bool {
    &&& 4 <= buf.len()
    &&& prefix_stands(buf, 0)
    &&& !prefix_stands(buf, buf.len() - 3)
    &&& start_codes(buf) == codes
}

/// The start codes of a picture: its own, and one for each row of macroblocks.
pub open spec fn picture_codes(rows: int) -> Seq<u8> {
    seq![0u8] + Seq::new(rows as nat, |r: int| (r + 1) as u8)
}

pub proof fn lemma_codes_split(buf: Seq<u8>, a: int, b: int, c: int)
    requires
        a <= b <= c,
    ensures
        codes_in(buf, a, c) == codes_in(buf, a, b) + codes_in(buf, b, c),
    decreases b - a,
{
    if a < b {
        lemma_codes_split(buf, a + 1, b, c);
        assert(codes_in(buf, a, c) =~= codes_in(buf, a, b) + codes_in(buf, b, c));
    } else {
        assert(codes_in(buf, a, c) =~= codes_in(buf, a, b) + codes_in(buf, b, c));
    }
}

/// Bytes in which no start code begins.
pub proof fn lemma_no_codes(buf: Seq<u8>, from: int, to: int)
    requires
        free_of_codes(buf, from, to),
    ensures
        codes_in(buf, from, to) == Seq::<u8>::empty(),
    decreases to - from,
{
    if from < to {
        lemma_no_codes(buf, from + 1, to);
    }
}

/// Within a start code whose value is not zero no other begins.
pub proof fn lemma_code_is_one(buf: Seq<u8>, at: int)
    requires
        prefix_stands(buf, at),
        buf[at + 3] != 0,
    ensures
        free_of_codes(buf, at + 1, at + 4),
{
}

/// Bytes of which only the first begin a start code.
pub proof fn lemma_one_code(buf: Seq<u8>, at: int, to: int)
    requires
        0 <= at < to,
        at + 4 <= buf.len(),
        prefix_stands(buf, at),
        free_of_codes(buf, at + 1, to),
    ensures
        codes_in(buf, at, to) == seq![buf[at + 3]],
{
    lemma_no_codes(buf, at + 1, to);
    assert(codes_in(buf, at, to) =~= seq![buf[at + 3]]);
}

/// The start codes of the first of two pieces.
proof fn lemma_codes_first(a: Seq<u8>, b: Seq<u8>, from: int)
    requires
        0 <= from,
        3 <= a.len(),
        !prefix_stands(a, a.len() - 3),
        3 <= b.len(),
        prefix_stands(b, 0),
    ensures
        codes_in(a + b, from, a.len() as int) == codes_in(a, from, a.len() as int),
    decreases a.len() - from,
{
    if from < a.len() {
        lemma_codes_first(a, b, from + 1);
        let c = a + b;
        let n = a.len();
        if from + 4 <= n {
            assert(c[from] == a[from] && c[from + 1] == a[from + 1]);
            assert(c[from + 2] == a[from + 2] && c[from + 3] == a[from + 3]);
        } else if from + 3 == n {
            assert(c[from] == a[from] && c[from + 1] == a[from + 1] && c[from + 2] == a[from + 2]);
        } else if from + 2 == n {
            assert(c[from + 2] == b[0]);
        } else {
            assert(c[from + 2] == b[1]);
        }
    }
}

/// The start codes of the second of two pieces.
proof fn lemma_codes_second(a: Seq<u8>, b: Seq<u8>, from: int)
    requires
        0 <= from,
    ensures
        codes_in(a + b, a.len() + from, (a + b).len() as int) == codes_in(b, from, b.len() as int),
    decreases b.len() - from,
{
    if from < b.len() {
        lemma_codes_second(a, b, from + 1);
        let c = a + b;
        let n = a.len() as int;
        if from + 4 <= b.len() {
            assert(c[n + from] == b[from] && c[n + from + 1] == b[from + 1]);
            assert(c[n + from + 2] == b[from + 2] && c[n + from + 3] == b[from + 3]);
        }
    }
}

/// Two pieces one after the other.
pub proof fn lemma_codes_joined(a: Seq<u8>, codes_a: Seq<u8>, b: Seq<u8>, codes_b: Seq<u8>)
    requires
        holds_codes(a, codes_a),
        holds_codes(b, codes_b),
    ensures
        holds_codes(a + b, codes_a + codes_b),
{
    reveal(holds_codes);
    let c = a + b;
    lemma_codes_split(c, 0, a.len() as int, c.len() as int);
    lemma_codes_first(a, b, 0);
    lemma_codes_second(a, b, 0);
    assert(c[0] == a[0] && c[1] == a[1] && c[2] == a[2]);
    let m = b.len() - 3;
    let n = c.len() - 3;
    assert(c[n] == b[m] && c[n + 1] == b[m + 1] && c[n + 2] == b[m + 2]);
}

/// How often a start code occurs.
pub open spec fn occurrences(codes: Seq<u8>, code: u8) -> int
    decreases codes.len(),
{
    if codes.len() == 0 {
        0
    } else {
        occurrences(codes.drop_last(), code) + (if codes.last() == code {
            1int
        } else {
            0int
        })
    }
}

pub proof fn lemma_occurrences_joined(a: Seq<u8>, b: Seq<u8>, code: u8)
    ensures
        occurrences(a + b, code) == occurrences(a, code) + occurrences(b, code),
    decreases b.len(),
{
    if b.len() == 0 {
        assert(a + b =~= a);
    } else {
        assert((a + b).drop_last() =~= a + b.drop_last());
        lemma_occurrences_joined(a, b.drop_last(), code);
    }
}

pub proof fn lemma_occurrences_one(c: u8, code: u8)
    ensures
        occurrences(seq![c], code) == (if c == code {
            1int
        } else {
            0int
        }),
{
    reveal_with_fuel(occurrences, 2);
    assert(seq![c].drop_last() =~= Seq::<u8>::empty());
    assert(seq![c].last() == c);
}

/// A picture holds its own start code once, and otherwise only those of slices.
pub proof fn lemma_picture_occurrences(rows: int, code: u8)
    requires
        0 <= rows <= 180,
        code == 0 || code > 180,
    ensures
        occurrences(picture_codes(rows), code) == (if code == 0 {
            1int
        } else {
            0int
        }),
    decreases rows,
{
    if rows == 0 {
        assert(picture_codes(0) =~= seq![0u8]);
        lemma_occurrences_one(0, code);
    } else {
        lemma_picture_occurrences(rows - 1, code);
        assert(picture_codes(rows).drop_last() =~= picture_codes(rows - 1));
        assert(picture_codes(rows).last() == rows as u8);
    }
}

} // verus!
