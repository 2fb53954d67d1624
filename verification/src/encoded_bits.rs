//! Written bits in a stream that is read, and the zero bits among them.

use crate::bits::{be_value, bits_of, holds_at};
use crate::slice_header::prefix_stands;
use crate::slice_layout::{free_of_codes, lemma_free_of_codes};
use crate::slice_macroblock_walk::slice_ends;
use crate::zero_runs::{broken_up, one_in};
use vstd::prelude::*;

verus! {

/// Whether the bits of `b` from `base` on are the first of `s`.
pub open spec fn stands(s: Seq<bool>, base: int, b: Seq<bool>) -> bool {
    &&& 0 <= base <= b.len()
    &&& b.len() - base <= s.len()
    &&& forall|k: int| base <= k < b.len() ==> #[trigger] b[k] == s[k - base]
}

/// What was written before something stands too, and what was written last stands
/// after it.
pub proof fn lemma_stands_split(s: Seq<bool>, base: int, a: Seq<bool>, b: Seq<bool>)
    requires
        stands(s, base, a + b),
        base <= a.len(),
    ensures
        stands(s, base, a),
        holds_at(s, a.len() - base, b),
{
    let all = a + b;
    let at = a.len() - base;
    assert forall|k: int| base <= k < a.len() implies #[trigger] a[k] == s[k - base] by {
        assert(all[k] == a[k]);
    }
    assert forall|k: int| 0 <= k < b.len() implies s.subrange(at, at + b.len())[k] == b[k] by {
        assert(all[a.len() + k] == b[k]);
    }
    assert(s.subrange(at, at + b.len()) =~= b);
}

/// A prefix of what stands stands.
pub proof fn lemma_stands_prefix(s: Seq<bool>, base: int, a: Seq<bool>, all: Seq<bool>)
    requires
        stands(s, base, all),
        a.is_prefix_of(all),
        base <= a.len(),
    ensures
        stands(s, base, a),
{
    assert forall|k: int| base <= k < a.len() implies #[trigger] a[k] == s[k - base] by {
        assert(all[k] == a[k]);
    }
}

/// A field with a one in front is not zero.
pub proof fn lemma_leading_one(s: Seq<bool>, at: int, n: int)
    requires
        1 <= n,
        s[at],
    ensures
        be_value(s, at, n) > 0,
    decreases n,
{
    if n > 1 {
        lemma_leading_one(s, at, n - 1);
    } else {
        reveal_with_fuel(be_value, 2);
    }
}

/// A field of zero bits is zero.
pub proof fn lemma_zero_field(s: Seq<bool>, at: int, n: int)
    requires
        forall|k: int| at <= k < at + n ==> !#[trigger] s[k],
    ensures
        be_value(s, at, n) == 0,
    decreases n,
{
    if n > 0 {
        assert(!s[at + n - 1]);
        lemma_zero_field(s, at, n - 1);
    }
}

/// A slice goes on where a one stands.
pub proof fn lemma_one_goes_on(s: Seq<bool>, at: int)
    requires
        0 <= at < s.len(),
        s[at],
    ensures
        !slice_ends(s, at),
{
    let left = s.len() - at;
    lemma_leading_one(
        s,
        at,
        if left < 23 {
            left
        } else {
            23
        },
    );
}

/// What was added to `a` to make `b`.
pub open spec fn added(a: Seq<bool>, b: Seq<bool>) -> Seq<bool> {
    b.subrange(a.len() as int, b.len() as int)
}

/// What was added in two steps.
pub proof fn lemma_added_twice(a: Seq<bool>, b: Seq<bool>, c: Seq<bool>)
    requires
        a.is_prefix_of(b),
        b.is_prefix_of(c),
    ensures
        a.is_prefix_of(c),
        added(a, c) == added(a, b) + added(b, c),
        c == a + added(a, c),
{
    assert forall|k: int| 0 <= k < b.len() implies #[trigger] b[k] == c[k] by {
        assert(c.subrange(0, b.len() as int)[k] == c[k]);
    }
    assert forall|k: int| 0 <= k < a.len() implies #[trigger] a[k] == c[k] by {
        assert(b.subrange(0, a.len() as int)[k] == b[k]);
    }
    assert(a.is_prefix_of(c));
    assert(added(a, c) =~= added(a, b) + added(b, c));
    assert(c =~= a + added(a, c));
}

/// What was added by appending.
pub proof fn lemma_added(a: Seq<bool>, b: Seq<bool>)
    ensures
        a.is_prefix_of(a + b),
        added(a, a + b) == b,
{
    assert(a.is_prefix_of(a + b));
    assert(added(a, a + b) =~= b);
}

/// Bits that were written hold no start code where every 23 bits in a row of the
/// slice hold a one.
pub proof fn lemma_slice_free_of_codes(
    picture: Seq<u8>,
    a: int,
    b: int,
    body: Seq<bool>,
    lead: int,
    trail: int,
)
    requires
        0 <= a,
        a + 4 <= b <= picture.len(),
        holds_at(bits_of(picture), 8 * a + 32, body),
        broken_up(body, lead, trail),
        trail <= 15,
        8 * a + 32 + body.len() <= 8 * b < 8 * a + 40 + body.len(),
        b < picture.len() ==> b + 3 <= picture.len() && prefix_stands(picture, b),
    ensures
        free_of_codes(picture, a + 4, b),
{
    let s = bits_of(picture);
    let from = 8 * a + 32;
    let w = s.subrange(from, from + body.len());
    assert forall|q: int| 0 <= q < body.len() implies #[trigger] body[q] == s[from + q] by {
        assert(w[q] == s[from + q]);
    }
    assert forall|i: int| a + 4 <= i && i + 3 <= b implies #[trigger] one_in(
        s,
        8 * i,
        8 * i + 23,
    ) by {
        let p = 8 * i - from;
        if p + 23 <= body.len() {
            assert(one_in(body, p, p + 23));
            let q = choose|q: int| p <= q < p + 23 && 0 <= q < body.len() && #[trigger] body[q];
            assert(s[from + q]);
        } else {
            let q = choose|q: int|
                body.len() - 1 - trail <= q < body.len() && 0 <= q < body.len()
                    && #[trigger] body[q];
            assert(s[from + q]);
        }
    }
    lemma_free_of_codes(picture, a + 4, b);
}

/// A field with a one in it is not zero.
proof fn lemma_one_within(s: Seq<bool>, at: int, n: int, k: int)
    requires
        at <= k < at + n,
        s[k],
    ensures
        be_value(s, at, n) > 0,
    decreases n,
{
    if n == 1 {
        lemma_leading_one(s, at, 1);
    } else if k < at + n - 1 {
        lemma_one_within(s, at, n - 1, k);
    } else {
        crate::bits::lemma_be_value_bounds(s, at, n - 1);
    }
}

/// A slice goes on where a one stands among the next 23 bits, and ends where they are all
/// zero, as they are before a start code, or where no bits are left.
pub proof fn law_slice_goes_on_to_a_start_code(s: Seq<bool>, at: int)
    requires
        0 <= at,
    ensures
        slice_ends(s, at) <==> forall|k: int| at <= k < at + 23 && k < s.len() ==> !#[trigger] s[k],
{
    let left = s.len() - at;
    let n = if left < 23 {
        left
    } else {
        23
    };
    if left > 0 {
        if exists|k: int| at <= k < at + 23 && k < s.len() && #[trigger] s[k] {
            let k = choose|k: int| at <= k < at + 23 && k < s.len() && #[trigger] s[k];
            lemma_one_within(s, at, n, k);
        } else {
            lemma_zero_field(s, at, n);
        }
    }
}

} // verus!
