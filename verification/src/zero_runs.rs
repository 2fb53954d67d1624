//! Runs of zero bits. A start code begins with 23 of them, so bits in which every
//! 23 in a row hold a one hold no start code.

use crate::bits::{lemma_value_bits_len, value_bits};
use crate::mpeg2_block_dc::bit_length;
use vstd::arithmetic::power2::{lemma2_to64, lemma_pow2_unfold, pow2};
use vstd::prelude::*;

verus! {

/// Whether a one stands at an index from `lo` on and before `hi`.
pub open spec fn one_in(b: Seq<bool>, lo: int, hi: int) -> bool {
    exists|q: int| lo <= q < hi && 0 <= q < b.len() && #[trigger] b[q]
}

/// Whether the first one has at most `lead` zeros before it, the last one at most
/// `trail` zeros after it, and every 23 bits in a row hold a one.
pub open spec fn broken_up(b: Seq<bool>, lead: int, trail: int) -> bool {
    &&& one_in(b, 0, lead + 1)
    &&& one_in(b, b.len() - 1 - trail, b.len() as int)
    &&& forall|p: int| 0 <= p && p + 23 <= b.len() ==> #[trigger] one_in(b, p, p + 23)
}

pub proof fn lemma_one_in(b: Seq<bool>, lo: int, hi: int, q: int)
    requires
        lo <= q < hi,
        0 <= q < b.len(),
        b[q],
    ensures
        one_in(b, lo, hi),
{
}

/// The bounds can be loosened.
pub proof fn lemma_loosened(b: Seq<bool>, lead: int, trail: int, more_lead: int, more_trail: int)
    requires
        broken_up(b, lead, trail),
        lead <= more_lead,
        trail <= more_trail,
    ensures
        broken_up(b, more_lead, more_trail),
{
}

/// Two sequences one after the other.
pub proof fn lemma_joined(
    a: Seq<bool>,
    lead_a: int,
    trail_a: int,
    b: Seq<bool>,
    lead_b: int,
    trail_b: int,
)
    requires
        broken_up(a, lead_a, trail_a),
        broken_up(b, lead_b, trail_b),
        trail_a + lead_b <= 22,
    ensures
        broken_up(a + b, lead_a, trail_b),
{
    let c = a + b;
    let fa = choose|q: int| 0 <= q < lead_a + 1 && 0 <= q < a.len() && #[trigger] a[q];
    let la = choose|q: int|
        a.len() - 1 - trail_a <= q < a.len() && 0 <= q < a.len() && #[trigger] a[q];
    let fb = choose|q: int| 0 <= q < lead_b + 1 && 0 <= q < b.len() && #[trigger] b[q];
    let lb = choose|q: int|
        b.len() - 1 - trail_b <= q < b.len() && 0 <= q < b.len() && #[trigger] b[q];
    assert(c[fa]);
    assert(c[a.len() + lb]);
    assert forall|p: int| 0 <= p && p + 23 <= c.len() implies #[trigger] one_in(c, p, p + 23) by {
        if p + 23 <= a.len() {
            assert(one_in(a, p, p + 23));
            let q = choose|q: int| p <= q < p + 23 && 0 <= q < a.len() && #[trigger] a[q];
            assert(c[q]);
        } else if p >= a.len() {
            let pb = p - a.len();
            assert(one_in(b, pb, pb + 23));
            let q = choose|q: int| pb <= q < pb + 23 && 0 <= q < b.len() && #[trigger] b[q];
            assert(c[a.len() + q]);
        } else if p <= la {
            assert(c[la]);
        } else {
            assert(c[a.len() + fb]);
        }
    }
}

/// Any bits in front.
pub proof fn lemma_prefixed(d: Seq<bool>, b: Seq<bool>, lead: int, trail: int)
    requires
        broken_up(b, lead, trail),
        d.len() + lead <= 22,
    ensures
        broken_up(d + b, d.len() + lead, trail),
{
    let c = d + b;
    let fb = choose|q: int| 0 <= q < lead + 1 && 0 <= q < b.len() && #[trigger] b[q];
    let lb = choose|q: int|
        b.len() - 1 - trail <= q < b.len() && 0 <= q < b.len() && #[trigger] b[q];
    assert(c[d.len() + fb]);
    assert(c[d.len() + lb]);
    assert forall|p: int| 0 <= p && p + 23 <= c.len() implies #[trigger] one_in(c, p, p + 23) by {
        if p >= d.len() {
            let pb = p - d.len();
            assert(one_in(b, pb, pb + 23));
            let q = choose|q: int| pb <= q < pb + 23 && 0 <= q < b.len() && #[trigger] b[q];
            assert(c[d.len() + q]);
        }
    }
}

/// Any bits behind.
pub proof fn lemma_suffixed(b: Seq<bool>, lead: int, trail: int, d: Seq<bool>)
    requires
        broken_up(b, lead, trail),
        trail + d.len() <= 22,
    ensures
        broken_up(b + d, lead, trail + d.len()),
{
    let c = b + d;
    let fb = choose|q: int| 0 <= q < lead + 1 && 0 <= q < b.len() && #[trigger] b[q];
    let lb = choose|q: int|
        b.len() - 1 - trail <= q < b.len() && 0 <= q < b.len() && #[trigger] b[q];
    assert(c[fb]);
    assert(c[lb]);
    assert forall|p: int| 0 <= p && p + 23 <= c.len() implies #[trigger] one_in(c, p, p + 23) by {
        if p + 23 <= b.len() {
            assert(one_in(b, p, p + 23));
            let q = choose|q: int| p <= q < p + 23 && 0 <= q < b.len() && #[trigger] b[q];
            assert(c[q]);
        }
    }
}

/// The highest bit of a number.
proof fn lemma_top_bit(v: int, n: int)
    requires
        0 <= n,
        0 < v < pow2(n as nat),
    ensures
        1 <= bit_length(v) <= n,
        value_bits(v, n)[n - bit_length(v)],
    decreases n,
{
    lemma2_to64();
    lemma_value_bits_len(v / 2, n - 1);
    if n > 0 {
        lemma_pow2_unfold(n as nat);
        if v >= 2 {
            lemma_top_bit(v / 2, n - 1);
        } else {
            assert(v / 2 == 0);
        }
    }
}

/// A number in a field of up to 22 bits.
pub proof fn lemma_field_broken_up(v: int, n: int)
    requires
        0 <= n <= 22,
        0 < v < pow2(n as nat),
    ensures
        broken_up(value_bits(v, n), n - bit_length(v), bit_length(v) - 1),
        1 <= bit_length(v) <= n,
{
    lemma_top_bit(v, n);
    lemma_value_bits_len(v, n);
}

/// A number with one of its two lowest bits set, in a field of up to 22 bits.
pub proof fn lemma_low_field_broken_up(v: int, n: int)
    requires
        2 <= n <= 22,
        0 < v < pow2(n as nat),
        v % 4 != 0,
    ensures
        broken_up(value_bits(v, n), n - bit_length(v), 1),
{
    lemma_top_bit(v, n);
    lemma_value_bits_len(v, n);
    lemma_value_bits_len(v / 2, n - 1);
    reveal_with_fuel(value_bits, 3);
    let b = value_bits(v, n);
    assert(b[n - 1] == (v % 2 == 1));
    assert(b[n - 2] == (v / 2 % 2 == 1));
    assert(b[n - 1] || b[n - 2]);
}

/// An odd number, in a field of up to 22 bits.
pub proof fn lemma_odd_field_broken_up(v: int, n: int)
    requires
        1 <= n <= 22,
        0 < v < pow2(n as nat),
        v % 2 == 1,
    ensures
        broken_up(value_bits(v, n), n - bit_length(v), 0),
{
    lemma_top_bit(v, n);
    lemma_value_bits_len(v, n);
    lemma_value_bits_len(v / 2, n - 1);
    assert(value_bits(v, n)[n - 1] == (v % 2 == 1));
}

/// A single one.
pub proof fn lemma_flag_broken_up()
    ensures
        broken_up(seq![true], 0, 0),
{
    assert(seq![true][0]);
}

} // verus!
