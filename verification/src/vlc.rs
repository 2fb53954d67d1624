//! Variable-length codewords: when one begins a bit sequence, and why at most
//! one codeword of a prefix-free table can.

use crate::bits::{
    be_value, codeword_at, lemma_be_value_bounds, lemma_be_value_split, reader_bits, reader_pos,
    value_bits,
};
use oxideav_core::bits::BitReader;
use vstd::arithmetic::power2::{lemma2_to64, pow2};
use vstd::prelude::*;

verus! {

/// The least 16-bit word that begins with the `n`-bit codeword `code`.
pub open spec fn first_word(code: int, n: int) -> int {
    if n == 1 {
        code * 32768
    } else if n == 2 {
        code * 16384
    } else if n == 3 {
        code * 8192
    } else if n == 4 {
        code * 4096
    } else if n == 5 {
        code * 2048
    } else if n == 6 {
        code * 1024
    } else if n == 7 {
        code * 512
    } else if n == 8 {
        code * 256
    } else if n == 9 {
        code * 128
    } else if n == 10 {
        code * 64
    } else if n == 11 {
        code * 32
    } else if n == 12 {
        code * 16
    } else if n == 13 {
        code * 8
    } else if n == 14 {
        code * 4
    } else if n == 15 {
        code * 2
    } else {
        code
    }
}

/// Whether no 16-bit word begins with both codewords: neither is a prefix of
/// the other.
pub open spec fn prefix_free(c1: int, n1: int, c2: int, n2: int) -> bool {
    first_word(c1 + 1, n1) <= first_word(c2, n2) || first_word(c2 + 1, n2) <= first_word(c1, n1)
}

/// Whether `code` is a codeword of `n` bits.
pub open spec fn fits_length(code: int, n: int) -> bool {
    0 <= code && 1 <= n <= 16 && first_word(code + 1, n) <= 65536
}

proof fn lemma_first_word(code: int, n: int)
    requires
        1 <= n <= 16,
    ensures
        first_word(code, n) == code * pow2((16 - n) as nat),
        pow2(n as nat) * pow2((16 - n) as nat) == 65536,
{
    lemma2_to64();
    vstd::arithmetic::power2::lemma_pow2_adds(n as nat, (16 - n) as nat);
    let m = pow2((16 - n) as nat) as int;
    assert(m == first_word(1, n));
    assert(code * m == first_word(code, n)) by (nonlinear_arith)
        requires
            m == first_word(1, n),
    ;
}

proof fn lemma_word_of_codeword(s: Seq<bool>, at: int, code: int, n: int)
    requires
        1 <= n <= 16,
        codeword_at(s, at, code, n),
    ensures
        first_word(code, n) <= be_value(s, at, 16) < first_word(code + 1, n),
{
    lemma_be_value_split(s, at, n, 16 - n);
    lemma_be_value_bounds(s, at + n, 16 - n);
    lemma_first_word(code, n);
    lemma_first_word(code + 1, n);
    let m = pow2((16 - n) as nat) as int;
    assert((code + 1) * m == code * m + m) by (nonlinear_arith);
}

/// Two codewords of which neither is a prefix of the other do not begin the
/// same bits.
pub proof fn lemma_prefix_free(s: Seq<bool>, at: int, c1: int, n1: int, c2: int, n2: int)
    requires
        1 <= n1 <= 16,
        1 <= n2 <= 16,
        prefix_free(c1, n1, c2, n2),
    ensures
        !(codeword_at(s, at, c1, n1) && codeword_at(s, at, c2, n2)),
{
    if codeword_at(s, at, c1, n1) && codeword_at(s, at, c2, n2) {
        lemma_word_of_codeword(s, at, c1, n1);
        lemma_word_of_codeword(s, at, c2, n2);
    }
}

/// A codeword that was written is found where it was written.
pub proof fn lemma_written_codeword(s: Seq<bool>, at: int, code: int, n: int)
    requires
        fits_length(code, n),
        0 <= at,
        at + n <= s.len(),
        s.subrange(at, at + n) == value_bits(code, n),
    ensures
        codeword_at(s, at, code, n),
{
    lemma_first_word(code + 1, n);
    let m = pow2((16 - n) as nat) as int;
    let top = pow2(n as nat) as int;
    vstd::arithmetic::power2::lemma_pow2_pos((16 - n) as nat);
    assert(code < top) by (nonlinear_arith)
        requires
            (code + 1) * m <= 65536,
            top * m == 65536,
            m > 0,
    ;
    crate::bits::lemma_value_bits_read(s, at, code, n);
}

/// Whether the reader stands at the `n`-bit codeword `code`. Nothing is
/// consumed.
pub fn at_codeword(br: &mut BitReader<'_>, code: u32, n: u32) -> (found: bool)
    requires
        n <= 32,
    ensures
        reader_bits(*final(br)) == reader_bits(*old(br)),
        reader_pos(*final(br)) == reader_pos(*old(br)),
        found == codeword_at(
            reader_bits(*old(br)),
            reader_pos(*old(br)) as int,
            code as int,
            n as int,
        ),
{
    match br.peek_u32(n) {
        Ok(v) => v == code,
        Err(_) => false,
    }
}

} // verus!
