//! Bit sequences, and what the bit reader and the bit writer do to them.
//!
//! A reader stands for the bit sequence of its buffer and a position in it; a
//! writer stands for the bit sequence written so far. Both are most significant
//! bit first.

use crate::error::{Error, Result};
use oxideav_core::bits::{BitReader, BitWriter};
use oxideav_core::Error as CoreError;
use vstd::arithmetic::power2::pow2;
use vstd::prelude::*;

verus! {

// ---------------------------------------------------------------------------
// Bit sequences
// ---------------------------------------------------------------------------

/// The unsigned integer spelled by the `n` bits of `s` that start at `at`.
pub open spec fn be_value(s: Seq<bool>, at: int, n: int) -> int
    decreases n,
{
    if n <= 0 {
        0
    } else {
        2 * be_value(s, at, n - 1) + (if s[at + n - 1] {
            1int
        } else {
            0int
        })
    }
}

/// The `n` low bits of `v`, most significant first.
pub open spec fn value_bits(v: int, n: int) -> Seq<bool>
    decreases n,
{
    if n <= 0 {
        Seq::empty()
    } else {
        value_bits(v / 2, n - 1).push(v % 2 == 1)
    }
}

/// The bits of a byte string, each byte most significant bit first.
pub open spec fn bits_of(bytes: Seq<u8>) -> Seq<bool> {
    Seq::new(8 * bytes.len(), |k: int| value_bits(bytes[k / 8] as int, 8)[k % 8])
}

/// `s` followed by as many zero bits as take it to a byte boundary.
pub open spec fn zero_padded(s: Seq<bool>) -> Seq<bool> {
    s + Seq::new(((8 - s.len() % 8) % 8) as nat, |i: int| false)
}

/// Whether the bits of `s` from `at` on begin with the `n`-bit codeword `code`.
pub open spec fn codeword_at(s: Seq<bool>, at: int, code: int, n: int) -> bool {
    at + n <= s.len() && be_value(s, at, n) == code
}

/// The value of an `n`-bit two's complement field whose bits spell `v`.
pub open spec fn sign_extended(v: int, n: int) -> int {
    if v >= pow2((n - 1) as nat) {
        v - pow2(n as nat)
    } else {
        v
    }
}

pub proof fn lemma_be_value_bounds(s: Seq<bool>, at: int, n: int)
    requires
        0 <= n,
    ensures
        0 <= be_value(s, at, n) < pow2(n as nat),
    decreases n,
{
    if n == 0 {
        vstd::arithmetic::power2::lemma2_to64();
    } else {
        lemma_be_value_bounds(s, at, n - 1);
        vstd::arithmetic::power2::lemma_pow2_unfold(n as nat);
    }
}

/// Two sequences that agree on a range of bits spell the same number there.
pub proof fn lemma_be_value_same(s: Seq<bool>, at: int, t: Seq<bool>, bt: int, n: int)
    requires
        0 <= n,
        forall|k: int| 0 <= k < n ==> #[trigger] s[at + k] == t[bt + k],
    ensures
        be_value(s, at, n) == be_value(t, bt, n),
    decreases n,
{
    if n > 0 {
        assert(s[at + (n - 1)] == t[bt + (n - 1)]);
        lemma_be_value_same(s, at, t, bt, n - 1);
    }
}

/// A field splits into its high and its low part.
pub proof fn lemma_be_value_split(s: Seq<bool>, at: int, m: int, n: int)
    requires
        0 <= m,
        0 <= n,
    ensures
        be_value(s, at, m + n) == be_value(s, at, m) * pow2(n as nat) + be_value(s, at + m, n),
    decreases n,
{
    if n == 0 {
        vstd::arithmetic::power2::lemma2_to64();
    } else {
        lemma_be_value_split(s, at, m, n - 1);
        vstd::arithmetic::power2::lemma_pow2_unfold(n as nat);
        assert(2 * (be_value(s, at, m) * pow2((n - 1) as nat)) == be_value(s, at, m) * (2 * pow2(
            (n - 1) as nat,
        ))) by (nonlinear_arith);
    }
}

pub proof fn lemma_value_bits_len(v: int, n: int)
    requires
        0 <= n,
    ensures
        value_bits(v, n).len() == n,
    decreases n,
{
    if n > 0 {
        lemma_value_bits_len(v / 2, n - 1);
    }
}

/// What is written in `n` bits is read back, up to the bits that do not fit.
pub proof fn lemma_value_bits_read(s: Seq<bool>, at: int, v: int, n: int)
    requires
        0 <= n,
        0 <= v < pow2(n as nat),
        0 <= at,
        at + n <= s.len(),
        s.subrange(at, at + n) == value_bits(v, n),
    ensures
        be_value(s, at, n) == v,
    decreases n,
{
    if n == 0 {
        vstd::arithmetic::power2::lemma2_to64();
    } else {
        vstd::arithmetic::power2::lemma_pow2_unfold(n as nat);
        lemma_value_bits_len(v / 2, n - 1);
        let w = s.subrange(at, at + n);
        assert(w[n - 1] == s[at + n - 1]);
        assert(s.subrange(at, at + (n - 1)) =~= value_bits(v / 2, n - 1)) by {
            assert(w.subrange(0, n - 1) =~= value_bits(v, n).subrange(0, n - 1));
            assert(value_bits(v, n).subrange(0, n - 1) =~= value_bits(v / 2, n - 1));
            assert(w.subrange(0, n - 1) =~= s.subrange(at, at + (n - 1)));
        }
        lemma_value_bits_read(s, at, v / 2, n - 1);
    }
}

/// Whether the bits `t` stand in `s` at `at`.
pub open spec fn holds_at(s: Seq<bool>, at: int, t: Seq<bool>) -> bool {
    0 <= at && at + t.len() <= s.len() && s.subrange(at, at + t.len()) == t
}

/// Bits that stand somewhere stand there part by part.
pub proof fn lemma_holds_at_split(s: Seq<bool>, at: int, a: Seq<bool>, b: Seq<bool>)
    requires
        holds_at(s, at, a + b),
    ensures
        holds_at(s, at, a),
        holds_at(s, at + a.len(), b),
{
    let w = s.subrange(at, at + (a + b).len());
    assert(s.subrange(at, at + a.len()) =~= w.subrange(0, a.len() as int));
    assert((a + b).subrange(0, a.len() as int) =~= a);
    assert(s.subrange(at + a.len(), at + a.len() + b.len()) =~= w.subrange(
        a.len() as int,
        (a + b).len() as int,
    ));
    assert((a + b).subrange(a.len() as int, (a + b).len() as int) =~= b);
}

/// A field that stands at the head of some bits is read there.
pub proof fn lemma_holds_field(s: Seq<bool>, at: int, v: int, n: int, rest: Seq<bool>)
    requires
        0 <= n,
        0 <= v < pow2(n as nat),
        holds_at(s, at, value_bits(v, n) + rest),
    ensures
        at + n <= s.len(),
        be_value(s, at, n) == v,
        holds_at(s, at + n, rest),
{
    lemma_value_bits_len(v, n);
    lemma_holds_at_split(s, at, value_bits(v, n), rest);
    lemma_value_bits_read(s, at, v, n);
}

/// A flag that stands at the head of some bits is read there.
pub proof fn lemma_holds_flag(s: Seq<bool>, at: int, flag: bool, rest: Seq<bool>)
    requires
        holds_at(s, at, seq![flag] + rest),
    ensures
        at + 1 <= s.len(),
        s[at] == flag,
        holds_at(s, at + 1, rest),
{
    lemma_holds_at_split(s, at, seq![flag], rest);
    assert(s.subrange(at, at + 1)[0] == s[at]);
}

// ---------------------------------------------------------------------------
// The bit reader
// ---------------------------------------------------------------------------

/// The bit reader of `oxideav_core`.
#[verifier::external_type_specification]
#[verifier::external_body]
pub struct ExBitReader<'a>(BitReader<'a>);

/// The error of `oxideav_core`; the library looks only at whether there is one.
#[verifier::external_type_specification]
#[verifier::external_body]
pub struct ExCoreError(CoreError);

/// The bits of the buffer that a reader was made for.
pub uninterp spec fn reader_bits(r: BitReader<'_>) -> Seq<bool>;

/// How many of those bits the reader has consumed.
pub uninterp spec fn reader_pos(r: BitReader<'_>) -> nat;

/// Whether a position in the reader's buffer fits the 64-bit counters that
/// report it.
pub open spec fn addressable(r: BitReader<'_>) -> bool {
    reader_bits(r).len() <= u64::MAX
}

/// `BitReader::new`: reads `data` from its first bit on.
pub assume_specification<'a>[ BitReader::<'a>::new ](data: &'a [u8]) -> (r: BitReader<'a>)
    ensures
        reader_bits(r) == bits_of(data@),
        reader_pos(r) == 0,
;

/// `BitReader::bit_position`: the number of bits consumed. The count is kept in
/// 64 bits, so the buffer must be addressable.
pub assume_specification<'a>[ BitReader::<'a>::bit_position ](r: &BitReader<'a>) -> (res: u64)
    requires
        addressable(*r),
    ensures
        res == reader_pos(*r),
;

/// `BitReader::byte_position`: the number of whole bytes consumed.
pub assume_specification<'a>[ BitReader::<'a>::byte_position ](r: &BitReader<'a>) -> (res: usize)
    requires
        addressable(*r),
    ensures
        res == reader_pos(*r) / 8,
;

/// `BitReader::bits_remaining`: the number of bits not yet consumed.
pub assume_specification<'a>[ BitReader::<'a>::bits_remaining ](r: &BitReader<'a>) -> (res: u64)
    requires
        addressable(*r),
    ensures
        res == reader_bits(*r).len() - reader_pos(*r),
;

/// `BitReader::read_u32`: consumes `n` bits and returns the number they spell,
/// or consumes nothing and fails where fewer are left. More than 32 bits are a
/// debug assertion there.
pub assume_specification<'a>[ BitReader::<'a>::read_u32 ](r: &mut BitReader<'a>, n: u32) -> (res:
    core::result::Result<u32, CoreError>)
    requires
        n <= 32,
    ensures
        reader_bits(*final(r)) == reader_bits(*old(r)),
        res is Ok <==> reader_pos(*old(r)) + n <= reader_bits(*old(r)).len(),
        res matches Ok(v) ==> v == be_value(
            reader_bits(*old(r)),
            reader_pos(*old(r)) as int,
            n as int,
        ) && reader_pos(*final(r)) == reader_pos(*old(r)) + n,
        res is Err ==> reader_pos(*final(r)) == reader_pos(*old(r)),
;

/// `BitReader::read_i32`: as `read_u32`, with the field taken as two's
/// complement.
pub assume_specification<'a>[ BitReader::<'a>::read_i32 ](r: &mut BitReader<'a>, n: u32) -> (res:
    core::result::Result<i32, CoreError>)
    requires
        1 <= n <= 32,
    ensures
        reader_bits(*final(r)) == reader_bits(*old(r)),
        res is Ok <==> reader_pos(*old(r)) + n <= reader_bits(*old(r)).len(),
        res matches Ok(v) ==> v == sign_extended(
            be_value(reader_bits(*old(r)), reader_pos(*old(r)) as int, n as int),
            n as int,
        ) && reader_pos(*final(r)) == reader_pos(*old(r)) + n,
        res is Err ==> reader_pos(*final(r)) == reader_pos(*old(r)),
;

/// `BitReader::peek_u32`: the number that the next `n` bits spell, with nothing
/// consumed.
pub assume_specification<'a>[ BitReader::<'a>::peek_u32 ](r: &mut BitReader<'a>, n: u32) -> (res:
    core::result::Result<u32, CoreError>)
    requires
        n <= 32,
    ensures
        reader_bits(*final(r)) == reader_bits(*old(r)),
        reader_pos(*final(r)) == reader_pos(*old(r)),
        res is Ok <==> reader_pos(*old(r)) + n <= reader_bits(*old(r)).len(),
        res matches Ok(v) ==> v == be_value(
            reader_bits(*old(r)),
            reader_pos(*old(r)) as int,
            n as int,
        ),
;

/// `BitReader::skip`: consumes `n` bits. Where fewer are left it fails, having
/// consumed the whole groups of 32 bits that were.
pub assume_specification<'a>[ BitReader::<'a>::skip ](r: &mut BitReader<'a>, n: u32) -> (res:
    core::result::Result<(), CoreError>)
    ensures
        reader_bits(*final(r)) == reader_bits(*old(r)),
        res is Ok <==> reader_pos(*old(r)) + n <= reader_bits(*old(r)).len(),
        res is Ok ==> reader_pos(*final(r)) == reader_pos(*old(r)) + n,
        res is Err ==> reader_pos(*final(r)) == reader_pos(*old(r)) + (reader_bits(*old(r)).len()
            - reader_pos(*old(r))) / 32 * 32,
;

// ---------------------------------------------------------------------------
// The bit writer
// ---------------------------------------------------------------------------

/// The bit writer of `oxideav_core`.
#[verifier::external_type_specification]
#[verifier::external_body]
pub struct ExBitWriter(BitWriter);

/// The bits that a writer holds.
pub uninterp spec fn writer_bits(w: BitWriter) -> Seq<bool>;

/// `BitWriter::new`: a writer that holds no bit.
pub assume_specification[ BitWriter::new ]() -> (w: BitWriter)
    ensures
        writer_bits(w) == Seq::<bool>::empty(),
;

/// `BitWriter::write_u32`: appends the `n` low bits of `value`. More than 32
/// bits are a debug assertion there.
pub assume_specification[ BitWriter::write_u32 ](w: &mut BitWriter, value: u32, n: u32)
    requires
        n <= 32,
    ensures
        writer_bits(*final(w)) == writer_bits(*old(w)) + value_bits(value as int, n as int),
;

/// `BitWriter::write_bit`: appends one bit.
pub assume_specification[ BitWriter::write_bit ](w: &mut BitWriter, bit: bool)
    ensures
        writer_bits(*final(w)) == writer_bits(*old(w)).push(bit),
;

/// `BitWriter::align_to_byte_zero`: pads with zero bits to a byte boundary.
pub assume_specification[ BitWriter::align_to_byte_zero ](w: &mut BitWriter)
    ensures
        writer_bits(*final(w)) == zero_padded(writer_bits(*old(w))),
;

/// `BitWriter::finish`: the bytes that the bits make up, the last one filled
/// with zero bits.
pub assume_specification[ BitWriter::finish ](w: BitWriter) -> (bytes: Vec<u8>)
    ensures
        bits_of(bytes@) == zero_padded(writer_bits(w)),
;

// ---------------------------------------------------------------------------
// Reading with the library's error
// ---------------------------------------------------------------------------

/// What reading an `n`-bit field at `at` gives, and the position after it.
pub open spec fn field_at(s: Seq<bool>, at: int, n: int) -> (Result<int>, int) {
    if at + n <= s.len() {
        (Ok(be_value(s, at, n)), at + n)
    } else {
        (Err(Error::ShortHeader), at)
    }
}

/// Whether a parser turned the reader `before` into `after` and returned `res` as
/// `want` says: the result, and the position that the reader is left at.
pub open spec fn reads_as<T>(
    before: BitReader<'_>,
    after: BitReader<'_>,
    res: Result<T>,
    want: (Result<T>, int),
) -> bool {
    reader_bits(after) == reader_bits(before) && res == want.0 && reader_pos(after) == want.1
}

/// Reads an `n`-bit unsigned field.
pub fn read_field(br: &mut BitReader<'_>, n: u32) -> (res: Result<u32>)
    requires
        n <= 32,
    ensures
        reader_bits(*final(br)) == reader_bits(*old(br)),
        field_at(reader_bits(*old(br)), reader_pos(*old(br)) as int, n as int).1 == reader_pos(
            *final(br),
        ),
        match res {
            Ok(v) => field_at(reader_bits(*old(br)), reader_pos(*old(br)) as int, n as int).0 == Ok::<
                int,
                Error,
            >(v as int) && v < pow2(n as nat),
            Err(e) => field_at(reader_bits(*old(br)), reader_pos(*old(br)) as int, n as int).0
                == Err::<int, Error>(e),
        },
{
    proof {
        lemma_be_value_bounds(reader_bits(*br), reader_pos(*br) as int, n as int);
    }
    match br.read_u32(n) {
        Ok(v) => Ok(v),
        Err(_) => Err(Error::ShortHeader),
    }
}

/// Reads a one-bit flag.
pub fn read_flag(br: &mut BitReader<'_>) -> (res: Result<bool>)
    ensures
        reader_bits(*final(br)) == reader_bits(*old(br)),
        reader_pos(*old(br)) < reader_bits(*old(br)).len() ==> reader_pos(*final(br))
            == reader_pos(*old(br)) + 1 && res == Ok::<bool, Error>(
            reader_bits(*old(br))[reader_pos(*old(br)) as int],
        ),
        reader_pos(*old(br)) >= reader_bits(*old(br)).len() ==> reader_pos(*final(br))
            == reader_pos(*old(br)) && res == Err::<bool, Error>(Error::ShortHeader),
{
    proof {
        reveal_with_fuel(be_value, 2);
    }
    match br.read_u32(1) {
        Ok(v) => Ok(v == 1),
        Err(_) => Err(Error::ShortHeader),
    }
}

} // verus!
