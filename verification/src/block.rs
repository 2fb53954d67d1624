//! Eight by eight blocks as functions of row and column, and functions handed in
//! as values.

use vstd::prelude::*;

verus! {

pub open spec fn block_row<T>(f: spec_fn(int, int) -> T, v: int) -> [T; 8] {
    [f(v, 0), f(v, 1), f(v, 2), f(v, 3), f(v, 4), f(v, 5), f(v, 6), f(v, 7)]
}

/// The block whose entry in row `v` and column `u` is `f(v, u)`.
#[verifier::opaque]
pub open spec fn block_of<T>(f: spec_fn(int, int) -> T) -> [[T; 8]; 8] {
    [
        block_row(f, 0),
        block_row(f, 1),
        block_row(f, 2),
        block_row(f, 3),
        block_row(f, 4),
        block_row(f, 5),
        block_row(f, 6),
        block_row(f, 7),
    ]
}

/// A block is determined by its entries.
pub proof fn lemma_block_of<T>(a: [[T; 8]; 8], f: spec_fn(int, int) -> T)
    requires
        forall|v: int, u: int| 0 <= v < 8 && 0 <= u < 8 ==> #[trigger] a[v][u] == f(v, u),
    ensures
        a == block_of(f),
{
    reveal(block_of);
    let b = block_of(f);
    assert forall|v: int| 0 <= v < 8 implies a[v] == b[v] by {
        assert(a[v] =~= b[v]);
    }
    assert(a =~= b);
}

/// The entries of `block_of(f)`.
pub proof fn lemma_block_entries<T>(f: spec_fn(int, int) -> T)
    ensures
        forall|v: int, u: int|
            0 <= v < 8 && 0 <= u < 8 ==> #[trigger] block_of(f)[v][u] == f(v, u),
{
    reveal(block_of);
    assert forall|v: int, u: int| 0 <= v < 8 && 0 <= u < 8 implies #[trigger] block_of(f)[v][u]
        == f(v, u) by {
        assert(block_of(f)[v] == block_row(f, v));
    }
}

/// Whether a function handed in answers every argument, and always with the same
/// value.
pub open spec fn is_function<A, B, F: Fn(A) -> B>(f: F) -> bool {
    &&& forall|a: A| #[trigger] call_requires(f, (a,))
    &&& forall|a: A, x: B, y: B| #[trigger]
        call_ensures(f, (a,), x) && #[trigger] call_ensures(f, (a,), y) ==> x == y
}

/// The value of such a function.
pub open spec fn value_of<A, B, F: Fn(A) -> B>(f: F, a: A) -> B {
    choose|b: B| call_ensures(f, (a,), b)
}

/// Whether samples, or sample differences, lie within nine bits.
pub open spec fn samples_in_range(f: [[i16; 8]; 8]) -> bool {
    forall|y: int, x: int| 0 <= y < 8 && 0 <= x < 8 ==> -256 <= #[trigger] f[y][x] <= 255
}

/// Whether a transform gives such samples, whatever it is given.
pub open spec fn gives_samples<F: Fn([[i32; 8]; 8]) -> [[i16; 8]; 8]>(idct: F) -> bool {
    forall|f: [[i32; 8]; 8]| samples_in_range(#[trigger] value_of(idct, f))
}

} // verus!
