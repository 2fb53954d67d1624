//! The inverse scans: from the coded order of the coefficients to their places in
//! the block.

use crate::block::{block_of, lemma_block_of};
use vstd::prelude::*;

verus! {

/// The zig-zag scan: the coded index of the coefficient in row `v` and column
/// `u`.
pub const SCAN: [[u8; 8]; 8] = [
    [0, 1, 5, 6, 14, 15, 27, 28],
    [2, 4, 7, 13, 16, 26, 29, 42],
    [3, 8, 12, 17, 25, 30, 41, 43],
    [9, 11, 18, 24, 31, 40, 44, 53],
    [10, 19, 23, 32, 39, 45, 52, 54],
    [20, 22, 33, 38, 46, 51, 55, 60],
    [21, 34, 37, 47, 50, 56, 59, 61],
    [35, 36, 48, 49, 57, 58, 62, 63],
];

/// The cell that each coded index of the zig-zag scan stands for.
pub const ZIGZAG_INVERSE_SCAN: [(u8, u8); 64] = [
    (0, 0), (0, 1), (1, 0), (2, 0), (1, 1), (0, 2), (0, 3), (1, 2),
    (2, 1), (3, 0), (4, 0), (3, 1), (2, 2), (1, 3), (0, 4), (0, 5),
    (1, 4), (2, 3), (3, 2), (4, 1), (5, 0), (6, 0), (5, 1), (4, 2),
    (3, 3), (2, 4), (1, 5), (0, 6), (0, 7), (1, 6), (2, 5), (3, 4),
    (4, 3), (5, 2), (6, 1), (7, 0), (7, 1), (6, 2), (5, 3), (4, 4),
    (3, 5), (2, 6), (1, 7), (2, 7), (3, 6), (4, 5), (5, 4), (6, 3),
    (7, 2), (7, 3), (6, 4), (5, 5), (4, 6), (3, 7), (4, 7), (5, 6),
    (6, 5), (7, 4), (7, 5), (6, 6), (5, 7), (6, 7), (7, 6), (7, 7),
];

/// The alternate scan.
pub const ALTERNATE_SCAN: [[u8; 8]; 8] = [
    [0, 4, 6, 20, 22, 36, 38, 52],
    [1, 5, 7, 21, 23, 37, 39, 53],
    [2, 8, 19, 24, 34, 40, 50, 54],
    [3, 9, 18, 25, 35, 41, 51, 55],
    [10, 17, 26, 30, 42, 46, 56, 60],
    [11, 16, 27, 31, 43, 47, 57, 61],
    [12, 15, 28, 32, 44, 48, 58, 62],
    [13, 14, 29, 33, 45, 49, 59, 63],
];

/// The cell that each coded index of the alternate scan stands for.
pub const ALTERNATE_INVERSE_SCAN: [(u8, u8); 64] = [
    (0, 0), (1, 0), (2, 0), (3, 0), (0, 1), (1, 1), (0, 2), (1, 2),
    (2, 1), (3, 1), (4, 0), (5, 0), (6, 0), (7, 0), (7, 1), (6, 1),
    (5, 1), (4, 1), (3, 2), (2, 2), (0, 3), (1, 3), (0, 4), (1, 4),
    (2, 3), (3, 3), (4, 2), (5, 2), (6, 2), (7, 2), (4, 3), (5, 3),
    (6, 3), (7, 3), (2, 4), (3, 4), (0, 5), (1, 5), (0, 6), (1, 6),
    (2, 5), (3, 5), (4, 4), (5, 4), (6, 4), (7, 4), (4, 5), (5, 5),
    (6, 5), (7, 5), (2, 6), (3, 6), (0, 7), (1, 7), (2, 7), (3, 7),
    (4, 6), (5, 6), (6, 6), (7, 6), (4, 7), (5, 7), (6, 7), (7, 7),
];

pub open spec fn scan(alternate_scan: bool) -> [[u8; 8]; 8] {
    if alternate_scan {
        ALTERNATE_SCAN
    } else {
        SCAN
    }
}

pub open spec fn inverse_scan(alternate_scan: bool) -> [(u8, u8); 64] {
    if alternate_scan {
        ALTERNATE_INVERSE_SCAN
    } else {
        ZIGZAG_INVERSE_SCAN
    }
}

/// The scan that the flag selects.
pub fn scan_table(alternate_scan: bool) -> (r: &'static [[u8; 8]; 8])
    ensures
        *r == scan(alternate_scan),
{
    if alternate_scan {
        &ALTERNATE_SCAN
    } else {
        &SCAN
    }
}

/// The inverse of the scan that the flag selects.
pub fn inverse_scan_table(alternate_scan: bool) -> (r: &'static [(u8, u8); 64])
    ensures
        *r == inverse_scan(alternate_scan),
{
    if alternate_scan {
        &ALTERNATE_INVERSE_SCAN
    } else {
        &ZIGZAG_INVERSE_SCAN
    }
}

/// Every cell has one coded index, and the inverse scan leads back from it.
pub proof fn law_scan_then_inverse(alternate_scan: bool, v: int, u: int)
    requires
        0 <= v < 8,
        0 <= u < 8,
    ensures
        scan(alternate_scan)[v][u] < 64,
        inverse_scan(alternate_scan)[scan(alternate_scan)[v][u] as int] == (v as u8, u as u8),
{
}

/// Every coded index has one cell, and the scan leads back from it.
pub proof fn law_inverse_then_scan(alternate_scan: bool, n: int)
    requires
        0 <= n < 64,
    ensures
        inverse_scan(alternate_scan)[n].0 < 8,
        inverse_scan(alternate_scan)[n].1 < 8,
        scan(alternate_scan)[inverse_scan(alternate_scan)[n].0 as int][inverse_scan(
            alternate_scan,
        )[n].1 as int] == n,
{
}

pub open spec fn replaced_entries(b: [[i16; 8]; 8], v: int, u: int, value: i16) -> spec_fn(
    int,
    int,
) -> i16 {
    |r: int, c: int|
        if r == v && c == u {
            value
        } else {
            b[r][c]
        }
}

/// The block with one entry replaced.
pub open spec fn with_entry(b: [[i16; 8]; 8], v: int, u: int, value: i16) -> [[i16; 8]; 8] {
    block_of(replaced_entries(b, v, u, value))
}

proof fn lemma_with_entry(a: [[i16; 8]; 8], b: [[i16; 8]; 8], v: int, u: int, value: i16)
    requires
        forall|r: int, c: int|
            0 <= r < 8 && 0 <= c < 8 ==> #[trigger] a[r][c] == (if r == v && c == u {
                value
            } else {
                b[r][c]
            }),
    ensures
        a == with_entry(b, v, u, value),
{
    lemma_block_of(a, replaced_entries(b, v, u, value));
}

/// Stores a coefficient at the cell of its coded index.
pub fn place_coefficient(qf: &mut [[i16; 8]; 8], index: usize, value: i16, alternate_scan: bool)
    requires
        index < 64,
    ensures
        *final(qf) == with_entry(
            *old(qf),
            inverse_scan(alternate_scan)[index as int].0 as int,
            inverse_scan(alternate_scan)[index as int].1 as int,
            value,
        ),
{
    proof {
        law_inverse_then_scan(alternate_scan, index as int);
    }
    let table = inverse_scan_table(alternate_scan);
    let (v, u) = table[index];
    let ghost before = *qf;
    qf[v as usize][u as usize] = value;
    proof {
        lemma_with_entry(*qf, before, v as int, u as int, value);
    }
}

/// The block that a coded coefficient list stands for.
pub open spec fn scanned(qfs: Seq<i16>, alternate_scan: bool) -> [[i16; 8]; 8] {
    block_of(|v: int, u: int| qfs[scan(alternate_scan)[v][u] as int])
}

/// Puts a coded coefficient list into its block.
pub fn apply_inverse_scan(qfs: &[i16; 64], alternate_scan: bool) -> (qf: [[i16; 8]; 8])
    ensures
        qf == scanned(qfs@, alternate_scan),
{
    let mut qf = [[0i16; 8]; 8];
    let table = scan_table(alternate_scan);
    let mut v: usize = 0;
    while v < 8
        invariant
            v <= 8,
            *table == scan(alternate_scan),
            forall|a: int, b: int|
                0 <= a < v && 0 <= b < 8 ==> #[trigger] qf[a][b] == qfs@[scan(
                    alternate_scan,
                )[a][b] as int],
        decreases 8 - v,
    {
        let mut u: usize = 0;
        while u < 8
            invariant
                u <= 8,
                v < 8,
                *table == scan(alternate_scan),
                forall|a: int, b: int|
                    0 <= a < v && 0 <= b < 8 ==> #[trigger] qf[a][b] == qfs@[scan(
                        alternate_scan,
                    )[a][b] as int],
                forall|b: int|
                    0 <= b < u ==> #[trigger] qf[v as int][b] == qfs@[scan(
                        alternate_scan,
                    )[v as int][b] as int],
            decreases 8 - u,
        {
            proof {
                law_scan_then_inverse(alternate_scan, v as int, u as int);
            }
            qf[v][u] = qfs[table[v][u] as usize];
            u += 1;
        }
        v += 1;
    }
    proof {
        lemma_block_of(qf, |v: int, u: int| qfs@[scan(alternate_scan)[v][u] as int]);
    }
    qf
}

/// Replacing one coefficient of the list replaces one entry of the block, the one
/// that `place_coefficient` replaces. From a list of zeroes on, placing the
/// coefficients one by one therefore gives what `apply_inverse_scan` gives.
pub proof fn law_placing_is_scanning(qfs: Seq<i16>, n: int, value: i16, alternate_scan: bool)
    requires
        qfs.len() == 64,
        0 <= n < 64,
    ensures
        scanned(qfs.update(n, value), alternate_scan) == with_entry(
            scanned(qfs, alternate_scan),
            inverse_scan(alternate_scan)[n].0 as int,
            inverse_scan(alternate_scan)[n].1 as int,
            value,
        ),
{
    let cell = inverse_scan(alternate_scan)[n];
    law_inverse_then_scan(alternate_scan, n);
    let f = |v: int, u: int| qfs[scan(alternate_scan)[v][u] as int];
    let g = |v: int, u: int| qfs.update(n, value)[scan(alternate_scan)[v][u] as int];
    crate::block::lemma_block_entries(f);
    crate::block::lemma_block_entries(g);
    let a = scanned(qfs.update(n, value), alternate_scan);
    let before = scanned(qfs, alternate_scan);
    assert forall|v: int, u: int| 0 <= v < 8 && 0 <= u < 8 implies #[trigger] a[v][u] == (if v
        == cell.0 && u == cell.1 {
        value
    } else {
        before[v][u]
    }) by {
        law_scan_then_inverse(alternate_scan, v, u);
    }
    lemma_with_entry(a, before, cell.0 as int, cell.1 as int, value);
}

/// Reading the entries of a block in scan order gives back the list that it was
/// made from.
pub proof fn law_scan_order_reads_back(qfs: Seq<i16>, n: int, alternate_scan: bool)
    requires
        qfs.len() == 64,
        0 <= n < 64,
    ensures
        scanned(qfs, alternate_scan)[inverse_scan(alternate_scan)[n].0 as int][inverse_scan(
            alternate_scan,
        )[n].1 as int] == qfs[n],
{
    law_inverse_then_scan(alternate_scan, n);
    crate::block::lemma_block_entries(|v: int, u: int| qfs[scan(alternate_scan)[v][u] as int]);
}

/// The zig-zag scan goes along the diagonals, each after the one nearer to the corner:
/// from one coefficient to the next it moves one place along its diagonal, or on to the
/// next diagonal at an edge of the block. It starts in the corner and leaves it to the
/// right.
pub proof fn law_zigzag_follows_diagonals(n: int)
    requires
        0 <= n < 63,
    ensures
        ({
            let here = inverse_scan(false)[n];
            let next = inverse_scan(false)[n + 1];
            let down = next.0 - here.0;
            let right = next.1 - here.1;
            &&& n == 0 ==> here == (0u8, 0u8) && right == 1
            &&& (down + right == 0 || down + right == 1)
            &&& -1 <= down <= 1
            &&& -1 <= right <= 1
            &&& down + right == 0 <==> (if (here.0 + here.1) % 2 == 0 {
                here.0 > 0 && here.1 < 7
            } else {
                here.0 < 7 && here.1 > 0
            })
            &&& down + right == 0 ==> (down == -1 <==> (here.0 + here.1) % 2 == 0)
        }),
{
}

/// In either scan, a coefficient comes after those to its left. The alternate scan takes
/// the rows two by two: the coefficients of an even row and the row below it follow each
/// other directly.
pub proof fn law_scans_go_right(alternate_scan: bool, v: int, u: int, w: int)
    requires
        0 <= v < 8,
        0 <= u < w < 8,
    ensures
        scan(alternate_scan)[v][u] < scan(alternate_scan)[v][w],
        v % 2 == 0 ==> -1 <= scan(true)[v + 1][u] - scan(true)[v][u] <= 1,
{
}

} // verus!
