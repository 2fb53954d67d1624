//! The search for the vector that predicts a macroblock best.

use crate::frame_assembly::{macroblock_addressable, FrameBuffer, FrameContents, PlaneContents};
use crate::inter_reconstruction::{
    predict_plane, predicted_plane, FrameMotion, MotionVectorPel, ReferenceContents,
    ReferenceFrames,
};
use crate::motion_vector::code_step;
use crate::mpeg1_reconstruct::in_vector_range;
use crate::mpeg2_block_dc::{magnitude, ColourComponent};
use vstd::arithmetic::power2::lemma2_to64;
use vstd::prelude::*;

verus! {

/// A vector and the sum of the absolute differences that its prediction leaves.
#[derive(Debug, Clone, Copy, PartialEq, Eq)]
pub struct MotionSearch {
    pub vector: MotionVectorPel,
    pub sad: u32,
}

/// The greatest distance, in whole samples, that keeps every vector of a search
/// within the range of an `f_code`.
pub open spec fn search_range_of(f_code: u8) -> int {
    if 1 <= f_code <= 9 {
        8 * code_step(f_code) - 1
    } else {
        0
    }
}

/// The greatest distance, in whole samples, that keeps every vector of a search
/// within the range of an `f_code`.
pub fn max_search_range(f_code: u8) -> (r: i32)
    ensures
        r == search_range_of(f_code),
        0 <= r <= 2047,
{
    proof {
        lemma2_to64();
    }
    match f_code {
        1 => 7,
        2 => 15,
        3 => 31,
        4 => 63,
        5 => 127,
        6 => 255,
        7 => 511,
        8 => 1023,
        9 => 2047,
        _ => 0,
    }
}

/// The sum of the absolute differences of the first `n` luminance samples of a
/// macroblock from a prediction.
pub open spec fn luma_difference(
    plane: PlaneContents,
    pred: Seq<u8>,
    mb_col: int,
    mb_row: int,
    n: int,
) -> int
    decreases n,
{
    if n <= 0 {
        0
    } else {
        let k = n - 1;
        luma_difference(plane, pred, mb_col, mb_row, n - 1) + magnitude(
            plane.nearest(mb_col * 16 + k % 16, mb_row * 16 + k / 16, 0) - pred[k],
        )
    }
}

/// The sum of the absolute luminance differences of a macroblock from a prediction.
pub fn luma_sad(current: &FrameBuffer, mb_col: usize, mb_row: usize, pred: &[u8]) -> (sad: u32)
    requires
        macroblock_addressable(mb_col as int, mb_row as int),
        pred@.len() == 256,
    ensures
        sad == luma_difference(current@.y, pred@, mb_col as int, mb_row as int, 256),
        sad <= 256 * 255,
{
    let base_x: usize = mb_col * 16;
    let base_y: usize = mb_row * 16;
    let mut sad: u32 = 0;
    let mut k: usize = 0;
    while k < 256
        invariant
            k <= 256,
            pred@.len() == 256,
            base_x == mb_col * 16,
            base_y == mb_row * 16,
            base_x + 16 <= usize::MAX,
            base_y + 16 <= usize::MAX,
            sad == luma_difference(
                current@.y,
                pred@,
                mb_col as int,
                mb_row as int,
                k as int,
            ),
            sad <= k * 255,
        decreases 256 - k,
    {
        let cur = current.y.get_nearest(base_x + k % 16, base_y + k / 16, 0);
        let prd = pred[k];
        sad +=
        if cur >= prd {
            (cur - prd) as u32
        } else {
            (prd - cur) as u32
        };
        k += 1;
    }
    sad
}

pub open spec fn forward_only(reference: FrameContents) -> ReferenceContents {
    ReferenceContents { forward: Some(reference), backward: None }
}

pub open spec fn forward_motion(v: MotionVectorPel) -> FrameMotion {
    FrameMotion { forward: Some(v), backward: None }
}

/// What a vector leaves of the luminance of a macroblock.
pub open spec fn vector_cost(
    current: FrameContents,
    reference: FrameContents,
    mb_col: int,
    mb_row: int,
    v: MotionVectorPel,
) -> int {
    luma_difference(
        current.y,
        predicted_plane(
            forward_only(reference),
            forward_motion(v),
            ColourComponent::Y,
            current.chroma_format,
            mb_col,
            mb_row,
        ),
        mb_col,
        mb_row,
        256,
    )
}

/// What a vector leaves of the luminance of a macroblock.
pub fn vector_sad(
    current: &FrameBuffer,
    reference: &FrameBuffer,
    mb_col: usize,
    mb_row: usize,
    v: MotionVectorPel,
) -> (sad: u32)
    requires
        macroblock_addressable(mb_col as int, mb_row as int),
    ensures
        sad == vector_cost(current@, reference@, mb_col as int, mb_row as int, v),
{
    let pred = predict_plane(
        ReferenceFrames::forward_only(reference),
        FrameMotion::forward(v),
        ColourComponent::Y,
        current.chroma_format,
        mb_col,
        mb_row,
    );
    luma_sad(current, mb_col, mb_row, pred.as_slice())
}

/// Vector `k` of a square of vectors, `side` on each side, whose first is
/// `(left, top)` and whose neighbours are `step` half samples apart, row by row.
pub open spec fn square_vector(left: int, top: int, side: int, step: int, k: int) -> MotionVectorPel {
    MotionVectorPel {
        horizontal: (left + step * (k % side)) as i32,
        vertical: (top + step * (k / side)) as i32,
    }
}

/// The better of a vector and the first `n` of a square: the one that leaves least,
/// and the first of those that leave equally little.
pub open spec fn best_of_square(
    current: FrameContents,
    reference: FrameContents,
    mb_col: int,
    mb_row: int,
    start: MotionVectorPel,
    left: int,
    top: int,
    side: int,
    step: int,
    n: int,
) -> MotionVectorPel
    decreases n,
{
    if n <= 0 {
        start
    } else {
        let before = best_of_square(
            current,
            reference,
            mb_col,
            mb_row,
            start,
            left,
            top,
            side,
            step,
            n - 1,
        );
        let v = square_vector(left, top, side, step, n - 1);
        if vector_cost(current, reference, mb_col, mb_row, v) < vector_cost(
            current,
            reference,
            mb_col,
            mb_row,
            before,
        ) {
            v
        } else {
            before
        }
    }
}

/// The best vector of whole samples up to a distance of `range`, the zero vector
/// first.
pub open spec fn best_whole(
    current: FrameContents,
    reference: FrameContents,
    mb_col: int,
    mb_row: int,
    range: int,
) -> MotionVectorPel {
    let side = 2 * range + 1;
    best_of_square(
        current,
        reference,
        mb_col,
        mb_row,
        MotionVectorPel { horizontal: 0, vertical: 0 },
        -2 * range,
        -2 * range,
        side,
        2,
        side * side,
    )
}

/// The best vector of a search: the best of whole samples, or a better one half a
/// sample beside it.
pub open spec fn best_vector(
    current: FrameContents,
    reference: FrameContents,
    mb_col: int,
    mb_row: int,
    range: int,
) -> MotionVectorPel {
    let whole = best_whole(current, reference, mb_col, mb_row, range);
    best_of_square(
        current,
        reference,
        mb_col,
        mb_row,
        whole,
        whole.horizontal - 1,
        whole.vertical - 1,
        3,
        1,
        9,
    )
}

/// Whether both components of a vector are within a distance.
pub open spec fn within(v: MotionVectorPel, distance: int) -> bool {
    -distance <= v.horizontal <= distance && -distance <= v.vertical <= distance
}

proof fn lemma_square_vector(left: int, top: int, side: int, step: int, k: int)
    requires
        1 <= side <= 33,
        1 <= step <= 2,
        0 <= k < side * side,
    ensures
        0 <= step * (k % side) <= step * (side - 1),
        0 <= step * (k / side) <= step * (side - 1),
{
    assert(0 <= k / side < side) by (nonlinear_arith)
        requires
            0 <= k < side * side,
            side >= 1,
    ;
    assert(0 <= k % side < side) by (nonlinear_arith)
        requires
            side >= 1,
    ;
    assert(0 <= step * (k % side) <= step * (side - 1)) by (nonlinear_arith)
        requires
            0 <= k % side <= side - 1,
            1 <= step,
    ;
    assert(0 <= step * (k / side) <= step * (side - 1)) by (nonlinear_arith)
        requires
            0 <= k / side <= side - 1,
            1 <= step,
    ;
}

fn search_square(
    current: &FrameBuffer,
    reference: &FrameBuffer,
    mb_col: usize,
    mb_row: usize,
    start: MotionSearch,
    left: i32,
    top: i32,
    side: i32,
    step: i32,
) -> (best: MotionSearch)
    requires
        macroblock_addressable(mb_col as int, mb_row as int),
        1 <= side <= 33,
        1 <= step <= 2,
        -64 <= left <= 64,
        -64 <= top <= 64,
        start.sad == vector_cost(
            current@,
            reference@,
            mb_col as int,
            mb_row as int,
            start.vector,
        ),
    ensures
        best.vector == best_of_square(
            current@,
            reference@,
            mb_col as int,
            mb_row as int,
            start.vector,
            left as int,
            top as int,
            side as int,
            step as int,
            side * side,
        ),
        best.sad == vector_cost(current@, reference@, mb_col as int, mb_row as int, best.vector),
        best.vector == start.vector || (left <= best.vector.horizontal <= left + step * (side - 1)
            && top <= best.vector.vertical <= top + step * (side - 1)),
{
    assert(1 <= side * side <= 33 * 33) by (nonlinear_arith)
        requires
            1 <= side <= 33,
    ;
    let n: i32 = side * side;
    let mut best = start;
    let mut k: i32 = 0;
    while k < n
        invariant
            0 <= k <= n,
            n == side * side,
            macroblock_addressable(mb_col as int, mb_row as int),
            1 <= side <= 33,
            1 <= step <= 2,
            -64 <= left <= 64,
            -64 <= top <= 64,
            best.sad == vector_cost(
                current@,
                reference@,
                mb_col as int,
                mb_row as int,
                best.vector,
            ),
            best.vector == best_of_square(
                current@,
                reference@,
                mb_col as int,
                mb_row as int,
                start.vector,
                left as int,
                top as int,
                side as int,
                step as int,
                k as int,
            ),
            best.vector == start.vector || (left <= best.vector.horizontal <= left + step * (side
                - 1) && top <= best.vector.vertical <= top + step * (side - 1)),
        decreases n - k,
    {
        proof {
            lemma_square_vector(left as int, top as int, side as int, step as int, k as int);
            assert(step * (side - 1) <= 64) by (nonlinear_arith)
                requires
                    1 <= step <= 2,
                    1 <= side <= 33,
            ;
        }
        let v = MotionVectorPel::new(left + step * (k % side), top + step * (k / side));
        let sad = vector_sad(current, reference, mb_col, mb_row, v);
        if sad < best.sad {
            best = MotionSearch { vector: v, sad };
        }
        k += 1;
    }
    best
}

/// Searches the whole-sample vectors up to a distance of `range`, and then the
/// half-sample vectors beside the best.
pub fn estimate_forward_mv(
    current: &FrameBuffer,
    reference: &FrameBuffer,
    mb_col: usize,
    mb_row: usize,
    range: i32,
) -> (best: MotionSearch)
    requires
        macroblock_addressable(mb_col as int, mb_row as int),
        0 <= range <= 16,
    ensures
        best.vector == best_vector(
            current@,
            reference@,
            mb_col as int,
            mb_row as int,
            range as int,
        ),
        best.sad == vector_cost(current@, reference@, mb_col as int, mb_row as int, best.vector),
        within(best.vector, 2 * range + 1),
{
    let zero = MotionVectorPel::new(0, 0);
    let start = MotionSearch {
        vector: zero,
        sad: vector_sad(current, reference, mb_col, mb_row, zero),
    };
    let side: i32 = 2 * range + 1;
    let whole = search_square(
        current,
        reference,
        mb_col,
        mb_row,
        start,
        -2 * range,
        -2 * range,
        side,
        2,
    );
    assert(within(whole.vector, 2 * range));
    search_square(
        current,
        reference,
        mb_col,
        mb_row,
        whole,
        whole.vector.horizontal - 1,
        whole.vector.vertical - 1,
        3,
        1,
    )
}

/// No vector of a square, nor the one that the search started from, leaves less
/// than the one found.
pub proof fn law_best_of_square_is_best(
    current: FrameContents,
    reference: FrameContents,
    mb_col: int,
    mb_row: int,
    start: MotionVectorPel,
    left: int,
    top: int,
    side: int,
    step: int,
    n: int,
    k: int,
)
    requires
        0 <= k < n,
    ensures
        ({
            let best = best_of_square(
                current,
                reference,
                mb_col,
                mb_row,
                start,
                left,
                top,
                side,
                step,
                n,
            );
            let cost = |v: MotionVectorPel|
                vector_cost(current, reference, mb_col, mb_row, v);
            cost(best) <= cost(start) && cost(best) <= cost(
                square_vector(left, top, side, step, k),
            )
        }),
    decreases n,
{
    if k < n - 1 {
        law_best_of_square_is_best(
            current,
            reference,
            mb_col,
            mb_row,
            start,
            left,
            top,
            side,
            step,
            n - 1,
            k,
        );
    } else if n > 1 {
        law_best_of_square_is_best(
            current,
            reference,
            mb_col,
            mb_row,
            start,
            left,
            top,
            side,
            step,
            n - 1,
            n - 2,
        );
    }
}

/// Every vector of a search over the greatest distance of an `f_code` lies in its
/// range.
pub proof fn law_search_stays_in_range(v: MotionVectorPel, f_code: u8, range: int)
    requires
        1 <= f_code <= 9,
        range <= search_range_of(f_code),
        within(v, 2 * range + 1),
    ensures
        in_vector_range(v.horizontal as int, f_code),
        in_vector_range(v.vertical as int, f_code),
{
}

proof fn lemma_best_of_square_near(
    current: FrameContents,
    reference: FrameContents,
    mb_col: int,
    mb_row: int,
    start: MotionVectorPel,
    left: int,
    top: int,
    side: int,
    step: int,
    n: int,
)
    requires
        1 <= side <= 33,
        1 <= step <= 2,
        -64 <= left <= 64,
        -64 <= top <= 64,
        n <= side * side,
    ensures
        ({
            let v = best_of_square(
                current,
                reference,
                mb_col,
                mb_row,
                start,
                left,
                top,
                side,
                step,
                n,
            );
            v == start || (left <= v.horizontal <= left + step * (side - 1) && top <= v.vertical
                <= top + step * (side - 1))
        }),
    decreases n,
{
    if n > 0 {
        lemma_best_of_square_near(
            current,
            reference,
            mb_col,
            mb_row,
            start,
            left,
            top,
            side,
            step,
            n - 1,
        );
        lemma_square_vector(left, top, side, step, n - 1);
        assert(step * (side - 1) <= 64) by (nonlinear_arith)
            requires
                1 <= step <= 2,
                1 <= side <= 33,
        ;
    }
}

/// The best vector of a search is at most half a sample beyond its distance.
pub proof fn law_best_vector_is_near(
    current: FrameContents,
    reference: FrameContents,
    mb_col: int,
    mb_row: int,
    range: int,
)
    requires
        0 <= range <= 16,
    ensures
        within(best_vector(current, reference, mb_col, mb_row, range), 2 * range + 1),
{
    let side = 2 * range + 1;
    let zero = MotionVectorPel { horizontal: 0, vertical: 0 };
    let whole = best_whole(current, reference, mb_col, mb_row, range);
    lemma_best_of_square_near(
        current,
        reference,
        mb_col,
        mb_row,
        zero,
        -2 * range,
        -2 * range,
        side,
        2,
        side * side,
    );
    lemma_best_of_square_near(
        current,
        reference,
        mb_col,
        mb_row,
        whole,
        whole.horizontal - 1,
        whole.vertical - 1,
        3,
        1,
        9,
    );
}

} // verus!
