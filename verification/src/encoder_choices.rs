//! What the choices of the encoders are for: vectors and directions that leave least, and
//! macroblocks that are coded by themselves where a prediction is of no use.

use crate::frame_assembly::{FrameContents, PlaneContents};
use crate::inter_reconstruction::MotionVectorPel;
use crate::macroblock_source::{activity, luma_sample, luma_spread, luma_sum};
use crate::motion_estimation::{
    best_vector, best_whole, law_best_of_square_is_best, luma_difference, square_vector,
    vector_cost,
};
use crate::mpeg1_encoder::{
    b_direction, b_prediction, decodable_component, p_macroblock_encoded, prefers_intra,
    search_distance, Anchors, BDirection, MacroblockSource, PredictedEncoding,
};
use crate::motion_vector::code_step;
use crate::p_picture_encoder::{
    macroblock_encoded, prefers_intra as prefers_intra_2, PEncoding, PSource,
};
use vstd::prelude::*;

verus! {

// ---------------------------------------------------------------------------
// What is left
// ---------------------------------------------------------------------------

/// The luminance sample `k` of a macroblock, row by row.
pub open spec fn sample_at(plane: PlaneContents, mb_col: int, mb_row: int, k: int) -> int {
    plane.at(16 * mb_col + k % 16, 16 * mb_row + k / 16) as int
}

/// Whether a plane has all luminance samples of a macroblock.
pub open spec fn whole_macroblock(plane: PlaneContents, mb_col: int, mb_row: int) -> bool {
    &&& 0 <= 16 * mb_col
    &&& 16 * mb_col + 16 <= plane.width
    &&& 0 <= 16 * mb_row
    &&& 16 * mb_row + 16 <= plane.height
}

pub open spec fn apart(a: int, b: int) -> int {
    if a < b {
        b - a
    } else {
        a - b
    }
}

/// A prediction that is the source leaves nothing.
pub proof fn law_exact_prediction_leaves_nothing(
    plane: PlaneContents,
    pred: Seq<u8>,
    mb_col: int,
    mb_row: int,
    n: int,
)
    requires
        0 <= n <= 256,
        whole_macroblock(plane, mb_col, mb_row),
        forall|k: int| 0 <= k < 256 ==> #[trigger] pred[k] == sample_at(plane, mb_col, mb_row, k),
    ensures
        luma_difference(plane, pred, mb_col, mb_row, n) == 0,
    decreases n,
{
    if n > 0 {
        law_exact_prediction_leaves_nothing(plane, pred, mb_col, mb_row, n - 1);
        assert(pred[n - 1] == sample_at(plane, mb_col, mb_row, n - 1));
    }
}

/// Each sample counts as much as its prediction is off: where a prediction is changed at
/// one place, what is left changes by as much as the distance from the source there.
pub proof fn law_every_sample_counts(
    plane: PlaneContents,
    pred: Seq<u8>,
    mb_col: int,
    mb_row: int,
    n: int,
    k: int,
    value: u8,
)
    requires
        0 <= k < n <= 256,
        pred.len() == 256,
        whole_macroblock(plane, mb_col, mb_row),
    ensures
        ({
            let s = sample_at(plane, mb_col, mb_row, k);
            luma_difference(plane, pred.update(k, value), mb_col, mb_row, n) - luma_difference(
                plane,
                pred,
                mb_col,
                mb_row,
                n,
            ) == apart(s, value as int) - apart(s, pred[k] as int)
        }),
    decreases n,
{
    if k < n - 1 {
        law_every_sample_counts(plane, pred, mb_col, mb_row, n - 1, k, value);
    } else {
        lemma_same_before(plane, pred, mb_col, mb_row, n - 1, k, value);
    }
}

proof fn lemma_same_before(
    plane: PlaneContents,
    pred: Seq<u8>,
    mb_col: int,
    mb_row: int,
    n: int,
    k: int,
    value: u8,
)
    requires
        0 <= n <= k < pred.len(),
    ensures
        luma_difference(plane, pred.update(k, value), mb_col, mb_row, n) == luma_difference(
            plane,
            pred,
            mb_col,
            mb_row,
            n,
        ),
    decreases n,
{
    if n > 0 {
        lemma_same_before(plane, pred, mb_col, mb_row, n - 1, k, value);
    }
}

// ---------------------------------------------------------------------------
// Vectors
// ---------------------------------------------------------------------------

/// No vector of whole samples within the distance of a search leaves less of a
/// macroblock than the vector that the search finds, and none half a sample beside the
/// best of these does.
pub proof fn law_search_finds_the_best(
    current: FrameContents,
    reference: FrameContents,
    mb_col: int,
    mb_row: int,
    range: int,
    a: int,
    b: int,
)
    requires
        0 <= range <= 16,
        -range <= a <= range,
        -range <= b <= range,
    ensures
        vector_cost(
            current,
            reference,
            mb_col,
            mb_row,
            best_vector(current, reference, mb_col, mb_row, range),
        ) <= vector_cost(
            current,
            reference,
            mb_col,
            mb_row,
            (MotionVectorPel { horizontal: (2 * a) as i32, vertical: (2 * b) as i32 }),
        ),
{
    let side = 2 * range + 1;
    let k = (b + range) * side + (a + range);
    let whole = best_whole(current, reference, mb_col, mb_row, range);
    let zero = MotionVectorPel { horizontal: 0, vertical: 0 };
    assert(0 <= k < side * side) by (nonlinear_arith)
        requires
            0 <= b + range < side,
            0 <= a + range < side,
            k == (b + range) * side + (a + range),
    ;
    vstd::arithmetic::div_mod::lemma_fundamental_div_mod_converse(
        k,
        side,
        b + range,
        a + range,
    );
    assert(2 * (k % side) - 2 * range == 2 * a);
    assert(2 * (k / side) - 2 * range == 2 * b);
    law_best_of_square_is_best(
        current,
        reference,
        mb_col,
        mb_row,
        zero,
        -2 * range,
        -2 * range,
        side,
        2,
        side * side,
        k,
    );
    assert(square_vector(-2 * range, -2 * range, side, 2, k) == (MotionVectorPel {
        horizontal: (2 * a) as i32,
        vertical: (2 * b) as i32,
    }));
    law_best_of_square_is_best(
        current,
        reference,
        mb_col,
        mb_row,
        whole,
        whole.horizontal - 1,
        whole.vertical - 1,
        3,
        1,
        9,
        0,
    );
}

// ---------------------------------------------------------------------------
// Directions
// ---------------------------------------------------------------------------

/// No direction leaves less of a B-picture macroblock than the one that is chosen.
pub proof fn law_direction_leaves_least(
    src: MacroblockSource,
    a: Anchors,
    fv: MotionVectorPel,
    bv: MotionVectorPel,
    other: BDirection,
)
    ensures
        luma_difference(
            src.current.y,
            b_prediction(a, b_direction(src, a, fv, bv), fv, bv, src.mb_col, src.mb_row).y,
            src.mb_col,
            src.mb_row,
            256,
        ) <= luma_difference(
            src.current.y,
            b_prediction(a, other, fv, bv, src.mb_col, src.mb_row).y,
            src.mb_col,
            src.mb_row,
            256,
        ),
{
    match other {
        BDirection::Forward => {},
        BDirection::Backward => {},
        BDirection::Interpolated => {},
    }
}

// ---------------------------------------------------------------------------
// Coding by itself
// ---------------------------------------------------------------------------

proof fn lemma_spread_grows(plane: PlaneContents, mb_col: int, mb_row: int, mean: int, n: int)
    ensures
        luma_spread(plane, mb_col, mb_row, mean, n) >= 0,
    decreases n,
{
    if n > 0 {
        lemma_spread_grows(plane, mb_col, mb_row, mean, n - 1);
    }
}

proof fn lemma_flat_sum(plane: PlaneContents, mb_col: int, mb_row: int, value: int, n: int)
    requires
        0 <= n <= 256,
        whole_macroblock(plane, mb_col, mb_row),
        forall|k: int| 0 <= k < 256 ==> #[trigger] sample_at(plane, mb_col, mb_row, k) == value,
    ensures
        luma_sum(plane, mb_col, mb_row, n) == n * value,
        luma_spread(plane, mb_col, mb_row, value, n) == 0,
    decreases n,
{
    if n > 0 {
        lemma_flat_sum(plane, mb_col, mb_row, value, n - 1);
        assert(sample_at(plane, mb_col, mb_row, n - 1) == value);
        assert(luma_sample(plane, mb_col, mb_row, n - 1) == value);
        assert(n * value == (n - 1) * value + value) by (nonlinear_arith);
    } else {
        assert(n * value == 0) by (nonlinear_arith)
            requires
                n == 0,
        ;
    }
}

/// A macroblock of one value has no activity.
pub proof fn law_flat_macroblock_has_no_activity(
    plane: PlaneContents,
    mb_col: int,
    mb_row: int,
    value: int,
)
    requires
        whole_macroblock(plane, mb_col, mb_row),
        forall|k: int| 0 <= k < 256 ==> #[trigger] sample_at(plane, mb_col, mb_row, k) == value,
    ensures
        activity(plane, mb_col, mb_row) == 0,
{
    lemma_flat_sum(plane, mb_col, mb_row, value, 256);
}

/// A macroblock whose prediction leaves little is never coded by itself, and one of one
/// value whose prediction leaves much always is, by either encoder.
pub proof fn law_intra_where_prediction_fails(
    current: FrameContents,
    reference: FrameContents,
    src: PSource,
    mb_col: int,
    mb_row: int,
    v: MotionVectorPel,
    value: int,
)
    requires
        src.current == current,
        src.mb_col == mb_col,
        src.mb_row == mb_row,
    ensures
        vector_cost(current, reference, mb_col, mb_row, v) <= 512 ==> !prefers_intra(
            current,
            reference,
            mb_col,
            mb_row,
            v,
        ) && !prefers_intra_2(src, reference, v),
        whole_macroblock(current.y, mb_col, mb_row) && (forall|k: int|
            0 <= k < 256 ==> #[trigger] sample_at(current.y, mb_col, mb_row, k) == value)
            && vector_cost(current, reference, mb_col, mb_row, v) > 512 ==> prefers_intra(
            current,
            reference,
            mb_col,
            mb_row,
            v,
        ) && prefers_intra_2(src, reference, v),
{
    lemma_spread_grows(
        current.y,
        mb_col,
        mb_row,
        luma_sum(current.y, mb_col, mb_row, 256) / 256,
        256,
    );
    if whole_macroblock(current.y, mb_col, mb_row) && (forall|k: int|
        0 <= k < 256 ==> #[trigger] sample_at(current.y, mb_col, mb_row, k) == value) {
        law_flat_macroblock_has_no_activity(current.y, mb_col, mb_row, value);
    }
}

// ---------------------------------------------------------------------------
// What is made of a vector
// ---------------------------------------------------------------------------

/// Vectors are searched for at least seven whole samples away, and sixteen where the
/// range of the `f_code` allows it, by either encoder.
pub proof fn law_search_goes_far(f_code: u8)
    requires
        1 <= f_code <= 7,
    ensures
        f_code == 1 ==> search_distance(f_code) == 7,
        f_code == 2 ==> search_distance(f_code) == 15,
        f_code >= 3 ==> search_distance(f_code) == 16,
        crate::p_picture_encoder::search_distance(f_code) == search_distance(f_code),
{
    vstd::arithmetic::power2::lemma2_to64();
}

/// A component is kept where its distance from the last one can be coded without going
/// round the range, and it is kept or replaced by the last one in any case.
pub proof fn law_component_is_kept(x: int, last: int, f_code: u8)
    requires
        1 <= f_code <= 7,
    ensures
        -(16 * code_step(f_code)) < x - last < 16 * code_step(f_code) ==> decodable_component(
            x,
            last,
            f_code,
        ) == x,
        decodable_component(x, last, f_code) == x || decodable_component(x, last, f_code) == last,
{
    vstd::arithmetic::power2::lemma2_to64();
}

/// A predicted macroblock of an MPEG-1 P-picture is predicted with the vector that was
/// found, which becomes the last one: wherever that vector lies within the range from
/// the last one, the macroblock is coded with the very vector that leaves least.
pub proof fn law_found_vector_is_used<
    D: Fn([[i16; 8]; 8]) -> [[i32; 8]; 8],
    F: Fn([[i32; 8]; 8]) -> [[i16; 8]; 8],
>(
    src: MacroblockSource,
    reference: FrameContents,
    f_code: u8,
    st: PredictedEncoding,
    fdct: D,
    idct: F,
)
    requires
        1 <= f_code <= 7,
        ({
            let v = best_vector(
                src.current,
                reference,
                src.mb_col,
                src.mb_row,
                search_distance(f_code),
            );
            let f = 16 * code_step(f_code);
            &&& -f < v.horizontal - st.last.0 < f
            &&& -f < v.vertical - st.last.1 < f
            &&& vector_cost(src.current, reference, src.mb_col, src.mb_row, v) <= 512
        }),
    ensures
        ({
            let v = best_vector(
                src.current,
                reference,
                src.mb_col,
                src.mb_row,
                search_distance(f_code),
            );
            p_macroblock_encoded(src, reference, f_code, st, fdct, idct).1.last == (
                v.horizontal,
                v.vertical,
            )
        }),
{
    reveal(p_macroblock_encoded);
    let v = best_vector(
        src.current,
        reference,
        src.mb_col,
        src.mb_row,
        search_distance(f_code),
    );
    law_component_is_kept(v.horizontal as int, st.last.0 as int, f_code);
    law_component_is_kept(v.vertical as int, st.last.1 as int, f_code);
    lemma_spread_grows(
        src.current.y,
        src.mb_col,
        src.mb_row,
        luma_sum(src.current.y, src.mb_col, src.mb_row, 256) / 256,
        256,
    );
}

/// A predicted macroblock of an MPEG-2 P-picture is predicted with the vector that was
/// found, which becomes the last one.
pub proof fn law_found_vector_is_used_in_mpeg2<
    D: Fn([[i16; 8]; 8]) -> [[i32; 8]; 8],
    F: Fn([[i32; 8]; 8]) -> [[i16; 8]; 8],
>(
    src: PSource,
    reference: FrameContents,
    f_code: u8,
    st: PEncoding,
    fdct: D,
    idct: F,
)
    requires
        1 <= f_code <= 9,
        vector_cost(
            src.current,
            reference,
            src.mb_col,
            src.mb_row,
            best_vector(
                src.current,
                reference,
                src.mb_col,
                src.mb_row,
                crate::p_picture_encoder::search_distance(f_code),
            ),
        ) <= 512,
    ensures
        ({
            let v = best_vector(
                src.current,
                reference,
                src.mb_col,
                src.mb_row,
                crate::p_picture_encoder::search_distance(f_code),
            );
            macroblock_encoded(src, reference, f_code, st, fdct, idct).1.last == (
                v.horizontal,
                v.vertical,
            )
        }),
{
    reveal(macroblock_encoded);
    lemma_spread_grows(
        src.current.y,
        src.mb_col,
        src.mb_row,
        luma_sum(src.current.y, src.mb_col, src.mb_row, 256) / 256,
        256,
    );
}

// ---------------------------------------------------------------------------
// How much coding by itself must save
// ---------------------------------------------------------------------------

/// Whether the first `m` luminance samples of a macroblock are `high` and the others
/// `low`.
pub open spec fn two_values(
    plane: PlaneContents,
    mb_col: int,
    mb_row: int,
    m: int,
    high: int,
    low: int,
) -> bool {
    &&& whole_macroblock(plane, mb_col, mb_row)
    &&& 0 <= m <= 256
    &&& low <= high
    &&& forall|k: int|
        0 <= k < 256 ==> #[trigger] sample_at(plane, mb_col, mb_row, k) == (if k < m {
            high
        } else {
            low
        })
}

proof fn lemma_two_values(
    plane: PlaneContents,
    mb_col: int,
    mb_row: int,
    m: int,
    high: int,
    low: int,
    mean: int,
    n: int,
)
    requires
        two_values(plane, mb_col, mb_row, m, high, low),
        low <= mean <= high,
        0 <= n <= 256,
    ensures
        ({
            let above = if n < m {
                n
            } else {
                m
            };
            &&& luma_sum(plane, mb_col, mb_row, n) == above * high + (n - above) * low
            &&& luma_spread(plane, mb_col, mb_row, mean, n) == above * (high - mean) + (n - above)
                * (mean - low)
        }),
    decreases n,
{
    if n > 0 {
        lemma_two_values(plane, mb_col, mb_row, m, high, low, mean, n - 1);
        let value = sample_at(plane, mb_col, mb_row, n - 1);
        assert(luma_sample(plane, mb_col, mb_row, n - 1) == value);
        let above = if n < m {
            n
        } else {
            m
        };
        if n <= m {
            assert((above - 1) * high + high == above * high) by (nonlinear_arith);
            assert((above - 1) * (high - mean) + (high - mean) == above * (high - mean))
                by (nonlinear_arith);
        } else {
            assert((n - 1 - above) * low + low == (n - above) * low) by (nonlinear_arith);
            assert((n - 1 - above) * (mean - low) + (mean - low) == (n - above) * (mean - low))
                by (nonlinear_arith);
        }
    } else {
        assert(0 * high == 0 && 0 * low == 0);
        assert(0 * (high - mean) == 0 && 0 * (mean - low) == 0);
    }
}

/// A macroblock of two values is coded by itself, by either encoder, exactly where its
/// prediction leaves over 512 more than twice what its own mean leaves: the distances of
/// its samples from that mean, which is rounded down, added up.
pub proof fn law_intra_saves_enough(
    src: PSource,
    reference: FrameContents,
    v: MotionVectorPel,
    m: int,
    high: int,
    low: int,
    mean: int,
)
    requires
        two_values(src.current.y, src.mb_col, src.mb_row, m, high, low),
        256 * mean <= m * high + (256 - m) * low < 256 * mean + 256,
    ensures
        ({
            let cost = vector_cost(src.current, reference, src.mb_col, src.mb_row, v);
            let left = m * (high - mean) + (256 - m) * (mean - low);
            &&& prefers_intra_2(src, reference, v) <==> cost > 2 * left + 512
            &&& prefers_intra(src.current, reference, src.mb_col, src.mb_row, v) <==> cost > 2
                * left + 512
        }),
{
    assert(low <= mean <= high) by (nonlinear_arith)
        requires
            0 <= m <= 256,
            low <= high,
            256 * mean <= m * high + (256 - m) * low < 256 * mean + 256,
    ;
    lemma_two_values(src.current.y, src.mb_col, src.mb_row, m, high, low, mean, 256);
}

} // verus!
