//! The samples of a macroblock as an encoder takes them: with the edge of the
//! picture repeated beyond it.

use crate::block::{block_of, lemma_block_of};
use crate::frame_assembly::{macroblock_addressable, FrameBuffer, Plane, PlaneContents};
use crate::mpeg2_block_dc::magnitude;
use vstd::prelude::*;

verus! {

pub open spec fn raw_samples(plane: PlaneContents, base_x: int, base_y: int) -> spec_fn(
    int,
    int,
) -> i16 {
    |r: int, c: int| plane.nearest(base_x + c, base_y + r, 128) as i16
}

/// The block whose first sample is at `(base_x, base_y)`.
pub open spec fn raw_block(plane: PlaneContents, base_x: int, base_y: int) -> [[i16; 8]; 8] {
    block_of(raw_samples(plane, base_x, base_y))
}

/// Takes the block whose first sample is at `(base_x, base_y)`.
pub fn gather_block(plane: &Plane, base_x: usize, base_y: usize) -> (out: [[i16; 8]; 8])
    requires
        base_x + 8 <= usize::MAX,
        base_y + 8 <= usize::MAX,
    ensures
        out == raw_block(plane@, base_x as int, base_y as int),
{
    let ghost want = raw_samples(plane@, base_x as int, base_y as int);
    let mut out = [[0i16; 8]; 8];
    let mut r: usize = 0;
    while r < 8
        invariant
            r <= 8,
            base_x + 8 <= usize::MAX,
            base_y + 8 <= usize::MAX,
            want == raw_samples(plane@, base_x as int, base_y as int),
            forall|a: int, b: int| 0 <= a < r && 0 <= b < 8 ==> #[trigger] out[a][b] == want(a, b),
        decreases 8 - r,
    {
        let mut c: usize = 0;
        while c < 8
            invariant
                c <= 8,
                r < 8,
                base_x + 8 <= usize::MAX,
                base_y + 8 <= usize::MAX,
                want == raw_samples(plane@, base_x as int, base_y as int),
                forall|a: int, b: int|
                    0 <= a < r && 0 <= b < 8 ==> #[trigger] out[a][b] == want(a, b),
                forall|b: int| 0 <= b < c ==> #[trigger] out[r as int][b] == want(r as int, b),
            decreases 8 - c,
        {
            out[r][c] = plane.get_nearest(base_x + c, base_y + r, 128) as i16;
            c += 1;
        }
        r += 1;
    }
    proof {
        lemma_block_of(out, want);
    }
    out
}

pub open spec fn differences(
    plane: PlaneContents,
    pred: Seq<u8>,
    pred_w: int,
    base_x: int,
    base_y: int,
    local_x: int,
    local_y: int,
) -> spec_fn(int, int) -> i16 {
    |r: int, c: int|
        (plane.nearest(base_x + c, base_y + r, 0) - pred[(local_y + r) * pred_w + (local_x
            + c)]) as i16
}

/// What a prediction leaves of the block whose first sample is at
/// `(base_x, base_y)`. The block's prediction starts at `(local_x, local_y)` of a
/// plane that is `pred_w` wide.
pub open spec fn residual_block(
    plane: PlaneContents,
    pred: Seq<u8>,
    pred_w: int,
    base_x: int,
    base_y: int,
    local_x: int,
    local_y: int,
) -> [[i16; 8]; 8] {
    block_of(differences(plane, pred, pred_w, base_x, base_y, local_x, local_y))
}

/// Takes what a prediction leaves of a block.
pub fn gather_residual(
    cur_plane: &Plane,
    pred: &[u8],
    pred_w: usize,
    base_x: usize,
    base_y: usize,
    local_x: usize,
    local_y: usize,
) -> (out: [[i16; 8]; 8])
    requires
        base_x + 8 <= usize::MAX,
        base_y + 8 <= usize::MAX,
        local_x + 8 <= pred_w,
        (local_y + 8) * pred_w <= pred@.len(),
    ensures
        out == residual_block(
            cur_plane@,
            pred@,
            pred_w as int,
            base_x as int,
            base_y as int,
            local_x as int,
            local_y as int,
        ),
{
    let ghost want = differences(
        cur_plane@,
        pred@,
        pred_w as int,
        base_x as int,
        base_y as int,
        local_x as int,
        local_y as int,
    );
    let len: usize = pred.len();
    assert(local_y + 8 <= usize::MAX) by (nonlinear_arith)
        requires
            (local_y + 8) * pred_w <= len,
            pred_w >= 8,
            len <= usize::MAX,
    ;
    let mut out = [[0i16; 8]; 8];
    let mut r: usize = 0;
    while r < 8
        invariant
            r <= 8,
            base_x + 8 <= usize::MAX,
            base_y + 8 <= usize::MAX,
            local_y + 8 <= usize::MAX,
            local_x + 8 <= pred_w,
            (local_y + 8) * pred_w <= pred@.len(),
            len == pred@.len(),
            want == differences(
                cur_plane@,
                pred@,
                pred_w as int,
                base_x as int,
                base_y as int,
                local_x as int,
                local_y as int,
            ),
            forall|a: int, b: int| 0 <= a < r && 0 <= b < 8 ==> #[trigger] out[a][b] == want(a, b),
        decreases 8 - r,
    {
        let mut c: usize = 0;
        while c < 8
            invariant
                c <= 8,
                r < 8,
                base_x + 8 <= usize::MAX,
                base_y + 8 <= usize::MAX,
                local_y + 8 <= usize::MAX,
                local_x + 8 <= pred_w,
                (local_y + 8) * pred_w <= pred@.len(),
                len == pred@.len(),
                want == differences(
                    cur_plane@,
                    pred@,
                    pred_w as int,
                    base_x as int,
                    base_y as int,
                    local_x as int,
                    local_y as int,
                ),
                forall|a: int, b: int|
                    0 <= a < r && 0 <= b < 8 ==> #[trigger] out[a][b] == want(a, b),
                forall|b: int| 0 <= b < c ==> #[trigger] out[r as int][b] == want(r as int, b),
            decreases 8 - c,
        {
            assert(0 <= (local_y + r) * pred_w && (local_y + r) * pred_w + (local_x + c) < (local_y
                + 8) * pred_w) by (nonlinear_arith)
                requires
                    r < 8,
                    local_x + c < pred_w,
                    0 <= local_y,
            ;
            let cur = cur_plane.get_nearest(base_x + c, base_y + r, 0) as i16;
            let prd = pred[(local_y + r) * pred_w + (local_x + c)] as i16;
            out[r][c] = cur - prd;
            c += 1;
        }
        r += 1;
    }
    proof {
        lemma_block_of(out, want);
    }
    out
}

/// Sample `k` of the luminance of a macroblock, row by row.
pub open spec fn luma_sample(plane: PlaneContents, mb_col: int, mb_row: int, k: int) -> int {
    plane.nearest(mb_col * 16 + k % 16, mb_row * 16 + k / 16, 0) as int
}

/// The sum of the first `n` luminance samples of a macroblock.
pub open spec fn luma_sum(plane: PlaneContents, mb_col: int, mb_row: int, n: int) -> int
    decreases n,
{
    if n <= 0 {
        0
    } else {
        luma_sum(plane, mb_col, mb_row, n - 1) + luma_sample(plane, mb_col, mb_row, n - 1)
    }
}

/// The sum of the absolute differences of the first `n` luminance samples of a
/// macroblock from a value.
pub open spec fn luma_spread(
    plane: PlaneContents,
    mb_col: int,
    mb_row: int,
    mean: int,
    n: int,
) -> int
    decreases n,
{
    if n <= 0 {
        0
    } else {
        luma_spread(plane, mb_col, mb_row, mean, n - 1) + magnitude(
            luma_sample(plane, mb_col, mb_row, n - 1) - mean,
        )
    }
}

/// The sum of the absolute differences of the luminance samples of a macroblock from
/// their mean.
pub open spec fn activity(plane: PlaneContents, mb_col: int, mb_row: int) -> int {
    luma_spread(plane, mb_col, mb_row, luma_sum(plane, mb_col, mb_row, 256) / 256, 256)
}

/// The sum of the absolute differences of the luminance samples of a macroblock from
/// their mean.
pub fn intra_activity(current: &FrameBuffer, mb_col: usize, mb_row: usize) -> (sad: u32)
    requires
        macroblock_addressable(mb_col as int, mb_row as int),
    ensures
        sad == activity(current@.y, mb_col as int, mb_row as int),
        sad <= 256 * 255,
{
    let base_x: usize = mb_col * 16;
    let base_y: usize = mb_row * 16;
    let plane = &current.y;
    let mut sum: u32 = 0;
    let mut k: usize = 0;
    while k < 256
        invariant
            k <= 256,
            plane@ == current@.y,
            base_x == mb_col * 16,
            base_y == mb_row * 16,
            base_x + 16 <= usize::MAX,
            base_y + 16 <= usize::MAX,
            sum == luma_sum(plane@, mb_col as int, mb_row as int, k as int),
            sum <= k * 255,
        decreases 256 - k,
    {
        sum += plane.get_nearest(base_x + k % 16, base_y + k / 16, 0) as u32;
        k += 1;
    }
    let mean: u32 = sum / 256;
    let mut sad: u32 = 0;
    let mut j: usize = 0;
    while j < 256
        invariant
            j <= 256,
            plane@ == current@.y,
            base_x == mb_col * 16,
            base_y == mb_row * 16,
            base_x + 16 <= usize::MAX,
            base_y + 16 <= usize::MAX,
            mean <= 255,
            sad == luma_spread(plane@, mb_col as int, mb_row as int, mean as int, j as int),
            sad <= j * 255,
        decreases 256 - j,
    {
        let s = plane.get_nearest(base_x + j % 16, base_y + j / 16, 0) as u32;
        sad +=
        if s >= mean {
            s - mean
        } else {
            mean - s
        };
        j += 1;
    }
    sad
}

} // verus!
