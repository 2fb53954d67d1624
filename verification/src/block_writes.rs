//! Blocks written into a frame one after the other.

use crate::frame_assembly::{
    block_offset, block_samples, component_extent, frame_with_block, in_block, index_in_component,
    lemma_plane_of, lemma_plane_samples, macroblock_addressable, placement_of, plane_with_block,
    BlockPlacement, FrameContents, PlaneContents,
};
use crate::inter_reconstruction::{
    frame_with_blocks, frame_with_prediction, frame_with_residuals, inter_macroblock,
    predicted_planes, sum_samples, zero_residual, FrameMotion, MacroblockPlanes, ReferenceContents,
    ResidualBlock,
};
use crate::picture::ChromaFormat;
use vstd::prelude::*;

verus! {

/// Whether two blocks have no sample in common.
pub open spec fn apart(p: BlockPlacement, q: BlockPlacement) -> bool {
    p.component != q.component || forall|x: int, y: int|
        !(in_block(p, x, y) && #[trigger] in_block(q, x, y))
}

pub proof fn lemma_plane_with_block(plane: PlaneContents, p: BlockPlacement, v: spec_fn(int, int) -> u8)
    requires
        plane.wf(),
    ensures
        plane_with_block(plane, p, v).wf(),
        plane_with_block(plane, p, v).width == plane.width,
        plane_with_block(plane, p, v).height == plane.height,
        forall|x: int, y: int|
            plane.has(x, y) ==> #[trigger] plane_with_block(plane, p, v).at(x, y)
                == block_samples(plane, p, v)(x, y),
{
    lemma_plane_samples(plane.width, plane.height, block_samples(plane, p, v));
}

/// Writing a block keeps the shape of a frame.
pub proof fn lemma_block_written(frame: FrameContents, p: BlockPlacement, v: spec_fn(int, int) -> u8)
    requires
        frame.wf(),
    ensures
        frame_with_block(frame, p, v).wf(),
        frame_with_block(frame, p, v).chroma_format == frame.chroma_format,
        frame_with_block(frame, p, v).width == frame.width,
        frame_with_block(frame, p, v).height == frame.height,
{
    lemma_plane_with_block(frame.plane(p.component), p, v);
}

/// Two planes with the same samples are the same.
proof fn lemma_same_plane(a: PlaneContents, b: PlaneContents)
    requires
        a.wf(),
        b.wf(),
        a.width == b.width,
        a.height == b.height,
        forall|x: int, y: int| a.has(x, y) ==> #[trigger] a.at(x, y) == b.at(x, y),
    ensures
        a == b,
{
    let f = |x: int, y: int| b.at(x, y);
    lemma_plane_of(a, f);
    lemma_plane_of(b, f);
}

/// Of two writes of one block the second counts.
pub proof fn lemma_overwritten(
    frame: FrameContents,
    p: BlockPlacement,
    v: spec_fn(int, int) -> u8,
    w: spec_fn(int, int) -> u8,
)
    requires
        frame.wf(),
    ensures
        frame_with_block(frame_with_block(frame, p, v), p, w) == frame_with_block(frame, p, w),
{
    let plane = frame.plane(p.component);
    let once = plane_with_block(plane, p, v);
    let a = plane_with_block(once, p, w);
    let b = plane_with_block(plane, p, w);
    lemma_plane_with_block(plane, p, v);
    lemma_plane_with_block(once, p, w);
    lemma_plane_with_block(plane, p, w);
    assert forall|x: int, y: int| a.has(x, y) implies #[trigger] a.at(x, y) == b.at(x, y) by {
        assert(once.has(x, y) && plane.has(x, y));
        assert(b.at(x, y) == block_samples(plane, p, w)(x, y));
        assert(once.at(x, y) == block_samples(plane, p, v)(x, y));
    }
    lemma_same_plane(a, b);
}

/// Two writes of blocks without a common sample can change places.
pub proof fn lemma_commuted(
    frame: FrameContents,
    p: BlockPlacement,
    v: spec_fn(int, int) -> u8,
    q: BlockPlacement,
    w: spec_fn(int, int) -> u8,
)
    requires
        frame.wf(),
        apart(p, q),
    ensures
        frame_with_block(frame_with_block(frame, p, v), q, w) == frame_with_block(
            frame_with_block(frame, q, w),
            p,
            v,
        ),
{
    if p.component == q.component {
        let plane = frame.plane(p.component);
        let first = plane_with_block(plane, p, v);
        let second = plane_with_block(plane, q, w);
        let a = plane_with_block(first, q, w);
        let b = plane_with_block(second, p, v);
        lemma_plane_with_block(plane, p, v);
        lemma_plane_with_block(plane, q, w);
        lemma_plane_with_block(first, q, w);
        lemma_plane_with_block(second, p, v);
        assert forall|x: int, y: int| a.has(x, y) implies #[trigger] a.at(x, y) == b.at(x, y) by {
            assert(plane.has(x, y) && first.has(x, y) && second.has(x, y));
            assert(b.at(x, y) == block_samples(second, p, v)(x, y));
            assert(first.at(x, y) == block_samples(plane, p, v)(x, y));
            assert(second.at(x, y) == block_samples(plane, q, w)(x, y));
            assert(!(in_block(p, x, y) && in_block(q, x, y)));
        }
        lemma_same_plane(a, b);
    }
}

/// The blocks of a macroblock have no sample in common.
pub proof fn lemma_blocks_apart(i: int, j: int, chroma: ChromaFormat, mb_col: int, mb_row: int)
    requires
        0 <= i < chroma.spec_blocks_per_mb(),
        0 <= j < chroma.spec_blocks_per_mb(),
        i != j,
        macroblock_addressable(mb_col, mb_row),
    ensures
        apart(
            placement_of(i, chroma, mb_col, mb_row, false),
            placement_of(j, chroma, mb_col, mb_row, false),
        ),
{
    let p = placement_of(i, chroma, mb_col, mb_row, false);
    let q = placement_of(j, chroma, mb_col, mb_row, false);
    if p.component == q.component {
        let (w, h) = component_extent(p.component, chroma);
        let (a, b) = block_offset(i, chroma, false);
        let (c, d) = block_offset(j, chroma, false);
        assert(index_in_component(i, chroma) != index_in_component(j, chroma));
        assert(0 <= a <= 8 && 0 <= c <= 8 && 0 <= b <= 8 && 0 <= d <= 8);
        assert(0 <= mb_col * w <= mb_col * 16 && 0 <= mb_row * h <= mb_row * 16)
            by (nonlinear_arith)
            requires
                0 <= mb_col,
                0 <= mb_row,
                0 <= w <= 16,
                0 <= h <= 16,
        ;
        assert(a + 8 <= c || c + 8 <= a || b + 8 <= d || d + 8 <= b);
    }
}

proof fn lemma_residuals_keep_shape(
    frame: FrameContents,
    preds: MacroblockPlanes,
    chroma: ChromaFormat,
    mb_col: int,
    mb_row: int,
    residuals: Seq<ResidualBlock>,
    k: int,
)
    requires
        frame.wf(),
    ensures
        frame_with_residuals(frame, preds, chroma, mb_col, mb_row, false, residuals, k).wf(),
    decreases k,
{
    if k > 0 {
        lemma_residuals_keep_shape(frame, preds, chroma, mb_col, mb_row, residuals, k - 1);
        let before = frame_with_residuals(
            frame,
            preds,
            chroma,
            mb_col,
            mb_row,
            false,
            residuals,
            k - 1,
        );
        let b = residuals[k - 1];
        let p = placement_of(b.block_index as int, chroma, mb_col, mb_row, false);
        lemma_block_written(
            before,
            p,
            sum_samples(preds, chroma, p, mb_col, mb_row, b.f_pel),
        );
    }
}

/// Writing the blocks of a macroblock keeps the shape of a frame.
pub proof fn lemma_blocks_keep_shape(
    frame: FrameContents,
    preds: MacroblockPlanes,
    chroma: ChromaFormat,
    mb_col: int,
    mb_row: int,
    f_pels: Seq<[[i16; 8]; 8]>,
    n: int,
)
    requires
        frame.wf(),
    ensures
        ({
            let after = frame_with_blocks(frame, preds, chroma, mb_col, mb_row, f_pels, n);
            after.wf() && after.chroma_format == frame.chroma_format
        }),
    decreases n,
{
    if n > 0 {
        lemma_blocks_keep_shape(frame, preds, chroma, mb_col, mb_row, f_pels, n - 1);
        let before = frame_with_blocks(frame, preds, chroma, mb_col, mb_row, f_pels, n - 1);
        let p = placement_of(n - 1, chroma, mb_col, mb_row, false);
        lemma_block_written(
            before,
            p,
            sum_samples(preds, chroma, p, mb_col, mb_row, f_pels[n - 1]),
        );
    }
}

pub proof fn lemma_prediction_keeps_shape(
    frame: FrameContents,
    preds: MacroblockPlanes,
    chroma: ChromaFormat,
    mb_col: int,
    mb_row: int,
    n: int,
)
    requires
        frame.wf(),
    ensures
        frame_with_prediction(frame, preds, chroma, mb_col, mb_row, n).wf(),
    decreases n,
{
    if n > 0 {
        lemma_prediction_keeps_shape(frame, preds, chroma, mb_col, mb_row, n - 1);
        let before = frame_with_prediction(frame, preds, chroma, mb_col, mb_row, n - 1);
        let p = placement_of(n - 1, chroma, mb_col, mb_row, false);
        lemma_block_written(
            before,
            p,
            sum_samples(preds, chroma, p, mb_col, mb_row, zero_residual()),
        );
    }
}

/// A block can be written before or after residuals of other blocks.
proof fn lemma_residuals_commute(
    frame: FrameContents,
    preds: MacroblockPlanes,
    chroma: ChromaFormat,
    mb_col: int,
    mb_row: int,
    residuals: Seq<ResidualBlock>,
    k: int,
    i: int,
    v: spec_fn(int, int) -> u8,
)
    requires
        frame.wf(),
        macroblock_addressable(mb_col, mb_row),
        0 <= i < chroma.spec_blocks_per_mb(),
        0 <= k <= residuals.len(),
        forall|a: int|
            0 <= a < k ==> (#[trigger] residuals[a]).block_index != i && residuals[a].block_index
                < chroma.spec_blocks_per_mb(),
    ensures
        ({
            let p = placement_of(i, chroma, mb_col, mb_row, false);
            frame_with_residuals(
                frame_with_block(frame, p, v),
                preds,
                chroma,
                mb_col,
                mb_row,
                false,
                residuals,
                k,
            ) == frame_with_block(
                frame_with_residuals(frame, preds, chroma, mb_col, mb_row, false, residuals, k),
                p,
                v,
            )
        }),
    decreases k,
{
    if k > 0 {
        let p = placement_of(i, chroma, mb_col, mb_row, false);
        let b = residuals[k - 1];
        let q = placement_of(b.block_index as int, chroma, mb_col, mb_row, false);
        let w = sum_samples(preds, chroma, q, mb_col, mb_row, b.f_pel);
        lemma_residuals_commute(
            frame,
            preds,
            chroma,
            mb_col,
            mb_row,
            residuals,
            k - 1,
            i,
            v,
        );
        lemma_residuals_keep_shape(frame, preds, chroma, mb_col, mb_row, residuals, k - 1);
        let before = frame_with_residuals(
            frame,
            preds,
            chroma,
            mb_col,
            mb_row,
            false,
            residuals,
            k - 1,
        );
        lemma_blocks_apart(i, b.block_index as int, chroma, mb_col, mb_row);
        lemma_commuted(before, p, v, q, w);
    }
}

/// Whether the residuals of coded blocks, in the order of the blocks, are those of
/// all blocks; blocks that are not coded have none.
pub open spec fn residuals_are(
    residuals: Seq<ResidualBlock>,
    f_pels: Seq<[[i16; 8]; 8]>,
    count: int,
) -> bool {
    &&& forall|a: int, b: int|
        0 <= a < b < residuals.len() ==> (#[trigger] residuals[a]).block_index < (
        #[trigger] residuals[b]).block_index
    &&& forall|a: int|
        0 <= a < residuals.len() ==> (#[trigger] residuals[a]).block_index < count
            && f_pels[residuals[a].block_index as int] == residuals[a].f_pel
    &&& forall|i: int|
        0 <= i < count && (forall|a: int|
            0 <= a < residuals.len() ==> (#[trigger] residuals[a]).block_index != i)
            ==> #[trigger] f_pels[i] == zero_residual()
}

proof fn lemma_residuals_after_prediction(
    frame: FrameContents,
    preds: MacroblockPlanes,
    chroma: ChromaFormat,
    mb_col: int,
    mb_row: int,
    residuals: Seq<ResidualBlock>,
    f_pels: Seq<[[i16; 8]; 8]>,
    k: int,
    n: int,
)
    requires
        frame.wf(),
        macroblock_addressable(mb_col, mb_row),
        residuals_are(residuals, f_pels, chroma.spec_blocks_per_mb()),
        0 <= n <= chroma.spec_blocks_per_mb(),
        0 <= k <= residuals.len(),
        forall|a: int| 0 <= a < k ==> (#[trigger] residuals[a]).block_index < n,
        forall|a: int| k <= a < residuals.len() ==> (#[trigger] residuals[a]).block_index >= n,
    ensures
        frame_with_residuals(
            frame_with_prediction(frame, preds, chroma, mb_col, mb_row, n),
            preds,
            chroma,
            mb_col,
            mb_row,
            false,
            residuals,
            k,
        ) == frame_with_blocks(frame, preds, chroma, mb_col, mb_row, f_pels, n),
    decreases n,
{
    if n == 0 {
        if k > 0 {
            assert(residuals[0].block_index < 0);
        }
    } else {
        let i = n - 1;
        let p = placement_of(i, chroma, mb_col, mb_row, false);
        let z = sum_samples(preds, chroma, p, mb_col, mb_row, zero_residual());
        let predicted = frame_with_prediction(frame, preds, chroma, mb_col, mb_row, i);
        lemma_prediction_keeps_shape(frame, preds, chroma, mb_col, mb_row, i);
        let coded = k > 0 && residuals[k - 1].block_index == i;
        let m = if coded {
            k - 1
        } else {
            k
        };
        assert forall|a: int| 0 <= a < m implies (#[trigger] residuals[a]).block_index < i by {
            if coded {
                assert(residuals[a].block_index < residuals[k - 1].block_index);
            } else if a < k - 1 {
                assert(residuals[a].block_index < residuals[k - 1].block_index);
            }
        }
        lemma_residuals_after_prediction(
            frame,
            preds,
            chroma,
            mb_col,
            mb_row,
            residuals,
            f_pels,
            m,
            i,
        );
        lemma_residuals_commute(
            predicted,
            preds,
            chroma,
            mb_col,
            mb_row,
            residuals,
            m,
            i,
            z,
        );
        if coded {
            let b = residuals[k - 1];
            let w = sum_samples(preds, chroma, p, mb_col, mb_row, b.f_pel);
            lemma_residuals_keep_shape(predicted, preds, chroma, mb_col, mb_row, residuals, m);
            lemma_overwritten(
                frame_with_residuals(
                    predicted,
                    preds,
                    chroma,
                    mb_col,
                    mb_row,
                    false,
                    residuals,
                    m,
                ),
                p,
                z,
                w,
            );
        } else {
            assert forall|a: int| 0 <= a < residuals.len() implies (
            #[trigger] residuals[a]).block_index != i by {
                if a >= k {
                    assert(residuals[a].block_index >= n);
                }
            }
        }
    }
}

/// Predicting a macroblock and adding the residuals of its coded blocks gives what
/// writing the sums of all its blocks gives.
pub proof fn lemma_inter_macroblock_is_blocks(
    frame: FrameContents,
    refs: ReferenceContents,
    mb_col: int,
    mb_row: int,
    motion: FrameMotion,
    residuals: Seq<ResidualBlock>,
    f_pels: Seq<[[i16; 8]; 8]>,
)
    requires
        frame.wf(),
        macroblock_addressable(mb_col, mb_row),
        residuals_are(residuals, f_pels, frame.chroma_format.spec_blocks_per_mb()),
    ensures
        inter_macroblock(frame, refs, mb_col, mb_row, false, motion, residuals)
            == frame_with_blocks(
            frame,
            predicted_planes(refs, motion, frame.chroma_format, mb_col, mb_row),
            frame.chroma_format,
            mb_col,
            mb_row,
            f_pels,
            frame.chroma_format.spec_blocks_per_mb(),
        ),
{
    let chroma = frame.chroma_format;
    lemma_residuals_after_prediction(
        frame,
        predicted_planes(refs, motion, chroma, mb_col, mb_row),
        chroma,
        mb_col,
        mb_row,
        residuals,
        f_pels,
        residuals.len() as int,
        chroma.spec_blocks_per_mb(),
    );
}

} // verus!
