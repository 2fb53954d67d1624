//! What an encoder takes out of a frame block by block is what a decoder puts back.

use crate::block::{lemma_block_entries, value_of};
use crate::block_writes::{lemma_block_written, lemma_plane_with_block};
use crate::frame_assembly::{
    component_extent, frame_with_block, in_block, macroblock_addressable, placement_of,
    saturated_samples, BlockPlacement, FrameContents, PlaneContents,
};
use crate::inter_reconstruction::{
    frame_with_blocks, frame_with_sum, sum_samples, zero_residual, MacroblockPlanes,
};
use crate::macroblock_source::{differences, raw_block, raw_samples, residual_block};
use crate::mpeg2_block_dc::ColourComponent;
use crate::picture::ChromaFormat;
use crate::predicted_samples::{block_holds, in_macroblock, lemma_blocks_cover, lemma_placed};
use crate::quantisation_error::within;
use vstd::prelude::*;

verus! {

// ---------------------------------------------------------------------------
// Placing
// ---------------------------------------------------------------------------

/// The entry in row `r` and column `c` of a block that is put into a frame becomes the
/// sample `c` columns to the right of the first of the block and `r` of its lines below.
pub proof fn law_block_is_placed(
    frame: FrameContents,
    p: BlockPlacement,
    v: spec_fn(int, int) -> u8,
    r: int,
    c: int,
)
    requires
        frame.wf(),
        p.line_step == 1 || p.line_step == 2,
        0 <= r < 8,
        0 <= c < 8,
        frame.plane(p.component).has(p.base_x + c, p.base_y + p.line_step * r),
    ensures
        frame_with_block(frame, p, v).plane(p.component).at(
            p.base_x + c,
            p.base_y + p.line_step * r,
        ) == v(r, c),
{
    lemma_plane_with_block(frame.plane(p.component), p, v);
}

/// Every other sample of the frame stays as it was.
pub proof fn law_block_changes_nothing_else(
    frame: FrameContents,
    p: BlockPlacement,
    v: spec_fn(int, int) -> u8,
    k: ColourComponent,
    x: int,
    y: int,
)
    requires
        frame.wf(),
        p.line_step == 1 || p.line_step == 2,
        frame.plane(k).has(x, y),
        k == p.component ==> forall|r: int, c: int|
            0 <= r < 8 && 0 <= c < 8 ==> !(x == p.base_x + c && y == p.base_y + p.line_step
                * #[trigger] row_and_column(r, c).0),
    ensures
        frame_with_block(frame, p, v).plane(k).at(x, y) == frame.plane(k).at(x, y),
{
    lemma_plane_with_block(frame.plane(p.component), p, v);
    if k == p.component && in_block(p, x, y) {
        let r = if p.line_step == 2 {
            (y - p.base_y) / 2
        } else {
            y - p.base_y
        };
        let c = x - p.base_x;
        assert(row_and_column(r, c).0 == r);
        assert(p.line_step * r == y - p.base_y) by (nonlinear_arith)
            requires
                p.line_step == 1 || p.line_step == 2,
                p.line_step == 1 ==> r == y - p.base_y,
                p.line_step == 2 ==> 2 * r == y - p.base_y,
        ;
    }
}

/// A row and a column.
pub open spec fn row_and_column(r: int, c: int) -> (int, int) {
    (r, c)
}

// ---------------------------------------------------------------------------
// Taking out and putting back
// ---------------------------------------------------------------------------

/// A block that is taken out of a frame and put into another one, in the same place,
/// gives that one the same samples there.
pub proof fn law_gathered_block_is_placed_back(
    source: FrameContents,
    frame: FrameContents,
    p: BlockPlacement,
    x: int,
    y: int,
)
    requires
        frame.wf(),
        p.line_step == 1,
        p.base_x <= x < p.base_x + 8,
        p.base_y <= y < p.base_y + 8,
        source.plane(p.component).has(x, y),
        frame.plane(p.component).has(x, y),
    ensures
        frame_with_block(
            frame,
            p,
            saturated_samples(
                raw_block(source.plane(p.component), p.base_x as int, p.base_y as int),
            ),
        ).plane(p.component).at(x, y) == source.plane(p.component).at(x, y),
{
    let plane = source.plane(p.component);
    let raw = raw_block(plane, p.base_x as int, p.base_y as int);
    lemma_block_entries(raw_samples(plane, p.base_x as int, p.base_y as int));
    lemma_plane_with_block(frame.plane(p.component), p, saturated_samples(raw));
    let r = y - p.base_y;
    let c = x - p.base_x;
    assert(raw[r][c] == plane.at(x, y));
}

/// What a prediction leaves of a block, added to that prediction, gives the source back.
pub proof fn law_residual_restores_source(
    source: FrameContents,
    frame: FrameContents,
    preds: MacroblockPlanes,
    chroma: ChromaFormat,
    p: BlockPlacement,
    mb_col: int,
    mb_row: int,
    x: int,
    y: int,
)
    requires
        frame.wf(),
        p.line_step == 1,
        p.base_x <= x < p.base_x + 8,
        p.base_y <= y < p.base_y + 8,
        source.plane(p.component).has(x, y),
        frame.plane(p.component).has(x, y),
    ensures
        ({
            let (w, h) = component_extent(p.component, chroma);
            let residual = residual_block(
                source.plane(p.component),
                preds.plane(p.component),
                w,
                p.base_x as int,
                p.base_y as int,
                p.base_x - mb_col * w,
                p.base_y - mb_row * h,
            );
            frame_with_sum(frame, preds, chroma, p, mb_col, mb_row, residual).plane(
                p.component,
            ).at(x, y) == source.plane(p.component).at(x, y)
        }),
{
    let (w, h) = component_extent(p.component, chroma);
    let plane = source.plane(p.component);
    let residual = residual_block(
        plane,
        preds.plane(p.component),
        w,
        p.base_x as int,
        p.base_y as int,
        p.base_x - mb_col * w,
        p.base_y - mb_row * h,
    );
    lemma_residual_near(plane, preds, chroma, p, mb_col, mb_row, residual, 0, x, y);
    lemma_plane_with_block(
        frame.plane(p.component),
        p,
        sum_samples(preds, chroma, p, mb_col, mb_row, residual),
    );
}

/// Whether two blocks of samples are nowhere more than `d` apart.
pub open spec fn samples_near(a: [[i16; 8]; 8], b: [[i16; 8]; 8], d: int) -> bool {
    forall|r: int, c: int|
        0 <= r < 8 && 0 <= c < 8 ==> within(#[trigger] a[r][c] as int, b[r][c] as int, d)
}

/// A residual that is nowhere more than `d` off restores the source up to `d`.
pub proof fn lemma_residual_near(
    plane: PlaneContents,
    preds: MacroblockPlanes,
    chroma: ChromaFormat,
    p: BlockPlacement,
    mb_col: int,
    mb_row: int,
    f_pel: [[i16; 8]; 8],
    d: int,
    x: int,
    y: int,
)
    requires
        0 <= d,
        p.line_step == 1,
        p.base_x <= x < p.base_x + 8,
        p.base_y <= y < p.base_y + 8,
        plane.has(x, y),
        ({
            let (w, h) = component_extent(p.component, chroma);
            samples_near(
                f_pel,
                residual_block(
                    plane,
                    preds.plane(p.component),
                    w,
                    p.base_x as int,
                    p.base_y as int,
                    p.base_x - mb_col * w,
                    p.base_y - mb_row * h,
                ),
                d,
            )
        }),
    ensures
        within(
            sum_samples(preds, chroma, p, mb_col, mb_row, f_pel)(
                y - p.base_y,
                x - p.base_x,
            ) as int,
            plane.at(x, y) as int,
            d,
        ),
{
    let (w, h) = component_extent(p.component, chroma);
    let pred = preds.plane(p.component);
    let lx = p.base_x - mb_col * w;
    let ly = p.base_y - mb_row * h;
    let r = y - p.base_y;
    let c = x - p.base_x;
    lemma_block_entries(
        differences(plane, pred, w, p.base_x as int, p.base_y as int, lx, ly),
    );
    let residual = residual_block(
        plane,
        pred,
        w,
        p.base_x as int,
        p.base_y as int,
        lx,
        ly,
    );
    let k = (ly + r) * w + (lx + c);
    assert(residual[r][c] == plane.at(x, y) - pred[k]);
    assert(within(f_pel[r][c] as int, residual[r][c] as int, d));
    assert(r * p.line_step == r) by (nonlinear_arith)
        requires
            p.line_step == 1,
    ;
    assert((ly + r * p.line_step) * w + lx + c == k);
}

/// The entries of a residual are differences of samples.
pub proof fn lemma_residual_in_range(
    plane: PlaneContents,
    pred: Seq<u8>,
    pred_w: int,
    base_x: int,
    base_y: int,
    local_x: int,
    local_y: int,
)
    ensures
        differences_in_range(
            residual_block(plane, pred, pred_w, base_x, base_y, local_x, local_y),
        ),
{
    lemma_block_entries(differences(plane, pred, pred_w, base_x, base_y, local_x, local_y));
}

/// The entries of a block that is taken out are samples.
pub proof fn lemma_raw_in_range(plane: PlaneContents, base_x: int, base_y: int)
    ensures
        samples_only(raw_block(plane, base_x, base_y)),
{
    lemma_block_entries(raw_samples(plane, base_x, base_y));
}

/// Whether every entry is a difference of two samples.
pub open spec fn differences_in_range(f: [[i16; 8]; 8]) -> bool {
    forall|r: int, c: int| 0 <= r < 8 && 0 <= c < 8 ==> -255 <= #[trigger] f[r][c] <= 255
}

/// Whether every entry is a sample.
pub open spec fn samples_only(f: [[i16; 8]; 8]) -> bool {
    forall|r: int, c: int| 0 <= r < 8 && 0 <= c < 8 ==> 0 <= #[trigger] f[r][c] <= 255
}

// ---------------------------------------------------------------------------
// Transforms
// ---------------------------------------------------------------------------

/// Whether no coefficient is further from another block's than a bound, given in
/// thirty-seconds.
pub open spec fn coefficients_near(
    g: [[i32; 8]; 8],
    f: [[i32; 8]; 8],
    bound: spec_fn(int, int) -> int,
) -> bool {
    forall|v: int, u: int|
        0 <= v < 8 && 0 <= u < 8 ==> within(32 * #[trigger] g[v][u], 32 * f[v][u], bound(v, u))
}

/// Whether an inverse transform undoes a transform: of coefficients that are no
/// further from those of a block than a bound it makes samples no further from the
/// block's than `d`.
pub open spec fn undoes<
    D: Fn([[i16; 8]; 8]) -> [[i32; 8]; 8],
    F: Fn([[i32; 8]; 8]) -> [[i16; 8]; 8],
>(idct: F, fdct: D, bound: spec_fn(int, int) -> int, d: int) -> bool {
    forall|f: [[i16; 8]; 8], g: [[i32; 8]; 8]|
        #![trigger value_of(fdct, f), value_of(idct, g)]
        differences_in_range(f) && coefficients_near(g, value_of(fdct, f), bound)
            ==> samples_near(value_of(idct, g), f, d)
}

/// Whether an inverse transform makes nothing of nothing.
pub open spec fn keeps_zero<F: Fn([[i32; 8]; 8]) -> [[i16; 8]; 8]>(idct: F) -> bool {
    forall|g: [[i32; 8]; 8]|
        #![trigger value_of(idct, g)]
        (forall|v: int, u: int| 0 <= v < 8 && 0 <= u < 8 ==> #[trigger] g[v][u] == 0) ==> value_of(
            idct,
            g,
        ) == zero_residual()
}

// ---------------------------------------------------------------------------
// Frames
// ---------------------------------------------------------------------------

/// Whether a frame has the planes of its size.
pub open spec fn sized(frame: FrameContents, width: int, height: int, chroma: ChromaFormat) -> bool {
    let cw = if chroma == ChromaFormat::Yuv444 {
        width
    } else {
        (width + 1) / 2
    };
    let ch = if chroma == ChromaFormat::Yuv420 {
        (height + 1) / 2
    } else {
        height
    };
    &&& frame.wf()
    &&& frame.chroma_format == chroma
    &&& frame.y.width == width
    &&& frame.y.height == height
    &&& frame.cb.width == cw
    &&& frame.cb.height == ch
    &&& frame.cr.width == cw
    &&& frame.cr.height == ch
}

/// A sample of a frame after a block was written into it.
pub proof fn lemma_block_step(
    frame: FrameContents,
    width: int,
    height: int,
    p: BlockPlacement,
    v: spec_fn(int, int) -> u8,
    k: ColourComponent,
    x: int,
    y: int,
)
    requires
        sized(frame, width, height, frame.chroma_format),
        p.line_step == 1,
        frame.plane(k).has(x, y),
    ensures
        ({
            let after = frame_with_block(frame, p, v);
            &&& sized(after, width, height, frame.chroma_format)
            &&& after.plane(k).at(x, y) == (if p.component == k && in_block(p, x, y) {
                v(y - p.base_y, x - p.base_x)
            } else {
                frame.plane(k).at(x, y)
            })
        }),
{
    lemma_block_written(frame, p, v);
    lemma_plane_with_block(frame.plane(p.component), p, v);
}

/// A sample of a frame after the first `n` blocks of a macroblock were written, each
/// near the source.
pub proof fn lemma_blocks_near(
    frame: FrameContents,
    source: FrameContents,
    width: int,
    height: int,
    preds: MacroblockPlanes,
    mb_col: int,
    mb_row: int,
    f_pels: Seq<[[i16; 8]; 8]>,
    n: int,
    d: int,
    k: ColourComponent,
    x: int,
    y: int,
)
    requires
        sized(frame, width, height, frame.chroma_format),
        frame.plane(k).has(x, y),
        macroblock_addressable(mb_col, mb_row),
        0 <= n <= frame.chroma_format.spec_blocks_per_mb(),
        forall|i: int|
            0 <= i < n && #[trigger] block_holds(
                i,
                k,
                frame.chroma_format,
                mb_col,
                mb_row,
                x,
                y,
            ) ==> {
                let p = placement_of(i, frame.chroma_format, mb_col, mb_row, false);
                within(
                    sum_samples(preds, frame.chroma_format, p, mb_col, mb_row, f_pels[i])(
                        y - p.base_y,
                        x - p.base_x,
                    ) as int,
                    source.plane(k).at(x, y) as int,
                    d,
                )
            },
    ensures
        ({
            let chroma = frame.chroma_format;
            let after = frame_with_blocks(frame, preds, chroma, mb_col, mb_row, f_pels, n);
            &&& sized(after, width, height, chroma)
            &&& if exists|i: int|
                0 <= i < n && #[trigger] block_holds(i, k, chroma, mb_col, mb_row, x, y) {
                within(after.plane(k).at(x, y) as int, source.plane(k).at(x, y) as int, d)
            } else {
                after.plane(k).at(x, y) == frame.plane(k).at(x, y)
            }
        }),
    decreases n,
{
    let chroma = frame.chroma_format;
    if n > 0 {
        lemma_blocks_near(
            frame,
            source,
            width,
            height,
            preds,
            mb_col,
            mb_row,
            f_pels,
            n - 1,
            d,
            k,
            x,
            y,
        );
        let before = frame_with_blocks(frame, preds, chroma, mb_col, mb_row, f_pels, n - 1);
        let p = placement_of(n - 1, chroma, mb_col, mb_row, false);
        let v = sum_samples(preds, chroma, p, mb_col, mb_row, f_pels[n - 1]);
        lemma_placed(n - 1, chroma, mb_col, mb_row);
        lemma_block_step(before, width, height, p, v, k, x, y);
        if block_holds(n - 1, k, chroma, mb_col, mb_row, x, y) {
        }
    }
}

/// Which macroblock a sample is in.
pub proof fn lemma_macroblock_of(
    k: ColourComponent,
    chroma: ChromaFormat,
    mb_col: int,
    mb_row: int,
    x: int,
    y: int,
)
    ensures
        ({
            let (w, h) = component_extent(k, chroma);
            in_macroblock(k, chroma, mb_col, mb_row, x, y) <==> x / w == mb_col && y / h == mb_row
        }),
{
    let (w, h) = component_extent(k, chroma);
    assert(mb_col * w <= x < mb_col * w + w <==> x / w == mb_col) by {
        if w == 8 {
            assert(mb_col * w == 8 * mb_col);
        } else {
            assert(mb_col * w == 16 * mb_col);
        }
    }
    assert(mb_row * h <= y < mb_row * h + h <==> y / h == mb_row) by {
        if h == 8 {
            assert(mb_row * h == 8 * mb_row);
        } else {
            assert(mb_row * h == 16 * mb_row);
        }
    }
}

/// A sample of a macroblock is in one of its blocks, and no other sample is.
pub proof fn lemma_held(
    k: ColourComponent,
    chroma: ChromaFormat,
    mb_col: int,
    mb_row: int,
    x: int,
    y: int,
)
    requires
        macroblock_addressable(mb_col, mb_row),
    ensures
        in_macroblock(k, chroma, mb_col, mb_row, x, y) <==> exists|i: int|
            0 <= i < chroma.spec_blocks_per_mb() && #[trigger] block_holds(
                i,
                k,
                chroma,
                mb_col,
                mb_row,
                x,
                y,
            ),
{
    if in_macroblock(k, chroma, mb_col, mb_row, x, y) {
        let i = lemma_blocks_cover(k, chroma, mb_col, mb_row, x, y);
        assert(block_holds(i, k, chroma, mb_col, mb_row, x, y));
    } else {
        assert forall|i: int| 0 <= i < chroma.spec_blocks_per_mb() implies !#[trigger] block_holds(
            i,
            k,
            chroma,
            mb_col,
            mb_row,
            x,
            y,
        ) by {
            lemma_placed(i, chroma, mb_col, mb_row);
        }
    }
}

/// Every sample of a frame is in one of the macroblocks of its size.
pub proof fn lemma_covered(
    frame: FrameContents,
    width: int,
    height: int,
    k: ColourComponent,
    x: int,
    y: int,
)
    requires
        sized(frame, width, height, frame.chroma_format),
        frame.plane(k).has(x, y),
    ensures
        ({
            let (w, h) = component_extent(k, frame.chroma_format);
            0 <= x / w < (width + 15) / 16 && 0 <= y / h < (height + 15) / 16
        }),
{
    let (w, h) = component_extent(k, frame.chroma_format);
    if w == 8 {
        assert(x / w == x / 8);
    } else {
        assert(x / w == x / 16);
    }
    if h == 8 {
        assert(y / h == y / 8);
    } else {
        assert(y / h == y / 16);
    }
}

} // verus!
