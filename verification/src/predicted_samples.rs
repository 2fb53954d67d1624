//! The samples of a macroblock: its prediction, and what is added to it.

use crate::block_writes::{lemma_plane_with_block, lemma_prediction_keeps_shape};
use crate::frame_assembly::{
    block_line, block_offset, component_extent, frame_with_intra, in_block,
    macroblock_addressable, placement_of, saturated_samples, FrameContents, PlaneContents,
};
use crate::inter_reconstruction::{
    frame_with_prediction, frame_with_residuals, inter_macroblock, predicted, predicted_from,
    predicted_planes, sum_samples, zero_residual, FrameMotion, MotionVectorPel, ReferenceContents,
    ResidualBlock,
};
use crate::mpeg2_block_dc::ColourComponent;
use crate::mpeg2_macroblock_blocks::{component_of, DecodedBlock};
use crate::picture::ChromaFormat;
use vstd::prelude::*;

verus! {

/// Whether `(x, y)` is a sample of a component of a macroblock.
pub open spec fn in_macroblock(
    c: ColourComponent,
    chroma: ChromaFormat,
    mb_col: int,
    mb_row: int,
    x: int,
    y: int,
) -> bool {
    let (w, h) = component_extent(c, chroma);
    mb_col * w <= x < mb_col * w + w && mb_row * h <= y < mb_row * h + h
}

/// Whether block `i` of a macroblock holds sample `(x, y)` of a component.
pub open spec fn block_holds(
    i: int,
    c: ColourComponent,
    chroma: ChromaFormat,
    mb_col: int,
    mb_row: int,
    x: int,
    y: int,
) -> bool {
    let p = placement_of(i, chroma, mb_col, mb_row, false);
    p.component == c && in_block(p, x, y)
}

/// Where a block of a macroblock lies.
pub proof fn lemma_placed(i: int, chroma: ChromaFormat, mb_col: int, mb_row: int)
    requires
        0 <= i < chroma.spec_blocks_per_mb(),
        macroblock_addressable(mb_col, mb_row),
    ensures
        ({
            let p = placement_of(i, chroma, mb_col, mb_row, false);
            let (w, h) = component_extent(p.component, chroma);
            let (dx, dy) = block_offset(i, chroma, false);
            &&& p.line_step == 1
            &&& p.base_x == mb_col * w + dx
            &&& p.base_y == mb_row * h + dy
            &&& 0 <= dx
            &&& dx + 8 <= w
            &&& 0 <= dy
            &&& dy + 8 <= h
        }),
{
    let c = component_of(i, chroma)->0;
    let (w, h) = component_extent(c, chroma);
    assert(0 <= mb_col * w <= mb_col * 16 && 0 <= mb_row * h <= mb_row * 16) by (nonlinear_arith)
        requires
            0 <= mb_col,
            0 <= mb_row,
            0 <= w <= 16,
            0 <= h <= 16,
    ;
}

/// Every sample of a macroblock is in one of its blocks.
pub proof fn lemma_blocks_cover(
    c: ColourComponent,
    chroma: ChromaFormat,
    mb_col: int,
    mb_row: int,
    x: int,
    y: int,
) -> (i: int)
    requires
        macroblock_addressable(mb_col, mb_row),
        in_macroblock(c, chroma, mb_col, mb_row, x, y),
    ensures
        0 <= i < chroma.spec_blocks_per_mb(),
        block_holds(i, c, chroma, mb_col, mb_row, x, y),
{
    let (w, h) = component_extent(c, chroma);
    let col = (x - mb_col * w) / 8;
    let row = (y - mb_row * h) / 8;
    let k = if w == 16 {
        2 * row + col
    } else {
        row
    };
    let each = (chroma.spec_blocks_per_mb() - 4) / 2;
    let i = match c {
        ColourComponent::Y => k,
        ColourComponent::Cb => 4 + k,
        ColourComponent::Cr => 4 + each + k,
    };
    lemma_placed(i, chroma, mb_col, mb_row);
    i
}

proof fn lemma_no_residual(r: int, c: int)
    requires
        0 <= r < 8,
        0 <= c < 8,
    ensures
        zero_residual()[r][c] == 0,
{
    let row = zero_residual()[r];
    assert(row[c] == 0);
}

/// The value of the prediction at a place of a macroblock.
pub proof fn lemma_prediction_at(
    refs: ReferenceContents,
    motion: FrameMotion,
    c: ColourComponent,
    chroma: ChromaFormat,
    mb_col: int,
    mb_row: int,
    lx: int,
    ly: int,
)
    requires
        0 <= lx < component_extent(c, chroma).0,
        0 <= ly < component_extent(c, chroma).1,
    ensures
        ({
            let (w, h) = component_extent(c, chroma);
            predicted_planes(refs, motion, chroma, mb_col, mb_row).plane(c)[ly * w + lx]
                == predicted(refs, motion, c, chroma, mb_col * w + lx, mb_row * h + ly) as u8
        }),
{
    let (w, h) = component_extent(c, chroma);
    let k = ly * w + lx;
    assert(0 <= k < w * h) by (nonlinear_arith)
        requires
            0 <= lx < w,
            0 <= ly < h,
            k == ly * w + lx,
    ;
    vstd::arithmetic::div_mod::lemma_fundamental_div_mod_converse(k, w, ly, lx);
}

/// A prediction without a residual is the value of the prediction.
#[verifier::rlimit(40)]
proof fn lemma_sum_is_prediction(
    refs: ReferenceContents,
    motion: FrameMotion,
    i: int,
    chroma: ChromaFormat,
    mb_col: int,
    mb_row: int,
    x: int,
    y: int,
)
    requires
        0 <= i < chroma.spec_blocks_per_mb(),
        macroblock_addressable(mb_col, mb_row),
        in_block(placement_of(i, chroma, mb_col, mb_row, false), x, y),
    ensures
        ({
            let p = placement_of(i, chroma, mb_col, mb_row, false);
            let preds = predicted_planes(refs, motion, chroma, mb_col, mb_row);
            sum_samples(preds, chroma, p, mb_col, mb_row, zero_residual())(
                y - p.base_y,
                x - p.base_x,
            ) == predicted(refs, motion, p.component, chroma, x, y) as u8
        }),
{
    lemma_placed(i, chroma, mb_col, mb_row);
    let p = placement_of(i, chroma, mb_col, mb_row, false);
    let (w, h) = component_extent(p.component, chroma);
    let r = y - p.base_y;
    let c = x - p.base_x;
    let lx = x - mb_col * w;
    let ly = y - mb_row * h;
    lemma_no_residual(r, c);
    lemma_prediction_at(refs, motion, p.component, chroma, mb_col, mb_row, lx, ly);
    assert(r * p.line_step == r) by (nonlinear_arith)
        requires
            p.line_step == 1,
    ;
    assert(p.base_y - mb_row * h + r * p.line_step == ly);
}

/// The samples of a macroblock after its first `n` blocks were predicted.
proof fn lemma_predicted_blocks(
    frame: FrameContents,
    refs: ReferenceContents,
    motion: FrameMotion,
    mb_col: int,
    mb_row: int,
    n: int,
    c: ColourComponent,
    x: int,
    y: int,
)
    requires
        frame.wf(),
        macroblock_addressable(mb_col, mb_row),
        0 <= n <= frame.chroma_format.spec_blocks_per_mb(),
        frame.plane(c).has(x, y),
    ensures
        ({
            let chroma = frame.chroma_format;
            let preds = predicted_planes(refs, motion, chroma, mb_col, mb_row);
            let after = frame_with_prediction(frame, preds, chroma, mb_col, mb_row, n);
            &&& after.plane(c).has(x, y)
            &&& after.plane(c).at(x, y) == (if exists|i: int|
                0 <= i < n && #[trigger] block_holds(i, c, chroma, mb_col, mb_row, x, y) {
                predicted(refs, motion, c, chroma, x, y) as u8
            } else {
                frame.plane(c).at(x, y)
            })
        }),
    decreases n,
{
    let chroma = frame.chroma_format;
    let preds = predicted_planes(refs, motion, chroma, mb_col, mb_row);
    if n > 0 {
        let p = placement_of(n - 1, chroma, mb_col, mb_row, false);
        let before = frame_with_prediction(frame, preds, chroma, mb_col, mb_row, n - 1);
        let v = sum_samples(preds, chroma, p, mb_col, mb_row, zero_residual());
        lemma_predicted_blocks(frame, refs, motion, mb_col, mb_row, n - 1, c, x, y);
        lemma_prediction_keeps_shape(frame, preds, chroma, mb_col, mb_row, n - 1);
        lemma_plane_with_block(before.plane(p.component), p, v);
        lemma_placed(n - 1, chroma, mb_col, mb_row);
        if block_holds(n - 1, c, chroma, mb_col, mb_row, x, y) {
            lemma_sum_is_prediction(refs, motion, n - 1, chroma, mb_col, mb_row, x, y);
        }
    }
}

/// Predicting a macroblock without a residual sets its samples to their predictions,
/// and leaves every other sample of the frame as it was.
pub proof fn law_prediction_fills_macroblock(
    frame: FrameContents,
    refs: ReferenceContents,
    motion: FrameMotion,
    mb_col: int,
    mb_row: int,
    c: ColourComponent,
    x: int,
    y: int,
)
    requires
        frame.wf(),
        macroblock_addressable(mb_col, mb_row),
        frame.plane(c).has(x, y),
    ensures
        inter_macroblock(frame, refs, mb_col, mb_row, false, motion, Seq::empty()).plane(c).at(
            x,
            y,
        ) == (if in_macroblock(c, frame.chroma_format, mb_col, mb_row, x, y) {
            predicted(refs, motion, c, frame.chroma_format, x, y) as u8
        } else {
            frame.plane(c).at(x, y)
        }),
{
    let chroma = frame.chroma_format;
    let n = chroma.spec_blocks_per_mb();
    lemma_predicted_blocks(frame, refs, motion, mb_col, mb_row, n, c, x, y);
    if in_macroblock(c, chroma, mb_col, mb_row, x, y) {
        let i = lemma_blocks_cover(c, chroma, mb_col, mb_row, x, y);
        assert(block_holds(i, c, chroma, mb_col, mb_row, x, y));
    } else {
        assert forall|i: int| 0 <= i < n implies !#[trigger] block_holds(
            i,
            c,
            chroma,
            mb_col,
            mb_row,
            x,
            y,
        ) by {
            lemma_placed(i, chroma, mb_col, mb_row);
        }
    }
}

/// A macroblock that is predicted from one frame with a zero vector, as a skipped
/// macroblock of a P-picture is, is copied from that frame.
pub proof fn law_still_macroblock_is_copied(
    frame: FrameContents,
    refs: ReferenceContents,
    mb_col: int,
    mb_row: int,
    c: ColourComponent,
    x: int,
    y: int,
)
    requires
        frame.wf(),
        macroblock_addressable(mb_col, mb_row),
        frame.plane(c).has(x, y),
        in_macroblock(c, frame.chroma_format, mb_col, mb_row, x, y),
        refs.forward is Some,
        refs.forward->0.plane(c).has(x, y),
    ensures
        ({
            let still = (FrameMotion {
                forward: Some(MotionVectorPel { horizontal: 0, vertical: 0 }),
                backward: None,
            });
            inter_macroblock(frame, refs, mb_col, mb_row, false, still, Seq::empty()).plane(c).at(
                x,
                y,
            ) == refs.forward->0.plane(c).at(x, y)
        }),
{
    let still = FrameMotion {
        forward: Some(MotionVectorPel { horizontal: 0, vertical: 0 }),
        backward: None,
    };
    law_prediction_fills_macroblock(frame, refs, still, mb_col, mb_row, c, x, y);
}

// ---------------------------------------------------------------------------
// Vectors
// ---------------------------------------------------------------------------

/// How many luminance samples a sample of a component is wide and high.
pub open spec fn subsampling(c: ColourComponent, chroma: ChromaFormat) -> (int, int) {
    if c == ColourComponent::Y {
        (1, 1)
    } else {
        match chroma {
            ChromaFormat::Yuv420 => (2, 2),
            ChromaFormat::Yuv422 => (2, 1),
            ChromaFormat::Yuv444 => (1, 1),
        }
    }
}

/// Whether `part` is `v`, or where `by` is 2 the half of `v`, rounded toward zero.
pub open spec fn share_of(v: int, by: int, part: int) -> bool {
    if by == 2 {
        &&& -1 <= v - 2 * part <= 1
        &&& v >= 0 ==> 0 <= 2 * part <= v
        &&& v <= 0 ==> v <= 2 * part <= 0
    } else {
        part == v
    }
}

/// The prediction of a sample from one frame is the mean of the reference's samples
/// around the place that the vector leads to, rounded to the nearest and up from a half.
/// The place is given in half samples of the component: a chrominance vector is the
/// luminance vector divided by how much wider or higher a chrominance sample is, toward
/// zero.
pub proof fn law_prediction_follows_vector(
    frame: FrameContents,
    v: MotionVectorPel,
    c: ColourComponent,
    chroma: ChromaFormat,
    x: int,
    y: int,
    vx: int,
    vy: int,
)
    requires
        share_of(v.horizontal as int, subsampling(c, chroma).0, vx),
        share_of(v.vertical as int, subsampling(c, chroma).1, vy),
        frame.plane(c).has((2 * x + vx) / 2, (2 * y + vy) / 2),
        frame.plane(c).has((2 * x + vx + 1) / 2, (2 * y + vy + 1) / 2),
    ensures
        ({
            let p = frame.plane(c);
            let left = (2 * x + vx) / 2;
            let right = (2 * x + vx + 1) / 2;
            let top = (2 * y + vy) / 2;
            let bottom = (2 * y + vy + 1) / 2;
            let sum = p.at(left, top) + p.at(right, top) + p.at(left, bottom) + p.at(
                right,
                bottom,
            );
            -1 <= 4 * predicted_from(frame, v, c, chroma, x, y) - sum <= 2
        }),
{
    assert(crate::inter_reconstruction::component_vector(v, c, chroma).0 == vx);
    assert(crate::inter_reconstruction::component_vector(v, c, chroma).1 == vy);
}

/// A vector of an even number of whole luminance samples moves all components alike: a
/// predicted luminance sample is the one `2a` to the right of it and `2b` below it in the
/// reference, and a predicted chrominance sample the one as far away in the picture, so
/// half as many chrominance samples where these are twice as wide or high.
pub proof fn law_components_move_alike(
    frame: FrameContents,
    refs: ReferenceContents,
    backward: bool,
    a: int,
    b: int,
    mb_col: int,
    mb_row: int,
    c: ColourComponent,
    x: int,
    y: int,
)
    requires
        frame.wf(),
        macroblock_addressable(mb_col, mb_row),
        frame.plane(c).has(x, y),
        in_macroblock(c, frame.chroma_format, mb_col, mb_row, x, y),
        i32::MIN <= 4 * a <= i32::MAX,
        i32::MIN <= 4 * b <= i32::MAX,
        (if backward {
            refs.backward
        } else {
            refs.forward
        }) is Some,
        ({
            let reference = (if backward {
                refs.backward
            } else {
                refs.forward
            })->0;
            let (w, h) = subsampling(c, frame.chroma_format);
            reference.plane(c).has(x + 2 * a / w, y + 2 * b / h)
        }),
    ensures
        ({
            let v = MotionVectorPel { horizontal: (4 * a) as i32, vertical: (4 * b) as i32 };
            let (motion, reference) = if backward {
                ((FrameMotion { forward: None, backward: Some(v) }), refs.backward->0)
            } else {
                ((FrameMotion { forward: Some(v), backward: None }), refs.forward->0)
            };
            let (w, h) = subsampling(c, frame.chroma_format);
            inter_macroblock(frame, refs, mb_col, mb_row, false, motion, Seq::empty()).plane(c).at(
                x,
                y,
            ) == reference.plane(c).at(x + 2 * a / w, y + 2 * b / h)
        }),
{
    let v = MotionVectorPel { horizontal: (4 * a) as i32, vertical: (4 * b) as i32 };
    let motion = if backward {
        FrameMotion { forward: None, backward: Some(v) }
    } else {
        FrameMotion { forward: Some(v), backward: None }
    };
    let reference = (if backward {
        refs.backward
    } else {
        refs.forward
    })->0;
    let (w, h) = subsampling(c, frame.chroma_format);
    law_prediction_fills_macroblock(frame, refs, motion, mb_col, mb_row, c, x, y);
    let vx = if w == 2 {
        2 * a
    } else {
        4 * a
    };
    let vy = if h == 2 {
        2 * b
    } else {
        4 * b
    };
    assert((2 * x + vx) / 2 == x + 2 * a / w && (2 * x + vx + 1) / 2 == x + 2 * a / w);
    assert((2 * y + vy) / 2 == y + 2 * b / h && (2 * y + vy + 1) / 2 == y + 2 * b / h);
    law_prediction_follows_vector(reference, v, c, frame.chroma_format, x, y, vx, vy);
}

/// A prediction from two frames is the mean of the predictions from each, rounded up from
/// a half.
pub proof fn law_two_predictions_are_averaged(
    refs: ReferenceContents,
    f: MotionVectorPel,
    b: MotionVectorPel,
    c: ColourComponent,
    chroma: ChromaFormat,
    x: int,
    y: int,
)
    ensures
        ({
            let both = predicted(
                refs,
                (FrameMotion { forward: Some(f), backward: Some(b) }),
                c,
                chroma,
                x,
                y,
            );
            let forward = predicted_from(refs.forward->0, f, c, chroma, x, y);
            let backward = predicted_from(refs.backward->0, b, c, chroma, x, y);
            0 <= 2 * both - (forward + backward) <= 1
        }),
        predicted(
            refs,
            (FrameMotion { forward: Some(f), backward: None }),
            c,
            chroma,
            x,
            y,
        ) == predicted_from(refs.forward->0, f, c, chroma, x, y),
        predicted(
            refs,
            (FrameMotion { forward: None, backward: Some(b) }),
            c,
            chroma,
            x,
            y,
        ) == predicted_from(refs.backward->0, b, c, chroma, x, y),
{
}

/// Beyond the edge of a reference its edge is repeated: a place that the vector leads to
/// outside is predicted from the nearest sample inside.
pub proof fn law_edge_is_repeated(p: PlaneContents, x: int, y: int, a: int, b: int)
    requires
        p.has(a, b),
    ensures
        exists|near_x: int, near_y: int|
            p.has(near_x, near_y) && p.nearest(x, y, 0) == #[trigger] p.at(near_x, near_y)
                && distance(x, near_x) <= distance(x, a) && distance(y, near_y) <= distance(y, b),
        p.has(x, y) ==> p.nearest(x, y, 0) == p.at(x, y),
{
    let near_x = if x < 0 {
        0
    } else if x >= p.width {
        p.width - 1
    } else {
        x
    };
    let near_y = if y < 0 {
        0
    } else if y >= p.height {
        p.height - 1
    } else {
        y
    };
    assert(p.nearest(x, y, 0) == p.at(near_x, near_y));
}

/// How far apart two numbers are.
pub open spec fn distance(a: int, b: int) -> int {
    if a < b {
        b - a
    } else {
        a - b
    }
}

// ---------------------------------------------------------------------------
// Residuals
// ---------------------------------------------------------------------------

/// Where luminance block `i` of a macroblock lies.
proof fn lemma_luminance_block(
    i: int,
    chroma: ChromaFormat,
    mb_col: int,
    mb_row: int,
    field: bool,
    lx: int,
    ly: int,
)
    requires
        macroblock_addressable(mb_col, mb_row),
        0 <= i < 4,
        0 <= lx < 16,
        0 <= ly < 16,
    ensures
        ({
            let p = placement_of(i, chroma, mb_col, mb_row, field);
            let x = 16 * mb_col + lx;
            let y = 16 * mb_row + ly;
            let (column, half, row) = if field {
                (lx / 8, ly % 2, ly / 2)
            } else {
                (lx / 8, ly / 8, ly % 8)
            };
            &&& p.component == ColourComponent::Y
            &&& in_block(p, x, y) <==> i == 2 * half + column
            &&& in_block(p, x, y) ==> block_line(p, y) == row && x - p.base_x == lx % 8 && (
            p.base_y - mb_row * 16 + row * p.line_step) * 16 + (p.base_x - mb_col * 16) + lx % 8
                == ly * 16 + lx
        }),
{
    let p = placement_of(i, chroma, mb_col, mb_row, field);
    assert(p.base_x == 16 * mb_col + 8 * (i % 2));
    assert(p.base_y == 16 * mb_row + (if field {
        i / 2
    } else {
        8 * (i / 2)
    }));
    let row = if field {
        ly / 2
    } else {
        ly % 8
    };
    assert(row * p.line_step == (if field {
        2 * row
    } else {
        row
    })) by (nonlinear_arith)
        requires
            p.line_step == (if field {
                2int
            } else {
                1int
            }),
    ;
}

/// A residual is added to the prediction of the block that it belongs to: luminance block
/// `i` is the left or the right, upper or lower quarter of its macroblock, or, where the
/// transform is by fields, the left or the right half of the even or the odd lines. The
/// sum is kept within the range of samples. Every other sample is its prediction.
pub proof fn law_luminance_residual_is_added(
    frame: FrameContents,
    refs: ReferenceContents,
    motion: FrameMotion,
    mb_col: int,
    mb_row: int,
    field_dct: bool,
    i: int,
    f_pel: [[i16; 8]; 8],
    lx: int,
    ly: int,
)
    requires
        frame.wf(),
        macroblock_addressable(mb_col, mb_row),
        0 <= i < 4,
        0 <= lx < 16,
        0 <= ly < 16,
        frame.y.has(16 * mb_col + lx, 16 * mb_row + ly),
    ensures
        ({
            let after = inter_macroblock(
                frame,
                refs,
                mb_col,
                mb_row,
                field_dct,
                motion,
                seq![ResidualBlock { block_index: i as u8, f_pel }],
            );
            let sample = after.y.at(16 * mb_col + lx, 16 * mb_row + ly) as int;
            let prediction = predicted(
                refs,
                motion,
                ColourComponent::Y,
                frame.chroma_format,
                16 * mb_col + lx,
                16 * mb_row + ly,
            );
            let (column, half, row) = if field_dct {
                (lx / 8, ly % 2, ly / 2)
            } else {
                (lx / 8, ly / 8, ly % 8)
            };
            if i == 2 * half + column {
                let sum = prediction + f_pel[row][lx % 8];
                &&& 0 <= sum <= 255 ==> sample == sum
                &&& sum < 0 ==> sample == 0
                &&& sum > 255 ==> sample == 255
            } else {
                sample == prediction
            }
        }),
{
    let chroma = frame.chroma_format;
    let preds = predicted_planes(refs, motion, chroma, mb_col, mb_row);
    let n = chroma.spec_blocks_per_mb();
    let before = frame_with_prediction(frame, preds, chroma, mb_col, mb_row, n);
    let p = placement_of(i, chroma, mb_col, mb_row, field_dct);
    let v = sum_samples(preds, chroma, p, mb_col, mb_row, f_pel);
    let b = ResidualBlock { block_index: i as u8, f_pel };
    let x = 16 * mb_col + lx;
    let y = 16 * mb_row + ly;
    law_prediction_fills_macroblock(
        frame,
        refs,
        motion,
        mb_col,
        mb_row,
        ColourComponent::Y,
        x,
        y,
    );
    assert(in_macroblock(ColourComponent::Y, chroma, mb_col, mb_row, x, y));
    assert(inter_macroblock(frame, refs, mb_col, mb_row, false, motion, Seq::empty()) == before);
    lemma_prediction_keeps_shape(frame, preds, chroma, mb_col, mb_row, n);
    lemma_predicted_blocks(frame, refs, motion, mb_col, mb_row, n, ColourComponent::Y, x, y);
    lemma_plane_with_block(before.y, p, v);
    reveal_with_fuel(frame_with_residuals, 2);
    assert(seq![b][0] == b);
    lemma_prediction_at(refs, motion, ColourComponent::Y, chroma, mb_col, mb_row, lx, ly);
    lemma_luminance_block(i, chroma, mb_col, mb_row, field_dct, lx, ly);
    lemma_sample_is_prediction(refs, motion, chroma, x, y);
    let after = frame_with_residuals(
        before,
        preds,
        chroma,
        mb_col,
        mb_row,
        field_dct,
        seq![b],
        1,
    );
    assert(after == crate::inter_reconstruction::frame_with_sum(
        before,
        preds,
        chroma,
        p,
        mb_col,
        mb_row,
        f_pel,
    ));
    assert(before.y.has(x, y));
    assert(after.y.at(x, y) == crate::frame_assembly::block_samples(before.y, p, v)(x, y));
}

/// A prediction is a sample.
proof fn lemma_sample_is_prediction(
    refs: ReferenceContents,
    motion: FrameMotion,
    chroma: ChromaFormat,
    x: int,
    y: int,
)
    ensures
        0 <= predicted(refs, motion, ColourComponent::Y, chroma, x, y) <= 255,
{
}

/// Intra blocks go where residuals go: an entry of luminance block `i`, kept within the
/// range of samples, becomes the sample at its place.
pub proof fn law_intra_luminance_is_placed(
    frame: FrameContents,
    blocks: Seq<DecodedBlock>,
    mb_col: int,
    mb_row: int,
    field: bool,
    n: int,
    lx: int,
    ly: int,
)
    requires
        frame.wf(),
        macroblock_addressable(mb_col, mb_row),
        0 <= n < blocks.len(),
        blocks[n].block_index < 4,
        0 <= lx < 16,
        0 <= ly < 16,
        frame.y.has(16 * mb_col + lx, 16 * mb_row + ly),
    ensures
        ({
            let chroma = frame.chroma_format;
            let before = frame_with_intra(frame, blocks, chroma, mb_col, mb_row, field, n);
            let after = frame_with_intra(frame, blocks, chroma, mb_col, mb_row, field, n + 1);
            let sample = after.y.at(16 * mb_col + lx, 16 * mb_row + ly) as int;
            let (column, half, row) = if field {
                (lx / 8, ly % 2, ly / 2)
            } else {
                (lx / 8, ly / 8, ly % 8)
            };
            if blocks[n].block_index == 2 * half + column {
                let value = blocks[n].decoded.f_pel[row][lx % 8];
                &&& 0 <= value <= 255 ==> sample == value
                &&& value < 0 ==> sample == 0
                &&& value > 255 ==> sample == 255
            } else {
                sample == before.y.at(16 * mb_col + lx, 16 * mb_row + ly)
            }
        }),
{
    let chroma = frame.chroma_format;
    let i = blocks[n].block_index as int;
    let before = frame_with_intra(frame, blocks, chroma, mb_col, mb_row, field, n);
    let p = placement_of(i, chroma, mb_col, mb_row, field);
    lemma_intra_keeps_shape(frame, blocks, mb_col, mb_row, field, n);
    lemma_plane_with_block(before.y, p, saturated_samples(blocks[n].decoded.f_pel));
    lemma_luminance_block(i, chroma, mb_col, mb_row, field, lx, ly);
}

proof fn lemma_intra_keeps_shape(
    frame: FrameContents,
    blocks: Seq<DecodedBlock>,
    mb_col: int,
    mb_row: int,
    field: bool,
    n: int,
)
    requires
        frame.wf(),
    ensures
        ({
            let after = frame_with_intra(
                frame,
                blocks,
                frame.chroma_format,
                mb_col,
                mb_row,
                field,
                n,
            );
            after.wf() && after.y.width == frame.y.width && after.y.height == frame.y.height
        }),
    decreases n,
{
    if n > 0 {
        lemma_intra_keeps_shape(frame, blocks, mb_col, mb_row, field, n - 1);
        let before = frame_with_intra(
            frame,
            blocks,
            frame.chroma_format,
            mb_col,
            mb_row,
            field,
            n - 1,
        );
        let b = blocks[n - 1];
        let p = placement_of(b.block_index as int, frame.chroma_format, mb_col, mb_row, field);
        lemma_plane_with_block(
            before.plane(p.component),
            p,
            saturated_samples(b.decoded.f_pel),
        );
    }
}

/// The blocks of a macroblock tile its components: first four of luminance, then those of
/// Cb and then those of Cr, each component's in rows from left to right. Where the
/// transform is by fields and the component has sixteen lines, the upper blocks have its
/// even lines and the lower ones its odd lines. Every sample is an entry of exactly one
/// block.
#[verifier::spinoff_prover]
pub proof fn law_blocks_tile_macroblock(
    chroma: ChromaFormat,
    mb_col: int,
    mb_row: int,
    field: bool,
    c: ColourComponent,
    lx: int,
    ly: int,
    i: int,
)
    requires
        macroblock_addressable(mb_col, mb_row),
        0 <= lx < (if c == ColourComponent::Y || chroma == ChromaFormat::Yuv444 {
            16int
        } else {
            8int
        }),
        0 <= ly < (if c != ColourComponent::Y && chroma == ChromaFormat::Yuv420 {
            8int
        } else {
            16int
        }),
        0 <= i < chroma.spec_blocks_per_mb(),
    ensures
        ({
            let p = placement_of(i, chroma, mb_col, mb_row, field);
            let wide = c == ColourComponent::Y || chroma == ChromaFormat::Yuv444;
            let tall = c == ColourComponent::Y || chroma != ChromaFormat::Yuv420;
            let x = mb_col * (if wide {
                16int
            } else {
                8int
            }) + lx;
            let y = mb_row * (if tall {
                16int
            } else {
                8int
            }) + ly;
            let each = (if wide {
                2int
            } else {
                1int
            }) * (if tall {
                2int
            } else {
                1int
            });
            let first = match c {
                ColourComponent::Y => 0int,
                ColourComponent::Cb => 4int,
                ColourComponent::Cr => 4 + each,
            };
            let (half, row) = if field && tall {
                (ly % 2, ly / 2)
            } else {
                (ly / 8, ly % 8)
            };
            let owner = first + (if wide {
                2 * half + lx / 8
            } else {
                half
            });
            &&& p.component == c && in_block(p, x, y) <==> i == owner
            &&& i == owner ==> block_line(p, y) == row && x - p.base_x == lx % 8
        }),
{
    assert(mb_col * 16 == 2 * (mb_col * 8) && mb_row * 16 == 2 * (mb_row * 8));
    assert(0 <= i < 12);
    assert(2int * 2 == 4 && 2int * 1 == 2 && 1int * 2 == 2 && 1int * 1 == 1);
}

} // verus!
