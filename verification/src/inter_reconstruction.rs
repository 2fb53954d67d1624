//! Motion-compensated prediction of macroblocks, and prediction plus residual.

use crate::arith::{trunc_half, trunc_half_i32};
use crate::error::{Error, Result};
use crate::frame_assembly::{
    block_placement, component_extent, frame_with_block, lemma_same_block, macroblock_addressable,
    placed_in_macroblock, placement_of, put_block, to_sample, BlockPlacement, FrameBuffer,
    FrameContents, Plane, PlaneContents,
};
use crate::mpeg1_reconstruct::Mpeg1ReconstructedMv;
use crate::mpeg2_block_dc::ColourComponent;
use crate::mpeg2_macroblock_blocks::block_count;
use crate::picture::ChromaFormat;
use vstd::prelude::*;

verus! {

pub const ERR_NO_FORWARD: &'static str = "inter prediction: the forward reference is missing";

pub const ERR_NO_BACKWARD: &'static str = "inter prediction: the backward reference is missing";

pub const ERR_NO_MOTION: &'static str = "inter prediction: the macroblock has no motion vector";

/// A motion vector in half luminance samples.
#[derive(Debug, Clone, Copy, PartialEq, Eq)]
pub struct MotionVectorPel {
    pub horizontal: i32,
    pub vertical: i32,
}

impl MotionVectorPel {
    pub fn new(horizontal: i32, vertical: i32) -> (v: Self)
        ensures
            v == (MotionVectorPel { horizontal, vertical }),
    {
        MotionVectorPel { horizontal, vertical }
    }
}

/// The vectors of a macroblock that is predicted from frames.
#[derive(Debug, Clone, Copy, PartialEq, Eq)]
pub struct FrameMotion {
    pub forward: Option<MotionVectorPel>,
    pub backward: Option<MotionVectorPel>,
}

/// The vector of a reconstructed MPEG-1 vector.
pub open spec fn mpeg1_vector(mv: Option<Mpeg1ReconstructedMv>) -> Option<MotionVectorPel> {
    match mv {
        Some(mv) => Some(
            (MotionVectorPel { horizontal: mv.recon_right, vertical: mv.recon_down }),
        ),
        None => None,
    }
}

impl FrameMotion {
    pub fn forward(v: MotionVectorPel) -> (m: Self)
        ensures
            m == (FrameMotion { forward: Some(v), backward: None }),
    {
        FrameMotion { forward: Some(v), backward: None }
    }

    pub fn backward(v: MotionVectorPel) -> (m: Self)
        ensures
            m == (FrameMotion { forward: None, backward: Some(v) }),
    {
        FrameMotion { forward: None, backward: Some(v) }
    }

    pub fn bidirectional(f: MotionVectorPel, b: MotionVectorPel) -> (m: Self)
        ensures
            m == (FrameMotion { forward: Some(f), backward: Some(b) }),
    {
        FrameMotion { forward: Some(f), backward: Some(b) }
    }

    /// The vectors of an MPEG-1 macroblock.
    pub fn from_mpeg1(
        forward: Option<Mpeg1ReconstructedMv>,
        backward: Option<Mpeg1ReconstructedMv>,
    ) -> (m: Self)
        ensures
            m == (FrameMotion {
                forward: mpeg1_vector(forward),
                backward: mpeg1_vector(backward),
            }),
    {
        FrameMotion {
            forward: match forward {
                Some(mv) => Some(MotionVectorPel::new(mv.recon_right, mv.recon_down)),
                None => None,
            },
            backward: match backward {
                Some(mv) => Some(MotionVectorPel::new(mv.recon_right, mv.recon_down)),
                None => None,
            },
        }
    }
}

/// The frames that a picture is predicted from.
#[derive(Clone, Copy)]
pub struct ReferenceFrames<'a> {
    pub forward: Option<&'a FrameBuffer>,
    pub backward: Option<&'a FrameBuffer>,
}

/// What the references hold.
pub struct ReferenceContents {
    pub forward: Option<FrameContents>,
    pub backward: Option<FrameContents>,
}

impl<'a> View for ReferenceFrames<'a> {
    type V = ReferenceContents;

    open spec fn view(&self) -> ReferenceContents {
        ReferenceContents {
            forward: match self.forward {
                Some(f) => Some(f@),
                None => None,
            },
            backward: match self.backward {
                Some(f) => Some(f@),
                None => None,
            },
        }
    }
}

impl<'a> ReferenceFrames<'a> {
    pub fn forward_only(f: &'a FrameBuffer) -> (r: Self)
        ensures
            r@ == (ReferenceContents { forward: Some(f@), backward: None }),
    {
        ReferenceFrames { forward: Some(f), backward: None }
    }

    pub fn bidirectional(f: &'a FrameBuffer, b: &'a FrameBuffer) -> (r: Self)
        ensures
            r@ == (ReferenceContents { forward: Some(f@), backward: Some(b@) }),
    {
        ReferenceFrames { forward: Some(f), backward: Some(b) }
    }
}

/// The vector of a component: chrominance vectors shrink with the plane, toward
/// zero.
pub open spec fn component_vector(
    v: MotionVectorPel,
    c: ColourComponent,
    chroma: ChromaFormat,
) -> (int, int) {
    let (w, h) = component_extent(c, chroma);
    (
        if w == 8 {
            trunc_half(v.horizontal as int)
        } else {
            v.horizontal as int
        },
        if h == 8 {
            trunc_half(v.vertical as int)
        } else {
            v.vertical as int
        },
    )
}

/// The value at a place given in half samples: the sample there, or the mean of
/// the two or four around it, rounded up from a half.
pub open spec fn interpolated(p: PlaneContents, hx: int, hy: int) -> int {
    let x = hx / 2;
    let y = hy / 2;
    let a = p.nearest(x, y, 0) as int;
    let b = p.nearest(x + 1, y, 0) as int;
    let c = p.nearest(x, y + 1, 0) as int;
    let d = p.nearest(x + 1, y + 1, 0) as int;
    if hx % 2 == 0 && hy % 2 == 0 {
        a
    } else if hy % 2 == 0 {
        (a + b + 1) / 2
    } else if hx % 2 == 0 {
        (a + c + 1) / 2
    } else {
        (a + b + c + d + 2) / 4
    }
}

/// The prediction of sample `(x, y)` of a component from one frame.
pub open spec fn predicted_from(
    frame: FrameContents,
    v: MotionVectorPel,
    c: ColourComponent,
    chroma: ChromaFormat,
    x: int,
    y: int,
) -> int {
    let (vx, vy) = component_vector(v, c, chroma);
    interpolated(frame.plane(c), 2 * x + vx, 2 * y + vy)
}

/// The prediction of sample `(x, y)` of a component: from the one frame that
/// there is a vector for, or the mean of both, rounded up from a half.
pub open spec fn predicted(
    refs: ReferenceContents,
    motion: FrameMotion,
    c: ColourComponent,
    chroma: ChromaFormat,
    x: int,
    y: int,
) -> int {
    match motion.forward {
        Some(f) => {
            let a = predicted_from(refs.forward->0, f, c, chroma, x, y);
            match motion.backward {
                Some(b) => (a + predicted_from(refs.backward->0, b, c, chroma, x, y) + 1) / 2,
                None => a,
            }
        },
        None => predicted_from(refs.backward->0, motion.backward->0, c, chroma, x, y),
    }
}

/// The prediction of a component of a macroblock, row by row.
pub open spec fn predicted_plane(
    refs: ReferenceContents,
    motion: FrameMotion,
    c: ColourComponent,
    chroma: ChromaFormat,
    mb_col: int,
    mb_row: int,
) -> Seq<u8> {
    let (w, h) = component_extent(c, chroma);
    Seq::new(
        (w * h) as nat,
        |k: int|
            predicted(refs, motion, c, chroma, mb_col * w + k % w, mb_row * h + k / w) as u8,
    )
}

/// The predictions of the three components of a macroblock.
pub struct MacroblockPlanes {
    pub y: Seq<u8>,
    pub cb: Seq<u8>,
    pub cr: Seq<u8>,
}

impl MacroblockPlanes {
    pub open spec fn plane(self, c: ColourComponent) -> Seq<u8> {
        match c {
            ColourComponent::Y => self.y,
            ColourComponent::Cb => self.cb,
            ColourComponent::Cr => self.cr,
        }
    }

    /// Whether every component has a value for each of its samples.
    pub open spec fn wf(self, chroma: ChromaFormat) -> bool {
        let (w, h) = component_extent(ColourComponent::Cb, chroma);
        self.y.len() == 256 && self.cb.len() == w * h && self.cr.len() == w * h
    }
}

/// The predictions of the three components of a macroblock.
pub open spec fn predicted_planes(
    refs: ReferenceContents,
    motion: FrameMotion,
    chroma: ChromaFormat,
    mb_col: int,
    mb_row: int,
) -> MacroblockPlanes {
    MacroblockPlanes {
        y: predicted_plane(refs, motion, ColourComponent::Y, chroma, mb_col, mb_row),
        cb: predicted_plane(refs, motion, ColourComponent::Cb, chroma, mb_col, mb_row),
        cr: predicted_plane(refs, motion, ColourComponent::Cr, chroma, mb_col, mb_row),
    }
}

/// Why a macroblock cannot be predicted, if so.
pub open spec fn prediction_error(refs: ReferenceContents, motion: FrameMotion) -> Option<Error> {
    if motion.forward is Some && refs.forward is None {
        Some(Error::InvalidBitstream(ERR_NO_FORWARD))
    } else if motion.backward is Some && refs.backward is None {
        Some(Error::InvalidBitstream(ERR_NO_BACKWARD))
    } else if motion.forward is None && motion.backward is None {
        Some(Error::InvalidBitstream(ERR_NO_MOTION))
    } else {
        None
    }
}

/// The value of a plane at a place given in half samples.
fn interpolate(plane: &Plane, hx: i128, hy: i128) -> (r: u8)
    requires
        -0x1_0000_0000_0000_0000_0000 <= hx <= 0x1_0000_0000_0000_0000_0000,
        -0x1_0000_0000_0000_0000_0000 <= hy <= 0x1_0000_0000_0000_0000_0000,
    ensures
        r == interpolated(plane@, hx as int, hy as int),
{
    let x = floor_half(hx);
    let y = floor_half(hy);
    let odd_x = hx != 2 * x;
    let odd_y = hy != 2 * y;
    let a = nearest(plane, x, y) as u16;
    if !odd_x && !odd_y {
        return a as u8;
    }
    if !odd_y {
        let b = nearest(plane, x + 1, y) as u16;
        return ((a + b + 1) / 2) as u8;
    }
    if !odd_x {
        let c = nearest(plane, x, y + 1) as u16;
        return ((a + c + 1) / 2) as u8;
    }
    let b = nearest(plane, x + 1, y) as u16;
    let c = nearest(plane, x, y + 1) as u16;
    let d = nearest(plane, x + 1, y + 1) as u16;
    ((a + b + c + d + 2) / 4) as u8
}

fn floor_half(x: i128) -> (r: i128)
    requires
        x > i128::MIN,
    ensures
        r == x as int / 2,
{
    if x >= 0 {
        x / 2
    } else {
        -1 - ((-1 - x) / 2)
    }
}

fn nearest(plane: &Plane, x: i128, y: i128) -> (r: u8)
    ensures
        r == plane@.nearest(x as int, y as int, 0),
{
    let w = plane.width();
    let h = plane.height();
    let sx: usize = if x < 0 {
        0
    } else if x >= w as i128 {
        w
    } else {
        x as usize
    };
    let sy: usize = if y < 0 {
        0
    } else if y >= h as i128 {
        h
    } else {
        y as usize
    };
    plane.get_nearest(sx, sy, 0)
}

pub fn plane_of_component(frame: &FrameBuffer, c: ColourComponent) -> (p: &Plane)
    ensures
        p@ == frame@.plane(c),
{
    match c {
        ColourComponent::Y => &frame.y,
        ColourComponent::Cb => &frame.cb,
        ColourComponent::Cr => &frame.cr,
    }
}

fn predict_from(
    frame: &FrameBuffer,
    v: MotionVectorPel,
    c: ColourComponent,
    chroma: ChromaFormat,
    x: usize,
    y: usize,
) -> (r: u8)
    ensures
        r == predicted_from(frame@, v, c, chroma, x as int, y as int),
{
    let (w, h) = extent(c, chroma);
    let vx: i32 = if w == 8 {
        trunc_half_i32(v.horizontal)
    } else {
        v.horizontal
    };
    let vy: i32 = if h == 8 {
        trunc_half_i32(v.vertical)
    } else {
        v.vertical
    };
    interpolate(
        plane_of_component(frame, c),
        2 * (x as i128) + vx as i128,
        2 * (y as i128) + vy as i128,
    )
}

/// The columns and rows of a component in a macroblock.
pub fn extent(c: ColourComponent, chroma: ChromaFormat) -> (r: (usize, usize))
    ensures
        r.0 == component_extent(c, chroma).0,
        r.1 == component_extent(c, chroma).1,
{
    match c {
        ColourComponent::Y => (16, 16),
        _ => chroma_mb_extent(chroma),
    }
}

/// The columns and rows of a chrominance component in a macroblock.
pub fn chroma_mb_extent(chroma: ChromaFormat) -> (r: (usize, usize))
    ensures
        r.0 == component_extent(ColourComponent::Cb, chroma).0,
        r.1 == component_extent(ColourComponent::Cb, chroma).1,
{
    match chroma {
        ChromaFormat::Yuv420 => (8, 8),
        ChromaFormat::Yuv422 => (8, 16),
        ChromaFormat::Yuv444 => (16, 16),
    }
}

proof fn lemma_predicted_is_sample(
    refs: ReferenceContents,
    motion: FrameMotion,
    c: ColourComponent,
    chroma: ChromaFormat,
    x: int,
    y: int,
)
    ensures
        0 <= predicted(refs, motion, c, chroma, x, y) <= 255,
{
}

fn predict_sample(
    references: ReferenceFrames<'_>,
    motion: FrameMotion,
    c: ColourComponent,
    chroma: ChromaFormat,
    x: usize,
    y: usize,
) -> (r: u8)
    requires
        prediction_error(references@, motion) is None,
    ensures
        r == predicted(references@, motion, c, chroma, x as int, y as int),
{
    let a: Option<u8> = match (motion.forward, references.forward) {
        (Some(v), Some(f)) => Some(predict_from(f, v, c, chroma, x, y)),
        _ => None,
    };
    let b: Option<u8> = match (motion.backward, references.backward) {
        (Some(v), Some(f)) => Some(predict_from(f, v, c, chroma, x, y)),
        _ => None,
    };
    match (a, b) {
        (Some(a), Some(b)) => ((a as u16 + b as u16 + 1) / 2) as u8,
        (Some(a), None) => a,
        (None, Some(b)) => b,
        (None, None) => 0,
    }
}

pub fn predict_plane(
    references: ReferenceFrames<'_>,
    motion: FrameMotion,
    c: ColourComponent,
    chroma: ChromaFormat,
    mb_col: usize,
    mb_row: usize,
) -> (out: Vec<u8>)
    requires
        prediction_error(references@, motion) is None,
        macroblock_addressable(mb_col as int, mb_row as int),
    ensures
        out@ == predicted_plane(references@, motion, c, chroma, mb_col as int, mb_row as int),
{
    let (w, h) = extent(c, chroma);
    let ghost want = predicted_plane(
        references@,
        motion,
        c,
        chroma,
        mb_col as int,
        mb_row as int,
    );
    let n: usize = w * h;
    assert(mb_col * w + w <= mb_col * 16 + 16 && mb_row * h + h <= mb_row * 16 + 16)
        by (nonlinear_arith)
        requires
            0 <= mb_col,
            0 <= mb_row,
            w <= 16,
            h <= 16,
    ;
    assert(0 <= mb_col * w && 0 <= mb_row * h) by (nonlinear_arith);
    let x0: usize = mb_col * w;
    let y0: usize = mb_row * h;
    let mut out: Vec<u8> = Vec::new();
    let mut k: usize = 0;
    while k < n
        invariant
            k <= n,
            n == w * h,
            w == 8 || w == 16,
            h == 8 || h == 16,
            (w as int, h as int) == component_extent(c, chroma),
            x0 == mb_col * w,
            y0 == mb_row * h,
            x0 + w <= usize::MAX,
            y0 + h <= usize::MAX,
            prediction_error(references@, motion) is None,
            want == predicted_plane(
                references@,
                motion,
                c,
                chroma,
                mb_col as int,
                mb_row as int,
            ),
            out@.len() == k,
            want.len() == n,
            forall|j: int| 0 <= j < k ==> #[trigger] out@[j] == want[j],
        decreases n - k,
    {
        let dx: usize = k % w;
        let dy: usize = k / w;
        proof {
            lemma_predicted_is_sample(
                references@,
                motion,
                c,
                chroma,
                mb_col * w + k as int % w as int,
                mb_row * h + k as int / w as int,
            );
        }
        out.push(predict_sample(references, motion, c, chroma, x0 + dx, y0 + dy));
        k += 1;
    }
    assert(out@ =~= want);
    out
}

/// Predicts the three components of a macroblock.
pub fn predict_frame_macroblock_planes(
    chroma: ChromaFormat,
    references: ReferenceFrames<'_>,
    mb_col: usize,
    mb_row: usize,
    motion: FrameMotion,
) -> (res: Result<(Vec<u8>, Vec<u8>, Vec<u8>)>)
    requires
        macroblock_addressable(mb_col as int, mb_row as int),
    ensures
        match prediction_error(references@, motion) {
            Some(e) => res == Err::<(Vec<u8>, Vec<u8>, Vec<u8>), Error>(e),
            None => res is Ok && planes_view(res->Ok_0) == predicted_planes(
                references@,
                motion,
                chroma,
                mb_col as int,
                mb_row as int,
            ) && planes_view(res->Ok_0).wf(chroma),
        },
{
    if motion.forward.is_some() && references.forward.is_none() {
        return Err(Error::InvalidBitstream(ERR_NO_FORWARD));
    }
    if motion.backward.is_some() && references.backward.is_none() {
        return Err(Error::InvalidBitstream(ERR_NO_BACKWARD));
    }
    if motion.forward.is_none() && motion.backward.is_none() {
        return Err(Error::InvalidBitstream(ERR_NO_MOTION));
    }
    let y = predict_plane(references, motion, ColourComponent::Y, chroma, mb_col, mb_row);
    let cb = predict_plane(references, motion, ColourComponent::Cb, chroma, mb_col, mb_row);
    let cr = predict_plane(references, motion, ColourComponent::Cr, chroma, mb_col, mb_row);
    Ok((y, cb, cr))
}

pub open spec fn planes_view(p: (Vec<u8>, Vec<u8>, Vec<u8>)) -> MacroblockPlanes {
    MacroblockPlanes { y: p.0@, cb: p.1@, cr: p.2@ }
}

/// The samples of a block: prediction plus residual, saturated.
pub open spec fn sum_samples(
    preds: MacroblockPlanes,
    chroma: ChromaFormat,
    p: BlockPlacement,
    mb_col: int,
    mb_row: int,
    f_pel: [[i16; 8]; 8],
) -> spec_fn(int, int) -> u8 {
    let (w, h) = component_extent(p.component, chroma);
    |r: int, c: int|
        to_sample(
            preds.plane(p.component)[(p.base_y - mb_row * h + r * p.line_step) * w + (p.base_x
                - mb_col * w) + c] + f_pel[r][c],
        )
}

/// The frame with a block of a macroblock replaced by prediction plus residual.
pub open spec fn frame_with_sum(
    frame: FrameContents,
    preds: MacroblockPlanes,
    chroma: ChromaFormat,
    p: BlockPlacement,
    mb_col: int,
    mb_row: int,
    f_pel: [[i16; 8]; 8],
) -> FrameContents {
    frame_with_block(frame, p, sum_samples(preds, chroma, p, mb_col, mb_row, f_pel))
}

/// Writes prediction plus residual into a block of a macroblock.
pub fn write_inter_block(
    frame: &mut FrameBuffer,
    preds: &(Vec<u8>, Vec<u8>, Vec<u8>),
    chroma: ChromaFormat,
    p: BlockPlacement,
    mb_col: usize,
    mb_row: usize,
    f_pel: &[[i16; 8]; 8],
)
    requires
        macroblock_addressable(mb_col as int, mb_row as int),
        placed_in_macroblock(p, chroma, mb_col as int, mb_row as int),
        planes_view(*preds).wf(chroma),
    ensures
        final(frame)@ == frame_with_sum(
            old(frame)@,
            planes_view(*preds),
            chroma,
            p,
            mb_col as int,
            mb_row as int,
            *f_pel,
        ),
        final(frame)@.plane(p.component).wf(),
{
    let (w, h) = extent(p.component, chroma);
    let pred = component_slice(preds, p.component);
    let ghost planes = planes_view(*preds);
    assert(mb_col * w <= mb_col * 16 && mb_row * h <= mb_row * 16) by (nonlinear_arith)
        requires
            0 <= mb_col,
            0 <= mb_row,
            w <= 16,
            h <= 16,
    ;
    assert(0 <= mb_col * w && 0 <= mb_row * h) by (nonlinear_arith);
    let lx: usize = p.base_x - mb_col * w;
    let ly: usize = p.base_y - mb_row * h;
    let ghost want = sum_samples(planes, chroma, p, mb_col as int, mb_row as int, *f_pel);
    let mut values = [[0u8; 8]; 8];
    let mut r: usize = 0;
    while r < 8
        invariant
            r <= 8,
            (w as int, h as int) == component_extent(p.component, chroma),
            lx == p.base_x - mb_col * w,
            ly == p.base_y - mb_row * h,
            placed_in_macroblock(p, chroma, mb_col as int, mb_row as int),
            planes.wf(chroma),
            pred@ == planes.plane(p.component),
            want == sum_samples(planes, chroma, p, mb_col as int, mb_row as int, *f_pel),
            forall|a: int, b: int|
                0 <= a < r && 0 <= b < 8 ==> #[trigger] values[a][b] == want(a, b),
        decreases 8 - r,
    {
        let mut c: usize = 0;
        while c < 8
            invariant
                c <= 8,
                r < 8,
                (w as int, h as int) == component_extent(p.component, chroma),
                lx == p.base_x - mb_col * w,
                ly == p.base_y - mb_row * h,
                placed_in_macroblock(p, chroma, mb_col as int, mb_row as int),
                planes.wf(chroma),
                pred@ == planes.plane(p.component),
                want == sum_samples(planes, chroma, p, mb_col as int, mb_row as int, *f_pel),
                forall|a: int, b: int|
                    0 <= a < r && 0 <= b < 8 ==> #[trigger] values[a][b] == want(a, b),
                forall|b: int|
                    0 <= b < c ==> #[trigger] values[r as int][b] == want(r as int, b),
            decreases 8 - c,
        {
            let dy: usize = if p.line_step == 2 {
                2 * r
            } else {
                r
            };
            assert(dy == r * p.line_step) by (nonlinear_arith)
                requires
                    p.line_step == 1 || p.line_step == 2,
                    p.line_step == 2 ==> dy == 2 * r,
                    p.line_step == 1 ==> dy == r,
            ;
            assert(dy <= 7 * p.line_step) by (nonlinear_arith)
                requires
                    dy == r * p.line_step,
                    r <= 7,
                    1 <= p.line_step,
            ;
            let row: usize = ly + dy;
            let col: usize = lx + c;
            assert(row < h && col < w);
            assert(0 <= row * w && row * w + col < w * h) by (nonlinear_arith)
                requires
                    0 <= row < h,
                    0 <= col < w,
            ;
            let sum: i32 = pred[row * w + col] as i32 + f_pel[r][c] as i32;
            values[r][c] = if sum < 0 {
                0
            } else if sum > 255 {
                255
            } else {
                sum as u8
            };
            assert(values[r as int][c as int] == want(r as int, c as int));
            c += 1;
        }
        r += 1;
    }
    let ghost start = frame@;
    put_block(frame, p, &values);
    proof {
        lemma_same_block(start.plane(p.component), p, |r: int, c: int| values[r][c], want);
    }
}

/// A block of residual values and its place in the macroblock.
#[derive(Clone, Copy)]
pub struct ResidualBlock {
    pub block_index: u8,
    pub f_pel: [[i16; 8]; 8],
}

/// No residual.
pub open spec fn zero_residual() -> [[i16; 8]; 8] {
    [
        [0i16, 0, 0, 0, 0, 0, 0, 0],
        [0i16, 0, 0, 0, 0, 0, 0, 0],
        [0i16, 0, 0, 0, 0, 0, 0, 0],
        [0i16, 0, 0, 0, 0, 0, 0, 0],
        [0i16, 0, 0, 0, 0, 0, 0, 0],
        [0i16, 0, 0, 0, 0, 0, 0, 0],
        [0i16, 0, 0, 0, 0, 0, 0, 0],
        [0i16, 0, 0, 0, 0, 0, 0, 0],
    ]
}

/// A residual whose entries are zero is none.
pub proof fn lemma_zero_residual(f: [[i16; 8]; 8])
    requires
        forall|v: int, u: int| 0 <= v < 8 && 0 <= u < 8 ==> #[trigger] f[v][u] == 0,
    ensures
        f == zero_residual(),
{
    assert forall|a: int| 0 <= a < 8 implies f[a] == zero_residual()[a] by {
        assert forall|b: int| 0 <= b < 8 implies f[a][b] == zero_residual()[a][b] by {
            assert(f[a][b] == 0);
        }
        assert(f[a] =~= zero_residual()[a]);
    }
    assert(f =~= zero_residual());
}

/// The frame with the first `n` blocks of a macroblock set to their prediction.
pub open spec fn frame_with_prediction(
    frame: FrameContents,
    preds: MacroblockPlanes,
    chroma: ChromaFormat,
    mb_col: int,
    mb_row: int,
    n: int,
) -> FrameContents
    decreases n,
{
    if n <= 0 {
        frame
    } else {
        frame_with_sum(
            frame_with_prediction(frame, preds, chroma, mb_col, mb_row, n - 1),
            preds,
            chroma,
            placement_of(n - 1, chroma, mb_col, mb_row, false),
            mb_col,
            mb_row,
            zero_residual(),
        )
    }
}

/// The frame with the first `n` residual blocks added to the prediction; a block
/// that the format does not have is passed over.
pub open spec fn frame_with_residuals(
    frame: FrameContents,
    preds: MacroblockPlanes,
    chroma: ChromaFormat,
    mb_col: int,
    mb_row: int,
    field_dct: bool,
    residuals: Seq<ResidualBlock>,
    n: int,
) -> FrameContents
    decreases n,
{
    if n <= 0 {
        frame
    } else {
        let before = frame_with_residuals(
            frame,
            preds,
            chroma,
            mb_col,
            mb_row,
            field_dct,
            residuals,
            n - 1,
        );
        let b = residuals[n - 1];
        if b.block_index >= chroma.spec_blocks_per_mb() {
            before
        } else {
            frame_with_sum(
                before,
                preds,
                chroma,
                placement_of(b.block_index as int, chroma, mb_col, mb_row, field_dct),
                mb_col,
                mb_row,
                b.f_pel,
            )
        }
    }
}

/// The frame with a macroblock predicted and its residual added.
pub open spec fn inter_macroblock(
    frame: FrameContents,
    refs: ReferenceContents,
    mb_col: int,
    mb_row: int,
    field_dct: bool,
    motion: FrameMotion,
    residuals: Seq<ResidualBlock>,
) -> FrameContents {
    let chroma = frame.chroma_format;
    let preds = predicted_planes(refs, motion, chroma, mb_col, mb_row);
    frame_with_residuals(
        frame_with_prediction(
            frame,
            preds,
            chroma,
            mb_col,
            mb_row,
            chroma.spec_blocks_per_mb(),
        ),
        preds,
        chroma,
        mb_col,
        mb_row,
        field_dct,
        residuals,
        residuals.len() as int,
    )
}

/// Predicts a macroblock and adds its residual.
pub fn reconstruct_inter_macroblock(
    frame: &mut FrameBuffer,
    references: ReferenceFrames<'_>,
    mb_col: usize,
    mb_row: usize,
    field_dct: bool,
    motion: FrameMotion,
    residuals: &[ResidualBlock],
) -> (res: Result<()>)
    requires
        macroblock_addressable(mb_col as int, mb_row as int),
    ensures
        match prediction_error(references@, motion) {
            Some(e) => res == Err::<(), Error>(e) && final(frame)@ == old(frame)@,
            None => res == Ok::<(), Error>(()) && final(frame)@ == inter_macroblock(
                old(frame)@,
                references@,
                mb_col as int,
                mb_row as int,
                field_dct,
                motion,
                residuals@,
            ),
        },
        final(frame).width == old(frame).width,
        final(frame).height == old(frame).height,
        final(frame).chroma_format == old(frame).chroma_format,
{
    let chroma = frame.chroma_format;
    let preds = predict_frame_macroblock_planes(chroma, references, mb_col, mb_row, motion)?;
    let ghost planes = planes_view(preds);
    let ghost start = frame@;
    let n = block_count(chroma);
    let zero = [[0i16; 8]; 8];
    proof {
        lemma_zero_residual(zero);
    }
    let mut i: usize = 0;
    while i < n
        invariant
            i <= n,
            n == chroma.spec_blocks_per_mb(),
            macroblock_addressable(mb_col as int, mb_row as int),
            planes == planes_view(preds),
            planes.wf(chroma),
            zero == zero_residual(),
            start.chroma_format == chroma,
            frame@ == frame_with_prediction(
                start,
                planes,
                chroma,
                mb_col as int,
                mb_row as int,
                i as int,
            ),
            frame.width == old(frame).width,
            frame.height == old(frame).height,
            frame.chroma_format == old(frame).chroma_format,
        decreases n - i,
    {
        match block_placement(i, chroma, mb_col, mb_row, false) {
            Some(p) => {
                write_inter_block(frame, &preds, chroma, p, mb_col, mb_row, &zero);
            },
            None => {},
        }
        i += 1;
    }
    let ghost middle = frame@;
    let mut k: usize = 0;
    while k < residuals.len()
        invariant
            k <= residuals@.len(),
            macroblock_addressable(mb_col as int, mb_row as int),
            planes == planes_view(preds),
            planes.wf(chroma),
            frame@ == frame_with_residuals(
                middle,
                planes,
                chroma,
                mb_col as int,
                mb_row as int,
                field_dct,
                residuals@,
                k as int,
            ),
            frame.width == old(frame).width,
            frame.height == old(frame).height,
            frame.chroma_format == old(frame).chroma_format,
        decreases residuals@.len() - k,
    {
        let b = residuals[k];
        match block_placement(b.block_index as usize, chroma, mb_col, mb_row, field_dct) {
            Some(p) => {
                write_inter_block(frame, &preds, chroma, p, mb_col, mb_row, &b.f_pel);
            },
            None => {},
        }
        k += 1;
    }
    Ok(())
}

/// The prediction of one component.
pub fn component_slice(preds: &(Vec<u8>, Vec<u8>, Vec<u8>), c: ColourComponent) -> (r: &[u8])
    ensures
        r@ == planes_view(*preds).plane(c),
{
    match c {
        ColourComponent::Y => preds.0.as_slice(),
        ColourComponent::Cb => preds.1.as_slice(),
        ColourComponent::Cr => preds.2.as_slice(),
    }
}

/// The frame with the first `n` blocks of a macroblock set to prediction plus
/// residual.
pub open spec fn frame_with_blocks(
    frame: FrameContents,
    preds: MacroblockPlanes,
    chroma: ChromaFormat,
    mb_col: int,
    mb_row: int,
    f_pels: Seq<[[i16; 8]; 8]>,
    n: int,
) -> FrameContents
    decreases n,
{
    if n <= 0 {
        frame
    } else {
        frame_with_sum(
            frame_with_blocks(frame, preds, chroma, mb_col, mb_row, f_pels, n - 1),
            preds,
            chroma,
            placement_of(n - 1, chroma, mb_col, mb_row, false),
            mb_col,
            mb_row,
            f_pels[n - 1],
        )
    }
}

/// A frame after `n` macroblocks from an address on were predicted alike, without
/// residuals.
pub open spec fn predicted_run(
    frame: FrameContents,
    refs: ReferenceContents,
    address: int,
    n: int,
    mb_width: int,
    motion: FrameMotion,
) -> FrameContents
    decreases n,
{
    if n <= 0 {
        frame
    } else {
        let a = address + n - 1;
        inter_macroblock(
            predicted_run(frame, refs, address, n - 1, mb_width, motion),
            refs,
            a % mb_width,
            a / mb_width,
            false,
            motion,
            Seq::empty(),
        )
    }
}

} // verus!
