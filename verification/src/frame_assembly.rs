//! Frames: planes of samples, and where the blocks of a macroblock lie in them.

use crate::arith::{blocks_of_16, clamp_int, div_ceil_16};
use crate::mpeg2_block_dc::ColourComponent;
use crate::mpeg2_macroblock_blocks::{block_component, component_of};
use crate::slice_macroblock_walk::MacroblockRecord;
use crate::mpeg2_macroblock_blocks::DecodedBlock;
use crate::picture::{subsampled_up, ChromaFormat};
use vstd::prelude::*;

verus! {

/// A rectangle of samples.
pub struct Plane {
    width: usize,
    height: usize,
    samples: Vec<u8>,
}

/// What a plane holds, row by row.
pub struct PlaneContents {
    pub width: int,
    pub height: int,
    pub samples: Seq<u8>,
}

impl PlaneContents {
    pub open spec fn wf(self) -> bool {
        &&& 0 <= self.width
        &&& 0 <= self.height
        &&& self.samples.len() == self.width * self.height
    }

    /// Whether `(x, y)` is a sample of the plane.
    pub open spec fn has(self, x: int, y: int) -> bool {
        0 <= x < self.width && 0 <= y < self.height
    }

    /// The sample in column `x` and row `y`.
    pub open spec fn at(self, x: int, y: int) -> u8 {
        self.samples[y * self.width + x]
    }

    /// The sample at `(x, y)`, or `none` where the plane has none.
    pub open spec fn sample(self, x: int, y: int) -> Option<u8> {
        if self.has(x, y) {
            Some(self.at(x, y))
        } else {
            None
        }
    }

    /// The plane with the sample at `(x, y)` replaced, if it has one.
    pub open spec fn put(self, x: int, y: int, v: u8) -> PlaneContents {
        if self.has(x, y) {
            PlaneContents { samples: self.samples.update(y * self.width + x, v), ..self }
        } else {
            self
        }
    }

    /// The sample nearest to `(x, y)`, or `fallback` where the plane is empty.
    pub open spec fn nearest(self, x: int, y: int, fallback: u8) -> u8 {
        if self.width == 0 || self.height == 0 {
            fallback
        } else {
            self.at(clamp_int(x, 0, self.width - 1), clamp_int(y, 0, self.height - 1))
        }
    }
}

/// The plane of a size whose sample at `(x, y)` is `f(x, y)`.
#[verifier::opaque]
pub open spec fn plane_of(width: int, height: int, f: spec_fn(int, int) -> u8) -> PlaneContents {
    PlaneContents {
        width,
        height,
        samples: Seq::new((width * height) as nat, |i: int| f(i % width, i / width)),
    }
}

pub proof fn lemma_index(x: int, y: int, width: int, height: int)
    requires
        0 <= x < width,
        0 <= y < height,
    ensures
        0 <= y * width + x < width * height,
        (y * width + x) % width == x,
        (y * width + x) / width == y,
{
    vstd::arithmetic::div_mod::lemma_fundamental_div_mod_converse(y * width + x, width, y, x);
    assert(0 <= y * width + x < width * height) by (nonlinear_arith)
        requires
            0 <= x < width,
            0 <= y < height,
    ;
}

proof fn lemma_cell(i: int, width: int, height: int)
    requires
        0 <= i < width * height,
        0 <= width,
        0 <= height,
    ensures
        0 <= i % width < width,
        0 <= i / width < height,
        (i / width) * width + i % width == i,
{
    assert(width > 0) by (nonlinear_arith)
        requires
            0 <= i < width * height,
            0 <= width,
            0 <= height,
    ;
    vstd::arithmetic::div_mod::lemma_fundamental_div_mod(i, width);
    vstd::arithmetic::div_mod::lemma_mod_bound(i, width);
    vstd::arithmetic::div_mod::lemma_div_pos_is_pos(i, width);
    let q = i / width;
    let r = i % width;
    assert(width * q == q * width) by (nonlinear_arith);
    assert(q < height) by (nonlinear_arith)
        requires
            q * width + r == i,
            0 <= r,
            i < width * height,
            width > 0,
    ;
}

/// A plane is determined by its samples.
pub proof fn lemma_plane_of(p: PlaneContents, f: spec_fn(int, int) -> u8)
    requires
        p.wf(),
        forall|x: int, y: int| p.has(x, y) ==> #[trigger] p.at(x, y) == f(x, y),
    ensures
        p == plane_of(p.width, p.height, f),
{
    reveal(plane_of);
    let q = plane_of(p.width, p.height, f);
    assert forall|i: int| 0 <= i < p.samples.len() implies p.samples[i] == q.samples[i] by {
        lemma_cell(i, p.width, p.height);
        assert(p.has(i % p.width, i / p.width));
        assert(p.at(i % p.width, i / p.width) == p.samples[i]);
    }
    assert(p.samples =~= q.samples);
}

/// The samples of `plane_of`.
pub proof fn lemma_plane_samples(width: int, height: int, f: spec_fn(int, int) -> u8)
    requires
        0 <= width,
        0 <= height,
    ensures
        plane_of(width, height, f).wf(),
        plane_of(width, height, f).width == width,
        plane_of(width, height, f).height == height,
        forall|x: int, y: int|
            0 <= x < width && 0 <= y < height ==> #[trigger] plane_of(width, height, f).at(x, y)
                == f(x, y),
{
    reveal(plane_of);
    assert(0 <= width * height) by (nonlinear_arith)
        requires
            0 <= width,
            0 <= height,
    ;
    assert forall|x: int, y: int|
        0 <= x < width && 0 <= y < height implies #[trigger] plane_of(width, height, f).at(x, y)
        == f(x, y) by {
        lemma_index(x, y, width, height);
    }
}

/// Replacing one sample replaces that one only.
pub proof fn law_put_changes_one_sample(p: PlaneContents, x: int, y: int, v: u8, a: int, b: int)
    requires
        p.wf(),
        p.has(a, b),
    ensures
        p.put(x, y, v).wf(),
        p.put(x, y, v).has(a, b),
        p.put(x, y, v).at(a, b) == (if a == x && b == y {
            v
        } else {
            p.at(a, b)
        }),
{
    lemma_index(a, b, p.width, p.height);
    if p.has(x, y) {
        lemma_index(x, y, p.width, p.height);
    }
}

impl View for Plane {
    type V = PlaneContents;

    closed spec fn view(&self) -> PlaneContents {
        PlaneContents {
            width: self.width as int,
            height: self.height as int,
            samples: self.samples@,
        }
    }
}

/// The plane of a size with every sample zero.
pub open spec fn zero_plane(width: int, height: int) -> PlaneContents {
    PlaneContents {
        width,
        height,
        samples: Seq::new((width * height) as nat, |i: int| 0u8),
    }
}

impl Clone for Plane {
    fn clone(&self) -> (r: Self)
        ensures
            r@ == self@,
    {
        proof {
            use_type_invariant(self);
        }
        let samples = self.samples.clone();
        assert(samples@ =~= self.samples@);
        Plane { width: self.width, height: self.height, samples }
    }
}

impl Plane {
    #[verifier::type_invariant]
    spec fn inv(self) -> bool {
        self.samples@.len() == self.width * self.height
    }

    /// A plane of zero samples.
    pub fn new(width: usize, height: usize) -> (p: Self)
        requires
            width * height <= isize::MAX,
        ensures
            p@ == zero_plane(width as int, height as int),
            p@.wf(),
    {
        assert(0 <= width * height) by (nonlinear_arith);
        let samples = vec![0u8; width * height];
        assert(samples@ =~= zero_plane(width as int, height as int).samples);
        Plane { width, height, samples }
    }

    /// The number of columns.
    pub fn width(&self) -> (w: usize)
        ensures
            w == self@.width,
            self@.wf(),
    {
        proof {
            use_type_invariant(self);
        }
        self.width
    }

    /// The number of rows.
    pub fn height(&self) -> (h: usize)
        ensures
            h == self@.height,
            self@.wf(),
    {
        proof {
            use_type_invariant(self);
        }
        self.height
    }

    /// The sample in column `x` and row `y`, if there is one.
    pub fn get(&self, x: usize, y: usize) -> (r: Option<u8>)
        ensures
            r == self@.sample(x as int, y as int),
            self@.wf(),
    {
        proof {
            use_type_invariant(self);
        }
        if x < self.width && y < self.height {
            let len: usize = self.samples.len();
            proof {
                lemma_index(x as int, y as int, self.width as int, self.height as int);
                assert(0 <= y * self.width) by (nonlinear_arith)
                    requires
                        0 <= y,
                        0 <= self.width,
                ;
            }
            Some(self.samples[y * self.width + x])
        } else {
            None
        }
    }

    /// Replaces the sample in column `x` and row `y`; outside the plane nothing
    /// happens.
    pub fn put_sample(&mut self, x: usize, y: usize, v: u8)
        ensures
            final(self)@ == old(self)@.put(x as int, y as int, v),
            final(self)@.wf(),
            old(self)@.wf(),
    {
        proof {
            use_type_invariant(&*self);
        }
        if x < self.width && y < self.height {
            let len: usize = self.samples.len();
            proof {
                lemma_index(x as int, y as int, self.width as int, self.height as int);
                assert(0 <= y * self.width) by (nonlinear_arith)
                    requires
                        0 <= y,
                        0 <= self.width,
                ;
            }
            let i: usize = y * self.width + x;
            self.samples[i] = v;
        }
    }

    /// The sample nearest to column `x` and row `y`, or `fallback` where the
    /// plane is empty.
    pub fn get_nearest(&self, x: usize, y: usize, fallback: u8) -> (r: u8)
        ensures
            r == self@.nearest(x as int, y as int, fallback),
    {
        let w = self.width();
        let h = self.height();
        if w == 0 || h == 0 {
            return fallback;
        }
        let sx: usize = if x < w {
            x
        } else {
            w - 1
        };
        let sy: usize = if y < h {
            y
        } else {
            h - 1
        };
        match self.get(sx, sy) {
            Some(v) => v,
            None => fallback,
        }
    }
}

/// A picture: a luminance plane and two chrominance planes.
pub struct FrameBuffer {
    pub width: usize,
    pub height: usize,
    pub chroma_format: ChromaFormat,
    pub y: Plane,
    pub cb: Plane,
    pub cr: Plane,
}

/// What a frame holds.
pub struct FrameContents {
    pub width: int,
    pub height: int,
    pub chroma_format: ChromaFormat,
    pub y: PlaneContents,
    pub cb: PlaneContents,
    pub cr: PlaneContents,
}

impl FrameContents {
    pub open spec fn plane(self, c: ColourComponent) -> PlaneContents {
        match c {
            ColourComponent::Y => self.y,
            ColourComponent::Cb => self.cb,
            ColourComponent::Cr => self.cr,
        }
    }

    pub open spec fn with_plane(self, c: ColourComponent, p: PlaneContents) -> FrameContents {
        match c {
            ColourComponent::Y => FrameContents { y: p, ..self },
            ColourComponent::Cb => FrameContents { cb: p, ..self },
            ColourComponent::Cr => FrameContents { cr: p, ..self },
        }
    }

    pub open spec fn wf(self) -> bool {
        self.y.wf() && self.cb.wf() && self.cr.wf()
    }
}

impl View for FrameBuffer {
    type V = FrameContents;

    open spec fn view(&self) -> FrameContents {
        FrameContents {
            width: self.width as int,
            height: self.height as int,
            chroma_format: self.chroma_format,
            y: self.y@,
            cb: self.cb@,
            cr: self.cr@,
        }
    }
}

impl Clone for FrameBuffer {
    fn clone(&self) -> (r: Self)
        ensures
            r@ == self@,
    {
        FrameBuffer {
            width: self.width,
            height: self.height,
            chroma_format: self.chroma_format,
            y: self.y.clone(),
            cb: self.cb.clone(),
            cr: self.cr.clone(),
        }
    }
}

/// The width of the chrominance planes of a frame.
pub open spec fn chroma_width(width: int, chroma_format: ChromaFormat) -> int {
    subsampled_up(width, chroma_format.spec_h_shift())
}

/// The height of the chrominance planes of a frame.
pub open spec fn chroma_height(height: int, chroma_format: ChromaFormat) -> int {
    subsampled_up(height, chroma_format.spec_v_shift())
}

/// The frame of a size with every sample zero.
pub open spec fn zero_frame(width: int, height: int, chroma_format: ChromaFormat) -> FrameContents {
    let c = zero_plane(chroma_width(width, chroma_format), chroma_height(height, chroma_format));
    FrameContents { width, height, chroma_format, y: zero_plane(width, height), cb: c, cr: c }
}

/// A frame of zero samples has the samples of its size.
pub proof fn lemma_zero_frame_wf(width: int, height: int, chroma: ChromaFormat)
    requires
        0 <= width,
        0 <= height,
    ensures
        zero_frame(width, height, chroma).wf(),
{
    let c = (width + 1) / 2;
    let d = (height + 1) / 2;
    assert(0 <= width * height && 0 <= c * d && 0 <= c * height) by (nonlinear_arith)
        requires
            0 <= width,
            0 <= height,
            0 <= c,
            0 <= d,
    ;
}

/// Whether a frame of this size can be allocated and addressed.
pub open spec fn frame_fits(width: int, height: int) -> bool {
    &&& 0 <= width < usize::MAX
    &&& 0 <= height < usize::MAX
    &&& width * height <= isize::MAX
}

impl FrameBuffer {
    /// A frame of zero samples.
    pub fn new(width: usize, height: usize, chroma_format: ChromaFormat) -> (f: Self)
        requires
            frame_fits(width as int, height as int),
        ensures
            f@ == zero_frame(width as int, height as int, chroma_format),
            f@.wf(),
    {
        let cw: usize = if chroma_format.chroma_h_shift() == 1 {
            (width + 1) / 2
        } else {
            width
        };
        let ch: usize = if chroma_format.chroma_v_shift() == 1 {
            (height + 1) / 2
        } else {
            height
        };
        assert(cw * ch <= width * height) by (nonlinear_arith)
            requires
                0 <= cw <= width,
                0 <= ch <= height,
        ;
        FrameBuffer {
            width,
            height,
            chroma_format,
            y: Plane::new(width, height),
            cb: Plane::new(cw, ch),
            cr: Plane::new(cw, ch),
        }
    }

    /// The number of columns of a component.
    pub fn plane_width(&self, c: ColourComponent) -> (w: usize)
        ensures
            w == self@.plane(c).width,
            self@.plane(c).wf(),
    {
        match c {
            ColourComponent::Y => self.y.width(),
            ColourComponent::Cb => self.cb.width(),
            ColourComponent::Cr => self.cr.width(),
        }
    }

    /// Replaces a sample of a component.
    pub fn put(&mut self, c: ColourComponent, x: usize, y: usize, v: u8)
        ensures
            final(self)@ == old(self)@.with_plane(
                c,
                old(self)@.plane(c).put(x as int, y as int, v),
            ),
            final(self)@.plane(c).wf(),
            old(self)@.plane(c).wf(),
    {
        match c {
            ColourComponent::Y => self.y.put_sample(x, y, v),
            ColourComponent::Cb => self.cb.put_sample(x, y, v),
            ColourComponent::Cr => self.cr.put_sample(x, y, v),
        }
    }

    /// The sample of a component nearest to a place.
    pub fn get_nearest(&self, c: ColourComponent, x: usize, y: usize, fallback: u8) -> (r: u8)
        ensures
            r == self@.plane(c).nearest(x as int, y as int, fallback),
    {
        match c {
            ColourComponent::Y => self.y.get_nearest(x, y, fallback),
            ColourComponent::Cb => self.cb.get_nearest(x, y, fallback),
            ColourComponent::Cr => self.cr.get_nearest(x, y, fallback),
        }
    }
}

/// Where a block lies: its component, its first sample, and how far apart its
/// lines are.
#[derive(Debug, Clone, Copy, PartialEq, Eq)]
pub struct BlockPlacement {
    pub component: ColourComponent,
    pub base_x: usize,
    pub base_y: usize,
    /// 1, or 2 where the block codes the lines of one field.
    pub line_step: usize,
}

/// The columns and rows of a component in a macroblock.
pub open spec fn component_extent(c: ColourComponent, chroma: ChromaFormat) -> (int, int) {
    if c == ColourComponent::Y {
        (16, 16)
    } else {
        (
            if chroma.spec_h_shift() == 1 {
                8
            } else {
                16
            },
            if chroma.spec_v_shift() == 1 {
                8
            } else {
                16
            },
        )
    }
}

/// The number of block `i` among the blocks of its component.
pub open spec fn index_in_component(i: int, chroma: ChromaFormat) -> int {
    let each = (chroma.spec_blocks_per_mb() - 4) / 2;
    if i < 4 {
        i
    } else if i < 4 + each {
        i - 4
    } else {
        i - 4 - each
    }
}

/// The first column and row of block `i` within its macroblock: the blocks of a
/// component lie in rows from left to right. Field blocks start on the first line
/// of their field.
pub open spec fn block_offset(i: int, chroma: ChromaFormat, field: bool) -> (int, int) {
    let c = component_of(i, chroma)->0;
    let k = index_in_component(i, chroma);
    let (w, h) = component_extent(c, chroma);
    let col = if w == 16 {
        k % 2
    } else {
        0
    };
    let row = if w == 16 {
        k / 2
    } else {
        k
    };
    (
        8 * col,
        if field && h == 16 {
            row
        } else {
            8 * row
        },
    )
}

/// Where block `i` of a macroblock lies.
pub open spec fn placement_of(
    i: int,
    chroma: ChromaFormat,
    mb_col: int,
    mb_row: int,
    field: bool,
) -> BlockPlacement {
    let c = component_of(i, chroma)->0;
    let (w, h) = component_extent(c, chroma);
    let (dx, dy) = block_offset(i, chroma, field);
    BlockPlacement {
        component: c,
        base_x: (mb_col * w + dx) as usize,
        base_y: (mb_row * h + dy) as usize,
        line_step: if field && h == 16 {
            2
        } else {
            1
        },
    }
}

/// Whether every sample of a macroblock has addressable coordinates.
pub open spec fn macroblock_addressable(mb_col: int, mb_row: int) -> bool {
    0 <= mb_col && 0 <= mb_row && mb_col * 16 + 16 <= usize::MAX && mb_row * 16 + 16 <= usize::MAX
}

/// Whether the samples of the macroblock at `address` have coordinates that can be
/// held, in a frame that is `mb_width` macroblocks wide.
pub open spec fn locatable(address: int, mb_width: int) -> bool {
    macroblock_addressable(address % mb_width, address / mb_width)
}

/// An address of 28 bits can be located.
pub proof fn lemma_locatable(address: int, mb_width: int)
    requires
        0 <= address < 0x0FFF_FFFF,
        mb_width > 0,
    ensures
        locatable(address, mb_width),
{
    assert(0 <= address / mb_width <= address && 0 <= address % mb_width <= address)
        by (nonlinear_arith)
        requires
            0 <= address,
            mb_width > 0,
    ;
}

/// Where block `i` of a macroblock lies, or none where the format has no such
/// block.
pub fn block_placement(
    i: usize,
    chroma: ChromaFormat,
    mb_col: usize,
    mb_row: usize,
    field: bool,
) -> (r: Option<BlockPlacement>)
    requires
        macroblock_addressable(mb_col as int, mb_row as int),
    ensures
        match r {
            Some(p) => i < chroma.spec_blocks_per_mb() && p == placement_of(
                i as int,
                chroma,
                mb_col as int,
                mb_row as int,
                field,
            ) && placed_in_macroblock(p, chroma, mb_col as int, mb_row as int),
            None => i >= chroma.spec_blocks_per_mb(),
        },
{
    let component = match block_component(i, chroma) {
        Some(c) => c,
        None => {
            return None;
        },
    };
    let each: usize = match chroma {
        ChromaFormat::Yuv420 => 1,
        ChromaFormat::Yuv422 => 2,
        ChromaFormat::Yuv444 => 4,
    };
    let k: usize = if i < 4 {
        i
    } else if i < 4 + each {
        i - 4
    } else {
        i - 4 - each
    };
    let (w, h): (usize, usize) = match component {
        ColourComponent::Y => (16, 16),
        _ => match chroma {
            ChromaFormat::Yuv420 => (8, 8),
            ChromaFormat::Yuv422 => (8, 16),
            ChromaFormat::Yuv444 => (16, 16),
        },
    };
    let col: usize = if w == 16 {
        k % 2
    } else {
        0
    };
    let row: usize = if w == 16 {
        k / 2
    } else {
        k
    };
    let split = field && h == 16;
    assert(mb_col * w <= mb_col * 16 && mb_row * h <= mb_row * 16) by (nonlinear_arith)
        requires
            0 <= mb_col,
            0 <= mb_row,
            w <= 16,
            h <= 16,
    ;
    assert(0 <= mb_col * w && 0 <= mb_row * h) by (nonlinear_arith);
    let dy: usize = if split {
        row
    } else {
        8 * row
    };
    Some(
        BlockPlacement {
            component,
            base_x: mb_col * w + 8 * col,
            base_y: mb_row * h + dy,
            line_step: if split {
                2
            } else {
                1
            },
        },
    )
}

/// Whether a block lies within its macroblock.
pub open spec fn placed_in_macroblock(
    p: BlockPlacement,
    chroma: ChromaFormat,
    mb_col: int,
    mb_row: int,
) -> bool {
    let (w, h) = component_extent(p.component, chroma);
    &&& 1 <= p.line_step <= 2
    &&& mb_col * w <= p.base_x
    &&& p.base_x + 8 <= mb_col * w + w
    &&& mb_row * h <= p.base_y
    &&& p.base_y + 7 * p.line_step < mb_row * h + h
    &&& p.base_x + 8 <= usize::MAX
    &&& p.base_y + 16 <= usize::MAX + 16
    &&& p.base_y + 7 * p.line_step <= usize::MAX
}

/// The row of a block that line `y` of the plane belongs to.
pub open spec fn block_line(p: BlockPlacement, y: int) -> int {
    if p.line_step == 2 {
        (y - p.base_y) / 2
    } else {
        y - p.base_y
    }
}

/// Whether `(x, y)` is a sample of a block.
pub open spec fn in_block(p: BlockPlacement, x: int, y: int) -> bool {
    &&& p.base_x <= x < p.base_x + 8
    &&& p.base_y <= y
    &&& block_line(p, y) < 8
    &&& p.line_step == 2 ==> (y - p.base_y) % 2 == 0
}

pub open spec fn block_samples(
    old_plane: PlaneContents,
    p: BlockPlacement,
    v: spec_fn(int, int) -> u8,
) -> spec_fn(int, int) -> u8 {
    |x: int, y: int|
        if in_block(p, x, y) {
            v(block_line(p, y), x - p.base_x)
        } else {
            old_plane.at(x, y)
        }
}

/// The plane with the samples of a block replaced by `v(row, column)`.
pub open spec fn plane_with_block(
    plane: PlaneContents,
    p: BlockPlacement,
    v: spec_fn(int, int) -> u8,
) -> PlaneContents {
    plane_of(plane.width, plane.height, block_samples(plane, p, v))
}

/// The frame with the samples of a block replaced by `v(row, column)`.
pub open spec fn frame_with_block(
    frame: FrameContents,
    p: BlockPlacement,
    v: spec_fn(int, int) -> u8,
) -> FrameContents {
    frame.with_plane(p.component, plane_with_block(frame.plane(p.component), p, v))
}

/// A sample of the range from 0 to 255.
pub open spec fn to_sample(x: int) -> u8 {
    clamp_int(x, 0, 255) as u8
}

/// The samples that a block of values saturates to.
pub open spec fn saturated_samples(f_pel: [[i16; 8]; 8]) -> spec_fn(int, int) -> u8 {
    |r: int, c: int| to_sample(f_pel[r][c] as int)
}

/// Whether a sample of a block precedes entry `(r, c)` of the block.
pub open spec fn before_entry(p: BlockPlacement, x: int, y: int, r: int, c: int) -> bool {
    block_line(p, y) < r || block_line(p, y) == r && x - p.base_x < c
}

/// Puts a block of samples into a frame.
pub fn put_block(frame: &mut FrameBuffer, p: BlockPlacement, values: &[[u8; 8]; 8])
    requires
        1 <= p.line_step <= 2,
        p.base_x + 8 <= usize::MAX,
        p.base_y + 7 * p.line_step <= usize::MAX,
    ensures
        final(frame)@ == frame_with_block(
            old(frame)@,
            p,
            |r: int, c: int| values[r][c],
        ),
        final(frame)@.plane(p.component).wf(),
{
    let ghost v = |r: int, c: int| values[r][c];
    let ghost start = frame@;
    let ghost plane0 = start.plane(p.component);
    let _ = frame.plane_width(p.component);
    let mut r: usize = 0;
    while r < 8
        invariant
            r <= 8,
            1 <= p.line_step <= 2,
            p.base_x + 8 <= usize::MAX,
            p.base_y + 7 * p.line_step <= usize::MAX,
            v == (|r: int, c: int| values[r][c]),
            plane0 == start.plane(p.component),
            plane0.wf(),
            frame@ == start.with_plane(p.component, frame@.plane(p.component)),
            frame@.plane(p.component).wf(),
            frame@.plane(p.component).width == plane0.width,
            frame@.plane(p.component).height == plane0.height,
            forall|x: int, y: int|
                plane0.has(x, y) ==> #[trigger] frame@.plane(p.component).at(x, y) == (if in_block(
                    p,
                    x,
                    y,
                ) && before_entry(p, x, y, r as int, 0) {
                    v(block_line(p, y), x - p.base_x)
                } else {
                    plane0.at(x, y)
                }),
        decreases 8 - r,
    {
        let mut c: usize = 0;
        while c < 8
            invariant
                c <= 8,
                r < 8,
                1 <= p.line_step <= 2,
                p.base_x + 8 <= usize::MAX,
                p.base_y + 7 * p.line_step <= usize::MAX,
                v == (|r: int, c: int| values[r][c]),
                plane0 == start.plane(p.component),
                plane0.wf(),
                frame@ == start.with_plane(p.component, frame@.plane(p.component)),
                frame@.plane(p.component).wf(),
                frame@.plane(p.component).width == plane0.width,
                frame@.plane(p.component).height == plane0.height,
                forall|x: int, y: int|
                    plane0.has(x, y) ==> #[trigger] frame@.plane(p.component).at(x, y) == (
                    if in_block(p, x, y) && before_entry(p, x, y, r as int, c as int) {
                        v(block_line(p, y), x - p.base_x)
                    } else {
                        plane0.at(x, y)
                    }),
            decreases 8 - c,
        {
            let ghost before = frame@.plane(p.component);
            let dy: usize = if p.line_step == 2 {
                2 * r
            } else {
                r
            };
            let y: usize = p.base_y + dy;
            let x: usize = p.base_x + c;
            frame.put(p.component, x, y, values[r][c]);
            proof {
                let after = frame@.plane(p.component);
                assert forall|a: int, b: int| plane0.has(a, b) implies #[trigger] after.at(a, b)
                    == (if in_block(p, a, b) && before_entry(p, a, b, r as int, c + 1) {
                    v(block_line(p, b), a - p.base_x)
                } else {
                    plane0.at(a, b)
                }) by {
                    assert(before.has(a, b));
                    assert(before.at(a, b) == (if in_block(p, a, b) && before_entry(
                        p,
                        a,
                        b,
                        r as int,
                        c as int,
                    ) {
                        v(block_line(p, b), a - p.base_x)
                    } else {
                        plane0.at(a, b)
                    }));
                    law_put_changes_one_sample(
                        before,
                        x as int,
                        y as int,
                        values[r as int][c as int],
                        a,
                        b,
                    );
                }
            }
            c += 1;
        }
        r += 1;
    }
    proof {
        let now = frame@.plane(p.component);
        assert forall|x: int, y: int| now.has(x, y) implies #[trigger] now.at(x, y)
            == block_samples(plane0, p, v)(x, y) by {
            assert(plane0.has(x, y));
        }
        lemma_plane_of(now, block_samples(plane0, p, v));
    }
}

/// Puts a decoded intra block into a frame, saturated to samples.
pub fn place_intra_block(frame: &mut FrameBuffer, p: BlockPlacement, f_pel: &[[i16; 8]; 8])
    requires
        1 <= p.line_step <= 2,
        p.base_x + 8 <= usize::MAX,
        p.base_y + 7 * p.line_step <= usize::MAX,
    ensures
        final(frame)@ == frame_with_block(old(frame)@, p, saturated_samples(*f_pel)),
        final(frame)@.plane(p.component).wf(),
{
    let mut values = [[0u8; 8]; 8];
    let mut r: usize = 0;
    while r < 8
        invariant
            r <= 8,
            forall|a: int, b: int|
                0 <= a < r && 0 <= b < 8 ==> #[trigger] values[a][b] == to_sample(
                    f_pel[a][b] as int,
                ),
        decreases 8 - r,
    {
        let mut c: usize = 0;
        while c < 8
            invariant
                c <= 8,
                r < 8,
                forall|a: int, b: int|
                    0 <= a < r && 0 <= b < 8 ==> #[trigger] values[a][b] == to_sample(
                        f_pel[a][b] as int,
                    ),
                forall|b: int|
                    0 <= b < c ==> #[trigger] values[r as int][b] == to_sample(
                        f_pel[r as int][b] as int,
                    ),
            decreases 8 - c,
        {
            let f: i16 = f_pel[r][c];
            values[r][c] = if f < 0 {
                0
            } else if f > 255 {
                255
            } else {
                f as u8
            };
            c += 1;
        }
        r += 1;
    }
    let ghost start = frame@;
    put_block(frame, p, &values);
    proof {
        let plane0 = start.plane(p.component);
        lemma_same_block(
            plane0,
            p,
            |r: int, c: int| values[r][c],
            saturated_samples(*f_pel),
        );
    }
}

/// Blocks of equal samples give equal planes.
pub proof fn lemma_same_block(
    plane: PlaneContents,
    p: BlockPlacement,
    v: spec_fn(int, int) -> u8,
    w: spec_fn(int, int) -> u8,
)
    requires
        1 <= p.line_step <= 2,
        forall|r: int, c: int| 0 <= r < 8 && 0 <= c < 8 ==> #[trigger] v(r, c) == w(r, c),
    ensures
        plane_with_block(plane, p, v) == plane_with_block(plane, p, w),
{
    let f = block_samples(plane, p, v);
    let g = block_samples(plane, p, w);
    assert forall|x: int, y: int| #[trigger] f(x, y) == g(x, y) by {
        if in_block(p, x, y) {
            let r = block_line(p, y);
            assert(0 <= r < 8);
            assert(v(r, x - p.base_x) == w(r, x - p.base_x));
        }
    }
    assert(f =~= g);
}

/// The frame with the first `n` blocks of an intra macroblock put in; a block that
/// the format does not have is passed over.
pub open spec fn frame_with_intra(
    frame: FrameContents,
    blocks: Seq<DecodedBlock>,
    chroma: ChromaFormat,
    mb_col: int,
    mb_row: int,
    field: bool,
    n: int,
) -> FrameContents
    decreases n,
{
    if n <= 0 {
        frame
    } else {
        let before = frame_with_intra(frame, blocks, chroma, mb_col, mb_row, field, n - 1);
        let b = blocks[n - 1];
        if b.block_index >= chroma.spec_blocks_per_mb() {
            before
        } else {
            frame_with_block(
                before,
                placement_of(b.block_index as int, chroma, mb_col, mb_row, field),
                saturated_samples(b.decoded.f_pel),
            )
        }
    }
}

/// How many of the first `n` blocks the format has.
pub open spec fn blocks_in_format(blocks: Seq<DecodedBlock>, chroma: ChromaFormat, n: int) -> int
    decreases n,
{
    if n <= 0 {
        0
    } else {
        blocks_in_format(blocks, chroma, n - 1) + (if blocks[n - 1].block_index
            < chroma.spec_blocks_per_mb() {
            1int
        } else {
            0int
        })
    }
}

/// The column and the row of a macroblock, or none where they cannot be held.
pub fn find_macroblock(address: u64, mb_width: usize) -> (r: Option<(usize, usize)>)
    requires
        mb_width > 0,
    ensures
        match r {
            Some((mb_col, mb_row)) => locatable(address as int, mb_width as int) && mb_col
                == address as int % mb_width as int && mb_row == address as int / mb_width as int,
            None => !locatable(address as int, mb_width as int),
        },
{
    let limit: u64 = (usize::MAX as u64 - 16) / 16;
    let mb_col: u64 = address % (mb_width as u64);
    let mb_row: u64 = address / (mb_width as u64);
    if mb_col <= limit && mb_row <= limit {
        Some((mb_col as usize, mb_row as usize))
    } else {
        None
    }
}

/// The column and the row of a macroblock.
pub fn locate(address: u32, mb_width: usize) -> (r: (usize, usize))
    requires
        mb_width > 0,
        locatable(address as int, mb_width as int),
    ensures
        r.0 == address as int % mb_width as int,
        r.1 == address as int / mb_width as int,
        macroblock_addressable(r.0 as int, r.1 as int),
{
    (address as usize % mb_width, address as usize / mb_width)
}

/// Puts the blocks of an intra macroblock into a frame that is `mb_width`
/// macroblocks wide, and says how many there were.
pub fn place_intra_macroblock(
    frame: &mut FrameBuffer,
    record: &MacroblockRecord,
    mb_width: usize,
    chroma_format: ChromaFormat,
) -> (placed: usize)
    requires
        mb_width > 0,
        locatable(record.macroblock_address as int, mb_width as int),
    ensures
        final(frame)@ == frame_with_intra(
            old(frame)@,
            record.decoded_blocks@,
            chroma_format,
            record.macroblock_address as int % mb_width as int,
            record.macroblock_address as int / mb_width as int,
            record.dct_type == Some(true),
            record.decoded_blocks@.len() as int,
        ),
        placed == blocks_in_format(
            record.decoded_blocks@,
            chroma_format,
            record.decoded_blocks@.len() as int,
        ),
        final(frame)@.chroma_format == old(frame)@.chroma_format,
{
    let (mb_col, mb_row) = locate(record.macroblock_address, mb_width);
    let field = match record.dct_type {
        Some(f) => f,
        None => false,
    };
    let blocks = &record.decoded_blocks;
    let ghost start = frame@;
    let mut placed: usize = 0;
    let mut k: usize = 0;
    while k < blocks.len()
        invariant
            k <= blocks@.len(),
            placed <= k,
            macroblock_addressable(mb_col as int, mb_row as int),
            blocks@ == record.decoded_blocks@,
            frame@.chroma_format == old(frame)@.chroma_format,
            field == (record.dct_type == Some(true)),
            frame@ == frame_with_intra(
                start,
                blocks@,
                chroma_format,
                mb_col as int,
                mb_row as int,
                field,
                k as int,
            ),
            placed == blocks_in_format(blocks@, chroma_format, k as int),
        decreases blocks@.len() - k,
    {
        let b = blocks[k];
        match block_placement(b.block_index as usize, chroma_format, mb_col, mb_row, field) {
            Some(p) => {
                place_intra_block(frame, p, &b.decoded.f_pel);
                placed += 1;
            },
            None => {},
        }
        k += 1;
    }
    placed
}

/// The size of an MPEG-2 frame picture and how its blocks are coded.
#[derive(Debug, Clone, Copy, PartialEq, Eq)]
pub struct IntraPictureParams {
    pub progressive_sequence: bool,
    pub width: usize,
    pub height: usize,
    pub chroma_format: ChromaFormat,
    pub frame_pred_frame_dct: bool,
    pub intra_dc_precision: u8,
    pub intra_vlc_format: bool,
    pub alternate_scan: bool,
    pub q_scale_type: bool,
}

/// How many macroblock rows a picture has: those of both fields where it is not
/// progressive.
pub open spec fn macroblock_rows(height: int, progressive_sequence: bool) -> int {
    if progressive_sequence {
        blocks_of_16(height)
    } else {
        2 * ((height + 31) / 32)
    }
}

impl IntraPictureParams {
    /// How many macroblocks a row has.
    pub fn mb_width(&self) -> (w: usize)
        ensures
            w == blocks_of_16(self.width as int),
    {
        div_ceil_16(self.width)
    }

    /// How many rows of macroblocks there are.
    pub fn mb_height(&self) -> (h: usize)
        ensures
            h == macroblock_rows(self.height as int, self.progressive_sequence),
    {
        if self.progressive_sequence {
            div_ceil_16(self.height)
        } else if self.height % 32 == 0 {
            2 * (self.height / 32)
        } else {
            2 * (self.height / 32 + 1)
        }
    }
}

} // verus!
