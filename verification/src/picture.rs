//! Picture buffers, the frames they are shown as, and the pair of reference
//! pictures that decoding keeps.

use crate::arith::{blocks_of_16, div_ceil_16};
use oxideav_core::{PixelFormat, TimeBase, VideoFrame};
use oxideav_core::frame::VideoPlane;
use vstd::prelude::*;

verus! {

/// How the chrominance planes are sampled.
#[derive(Debug, Clone, Copy, PartialEq, Eq, Structural)]
pub enum ChromaFormat {
    /// Half width, half height.
    Yuv420,
    /// Half width, full height.
    Yuv422,
    /// Full width, full height.
    Yuv444,
}

impl ChromaFormat {
    pub open spec fn spec_to_code(self) -> u8 {
        match self {
            ChromaFormat::Yuv420 => 0b01,
            ChromaFormat::Yuv422 => 0b10,
            ChromaFormat::Yuv444 => 0b11,
        }
    }

    /// The format of a two-bit `chroma_format` code, or none for the reserved
    /// code and for anything wider.
    pub fn from_code(code: u8) -> (r: Option<Self>)
        ensures
            match r {
                Some(f) => f.spec_to_code() == code,
                None => forall|f: ChromaFormat| f.spec_to_code() != code,
            },
    {
        match code {
            0b01 => Some(ChromaFormat::Yuv420),
            0b10 => Some(ChromaFormat::Yuv422),
            0b11 => Some(ChromaFormat::Yuv444),
            _ => None,
        }
    }

    /// The two-bit `chroma_format` code.
    pub fn to_code(self) -> (r: u8)
        ensures
            r == self.spec_to_code(),
    {
        match self {
            ChromaFormat::Yuv420 => 0b01,
            ChromaFormat::Yuv422 => 0b10,
            ChromaFormat::Yuv444 => 0b11,
        }
    }

    pub open spec fn spec_blocks_per_mb(self) -> int {
        match self {
            ChromaFormat::Yuv420 => 6,
            ChromaFormat::Yuv422 => 8,
            ChromaFormat::Yuv444 => 12,
        }
    }

    /// How many 8x8 blocks a macroblock has.
    pub fn blocks_per_mb(self) -> (r: usize)
        ensures
            r == self.spec_blocks_per_mb(),
    {
        match self {
            ChromaFormat::Yuv420 => 6,
            ChromaFormat::Yuv422 => 8,
            ChromaFormat::Yuv444 => 12,
        }
    }

    /// How many 8x8 blocks each chrominance component has.
    pub fn chroma_blocks_per_mb(self) -> (r: usize)
        ensures
            2 * r + 4 == self.spec_blocks_per_mb(),
    {
        (self.blocks_per_mb() - 4) / 2
    }

    pub open spec fn spec_h_shift(self) -> int {
        match self {
            ChromaFormat::Yuv444 => 0,
            _ => 1,
        }
    }

    /// The binary logarithm of the horizontal subsampling.
    pub fn chroma_h_shift(self) -> (r: u32)
        ensures
            r == self.spec_h_shift(),
    {
        match self {
            ChromaFormat::Yuv420 | ChromaFormat::Yuv422 => 1,
            ChromaFormat::Yuv444 => 0,
        }
    }

    pub open spec fn spec_v_shift(self) -> int {
        match self {
            ChromaFormat::Yuv420 => 1,
            _ => 0,
        }
    }

    /// The binary logarithm of the vertical subsampling.
    pub fn chroma_v_shift(self) -> (r: u32)
        ensures
            r == self.spec_v_shift(),
    {
        match self {
            ChromaFormat::Yuv420 => 1,
            ChromaFormat::Yuv422 | ChromaFormat::Yuv444 => 0,
        }
    }
}

/// The coding type of a buffered picture.
#[derive(Debug, Clone, Copy, PartialEq, Eq, Structural)]
pub enum PictureType {
    I,
    P,
    B,
    D,
}

/// The samples of one picture, its planes rounded up to whole macroblocks.
pub struct PictureBuffer {
    pub width: usize,
    pub height: usize,
    pub mb_width: usize,
    pub mb_height: usize,
    pub chroma_format: ChromaFormat,
    pub y: Vec<u8>,
    pub cb: Vec<u8>,
    pub cr: Vec<u8>,
    pub y_stride: usize,
    pub c_stride: usize,
    pub picture_type: PictureType,
    pub temporal_reference: u16,
    /// The presentation time in display order, once known.
    pub display_pts: Option<i64>,
}

/// What a picture buffer holds.
pub struct PictureContents {
    pub width: usize,
    pub height: usize,
    pub mb_width: usize,
    pub mb_height: usize,
    pub chroma_format: ChromaFormat,
    pub y: Seq<u8>,
    pub cb: Seq<u8>,
    pub cr: Seq<u8>,
    pub y_stride: usize,
    pub c_stride: usize,
    pub picture_type: PictureType,
    pub temporal_reference: u16,
    pub display_pts: Option<i64>,
}

impl View for PictureBuffer {
    type V = PictureContents;

    open spec fn view(&self) -> PictureContents {
        PictureContents {
            width: self.width,
            height: self.height,
            mb_width: self.mb_width,
            mb_height: self.mb_height,
            chroma_format: self.chroma_format,
            y: self.y@,
            cb: self.cb@,
            cr: self.cr@,
            y_stride: self.y_stride,
            c_stride: self.c_stride,
            picture_type: self.picture_type,
            temporal_reference: self.temporal_reference,
            display_pts: self.display_pts,
        }
    }
}

impl Clone for PictureBuffer {
    fn clone(&self) -> (r: Self)
        ensures
            r@ == self@,
    {
        let y = self.y.clone();
        let cb = self.cb.clone();
        let cr = self.cr.clone();
        assert(y@ =~= self.y@);
        assert(cb@ =~= self.cb@);
        assert(cr@ =~= self.cr@);
        PictureBuffer {
            width: self.width,
            height: self.height,
            mb_width: self.mb_width,
            mb_height: self.mb_height,
            chroma_format: self.chroma_format,
            y,
            cb,
            cr,
            y_stride: self.y_stride,
            c_stride: self.c_stride,
            picture_type: self.picture_type,
            temporal_reference: self.temporal_reference,
            display_pts: self.display_pts,
        }
    }
}

/// `n` zero samples.
pub open spec fn zeroes(n: int) -> Seq<u8> {
    Seq::new(n as nat, |i: int| 0u8)
}

/// `x` divided by `2^shift`, for a shift of 0 or 1.
pub open spec fn subsampled(x: int, shift: int) -> int {
    if shift == 1 {
        x / 2
    } else {
        x
    }
}

/// The same, rounded up.
pub open spec fn subsampled_up(x: int, shift: int) -> int {
    if shift == 1 {
        (x + 1) / 2
    } else {
        x
    }
}

/// The black buffer of a picture of the given size.
pub open spec fn blank_picture(
    width: usize,
    height: usize,
    picture_type: PictureType,
    tr: u16,
    chroma_format: ChromaFormat,
) -> PictureContents {
    let mb_w = blocks_of_16(width as int);
    let mb_h = blocks_of_16(height as int);
    let c_stride = subsampled(mb_w * 16, chroma_format.spec_h_shift());
    let c_h = subsampled(mb_h * 16, chroma_format.spec_v_shift());
    PictureContents {
        width,
        height,
        mb_width: mb_w as usize,
        mb_height: mb_h as usize,
        chroma_format,
        y: zeroes((mb_w * 16) * (mb_h * 16)),
        cb: zeroes(c_stride * c_h),
        cr: zeroes(c_stride * c_h),
        y_stride: (mb_w * 16) as usize,
        c_stride: c_stride as usize,
        picture_type,
        temporal_reference: tr,
        display_pts: None,
    }
}

/// Whether a picture of this size can be allocated: its rounded sides and its
/// luminance plane fit the address space.
pub open spec fn allocatable(width: int, height: int) -> bool {
    &&& blocks_of_16(width) * 16 <= usize::MAX
    &&& blocks_of_16(height) * 16 <= usize::MAX
    &&& (blocks_of_16(width) * 16) * (blocks_of_16(height) * 16) <= isize::MAX
}

/// Rows of `w` samples, `stride` apart in `src`, `h` of them, without what lies
/// between.
pub open spec fn cropped(src: Seq<u8>, stride: int, w: int, h: int) -> Seq<u8> {
    Seq::new((w * h) as nat, |k: int| src[(k / w) * stride + k % w])
}

/// Whether `h` rows of `w` samples, `stride` apart, lie in `len` samples.
pub open spec fn rows_fit(len: int, stride: int, w: int, h: int) -> bool {
    &&& w * h <= isize::MAX
    &&& h > 0 ==> (h - 1) * stride + w <= len
}

/// `oxideav_core::VideoPlane`: the bytes of one plane and their row length.
#[verifier::external_type_specification]
pub struct ExVideoPlane(VideoPlane);

/// `oxideav_core::VideoFrame`: a presentation time and the planes of a frame.
#[verifier::external_type_specification]
pub struct ExVideoFrame(VideoFrame);

/// `oxideav_core::TimeBase`: carried through unread.
#[verifier::external_type_specification]
#[verifier::external_body]
pub struct ExTimeBase(TimeBase);

/// `oxideav_core::PixelFormat`: the layouts of a frame's planes.
#[verifier::external_type_specification]
pub struct ExPixelFormat(PixelFormat);

/// Copies `h` rows of `w` samples, `stride` apart, into a vector of their own.
pub fn crop(src: &Vec<u8>, stride: usize, w: usize, h: usize) -> (out: Vec<u8>)
    requires
        rows_fit(src@.len() as int, stride as int, w as int, h as int),
    ensures
        out@ == cropped(src@, stride as int, w as int, h as int),
{
    let mut out: Vec<u8> = Vec::new();
    let mut row: usize = 0;
    let len: usize = src.len();
    while row < h
        invariant
            row <= h,
            len == src@.len(),
            rows_fit(src@.len() as int, stride as int, w as int, h as int),
            out@.len() == row * w,
            forall|k: int|
                0 <= k < out@.len() ==> #[trigger] out@[k] == cropped(
                    src@,
                    stride as int,
                    w as int,
                    h as int,
                )[k],
        decreases h - row,
    {
        proof {
            assert(row * stride + w <= src@.len()) by (nonlinear_arith)
                requires
                    row < h,
                    (h - 1) * stride + w <= src@.len(),
            ;
            assert(0 <= row * stride) by (nonlinear_arith);
        }
        let start: usize = row * stride;
        let mut col: usize = 0;
        while col < w
            invariant
                col <= w,
                row < h,
                len == src@.len(),
                start == row * stride,
                start + w <= src@.len(),
                rows_fit(src@.len() as int, stride as int, w as int, h as int),
                out@.len() == row * w + col,
                forall|k: int|
                    0 <= k < out@.len() ==> #[trigger] out@[k] == cropped(
                        src@,
                        stride as int,
                        w as int,
                        h as int,
                    )[k],
            decreases w - col,
        {
            proof {
                let k = row * w + col;
                vstd::arithmetic::div_mod::lemma_fundamental_div_mod_converse(
                    k as int,
                    w as int,
                    row as int,
                    col as int,
                );
                assert(0 <= k < w * h) by (nonlinear_arith)
                    requires
                        0 <= row < h,
                        0 <= col < w,
                        k == row * w + col,
                ;
            }
            out.push(src[start + col]);
            col += 1;
        }
        assert(row * w + w == (row + 1) * w) by (nonlinear_arith);
        row += 1;
    }
    assert(h * w == w * h) by (nonlinear_arith);
    assert(out@ =~= cropped(src@, stride as int, w as int, h as int));
    out
}

impl PictureBuffer {
    /// A black 4:2:0 picture.
    pub fn new(width: usize, height: usize, picture_type: PictureType, tr: u16) -> (r: Self)
        requires
            allocatable(width as int, height as int),
        ensures
            r@ == blank_picture(width, height, picture_type, tr, ChromaFormat::Yuv420),
    {
        Self::new_with_format(width, height, picture_type, tr, ChromaFormat::Yuv420)
    }

    /// A black picture of the given chrominance format.
    pub fn new_with_format(
        width: usize,
        height: usize,
        picture_type: PictureType,
        tr: u16,
        chroma_format: ChromaFormat,
    ) -> (r: Self)
        requires
            allocatable(width as int, height as int),
        ensures
            r@ == blank_picture(width, height, picture_type, tr, chroma_format),
    {
        let mb_w = div_ceil_16(width);
        let mb_h = div_ceil_16(height);
        let y_stride: usize = mb_w * 16;
        let y_h: usize = mb_h * 16;
        let c_stride: usize = if chroma_format.chroma_h_shift() == 1 {
            y_stride / 2
        } else {
            y_stride
        };
        let c_h: usize = if chroma_format.chroma_v_shift() == 1 {
            y_h / 2
        } else {
            y_h
        };
        assert(c_stride * c_h <= y_stride * y_h) by (nonlinear_arith)
            requires
                0 <= c_stride <= y_stride,
                0 <= c_h <= y_h,
        ;
        assert(0 <= c_stride * c_h) by (nonlinear_arith)
            requires
                0 <= c_stride,
                0 <= c_h,
        ;
        let y = vec![0u8; y_stride * y_h];
        let cb = vec![0u8; c_stride * c_h];
        let cr = vec![0u8; c_stride * c_h];
        assert(y@ =~= zeroes(y_stride * y_h));
        assert(cb@ =~= zeroes(c_stride * c_h));
        assert(cr@ =~= zeroes(c_stride * c_h));
        PictureBuffer {
            width,
            height,
            mb_width: mb_w,
            mb_height: mb_h,
            chroma_format,
            y,
            cb,
            cr,
            y_stride,
            c_stride,
            picture_type,
            temporal_reference: tr,
            display_pts: None,
        }
    }

    /// The pixel format of the frames that the buffer is shown as.
    pub fn output_pixel_format(&self) -> (r: PixelFormat)
        ensures
            r == (match self.chroma_format {
                ChromaFormat::Yuv420 => PixelFormat::Yuv420P,
                ChromaFormat::Yuv422 => PixelFormat::Yuv422P,
                ChromaFormat::Yuv444 => PixelFormat::Yuv444P,
            }),
    {
        match self.chroma_format {
            ChromaFormat::Yuv420 => PixelFormat::Yuv420P,
            ChromaFormat::Yuv422 => PixelFormat::Yuv422P,
            ChromaFormat::Yuv444 => PixelFormat::Yuv444P,
        }
    }

    pub open spec fn spec_chroma_width(&self) -> int {
        subsampled_up(self.width as int, self.chroma_format.spec_h_shift())
    }

    pub open spec fn spec_chroma_height(&self) -> int {
        subsampled_up(self.height as int, self.chroma_format.spec_v_shift())
    }

    /// Whether the planes hold every sample that is shown.
    pub open spec fn showable(&self) -> bool {
        &&& rows_fit(
            self.y@.len() as int,
            self.y_stride as int,
            self.width as int,
            self.height as int,
        )
        &&& rows_fit(
            self.cb@.len() as int,
            self.c_stride as int,
            self.spec_chroma_width(),
            self.spec_chroma_height(),
        )
        &&& rows_fit(
            self.cr@.len() as int,
            self.c_stride as int,
            self.spec_chroma_width(),
            self.spec_chroma_height(),
        )
    }

    /// The picture as a frame, its planes without padding.
    pub fn to_video_frame(&self, pts: Option<i64>, _time_base: TimeBase) -> (f: VideoFrame)
        requires
            self.showable(),
            self.width + self.chroma_format.spec_h_shift() <= usize::MAX,
            self.height + self.chroma_format.spec_v_shift() <= usize::MAX,
        ensures
            f.pts == pts,
            f.planes@.len() == 3,
            f.planes@[0].stride == self.width,
            f.planes@[1].stride == self.spec_chroma_width(),
            f.planes@[2].stride == self.spec_chroma_width(),
            f.planes@[0].data@ == cropped(
                self.y@,
                self.y_stride as int,
                self.width as int,
                self.height as int,
            ),
            f.planes@[1].data@ == cropped(
                self.cb@,
                self.c_stride as int,
                self.spec_chroma_width(),
                self.spec_chroma_height(),
            ),
            f.planes@[2].data@ == cropped(
                self.cr@,
                self.c_stride as int,
                self.spec_chroma_width(),
                self.spec_chroma_height(),
            ),
    {
        let cw: usize = if self.chroma_format.chroma_h_shift() == 1 {
            (self.width + 1) / 2
        } else {
            self.width
        };
        let ch: usize = if self.chroma_format.chroma_v_shift() == 1 {
            (self.height + 1) / 2
        } else {
            self.height
        };
        let y = crop(&self.y, self.y_stride, self.width, self.height);
        let cb = crop(&self.cb, self.c_stride, cw, ch);
        let cr = crop(&self.cr, self.c_stride, cw, ch);
        let mut planes: Vec<VideoPlane> = Vec::new();
        planes.push(VideoPlane { stride: self.width, data: y });
        planes.push(VideoPlane { stride: cw, data: cb });
        planes.push(VideoPlane { stride: cw, data: cr });
        VideoFrame { pts, planes }
    }
}

/// The two reference pictures of decoding: a P-picture is predicted from the
/// newer one, a B-picture from both.
pub struct ReferenceManager {
    /// The older anchor, already shown.
    pub prev_ref: Option<PictureBuffer>,
    /// The newer anchor, shown once the next one arrives.
    pub next_ref: Option<PictureBuffer>,
}

/// What an optional picture holds.
pub open spec fn contents(p: Option<PictureBuffer>) -> Option<PictureContents> {
    match p {
        Some(p) => Some(p@),
        None => None,
    }
}

/// The pictures that the anchors `pics`, taken in one after the other, give up for
/// display, from a window whose newer anchor is `newer`.
pub open spec fn shown_on_the_way(
    newer: Option<PictureContents>,
    pics: Seq<PictureContents>,
) -> Seq<PictureContents>
    decreases pics.len(),
{
    if pics.len() == 0 {
        Seq::empty()
    } else {
        shown_now(newer) + shown_on_the_way(Some(pics[0]), pics.skip(1))
    }
}

/// The picture that a window gives up, if it has one.
pub open spec fn shown_now(newer: Option<PictureContents>) -> Seq<PictureContents> {
    match newer {
        Some(p) => seq![p],
        None => Seq::empty(),
    }
}

/// The newer anchor after `pics` were taken in.
pub open spec fn newest(
    newer: Option<PictureContents>,
    pics: Seq<PictureContents>,
) -> Option<PictureContents> {
    if pics.len() == 0 {
        newer
    } else {
        Some(pics.last())
    }
}

impl Default for ReferenceManager {
    fn default() -> (r: Self)
        ensures
            r.prev_ref is None,
            r.next_ref is None,
    {
        ReferenceManager { prev_ref: None, next_ref: None }
    }
}

impl ReferenceManager {
    /// No anchors yet.
    pub fn new() -> (r: Self)
        ensures
            r.prev_ref is None,
            r.next_ref is None,
    {
        ReferenceManager { prev_ref: None, next_ref: None }
    }

    /// Takes in a decoded I- or P-picture: the newer anchor becomes the older
    /// one, the older one is dropped, and a copy of the picture that moved is
    /// returned for display.
    pub fn push_anchor(&mut self, pic: PictureBuffer) -> (shown: Option<PictureBuffer>)
        ensures
            contents(shown) == contents(old(self).next_ref),
            shown_now(contents(shown)) == shown_on_the_way(
                contents(old(self).next_ref),
                seq![pic@],
            ),
            contents(final(self).next_ref) == newest(contents(old(self).next_ref), seq![pic@]),
            final(self).prev_ref == old(self).next_ref,
            final(self).next_ref == Some(pic),
    {
        let ready_for_display = match &self.next_ref {
            Some(p) => Some(p.clone()),
            None => None,
        };
        self.prev_ref = self.next_ref.take();
        self.next_ref = Some(pic);
        proof {
            reveal_with_fuel(shown_on_the_way, 2);
            let newer = contents(old(self).next_ref);
            assert(shown_now(newer) + Seq::<PictureContents>::empty() =~= shown_now(newer));
            assert(seq![pic@].skip(1) =~= Seq::<PictureContents>::empty());
        }
        ready_for_display
    }

    /// Gives up the newer anchor, the only one not yet shown, and forgets both.
    pub fn drain(&mut self) -> (out: Vec<PictureBuffer>)
        ensures
            final(self).prev_ref is None,
            final(self).next_ref is None,
            match old(self).next_ref {
                Some(p) => out@ == seq![p],
                None => out@.len() == 0,
            },
    {
        let mut out: Vec<PictureBuffer> = Vec::new();
        self.prev_ref = None;
        match self.next_ref.take() {
            Some(p) => {
                out.push(p);
                assert(out@ =~= seq![p]);
            },
            None => {},
        }
        out
    }

    /// The older anchor.
    pub fn forward(&self) -> (r: Option<&PictureBuffer>)
        ensures
            match self.prev_ref {
                Some(p) => r == Some(&p),
                None => r is None,
            },
    {
        self.prev_ref.as_ref()
    }

    /// The newer anchor.
    pub fn backward(&self) -> (r: Option<&PictureBuffer>)
        ensures
            match self.next_ref {
                Some(p) => r == Some(&p),
                None => r is None,
            },
    {
        self.next_ref.as_ref()
    }
}

/// Anchors that are taken in one after the other and then drained are shown once
/// each, in the order in which they were taken in, after the one that was there.
pub proof fn law_anchors_are_shown_in_order(
    newer: Option<PictureContents>,
    pics: Seq<PictureContents>,
)
    ensures
        shown_on_the_way(newer, pics) + shown_now(newest(newer, pics)) == shown_now(newer) + pics,
    decreases pics.len(),
{
    if pics.len() == 0 {
        assert(shown_on_the_way(newer, pics) + shown_now(newer) =~= shown_now(newer) + pics);
    } else {
        let rest = pics.skip(1);
        let first = Some(pics[0]);
        law_anchors_are_shown_in_order(first, rest);
        assert(newest(newer, pics) == newest(first, rest));
        assert(shown_on_the_way(newer, pics) + shown_now(newest(newer, pics)) =~= shown_now(newer)
            + (shown_on_the_way(first, rest) + shown_now(newest(first, rest))));
        assert(shown_now(first) + rest =~= pics);
    }
}

/// The `chroma_format` code of a format is the code of no other format.
pub proof fn law_chroma_code_injective(a: ChromaFormat, b: ChromaFormat)
    ensures
        a.spec_to_code() == b.spec_to_code() ==> a == b,
{
}

/// The leading `w` samples of the leading `h` rows lie in a plane that is no
/// smaller.
proof fn lemma_rows_fit(w: int, h: int, aw: int, ah: int)
    requires
        0 <= w <= aw,
        0 <= h <= ah,
        aw * ah <= isize::MAX,
    ensures
        rows_fit(aw * ah, aw, w, h),
{
    assert(w * h <= aw * ah) by (nonlinear_arith)
        requires
            0 <= w <= aw,
            0 <= h <= ah,
    ;
    assert((h - 1) * aw + w <= aw * ah) by (nonlinear_arith)
        requires
            0 <= w <= aw,
            0 <= h <= ah,
    ;
}

/// The lengths and the strides of a fresh picture.
#[verifier::spinoff_prover]
proof fn lemma_blank_lengths(p: PictureBuffer, aw: int, ah: int, cw: int, ch: int)
    requires
        aw == blocks_of_16(p.width as int) * 16,
        ah == blocks_of_16(p.height as int) * 16,
        cw == subsampled(aw, p.chroma_format.spec_h_shift()),
        ch == subsampled(ah, p.chroma_format.spec_v_shift()),
        aw <= usize::MAX,
        p@ == blank_picture(
            p.width,
            p.height,
            p.picture_type,
            p.temporal_reference,
            p.chroma_format,
        ),
    ensures
        0 <= aw * ah,
        0 <= cw * ch <= aw * ah,
        p.y@.len() == aw * ah,
        p.cb@.len() == cw * ch,
        p.cr@.len() == cw * ch,
        p.y_stride == aw,
        p.c_stride == cw,
{
    assert(cw * ch <= aw * ah) by (nonlinear_arith)
        requires
            0 <= cw <= aw,
            0 <= ch <= ah,
    ;
    assert(0 <= aw * ah && 0 <= cw * ch) by (nonlinear_arith)
        requires
            0 <= cw <= aw,
            0 <= ch <= ah,
    ;
    assert(p@.y == zeroes(aw * ah));
    assert(p@.cb == zeroes(cw * ch));
    assert(p@.cr == zeroes(cw * ch));
}

/// A fresh picture of any size can be shown.
#[verifier::spinoff_prover]
pub proof fn law_blank_picture_is_showable(p: PictureBuffer)
    requires
        allocatable(p.width as int, p.height as int),
        p@ == blank_picture(
            p.width,
            p.height,
            p.picture_type,
            p.temporal_reference,
            p.chroma_format,
        ),
    ensures
        p.showable(),
{
    let aw = blocks_of_16(p.width as int) * 16;
    let ah = blocks_of_16(p.height as int) * 16;
    let cw = subsampled(aw, p.chroma_format.spec_h_shift());
    let ch = subsampled(ah, p.chroma_format.spec_v_shift());
    lemma_blank_lengths(p, aw, ah, cw, ch);
    lemma_rows_fit(p.width as int, p.height as int, aw, ah);
    lemma_rows_fit(p.spec_chroma_width(), p.spec_chroma_height(), cw, ch);
}

/// Cropping keeps samples where they are: the sample in column `x` and row `y` of what is
/// cut out is that of the source.
pub proof fn law_crop_keeps_samples(src: Seq<u8>, stride: int, w: int, h: int, x: int, y: int)
    requires
        0 <= x < w,
        0 <= y < h,
    ensures
        cropped(src, stride, w, h).len() == w * h,
        cropped(src, stride, w, h)[y * w + x] == src[y * stride + x],
{
    vstd::arithmetic::div_mod::lemma_fundamental_div_mod_converse(y * w + x, w, y, x);
    assert(0 <= y * w + x < w * h) by (nonlinear_arith)
        requires
            0 <= x < w,
            0 <= y < h,
    ;
}

/// A macroblock has four blocks of luminance, and of each chrominance component as many
/// as it takes to cover it at that component's resolution. 4:2:0 halves both sides, 4:2:2
/// the width alone and 4:4:4 neither.
pub proof fn law_blocks_cover_macroblock(format: ChromaFormat)
    ensures
        ({
            let w = subsampled(16, format.spec_h_shift());
            let h = subsampled(16, format.spec_v_shift());
            &&& 64 * format.spec_blocks_per_mb() == 16 * 16 + 2 * (w * h)
            &&& h == 8 ==> w == 8
            &&& h == 8 <==> format == ChromaFormat::Yuv420
            &&& w == 16 <==> format == ChromaFormat::Yuv444
            &&& (w == 8 || w == 16)
            &&& (h == 8 || h == 16)
        }),
{
    assert(8int * 8 == 64 && 8int * 16 == 128 && 16int * 16 == 256);
    assert(subsampled(16, 1) == 8 && subsampled(16, 0) == 16);
}

/// The chrominance that is shown covers the picture and no more: where it is subsampled,
/// it has half as many columns or rows, rounded up.
pub proof fn law_chrominance_covers_picture(p: PictureBuffer)
    ensures
        ({
            let (w, h) = (p.spec_chroma_width(), p.spec_chroma_height());
            &&& p.chroma_format == ChromaFormat::Yuv444 ==> w == p.width
            &&& p.chroma_format != ChromaFormat::Yuv444 ==> p.width <= 2 * w <= p.width + 1
            &&& p.chroma_format != ChromaFormat::Yuv420 ==> h == p.height
            &&& p.chroma_format == ChromaFormat::Yuv420 ==> p.height <= 2 * h <= p.height + 1
        }),
{
}

} // verus!
