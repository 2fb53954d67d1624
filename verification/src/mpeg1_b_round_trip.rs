//! Decoding a B-picture gives the predictions and the residuals that its encoder
//! chose.

use crate::arith::blocks_of_16;
use crate::bits::{bits_of, holds_at, zero_padded};
use crate::block_writes::{lemma_blocks_keep_shape, lemma_inter_macroblock_is_blocks};
use crate::dequantize::scale_valid;
use crate::encoded_bits::{
    added, lemma_added, lemma_added_twice, lemma_one_goes_on, lemma_stands_prefix,
    lemma_stands_split, stands,
};
use crate::error::Error;
use crate::frame_assembly::{
    lemma_zero_frame_wf, macroblock_addressable, zero_frame, FrameContents,
};
use crate::inter_reconstruction::{
    frame_with_blocks, mpeg1_vector, predicted_planes, predicted_run, FrameMotion,
    MacroblockPlanes, MotionVectorPel, ReferenceContents,
};
use crate::motion_estimation::best_vector;
use crate::motion_vector::MotionVectorsKind;
use crate::mpeg1_encoder::{
    b_bits, b_direction, b_macroblock_encoded, b_picture_encoded, b_prediction, b_row_encoded,
    b_rows_encoded, decodable_vector, decoded_residuals, macroblock_levels, pattern_of,
    search_distance, source_of, vector_ok, Anchors, BDirection, BidirectionalEncoding, MacroblockSource,
};
use crate::mpeg1_inter_round_trip::{
    lemma_inter_broken_up, lemma_inter_macroblock_read, lemma_residuals_read,
    predictor_of, CodedInter, CodedVector,
};
use crate::mpeg1_intra_round_trip::{
    lemma_located, lemma_row_fits, lemma_rows_addressable, macroblocks_addressable, reads_mpeg1,
};
use crate::mpeg1_p_round_trip::{
    lemma_inter_placed_tail, lemma_levels_fit, lemma_search_vector_ok,
};
use crate::mpeg1_picture::{
    coded_macroblock, inter_placed, inter_slice, mpeg1_context, residuals_of, skip_motion,
    slice_start_state, vector_contexts, InterState, Mpeg1InterParams, Mpeg1PictureParams, VectorContexts,
};
use crate::mpeg1_reconstruct::split_vector;
use crate::picture::ChromaFormat;
use crate::picture_header::PictureCodingType;
use crate::picture_round_trip::{
    lemma_first_slice_found, lemma_header_len, lemma_picture_codes, lemma_picture_read,
    lemma_whole_bytes_added,
    slice_reads, WrittenSlices,
};
use crate::picture_slices::decoded_slices;
use crate::slice_header::{law_slice_header_round_trip, slice_header_of};
use crate::slice_macroblock_walk::{
    lemma_macroblock_advances, macroblock_at, slice_ends, state_ok, walk_from, walk_start,
    SliceWalkContext, WalkState, MAX_ADDRESS,
};
use crate::start_codes::{holds_codes, picture_codes};
use crate::stream_writer::{lemma_slice_header_len, picture_header_bits, slice_header_bits};
use crate::zero_runs::{broken_up, lemma_joined, lemma_loosened};
use vstd::arithmetic::power2::lemma2_to64;
use vstd::prelude::*;

verus! {

/// What the encoding of a B-picture depends on.
pub struct BSource {
    pub current: FrameContents,
    pub anchors: Anchors,
    pub params: Mpeg1PictureParams,
    pub scale: u8,
}

impl BSource {
    /// A macroblock of the picture.
    pub open spec fn at(self, mb_col: int, mb_row: int) -> MacroblockSource {
        source_of(self.current, self.params, self.scale, mb_col, mb_row)
    }

    /// The forward vector of a macroblock after the last vectors.
    pub open spec fn forward_vector(
        self,
        src: MacroblockSource,
        st: BidirectionalEncoding,
    ) -> MotionVectorPel {
        decodable_vector(
            best_vector(
                src.current,
                self.anchors.forward,
                src.mb_col,
                src.mb_row,
                search_distance(self.anchors.forward_f_code),
            ),
            st.forward,
            self.anchors.forward_f_code,
        )
    }

    /// The backward vector of a macroblock after the last vectors.
    pub open spec fn backward_vector(
        self,
        src: MacroblockSource,
        st: BidirectionalEncoding,
    ) -> MotionVectorPel {
        decodable_vector(
            best_vector(
                src.current,
                self.anchors.backward,
                src.mb_col,
                src.mb_row,
                search_distance(self.anchors.backward_f_code),
            ),
            st.backward,
            self.anchors.backward_f_code,
        )
    }

    pub open spec fn direction(
        self,
        src: MacroblockSource,
        st: BidirectionalEncoding,
    ) -> BDirection {
        b_direction(
            src,
            self.anchors,
            self.forward_vector(src, st),
            self.backward_vector(src, st),
        )
    }

    pub open spec fn prediction(
        self,
        src: MacroblockSource,
        st: BidirectionalEncoding,
    ) -> MacroblockPlanes {
        b_prediction(
            self.anchors,
            self.direction(src, st),
            self.forward_vector(src, st),
            self.backward_vector(src, st),
            src.mb_col,
            src.mb_row,
        )
    }

    /// The vectors that a macroblock is predicted with.
    pub open spec fn motion(
        self,
        src: MacroblockSource,
        st: BidirectionalEncoding,
    ) -> FrameMotion {
        FrameMotion {
            forward: if self.direction(src, st).uses_forward() {
                Some(self.forward_vector(src, st))
            } else {
                None
            },
            backward: if self.direction(src, st).uses_backward() {
                Some(self.backward_vector(src, st))
            } else {
                None
            },
        }
    }

    /// A macroblock as it is written.
    pub open spec fn coded<D: Fn([[i16; 8]; 8]) -> [[i32; 8]; 8]>(
        self,
        src: MacroblockSource,
        st: BidirectionalEncoding,
        fdct: D,
    ) -> CodedInter {
        let levels = macroblock_levels(src, self.prediction(src, st), fdct);
        let dir = self.direction(src, st);
        CodedInter {
            coding: PictureCodingType::Bidirectional,
            row: (match dir {
                BDirection::Interpolated => 0int,
                BDirection::Backward => 2int,
                BDirection::Forward => 4int,
            }) + (if pattern_of(levels, 6) != 0 {
                1int
            } else {
                0int
            }),
            forward: if dir.uses_forward() {
                Some(
                    CodedVector {
                        v: self.forward_vector(src, st),
                        last: st.forward,
                        f_code: self.anchors.forward_f_code,
                    },
                )
            } else {
                None
            },
            backward: if dir.uses_backward() {
                Some(
                    CodedVector {
                        v: self.backward_vector(src, st),
                        last: st.backward,
                        f_code: self.anchors.backward_f_code,
                    },
                )
            } else {
                None
            },
            levels,
        }
    }

    /// The frame after a macroblock: its prediction, and the residuals that a decoder
    /// makes of its levels.
    pub open spec fn reconstructed<
        D: Fn([[i16; 8]; 8]) -> [[i32; 8]; 8],
        F: Fn([[i32; 8]; 8]) -> [[i16; 8]; 8],
    >(
        self,
        src: MacroblockSource,
        st: BidirectionalEncoding,
        frame: FrameContents,
        fdct: D,
        idct: F,
    ) -> FrameContents {
        let preds = self.prediction(src, st);
        frame_with_blocks(
            frame,
            preds,
            ChromaFormat::Yuv420,
            src.mb_col,
            src.mb_row,
            decoded_residuals(
                macroblock_levels(src, preds, fdct),
                src.scale,
                src.params.non_intra_quant,
                idct,
            ),
            6,
        )
    }

    pub open spec fn ok(self) -> bool {
        &&& 1 <= self.anchors.forward_f_code <= 7
        &&& 1 <= self.anchors.backward_f_code <= 7
        &&& scale_valid(self.scale)
    }

    /// Both anchors, as a decoder holds them.
    pub open spec fn refs(self) -> ReferenceContents {
        ReferenceContents {
            forward: Some(self.anchors.forward),
            backward: Some(self.anchors.backward),
        }
    }
}

/// The last vectors lie in the ranges of their `f_code` values.
pub open spec fn b_state_ok(st: BidirectionalEncoding, a: Anchors) -> bool {
    vector_ok(st.forward, a.forward_f_code) && vector_ok(st.backward, a.backward_f_code)
}

/// A macroblock that was written can be read.
proof fn lemma_b_coded_readable<D: Fn([[i16; 8]; 8]) -> [[i32; 8]; 8]>(
    x: BSource,
    src: MacroblockSource,
    st: BidirectionalEncoding,
    fdct: D,
)
    requires
        x.ok(),
        b_state_ok(st, x.anchors),
    ensures
        x.coded(src, st, fdct).readable(),
        b_macroblock_encoded(src, x.anchors, st, fdct).bits == st.bits + x.coded(
            src,
            st,
            fdct,
        ).bits(),
        b_state_ok(b_macroblock_encoded(src, x.anchors, st, fdct), x.anchors),
{
    reveal(b_macroblock_encoded);
    lemma2_to64();
    let a = x.anchors;
    lemma_levels_fit(src, x.prediction(src, st), fdct);
    lemma_search_vector_ok(src.current, a.forward, src.mb_col, src.mb_row, a.forward_f_code);
    lemma_search_vector_ok(src.current, a.backward, src.mb_col, src.mb_row, a.backward_f_code);
    let c = x.coded(src, st, fdct);
    assert(c.bits() =~= b_bits(
        a,
        x.direction(src, st),
        x.forward_vector(src, st),
        x.backward_vector(src, st),
        st,
        c.levels,
    ));
}

/// A reference that no vector points to does not matter.
proof fn lemma_b_prediction(x: BSource, src: MacroblockSource, st: BidirectionalEncoding)
    ensures
        x.prediction(src, st) == predicted_planes(
            x.refs(),
            x.motion(src, st),
            ChromaFormat::Yuv420,
            src.mb_col,
            src.mb_row,
        ),
{
    let a = x.prediction(src, st);
    let b = predicted_planes(
        x.refs(),
        x.motion(src, st),
        ChromaFormat::Yuv420,
        src.mb_col,
        src.mb_row,
    );
    assert(a.y =~= b.y);
    assert(a.cb =~= b.cb);
    assert(a.cr =~= b.cr);
}

/// How a decoder's vectors are set for a B-picture.
pub open spec fn b_contexts(vc: VectorContexts, a: Anchors) -> bool {
    &&& vc.is_b
    &&& vc.forward.f_code == a.forward_f_code
    &&& !vc.forward.full_pel
    &&& vc.backward.f_code == a.backward_f_code
    &&& !vc.backward.full_pel
}

/// Whether a decoder holds the last vectors of the encoder.
pub open spec fn b_holds(ist: InterState, st: BidirectionalEncoding) -> bool {
    ist.forward == predictor_of(st.forward) && ist.backward == predictor_of(st.backward)
}

/// A macroblock of a B-picture is decoded to its prediction and its residuals.
proof fn lemma_b_macroblock_read<
    D: Fn([[i16; 8]; 8]) -> [[i32; 8]; 8],
    F: Fn([[i32; 8]; 8]) -> [[i16; 8]; 8],
>(
    s: Seq<bool>,
    base: int,
    x: BSource,
    src: MacroblockSource,
    st: BidirectionalEncoding,
    frame: FrameContents,
    ctx: SliceWalkContext,
    wst: WalkState,
    vc: VectorContexts,
    ist: InterState,
    fdct: D,
    idct: F,
)
    requires
        x.ok(),
        b_state_ok(st, x.anchors),
        src.scale == x.scale,
        0 <= base <= st.bits.len(),
        reads_mpeg1(ctx, src.params, PictureCodingType::Bidirectional),
        ctx.f_codes.spec_for_kind(MotionVectorsKind::Forward) == (
            x.anchors.forward_f_code,
            x.anchors.forward_f_code,
        ),
        ctx.f_codes.spec_for_kind(MotionVectorsKind::Backward) == (
            x.anchors.backward_f_code,
            x.anchors.backward_f_code,
        ),
        b_contexts(vc, x.anchors),
        0 <= src.address() <= MAX_ADDRESS,
        0 <= src.mb_col < blocks_of_16(src.params.width as int),
        0 <= src.mb_row,
        macroblock_addressable(src.mb_col, src.mb_row),
        wst.address == src.address() - 1,
        wst.scale == src.scale,
        b_holds(ist, st),
        frame.wf(),
        frame.chroma_format == ChromaFormat::Yuv420,
        stands(s, base, b_macroblock_encoded(src, x.anchors, st, fdct).bits),
    ensures
        ({
            let after = b_macroblock_encoded(src, x.anchors, st, fdct);
            let at = st.bits.len() - base;
            let (read, p) = macroblock_at(s, at, ctx, wst, idct);
            let m = read->Ok_0.0;
            let w = blocks_of_16(src.params.width as int);
            let (res, placed, last) = coded_macroblock(frame, x.refs(), m, w, vc, ist);
            &&& read is Ok
            &&& p == after.bits.len() - base
            &&& m.skipped == 0
            &&& m.address == src.address()
            &&& read->Ok_0.1 == (WalkState { address: src.address(), first: false, ..wst })
            &&& res is Ok
            &&& placed == x.reconstructed(src, st, frame, fdct, idct)
            &&& b_holds(last, after)
            &&& 0 <= at < s.len()
            &&& s[at]
        }),
{
    let c = x.coded(src, st, fdct);
    lemma_b_coded_readable(x, src, st, fdct);
    let at = st.bits.len() - base;
    lemma_stands_split(s, base, st.bits, c.bits());
    lemma_inter_macroblock_read(s, at, c, src.params, ctx, wst, idct);
    let (read, p) = macroblock_at(s, at, ctx, wst, idct);
    let m = read->Ok_0.0;
    let w = blocks_of_16(src.params.width as int);
    vstd::arithmetic::div_mod::lemma_fundamental_div_mod_converse(
        m.address,
        w,
        src.mb_row,
        src.mb_col,
    );
    lemma_residuals_read(m.blocks, c.levels, src.scale, src.params.non_intra_quant, idct);
    lemma_b_prediction(x, src, st);
    lemma_inter_macroblock_is_blocks(
        frame,
        x.refs(),
        src.mb_col,
        src.mb_row,
        x.motion(src, st),
        residuals_of(m.blocks),
        decoded_residuals(c.levels, src.scale, src.params.non_intra_quant, idct),
    );
    let fv = x.forward_vector(src, st);
    let bv = x.backward_vector(src, st);
    assert(mpeg1_vector(Some(split_vector(fv.horizontal as int, fv.vertical as int))) == Some(fv));
    assert(mpeg1_vector(Some(split_vector(bv.horizontal as int, bv.vertical as int))) == Some(bv));
    reveal(b_macroblock_encoded);
}

/// The encoding of a row of a B-picture.
pub open spec fn b_row<D: Fn([[i16; 8]; 8]) -> [[i32; 8]; 8]>(
    x: BSource,
    mb_row: int,
    n: int,
    bits: Seq<bool>,
    fdct: D,
) -> BidirectionalEncoding {
    b_row_encoded(x.current, x.anchors, x.params, x.scale, mb_row, n, bits, fdct)
}

/// The frame after the first `n` macroblocks of a row.
pub open spec fn b_row_frame<
    D: Fn([[i16; 8]; 8]) -> [[i32; 8]; 8],
    F: Fn([[i32; 8]; 8]) -> [[i16; 8]; 8],
>(x: BSource, mb_row: int, n: int, frame: FrameContents, fdct: D, idct: F) -> FrameContents
    decreases n,
{
    if n <= 0 {
        frame
    } else {
        x.reconstructed(
            x.at(n - 1, mb_row),
            b_row(x, mb_row, n - 1, Seq::empty(), fdct),
            b_row_frame(x, mb_row, n - 1, frame, fdct, idct),
            fdct,
            idct,
        )
    }
}

/// The last vectors do not depend on what was written before.
proof fn lemma_b_lasts<D: Fn([[i16; 8]; 8]) -> [[i32; 8]; 8]>(
    x: BSource,
    mb_row: int,
    n: int,
    bits: Seq<bool>,
    fdct: D,
)
    ensures
        b_row(x, mb_row, n, bits, fdct).forward == b_row(
            x,
            mb_row,
            n,
            Seq::empty(),
            fdct,
        ).forward,
        b_row(x, mb_row, n, bits, fdct).backward == b_row(
            x,
            mb_row,
            n,
            Seq::empty(),
            fdct,
        ).backward,
    decreases n,
{
    reveal(b_macroblock_encoded);
    if n > 0 {
        lemma_b_lasts(x, mb_row, n - 1, bits, fdct);
    }
}

/// What holds after the first `n` macroblocks of a row of a B-picture.
proof fn lemma_b_row_keeps<D: Fn([[i16; 8]; 8]) -> [[i32; 8]; 8]>(
    x: BSource,
    mb_row: int,
    n: int,
    bits: Seq<bool>,
    fdct: D,
)
    requires
        0 <= n,
        x.ok(),
    ensures
        ({
            let after = b_row(x, mb_row, n, bits, fdct);
            &&& b_state_ok(after, x.anchors)
            &&& bits.is_prefix_of(after.bits)
            &&& n > 0 ==> broken_up(added(bits, after.bits), 0, 13)
        }),
    decreases n,
{
    lemma2_to64();
    if n > 0 {
        lemma_b_row_keeps(x, mb_row, n - 1, bits, fdct);
        let before = b_row(x, mb_row, n - 1, bits, fdct);
        let after = b_row(x, mb_row, n, bits, fdct);
        let src = x.at(n - 1, mb_row);
        let c = x.coded(src, before, fdct);
        lemma_b_coded_readable(x, src, before, fdct);
        lemma_inter_broken_up(c);
        lemma_added(before.bits, c.bits());
        lemma_added_twice(bits, before.bits, after.bits);
        if n > 1 {
            lemma_joined(added(bits, before.bits), 0, 13, added(before.bits, after.bits), 0, 13);
        }
    } else {
        assert(bits.is_prefix_of(bits));
    }
}

/// What was written for the macroblocks from `k` to `n` of a row was added.
proof fn lemma_b_row_grows<D: Fn([[i16; 8]; 8]) -> [[i32; 8]; 8]>(
    x: BSource,
    mb_row: int,
    k: int,
    n: int,
    bits: Seq<bool>,
    fdct: D,
)
    requires
        0 <= k <= n,
        x.ok(),
    ensures
        b_row(x, mb_row, k, bits, fdct).bits.is_prefix_of(b_row(x, mb_row, n, bits, fdct).bits),
    decreases n - k,
{
    let at_k = b_row(x, mb_row, k, bits, fdct).bits;
    if k < n {
        lemma_b_row_grows(x, mb_row, k, n - 1, bits, fdct);
        lemma_b_row_keeps(x, mb_row, n - 1, bits, fdct);
        let before = b_row(x, mb_row, n - 1, bits, fdct);
        let after = b_row(x, mb_row, n, bits, fdct);
        let src = x.at(n - 1, mb_row);
        lemma_b_coded_readable(x, src, before, fdct);
        lemma_added(before.bits, x.coded(src, before, fdct).bits());
        lemma_added_twice(at_k, before.bits, after.bits);
    } else {
        assert(at_k.is_prefix_of(at_k));
    }
}

/// A row keeps the shape of the frame.
proof fn lemma_b_row_keeps_shape<
    D: Fn([[i16; 8]; 8]) -> [[i32; 8]; 8],
    F: Fn([[i32; 8]; 8]) -> [[i16; 8]; 8],
>(x: BSource, mb_row: int, n: int, frame: FrameContents, fdct: D, idct: F)
    requires
        frame.wf(),
        frame.chroma_format == ChromaFormat::Yuv420,
    ensures
        b_row_frame(x, mb_row, n, frame, fdct, idct).wf(),
        b_row_frame(x, mb_row, n, frame, fdct, idct).chroma_format == ChromaFormat::Yuv420,
    decreases n,
{
    if n > 0 {
        lemma_b_row_keeps_shape(x, mb_row, n - 1, frame, fdct, idct);
        let src = x.at(n - 1, mb_row);
        let preds = x.prediction(src, b_row(x, mb_row, n - 1, Seq::empty(), fdct));
        lemma_blocks_keep_shape(
            b_row_frame(x, mb_row, n - 1, frame, fdct, idct),
            preds,
            ChromaFormat::Yuv420,
            src.mb_col,
            src.mb_row,
            decoded_residuals(
                macroblock_levels(src, preds, fdct),
                src.scale,
                src.params.non_intra_quant,
                idct,
            ),
            6,
        );
    }
}

/// The macroblocks of a row from `n` on are decoded to their predictions and their
/// residuals.
#[verifier::rlimit(40)]
proof fn lemma_b_row_read<
    D: Fn([[i16; 8]; 8]) -> [[i32; 8]; 8],
    F: Fn([[i32; 8]; 8]) -> [[i16; 8]; 8],
>(
    s: Seq<bool>,
    base: int,
    x: BSource,
    mb_row: int,
    n: int,
    bits: Seq<bool>,
    frame: FrameContents,
    ctx: SliceWalkContext,
    wst: WalkState,
    vc: VectorContexts,
    ist: InterState,
    count: int,
    fdct: D,
    idct: F,
)
    requires
        x.ok(),
        0 <= n <= blocks_of_16(x.params.width as int),
        0 <= mb_row,
        0 <= base <= bits.len(),
        reads_mpeg1(ctx, x.params, PictureCodingType::Bidirectional),
        ctx.f_codes.spec_for_kind(MotionVectorsKind::Forward) == (
            x.anchors.forward_f_code,
            x.anchors.forward_f_code,
        ),
        ctx.f_codes.spec_for_kind(MotionVectorsKind::Backward) == (
            x.anchors.backward_f_code,
            x.anchors.backward_f_code,
        ),
        b_contexts(vc, x.anchors),
        (mb_row + 1) * blocks_of_16(x.params.width as int) - 1 <= MAX_ADDRESS,
        mb_row < 175,
        state_ok(wst),
        wst.address == mb_row * blocks_of_16(x.params.width as int) + n - 1,
        wst.scale == x.scale,
        b_holds(ist, b_row(x, mb_row, n, bits, fdct)),
        frame.wf(),
        frame.chroma_format == ChromaFormat::Yuv420,
        ({
            let w = blocks_of_16(x.params.width as int);
            let end = b_row(x, mb_row, w, bits, fdct);
            &&& stands(s, base, end.bits)
            &&& slice_ends(s, end.bits.len() - base)
        }),
    ensures
        ({
            let w = blocks_of_16(x.params.width as int);
            let now = b_row(x, mb_row, n, bits, fdct);
            let read = walk_from(s, now.bits.len() - base, ctx, wst, idct);
            &&& read is Ok
            &&& inter_placed(
                b_row_frame(x, mb_row, n, frame, fdct, idct),
                x.refs(),
                read->Ok_0,
                0,
                w,
                vc,
                ist,
                count,
            ) == Ok::<(FrameContents, int), Error>(
                (b_row_frame(x, mb_row, w, frame, fdct, idct), count + (w - n)),
            )
        }),
    decreases blocks_of_16(x.params.width as int) - n,
{
    let w = blocks_of_16(x.params.width as int);
    let now = b_row(x, mb_row, n, bits, fdct);
    let end = b_row(x, mb_row, w, bits, fdct);
    let at = now.bits.len() - base;
    let here = b_row_frame(x, mb_row, n, frame, fdct, idct);
    if n < w {
        let src = x.at(n, mb_row);
        let next = b_row(x, mb_row, n + 1, bits, fdct);
        lemma_b_row_grows(x, mb_row, n + 1, w, bits, fdct);
        lemma_b_row_grows(x, mb_row, n, w, bits, fdct);
        lemma_b_row_keeps(x, mb_row, n, bits, fdct);
        lemma_b_row_keeps(x, mb_row, n + 1, bits, fdct);
        lemma_b_row_keeps_shape(x, mb_row, n, frame, fdct, idct);
        lemma_stands_prefix(s, base, next.bits, end.bits);
        lemma_row_fits(mb_row, w);
        lemma_located(src);
        lemma_b_lasts(x, mb_row, n, bits, fdct);
        lemma_b_macroblock_read(
            s,
            base,
            x,
            src,
            now,
            here,
            ctx,
            wst,
            vc,
            ist,
            fdct,
            idct,
        );
        let (read, p) = macroblock_at(s, at, ctx, wst, idct);
        let m = read->Ok_0.0;
        let after = read->Ok_0.1;
        lemma_one_goes_on(s, at);
        lemma_macroblock_advances(s, at, ctx, wst, idct);
        let (_, placed, last) = coded_macroblock(here, x.refs(), m, w, vc, ist);
        lemma_b_row_read(
            s,
            base,
            x,
            mb_row,
            n + 1,
            bits,
            frame,
            ctx,
            after,
            vc,
            last,
            count + 1,
            fdct,
            idct,
        );
        let rest = walk_from(s, p, ctx, after, idct)->Ok_0;
        lemma_inter_placed_tail(placed, x.refs(), m, rest, 0, w, vc, last, count + 1);
        assert((seq![m] + rest)[0] == m);
        assert(predicted_run(here, x.refs(), m.address, 0, w, skip_motion(vc, ist)) == here);
    }
}

/// The bits after the first `n` slices of a B-picture.
pub open spec fn b_rows<D: Fn([[i16; 8]; 8]) -> [[i32; 8]; 8]>(
    x: BSource,
    n: int,
    bits: Seq<bool>,
    fdct: D,
) -> Seq<bool> {
    b_rows_encoded(x.current, x.anchors, x.params, x.scale, n, bits, fdct)
}

/// The bits in front of the macroblocks of row `r`.
pub open spec fn b_row_begin<D: Fn([[i16; 8]; 8]) -> [[i32; 8]; 8]>(
    x: BSource,
    r: int,
    bits: Seq<bool>,
    fdct: D,
) -> Seq<bool> {
    b_rows(x, r, bits, fdct) + slice_header_bits(r, x.scale)
}

/// The frame after the first `n` rows.
pub open spec fn b_rows_frame<
    D: Fn([[i16; 8]; 8]) -> [[i32; 8]; 8],
    F: Fn([[i32; 8]; 8]) -> [[i16; 8]; 8],
>(x: BSource, n: int, frame: FrameContents, fdct: D, idct: F) -> FrameContents
    decreases n,
{
    if n <= 0 {
        frame
    } else {
        b_row_frame(
            x,
            n - 1,
            blocks_of_16(x.params.width as int),
            b_rows_frame(x, n - 1, frame, fdct, idct),
            fdct,
            idct,
        )
    }
}

proof fn lemma_b_rows_keep_shape<
    D: Fn([[i16; 8]; 8]) -> [[i32; 8]; 8],
    F: Fn([[i32; 8]; 8]) -> [[i16; 8]; 8],
>(x: BSource, n: int, frame: FrameContents, fdct: D, idct: F)
    requires
        frame.wf(),
        frame.chroma_format == ChromaFormat::Yuv420,
    ensures
        b_rows_frame(x, n, frame, fdct, idct).wf(),
        b_rows_frame(x, n, frame, fdct, idct).chroma_format == ChromaFormat::Yuv420,
    decreases n,
{
    if n > 0 {
        lemma_b_rows_keep_shape(x, n - 1, frame, fdct, idct);
        lemma_b_row_keeps_shape(
            x,
            n - 1,
            blocks_of_16(x.params.width as int),
            b_rows_frame(x, n - 1, frame, fdct, idct),
            fdct,
            idct,
        );
    }
}

/// What a decoder of the B-pictures of an encoder is set to.
pub open spec fn b_params(x: BSource, inter: Mpeg1InterParams) -> bool {
    &&& inter.base == x.params
    &&& inter.picture_coding_type == PictureCodingType::Bidirectional
    &&& inter.forward_f_code == x.anchors.forward_f_code
    &&& !inter.full_pel_forward_vector
    &&& inter.backward_f_code == x.anchors.backward_f_code
    &&& !inter.full_pel_backward_vector
}

/// A slice of a B-picture that was written is decoded to the predictions and the
/// residuals of its macroblocks.
pub proof fn law_b_slice_round_trip<
    D: Fn([[i16; 8]; 8]) -> [[i32; 8]; 8],
    F: Fn([[i32; 8]; 8]) -> [[i16; 8]; 8],
>(
    x: BSource,
    mb_row: int,
    bits: Seq<bool>,
    frame: FrameContents,
    inter: Mpeg1InterParams,
    buf: Seq<u8>,
    fdct: D,
    idct: F,
)
    requires
        x.ok(),
        b_params(x, inter),
        0 <= mb_row < 175,
        x.params.height <= 2800,
        (mb_row + 1) * blocks_of_16(x.params.width as int) - 1 <= MAX_ADDRESS,
        frame.wf(),
        frame.chroma_format == ChromaFormat::Yuv420,
        ({
            let w = blocks_of_16(x.params.width as int);
            let begin = bits + slice_header_bits(mb_row, x.scale);
            let end = b_row(x, mb_row, w, begin, fdct);
            let s = bits_of(buf);
            &&& stands(s, bits.len() as int, end.bits)
            &&& slice_ends(s, end.bits.len() - bits.len())
        }),
    ensures
        ({
            let w = blocks_of_16(x.params.width as int);
            let header = slice_header_of(bits_of(buf), x.params.height as u32);
            &&& header is Ok
            &&& inter_slice(inter, x.refs(), idct)(buf, header->Ok_0, frame) == Ok::<
                (FrameContents, int),
                Error,
            >((b_row_frame(x, mb_row, w, frame, fdct, idct), w))
        }),
{
    let w = blocks_of_16(x.params.width as int);
    let s = bits_of(buf);
    let base = bits.len() as int;
    let head = slice_header_bits(mb_row, x.scale);
    let begin = bits + head;
    let end = b_row(x, mb_row, w, begin, fdct);
    lemma2_to64();
    lemma_slice_header_len(mb_row, x.scale);
    lemma_b_row_keeps(x, mb_row, w, begin, fdct);
    lemma_stands_prefix(s, base, begin, end.bits);
    lemma_stands_split(s, base, bits, head);
    law_slice_header_round_trip(s, mb_row, x.scale, x.params.height as u32);
    let header = slice_header_of(s, x.params.height as u32)->Ok_0;
    let ctx = mpeg1_context(
        x.params,
        PictureCodingType::Bidirectional,
        header,
        inter.forward_f_code,
        inter.backward_f_code,
    );
    lemma_row_fits(mb_row, w);
    lemma_b_row_read(
        s,
        base,
        x,
        mb_row,
        0,
        begin,
        frame,
        ctx,
        walk_start(ctx),
        vector_contexts(inter),
        slice_start_state(),
        0,
        fdct,
        idct,
    );
}

/// The slices of a B-picture as its encoder writes them.
spec fn b_slices<D: Fn([[i16; 8]; 8]) -> [[i32; 8]; 8]>(
    x: BSource,
    bits: Seq<bool>,
    fdct: D,
) -> WrittenSlices {
    let h = blocks_of_16(x.params.height as int);
    let w = blocks_of_16(x.params.width as int);
    WrittenSlices {
        scale: x.scale,
        starts: Seq::new((h + 1) as nat, |r: int| b_rows(x, r, bits, fdct)),
        ends: Seq::new(
            h as nat,
            |r: int| b_row(x, r, w, b_row_begin(x, r, bits, fdct), fdct).bits,
        ),
    }
}

/// A slice of a B-picture stands where it belongs.
proof fn lemma_b_slice_written<D: Fn([[i16; 8]; 8]) -> [[i32; 8]; 8]>(
    x: BSource,
    r: int,
    bits: Seq<bool>,
    fdct: D,
)
    requires
        x.ok(),
        1 <= x.params.width,
        0 <= r < blocks_of_16(x.params.height as int),
    ensures
        b_slices(x, bits, fdct).slice_ok(r),
{
    let w = blocks_of_16(x.params.width as int);
    let begin = b_row_begin(x, r, bits, fdct);
    lemma_b_row_keeps(x, r, w, begin, fdct);
    lemma_loosened(added(begin, b_row(x, r, w, begin, fdct).bits), 0, 13, 0, 15);
}

/// A slice of a B-picture is decoded to the frame after it.
proof fn lemma_b_slice_reads<
    D: Fn([[i16; 8]; 8]) -> [[i32; 8]; 8],
    F: Fn([[i32; 8]; 8]) -> [[i16; 8]; 8],
>(
    x: BSource,
    r: int,
    bits: Seq<bool>,
    frame: FrameContents,
    inter: Mpeg1InterParams,
    buf: Seq<u8>,
    fdct: D,
    idct: F,
)
    requires
        x.ok(),
        b_params(x, inter),
        x.params.height <= 2800,
        macroblocks_addressable(x.params),
        0 <= r < blocks_of_16(x.params.height as int),
        frame.wf(),
        frame.chroma_format == ChromaFormat::Yuv420,
    ensures
        slice_reads(
            b_slices(x, bits, fdct),
            r,
            buf,
            x.params.height as u32,
            b_rows_frame(x, r, frame, fdct, idct),
            b_rows_frame(x, r + 1, frame, fdct, idct),
            blocks_of_16(x.params.width as int),
            inter_slice(inter, x.refs(), idct),
        ),
{
    let w = blocks_of_16(x.params.width as int);
    let y = b_slices(x, bits, fdct);
    lemma_rows_addressable(x.params, r);
    lemma_b_rows_keep_shape(x, r, frame, fdct, idct);
    let s = bits_of(buf);
    let start = y.starts[r].len() as int;
    if stands(s, start, y.ends[r]) && slice_ends(s, y.ends[r].len() - start) {
        law_b_slice_round_trip(
            x,
            r,
            y.starts[r],
            b_rows_frame(x, r, frame, fdct, idct),
            inter,
            buf,
            fdct,
            idct,
        );
    }
}

/// Where the slices of a B-picture begin.
pub open spec fn b_body_begin(before: Seq<bool>, temporal_reference: u16, a: Anchors) -> Seq<bool> {
    zero_padded(
        before + picture_header_bits(
            temporal_reference,
            PictureCodingType::Bidirectional,
            a.forward_f_code,
            a.backward_f_code,
        ),
    )
}

/// The slices of a B-picture stand one after the other.
proof fn lemma_b_slices_ok<D: Fn([[i16; 8]; 8]) -> [[i32; 8]; 8]>(
    x: BSource,
    bits: Seq<bool>,
    fdct: D,
)
    requires
        x.ok(),
        1 <= x.params.width,
        x.params.height <= 2880,
        bits.len() % 8 == 0,
    ensures
        b_slices(x, bits, fdct).ok(),
        b_slices(x, bits, fdct).starts[0] == bits,
{
    let y = b_slices(x, bits, fdct);
    assert forall|r: int| 0 <= r < y.ends.len() implies #[trigger] y.slice_ok(r) by {
        lemma_b_slice_written(x, r, bits, fdct);
    }
    assert(y.starts[0] == bits);
}

/// A B-picture adds whole bytes to what was written before.
pub proof fn lemma_b_picture_added<D: Fn([[i16; 8]; 8]) -> [[i32; 8]; 8]>(
    before: Seq<bool>,
    x: BSource,
    temporal_reference: u16,
    fdct: D,
)
    requires
        1 <= x.params.width,
        x.params.height <= 2880,
        b_picture_encoded(
            before,
            x.current,
            x.anchors,
            x.params,
            temporal_reference,
            x.scale,
            fdct,
        ).0 is Ok,
    ensures
        ({
            let bits = b_picture_encoded(
                before,
                x.current,
                x.anchors,
                x.params,
                temporal_reference,
                x.scale,
                fdct,
            ).1;
            &&& before.is_prefix_of(bits)
            &&& bits.len() % 8 == 0
            &&& holds_at(
                bits,
                before.len() as int,
                picture_header_bits(
                    temporal_reference,
                    PictureCodingType::Bidirectional,
                    x.anchors.forward_f_code,
                    x.anchors.backward_f_code,
                ),
            )
        }),
{
    let header = picture_header_bits(
        temporal_reference,
        PictureCodingType::Bidirectional,
        x.anchors.forward_f_code,
        x.anchors.backward_f_code,
    );
    let bits = b_body_begin(before, temporal_reference, x.anchors);
    lemma_b_slices_ok(x, bits, fdct);
    lemma_whole_bytes_added(b_slices(x, bits, fdct), before, header);
}

/// A B-picture that was written holds its own start code and one for each row of
/// macroblocks. `before` is what was written before the picture, and `picture` the
/// bytes of the picture.
pub proof fn law_b_picture_start_codes<D: Fn([[i16; 8]; 8]) -> [[i32; 8]; 8]>(
    before: Seq<bool>,
    x: BSource,
    temporal_reference: u16,
    picture: Seq<u8>,
    fdct: D,
)
    requires
        1 <= x.params.width,
        x.params.height <= 2880,
        before.len() % 8 == 0,
        ({
            let (res, bits) = b_picture_encoded(
                before,
                x.current,
                x.anchors,
                x.params,
                temporal_reference,
                x.scale,
                fdct,
            );
            &&& res is Ok
            &&& bits_of(picture) == bits.subrange(before.len() as int, bits.len() as int)
        }),
    ensures
        holds_codes(picture, picture_codes(blocks_of_16(x.params.height as int))),
{
    let coding = PictureCodingType::Bidirectional;
    let a = x.anchors;
    let bits = b_body_begin(before, temporal_reference, a);
    let y = b_slices(x, bits, fdct);
    lemma_header_len(temporal_reference, coding, a.forward_f_code, a.backward_f_code);
    lemma_b_slices_ok(x, bits, fdct);
    lemma_picture_codes(
        y,
        picture,
        before,
        temporal_reference,
        coding,
        a.forward_f_code,
        a.backward_f_code,
    );
}

/// A B-picture that was written is decoded to the predictions and the residuals of
/// its macroblocks, provided that the decoder can number its rows and its
/// macroblocks. `before` is what was written before the picture, and `picture` the
/// bytes of the picture.
pub proof fn law_b_picture_round_trip<
    D: Fn([[i16; 8]; 8]) -> [[i32; 8]; 8],
    F: Fn([[i32; 8]; 8]) -> [[i16; 8]; 8],
>(
    before: Seq<bool>,
    x: BSource,
    temporal_reference: u16,
    inter: Mpeg1InterParams,
    picture: Seq<u8>,
    fdct: D,
    idct: F,
)
    requires
        1 <= x.params.width,
        x.params.height <= 2800,
        macroblocks_addressable(x.params),
        before.len() % 8 == 0,
        b_params(x, inter),
        ({
            let (res, bits) = b_picture_encoded(
                before,
                x.current,
                x.anchors,
                x.params,
                temporal_reference,
                x.scale,
                fdct,
            );
            &&& res is Ok
            &&& bits_of(picture) == bits.subrange(before.len() as int, bits.len() as int)
        }),
    ensures
        ({
            let h = blocks_of_16(x.params.height as int);
            let frame = zero_frame(
                x.params.width as int,
                x.params.height as int,
                ChromaFormat::Yuv420,
            );
            decoded_slices(
                picture,
                0,
                x.params.height as u32,
                0,
                frame,
                0,
                inter_slice(inter, x.refs(), idct),
            ) == Ok::<(FrameContents, int), Error>(
                (
                    b_rows_frame(x, h, frame, fdct, idct),
                    h * blocks_of_16(x.params.width as int),
                ),
            )
        }),
{
    let h = blocks_of_16(x.params.height as int);
    let w = blocks_of_16(x.params.width as int);
    let coding = PictureCodingType::Bidirectional;
    let a = x.anchors;
    let bits = b_body_begin(before, temporal_reference, a);
    let frame = zero_frame(x.params.width as int, x.params.height as int, ChromaFormat::Yuv420);
    lemma_zero_frame_wf(
        x.params.width as int,
        x.params.height as int,
        ChromaFormat::Yuv420,
    );
    let y = b_slices(x, bits, fdct);
    let frames = Seq::new((h + 1) as nat, |r: int| b_rows_frame(x, r, frame, fdct, idct));
    let vertical = x.params.height as u32;
    let slice = inter_slice(inter, x.refs(), idct);
    lemma_header_len(temporal_reference, coding, a.forward_f_code, a.backward_f_code);
    lemma_b_slices_ok(x, bits, fdct);
    assert forall|r: int, buf: Seq<u8>| 0 <= r < y.ends.len() implies #[trigger] slice_reads(
        y,
        r,
        buf,
        vertical,
        frames[r],
        frames[r + 1],
        w,
        slice,
    ) by {
        lemma_b_slice_reads(x, r, bits, frame, inter, buf, fdct, idct);
    }
    lemma_first_slice_found(
        y,
        picture,
        before,
        temporal_reference,
        coding,
        a.forward_f_code,
        a.backward_f_code,
    );
    lemma_picture_read(y, picture, before.len() as int, frames, vertical, 0, w, slice);
}

} // verus!
