//! Skipped macroblocks: which coded macroblocks they stand for.

use crate::frame_assembly::{macroblock_addressable, FrameContents};
use crate::inter_reconstruction::{inter_macroblock, predicted, FrameMotion, ReferenceContents};
use crate::mpeg1_motion_vector::Mpeg1MotionDirection;
use crate::mpeg1_picture::{
    coded_macroblock, coded_motion, inter_state_ok, lemma_carried_in_range, residuals_of,
    skip_motion, wire_in_range, InterState, VectorContexts, ERR_NO_BACKWARD_VECTOR,
    ERR_NO_FORWARD_VECTOR,
};
use crate::mpeg2_block_dc::ColourComponent;
use crate::mpeg2_macroblock_blocks::DecodedBlock;
use crate::picture_header::PictureCodingType;
use crate::picture_reconstruction::{
    motion_of, one_macroblock, skipped_motion, slice_placed, InterDirection,
    PicturePredictionParams,
};
use crate::predicted_samples::{
    in_macroblock, law_prediction_fills_macroblock, law_still_macroblock_is_copied,
};
use crate::slice_macroblock_walk::MacroblockFields;
use crate::slice_motion::{other_mode, ReconstructedFields};
use vstd::prelude::*;

verus! {

// ---------------------------------------------------------------------------
// MPEG-2
// ---------------------------------------------------------------------------

/// A macroblock like `m`, but at another address, after `skipped` others, and without a
/// residual.
pub open spec fn without_residual(
    m: MacroblockFields,
    address: int,
    skipped: int,
) -> MacroblockFields {
    MacroblockFields {
        address,
        skipped,
        dct_type: None,
        blocks: Seq::empty(),
        ..m
    }
}

/// In a B-picture the slice in which macroblocks are skipped after a predicted one is
/// decoded as the slice in which the last of them is coded instead, with the very
/// vectors of that predicted macroblock and without a residual.
#[verifier::rlimit(40)]
pub proof fn law_skipped_stands_for_coded(
    frame: FrameContents,
    refs: ReferenceContents,
    m: MacroblockFields,
    v: ReconstructedFields,
    rest: Seq<MacroblockFields>,
    vectors: Seq<ReconstructedFields>,
    mb_width: int,
    params: PicturePredictionParams,
    previous: Option<InterDirection>,
    count: int,
)
    requires
        params.picture_coding_type == PictureCodingType::Bidirectional,
        !m.macroblock_type.macroblock_intra,
        !other_mode(m),
        rest.len() > 0,
        vectors.len() > 0,
        rest[0].skipped > 0,
        frame.chroma_format == params.geometry.chroma_format,
    ensures
        ({
            let first = rest[0];
            let skipped = without_residual(m, first.address - 1, first.skipped - 1);
            let alone = MacroblockFields { skipped: 0, ..first };
            slice_placed(
                frame,
                refs,
                seq![m] + rest,
                seq![v] + vectors,
                mb_width,
                params,
                previous,
                count,
            ) == slice_placed(
                frame,
                refs,
                seq![m] + (seq![skipped] + (seq![alone] + rest.drop_first())),
                seq![v] + (seq![v] + vectors),
                mb_width,
                params,
                previous,
                count,
            )
        }),
{
    let first = rest[0];
    let skipped = without_residual(m, first.address - 1, first.skipped - 1);
    let alone = MacroblockFields { skipped: 0, ..first };
    let tail = rest.drop_first();
    let short = seq![m] + rest;
    let long = seq![m] + (seq![skipped] + (seq![alone] + tail));
    let few = seq![v] + vectors;
    let many = seq![v] + (seq![v] + vectors);
    assert(short.drop_first() =~= rest);
    assert(few.drop_first() =~= vectors);
    assert(long.drop_first() =~= seq![skipped] + (seq![alone] + tail));
    assert(many.drop_first() =~= seq![v] + vectors);
    assert(long.drop_first().drop_first() =~= seq![alone] + tail);
    assert(many.drop_first().drop_first() =~= vectors);
    assert((seq![alone] + tail).drop_first() =~= tail);
    assert(rest.drop_first() =~= tail);
    assert(residuals_of(Seq::<DecodedBlock>::empty()) =~= Seq::empty());
    assert(!other_mode(skipped));
    reveal_with_fuel(slice_placed, 4);
    reveal_with_fuel(crate::inter_reconstruction::predicted_run, 2);
}

/// Every sample of a macroblock that is skipped in a B-picture after a predicted
/// macroblock is the prediction of that sample with the very vectors of that macroblock.
pub proof fn law_skipped_has_the_last_vectors(
    before: FrameContents,
    frame: FrameContents,
    refs: ReferenceContents,
    m: MacroblockFields,
    v: ReconstructedFields,
    mb_width: int,
    previous: Option<InterDirection>,
    mb_col: int,
    mb_row: int,
    k: ColourComponent,
    x: int,
    y: int,
)
    requires
        !m.macroblock_type.macroblock_intra,
        one_macroblock(before, refs, m, v, mb_width, before.chroma_format, previous).0 is Ok,
        frame.wf(),
        macroblock_addressable(mb_col, mb_row),
        frame.plane(k).has(x, y),
        in_macroblock(k, frame.chroma_format, mb_col, mb_row, x, y),
    ensures
        ({
            let last = one_macroblock(
                before,
                refs,
                m,
                v,
                mb_width,
                before.chroma_format,
                previous,
            ).2;
            inter_macroblock(
                frame,
                refs,
                mb_col,
                mb_row,
                false,
                skipped_motion(PictureCodingType::Bidirectional, last),
                Seq::empty(),
            ).plane(k).at(x, y) == predicted(
                refs,
                motion_of(v),
                k,
                frame.chroma_format,
                x,
                y,
            ) as u8
        }),
{
    let last = one_macroblock(before, refs, m, v, mb_width, before.chroma_format, previous).2;
    let motion = skipped_motion(PictureCodingType::Bidirectional, last);
    law_prediction_fills_macroblock(frame, refs, motion, mb_col, mb_row, k, x, y);
}

/// A macroblock that is skipped in a P-picture is copied from the reference, whatever
/// was predicted before.
pub proof fn law_skipped_of_p_picture_is_copied(
    frame: FrameContents,
    refs: ReferenceContents,
    previous: Option<InterDirection>,
    mb_col: int,
    mb_row: int,
    k: ColourComponent,
    x: int,
    y: int,
)
    requires
        frame.wf(),
        macroblock_addressable(mb_col, mb_row),
        frame.plane(k).has(x, y),
        in_macroblock(k, frame.chroma_format, mb_col, mb_row, x, y),
        refs.forward is Some,
        refs.forward->0.plane(k).has(x, y),
    ensures
        inter_macroblock(
            frame,
            refs,
            mb_col,
            mb_row,
            false,
            skipped_motion(PictureCodingType::Predictive, previous),
            Seq::empty(),
        ).plane(k).at(x, y) == refs.forward->0.plane(k).at(x, y),
{
    law_still_macroblock_is_copied(frame, refs, mb_col, mb_row, k, x, y);
}

// ---------------------------------------------------------------------------
// MPEG-1
// ---------------------------------------------------------------------------

/// In an MPEG-1 B-picture a macroblock that is skipped after a predicted one is
/// predicted in the same directions with the same vectors.
pub proof fn law_mpeg1_skipped_has_the_last_vectors(
    frame: FrameContents,
    refs: ReferenceContents,
    m: MacroblockFields,
    mb_width: int,
    vc: VectorContexts,
    st: InterState,
)
    requires
        vc.is_b,
        !m.macroblock_type.macroblock_intra,
        inter_state_ok(st, vc),
        wire_in_range(m.forward, vc.forward.f_code),
        wire_in_range(m.backward, vc.backward.f_code),
        coded_macroblock(frame, refs, m, mb_width, vc, st).0 is Ok,
    ensures
        Ok::<FrameMotion, crate::error::Error>(
            skip_motion(vc, coded_macroblock(frame, refs, m, mb_width, vc, st).2),
        ) == coded_motion(m, vc, st).0,
{
    lemma_carried_in_range(
        m.forward,
        Mpeg1MotionDirection::Forward,
        ERR_NO_FORWARD_VECTOR,
        vc.forward,
        st.forward,
    );
    lemma_carried_in_range(
        m.backward,
        Mpeg1MotionDirection::Backward,
        ERR_NO_BACKWARD_VECTOR,
        vc.backward,
        st.backward,
    );
}

/// In an MPEG-1 P-picture a skipped macroblock is copied from the reference.
pub proof fn law_mpeg1_skipped_of_p_picture_is_copied(
    frame: FrameContents,
    refs: ReferenceContents,
    vc: VectorContexts,
    st: InterState,
    mb_col: int,
    mb_row: int,
    k: ColourComponent,
    x: int,
    y: int,
)
    requires
        !vc.is_b,
        frame.wf(),
        macroblock_addressable(mb_col, mb_row),
        frame.plane(k).has(x, y),
        in_macroblock(k, frame.chroma_format, mb_col, mb_row, x, y),
        refs.forward is Some,
        refs.forward->0.plane(k).has(x, y),
    ensures
        inter_macroblock(
            frame,
            refs,
            mb_col,
            mb_row,
            false,
            skip_motion(vc, st),
            Seq::empty(),
        ).plane(k).at(x, y) == refs.forward->0.plane(k).at(x, y),
{
    law_still_macroblock_is_copied(frame, refs, mb_col, mb_row, k, x, y);
}

/// A macroblock of a B-picture that is skipped with no predicted macroblock before it is
/// predicted forward, with the last forward vector.
pub proof fn law_skipped_without_a_predecessor_is_forward(vc: VectorContexts, st: InterState)
    requires
        vc.is_b,
        st.prior is None,
    ensures
        skip_motion(vc, st).forward is Some,
        skip_motion(vc, st).backward is None,
        skip_motion(vc, st).forward == skip_motion(
            vc,
            (InterState {
                prior: Some(
                    (crate::mpeg1_picture::PriorDirections { forward: true, backward: true }),
                ),
                ..st
            }),
        ).forward,
        skipped_motion(PictureCodingType::Bidirectional, None).backward is None,
        skipped_motion(PictureCodingType::Bidirectional, None) == skipped_motion(
            PictureCodingType::Predictive,
            None,
        ),
{
}

} // verus!
