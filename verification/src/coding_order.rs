//! The order in which the pictures of a sequence are coded: each anchor before the
//! pictures that are shown before it.

use crate::bits::zero_padded;
use crate::error::{Error, Result};
use crate::frame_assembly::FrameContents;
use crate::gop_header::{gop_bits, nominal_rate, time_of, Mpeg2Gop, ERR_PICTURE_RATE};
use crate::mpeg1_encoder::{
    anchors_encoded, b_picture_encoded, b_run_encoded, gops_encoded,
    intra_picture_encoded, least, p_picture_encoded, Anchors, SequencePlan,
};
use vstd::prelude::*;

verus! {

/// What a sequence holds after its header: the headers of its groups, and its
/// pictures with the frames that they are predicted from. Frames are numbered as they
/// are shown; `group` is the first frame of the group.
pub enum Coded {
    Group { group: int },
    Intra { group: int },
    Predicted { group: int, frame: int, forward: int },
    Between { group: int, frame: int, forward: int, backward: int },
}

impl Coded {
    /// Whether frame `k` is coded here.
    pub open spec fn codes(self, k: int) -> bool {
        match self {
            Coded::Group { .. } => false,
            Coded::Intra { group } => k == group,
            Coded::Predicted { frame, .. } => k == frame,
            Coded::Between { frame, .. } => k == frame,
        }
    }

    /// Whether frame `k` is coded here as one that others of the group are predicted
    /// from.
    pub open spec fn anchors(self, group: int, k: int) -> bool {
        !(self is Between) && self.codes(k) && self.group_of() == group
    }

    /// Whether this is predicted from frame `k`.
    pub open spec fn needs(self, k: int) -> bool {
        match self {
            Coded::Group { .. } => false,
            Coded::Intra { .. } => false,
            Coded::Predicted { forward, .. } => k == forward,
            Coded::Between { forward, backward, .. } => k == forward || k == backward,
        }
    }

    pub open spec fn group_of(self) -> int {
        match self {
            Coded::Group { group } => group,
            Coded::Intra { group } => group,
            Coded::Predicted { group, .. } => group,
            Coded::Between { group, .. } => group,
        }
    }

    /// Whether the frames lie as they are shown: within the group, the forward one
    /// before this, the backward one after it.
    pub open spec fn well_placed(self) -> bool {
        match self {
            Coded::Group { .. } => true,
            Coded::Intra { .. } => true,
            Coded::Predicted { group, frame, forward } => group <= forward < frame,
            Coded::Between { group, frame, forward, backward } => group <= forward < frame
                < backward,
        }
    }
}

/// The pictures from frame `k` up to an anchor, predicted from it and the one before.
pub open spec fn run_order(group: int, k: int, forward: int, anchor: int) -> Seq<Coded>
    decreases anchor - k,
{
    if k >= anchor {
        Seq::empty()
    } else {
        seq![(Coded::Between { group, frame: k, forward, backward: anchor })] + run_order(
            group,
            k + 1,
            forward,
            anchor,
        )
    }
}

/// The rest of a group, whose last anchor so far is frame `prev`.
pub open spec fn period_order(step: int, group: int, prev: int, end: int) -> Seq<Coded>
    decreases end - prev,
{
    if prev >= end || step < 1 {
        Seq::empty()
    } else {
        let next = least(prev + step, end);
        seq![(Coded::Predicted { group, frame: next, forward: prev })] + run_order(
            group,
            prev + 1,
            prev,
            next,
        ) + period_order(step, group, next, end)
    }
}

/// The last frame of the group that starts with a frame.
pub open spec fn group_end(step: int, anchors_per_gop: int, frames: int, start: int) -> int {
    least(start + anchors_per_gop * step, frames - 1)
}

/// The groups from frame `start` on.
pub open spec fn sequence_order(
    step: int,
    anchors_per_gop: int,
    frames: int,
    start: int,
) -> Seq<Coded>
    decreases frames - start,
{
    let end = group_end(step, anchors_per_gop, frames, start);
    if start >= frames || end < start {
        Seq::empty()
    } else {
        seq![(Coded::Group { group: start }), (Coded::Intra { group: start })] + period_order(
            step,
            start,
            start,
            end,
        ) + sequence_order(step, anchors_per_gop, frames, end + 1)
    }
}

// ---------------------------------------------------------------------------
// Every frame once
// ---------------------------------------------------------------------------

/// How often frame `k` is coded.
pub open spec fn times_coded(order: Seq<Coded>, k: int) -> int
    decreases order.len(),
{
    if order.len() == 0 {
        0
    } else {
        times_coded(order.drop_last(), k) + (if order.last().codes(k) {
            1int
        } else {
            0int
        })
    }
}

proof fn lemma_times_joined(a: Seq<Coded>, b: Seq<Coded>, k: int)
    ensures
        times_coded(a + b, k) == times_coded(a, k) + times_coded(b, k),
    decreases b.len(),
{
    if b.len() == 0 {
        assert(a + b =~= a);
    } else {
        assert((a + b).drop_last() =~= a + b.drop_last());
        lemma_times_joined(a, b.drop_last(), k);
    }
}

proof fn lemma_times_one(c: Coded, k: int)
    ensures
        times_coded(seq![c], k) == (if c.codes(k) {
            1int
        } else {
            0int
        }),
{
    reveal_with_fuel(times_coded, 2);
    assert(seq![c].drop_last() =~= Seq::<Coded>::empty());
    assert(seq![c].last() == c);
}

proof fn lemma_run_times(group: int, k: int, forward: int, anchor: int, f: int)
    ensures
        times_coded(run_order(group, k, forward, anchor), f) == (if k <= f < anchor {
            1int
        } else {
            0int
        }),
    decreases anchor - k,
{
    if k < anchor {
        let c = Coded::Between { group, frame: k, forward, backward: anchor };
        lemma_run_times(group, k + 1, forward, anchor, f);
        lemma_times_one(c, f);
        lemma_times_joined(seq![c], run_order(group, k + 1, forward, anchor), f);
    }
}

proof fn lemma_period_times(step: int, group: int, prev: int, end: int, f: int)
    requires
        step >= 1,
    ensures
        times_coded(period_order(step, group, prev, end), f) == (if prev < f <= end {
            1int
        } else {
            0int
        }),
    decreases end - prev,
{
    if prev < end {
        let next = least(prev + step, end);
        let c = Coded::Predicted { group, frame: next, forward: prev };
        let run = run_order(group, prev + 1, prev, next);
        lemma_period_times(step, group, next, end, f);
        lemma_run_times(group, prev + 1, prev, next, f);
        lemma_times_one(c, f);
        lemma_times_joined(seq![c], run, f);
        lemma_times_joined(seq![c] + run, period_order(step, group, next, end), f);
    }
}

pub proof fn lemma_group_end(step: int, anchors_per_gop: int, frames: int, start: int)
    requires
        step >= 1,
        anchors_per_gop >= 1,
        0 <= start < frames,
    ensures
        start <= group_end(step, anchors_per_gop, frames, start) < frames,
{
    assert(anchors_per_gop * step >= 0) by (nonlinear_arith)
        requires
            step >= 1,
            anchors_per_gop >= 1,
    ;
}

/// Every frame of a sequence is coded exactly once, and nothing else is.
pub proof fn law_every_frame_is_coded_once(
    step: int,
    anchors_per_gop: int,
    frames: int,
    start: int,
    k: int,
)
    requires
        step >= 1,
        anchors_per_gop >= 1,
        0 <= start,
    ensures
        times_coded(sequence_order(step, anchors_per_gop, frames, start), k) == (if start <= k
            < frames {
            1int
        } else {
            0int
        }),
    decreases frames - start,
{
    if start < frames {
        let end = group_end(step, anchors_per_gop, frames, start);
        lemma_group_end(step, anchors_per_gop, frames, start);
        let g = Coded::Group { group: start };
        let i = Coded::Intra { group: start };
        let period = period_order(step, start, start, end);
        let rest = sequence_order(step, anchors_per_gop, frames, end + 1);
        law_every_frame_is_coded_once(step, anchors_per_gop, frames, end + 1, k);
        lemma_period_times(step, start, start, end, k);
        lemma_times_one(g, k);
        lemma_times_one(i, k);
        lemma_times_joined(seq![g], seq![i], k);
        assert(seq![g, i] =~= seq![g] + seq![i]);
        lemma_times_joined(seq![g, i], period, k);
        lemma_times_joined(seq![g, i] + period, rest, k);
    }
}

// ---------------------------------------------------------------------------
// A picture for every frame
// ---------------------------------------------------------------------------

/// How many pictures an order holds.
pub open spec fn pictures(order: Seq<Coded>) -> int
    decreases order.len(),
{
    if order.len() == 0 {
        0
    } else {
        pictures(order.drop_last()) + (if order.last() is Group {
            0int
        } else {
            1int
        })
    }
}

proof fn lemma_pictures_joined(a: Seq<Coded>, b: Seq<Coded>)
    ensures
        pictures(a + b) == pictures(a) + pictures(b),
    decreases b.len(),
{
    if b.len() == 0 {
        assert(a + b =~= a);
    } else {
        assert((a + b).drop_last() =~= a + b.drop_last());
        lemma_pictures_joined(a, b.drop_last());
    }
}

proof fn lemma_pictures_one(c: Coded)
    ensures
        pictures(seq![c]) == (if c is Group {
            0int
        } else {
            1int
        }),
{
    reveal_with_fuel(pictures, 2);
    assert(seq![c].drop_last() =~= Seq::<Coded>::empty());
    assert(seq![c].last() == c);
}

proof fn lemma_run_pictures(group: int, k: int, forward: int, anchor: int)
    requires
        k <= anchor,
    ensures
        pictures(run_order(group, k, forward, anchor)) == anchor - k,
    decreases anchor - k,
{
    if k < anchor {
        let c = Coded::Between { group, frame: k, forward, backward: anchor };
        lemma_run_pictures(group, k + 1, forward, anchor);
        lemma_pictures_one(c);
        lemma_pictures_joined(seq![c], run_order(group, k + 1, forward, anchor));
    }
}

proof fn lemma_period_pictures(step: int, group: int, prev: int, end: int)
    requires
        step >= 1,
        prev <= end,
    ensures
        pictures(period_order(step, group, prev, end)) == end - prev,
    decreases end - prev,
{
    if prev < end {
        let next = least(prev + step, end);
        let c = Coded::Predicted { group, frame: next, forward: prev };
        let run = run_order(group, prev + 1, prev, next);
        lemma_period_pictures(step, group, next, end);
        lemma_run_pictures(group, prev + 1, prev, next);
        lemma_pictures_one(c);
        lemma_pictures_joined(seq![c], run);
        lemma_pictures_joined(seq![c] + run, period_order(step, group, next, end));
    }
}

/// A sequence has as many pictures as frames.
pub proof fn law_as_many_pictures_as_frames(
    step: int,
    anchors_per_gop: int,
    frames: int,
    start: int,
)
    requires
        step >= 1,
        anchors_per_gop >= 1,
        0 <= start <= frames,
    ensures
        pictures(sequence_order(step, anchors_per_gop, frames, start)) == frames - start,
    decreases frames - start,
{
    if start < frames {
        let end = group_end(step, anchors_per_gop, frames, start);
        lemma_group_end(step, anchors_per_gop, frames, start);
        let g = Coded::Group { group: start };
        let i = Coded::Intra { group: start };
        let period = period_order(step, start, start, end);
        let rest = sequence_order(step, anchors_per_gop, frames, end + 1);
        law_as_many_pictures_as_frames(step, anchors_per_gop, frames, end + 1);
        lemma_period_pictures(step, start, start, end);
        lemma_pictures_one(g);
        lemma_pictures_one(i);
        lemma_pictures_joined(seq![g], seq![i]);
        assert(seq![g, i] =~= seq![g] + seq![i]);
        lemma_pictures_joined(seq![g, i], period);
        lemma_pictures_joined(seq![g, i] + period, rest);
    }
}

// ---------------------------------------------------------------------------
// References first
// ---------------------------------------------------------------------------

/// Whether frame `k` is an anchor of a group of the order.
pub open spec fn has_anchor(order: Seq<Coded>, group: int, k: int) -> bool {
    exists|j: int| 0 <= j < order.len() && (#[trigger] order[j]).anchors(group, k)
}

/// Whether what stands at `i` is well placed, and each frame that it is predicted
/// from is an anchor of its group, before it.
pub open spec fn references_before(order: Seq<Coded>, i: int) -> bool {
    &&& order[i].well_placed()
    &&& forall|k: int|
        #[trigger] order[i].needs(k) ==> has_anchor(order.subrange(0, i), order[i].group_of(), k)
}

/// Whether `order` may follow `before`.
spec fn follows(before: Seq<Coded>, order: Seq<Coded>) -> bool {
    forall|i: int|
        before.len() <= i < before.len() + order.len() ==> #[trigger] references_before(
            before + order,
            i,
        )
}

proof fn lemma_anchor_kept(a: Seq<Coded>, b: Seq<Coded>, group: int, k: int)
    requires
        has_anchor(a, group, k),
        a.is_prefix_of(b),
    ensures
        has_anchor(b, group, k),
{
    let j = choose|j: int| 0 <= j < a.len() && (#[trigger] a[j]).anchors(group, k);
    assert(b[j] == a[j]);
}

/// One more after those before.
proof fn lemma_follows_one(before: Seq<Coded>, c: Coded, rest: Seq<Coded>)
    requires
        c.well_placed(),
        forall|k: int| #[trigger] c.needs(k) ==> has_anchor(before, c.group_of(), k),
        follows(before + seq![c], rest),
    ensures
        follows(before, seq![c] + rest),
{
    let all = before + (seq![c] + rest);
    assert(all =~= before + seq![c] + rest);
    assert forall|i: int|
        before.len() <= i < before.len() + (seq![c]
            + rest).len() implies #[trigger] references_before(all, i) by {
        if i == before.len() {
            assert(all[i] == c);
            assert(all.subrange(0, i) =~= before);
        } else {
            assert(references_before(before + seq![c] + rest, i));
        }
    }
}

/// Two orders one after the other.
proof fn lemma_follows_joined(before: Seq<Coded>, a: Seq<Coded>, b: Seq<Coded>)
    requires
        follows(before, a),
        follows(before + a, b),
    ensures
        follows(before, a + b),
{
    let all = before + (a + b);
    assert(all =~= before + a + b);
    assert forall|i: int|
        before.len() <= i < before.len() + (a + b).len() implies #[trigger] references_before(
        all,
        i,
    ) by {
        if i < before.len() + a.len() {
            assert(references_before(before + a, i));
            assert((before + a)[i] == all[i]);
            assert((before + a).subrange(0, i) =~= all.subrange(0, i));
        } else {
            assert(references_before(before + a + b, i));
        }
    }
}

proof fn lemma_run_follows(before: Seq<Coded>, group: int, k: int, forward: int, anchor: int)
    requires
        group <= forward < k,
        has_anchor(before, group, forward),
        has_anchor(before, group, anchor),
    ensures
        follows(before, run_order(group, k, forward, anchor)),
    decreases anchor - k,
{
    if k < anchor {
        let c = Coded::Between { group, frame: k, forward, backward: anchor };
        assert(before.is_prefix_of(before + seq![c]));
        lemma_anchor_kept(before, before + seq![c], group, forward);
        lemma_anchor_kept(before, before + seq![c], group, anchor);
        lemma_run_follows(before + seq![c], group, k + 1, forward, anchor);
        lemma_follows_one(before, c, run_order(group, k + 1, forward, anchor));
    }
}

proof fn lemma_period_follows(before: Seq<Coded>, step: int, group: int, prev: int, end: int)
    requires
        step >= 1,
        group <= prev,
        has_anchor(before, group, prev),
    ensures
        follows(before, period_order(step, group, prev, end)),
    decreases end - prev,
{
    if prev < end {
        let next = least(prev + step, end);
        let c = Coded::Predicted { group, frame: next, forward: prev };
        let one = before + seq![c];
        let run = run_order(group, prev + 1, prev, next);
        let rest = period_order(step, group, next, end);
        assert(one[before.len() as int].anchors(group, next));
        assert(before.is_prefix_of(one));
        lemma_anchor_kept(before, one, group, prev);
        lemma_run_follows(one, group, prev + 1, prev, next);
        assert(one.is_prefix_of(one + run));
        lemma_anchor_kept(one, one + run, group, next);
        lemma_period_follows(one + run, step, group, next, end);
        lemma_follows_joined(one, run, rest);
        lemma_follows_one(before, c, run + rest);
        assert(seq![c] + (run + rest) =~= seq![c] + run + rest);
    }
}

proof fn lemma_sequence_follows(
    before: Seq<Coded>,
    step: int,
    anchors_per_gop: int,
    frames: int,
    start: int,
)
    requires
        step >= 1,
        anchors_per_gop >= 1,
        0 <= start,
    ensures
        follows(before, sequence_order(step, anchors_per_gop, frames, start)),
    decreases frames - start,
{
    if start < frames {
        let end = group_end(step, anchors_per_gop, frames, start);
        lemma_group_end(step, anchors_per_gop, frames, start);
        let g = Coded::Group { group: start };
        let i = Coded::Intra { group: start };
        let period = period_order(step, start, start, end);
        let rest = sequence_order(step, anchors_per_gop, frames, end + 1);
        let headed = before + seq![g] + seq![i];
        assert(headed[before.len() as int + 1].anchors(start, start));
        lemma_period_follows(headed, step, start, start, end);
        lemma_sequence_follows(headed + period, step, anchors_per_gop, frames, end + 1);
        lemma_follows_joined(headed, period, rest);
        lemma_follows_one(before + seq![g], i, period + rest);
        lemma_follows_one(before, g, seq![i] + (period + rest));
        assert(seq![g] + (seq![i] + (period + rest)) =~= seq![g, i] + period + rest);
    }
}

/// Each picture comes after the pictures that it is predicted from, which are
/// anchors of its own group; a picture predicted from two is shown between them.
pub proof fn law_references_come_first(step: int, anchors_per_gop: int, frames: int, i: int)
    requires
        step >= 1,
        anchors_per_gop >= 1,
        0 <= i < sequence_order(step, anchors_per_gop, frames, 0).len(),
    ensures
        references_before(sequence_order(step, anchors_per_gop, frames, 0), i),
{
    let order = sequence_order(step, anchors_per_gop, frames, 0);
    let none = Seq::<Coded>::empty();
    lemma_sequence_follows(none, step, anchors_per_gop, frames, 0);
    assert(none + order =~= order);
}

// ---------------------------------------------------------------------------
// The encoder
// ---------------------------------------------------------------------------

/// The bits written so far, and what a decoder has of the anchors.
pub struct SequenceEncoding {
    pub bits: Seq<bool>,
    pub anchors: Map<int, FrameContents>,
}

/// The encoding after one more.
pub open spec fn one_encoded<
    D: Fn([[i16; 8]; 8]) -> [[i32; 8]; 8],
    F: Fn([[i32; 8]; 8]) -> [[i16; 8]; 8],
>(
    plan: SequencePlan,
    frames: Seq<FrameContents>,
    c: Coded,
    st: SequenceEncoding,
    fdct: D,
    idct: F,
) -> Result<SequenceEncoding> {
    match c {
        Coded::Group { group } => match nominal_rate(plan.picture_rate_code) {
            None => Err(Error::InvalidBitstream(ERR_PICTURE_RATE)),
            Some(rate) => Ok(
                (SequenceEncoding {
                    bits: zero_padded(
                        st.bits + gop_bits(
                            (Mpeg2Gop {
                                time_code: time_of(group, rate),
                                closed_gop: true,
                                broken_link: false,
                            }),
                        ),
                    ),
                    ..st
                }),
            ),
        },
        Coded::Intra { group } => {
            let (recon, bits) = intra_picture_encoded(
                st.bits,
                frames[group],
                plan.params,
                0,
                plan.scale,
                fdct,
                idct,
            );
            match recon {
                Err(e) => Err(e),
                Ok(recon) => Ok(
                    (SequenceEncoding { bits, anchors: st.anchors.insert(group, recon) }),
                ),
            }
        },
        Coded::Predicted { group, frame, forward } => {
            let (recon, bits) = p_picture_encoded(
                st.bits,
                frames[frame],
                st.anchors[forward],
                plan.params,
                (frame - group) as u16,
                plan.scale,
                plan.forward_f_code,
                fdct,
                idct,
            );
            match recon {
                Err(e) => Err(e),
                Ok(recon) => Ok(
                    (SequenceEncoding { bits, anchors: st.anchors.insert(frame, recon) }),
                ),
            }
        },
        Coded::Between { group, frame, forward, backward } => Ok(
            (SequenceEncoding {
                bits: b_picture_encoded(
                    st.bits,
                    frames[frame],
                    (Anchors {
                        forward: st.anchors[forward],
                        backward: st.anchors[backward],
                        forward_f_code: plan.forward_f_code,
                        backward_f_code: plan.backward_f_code,
                    }),
                    plan.params,
                    (frame - group) as u16,
                    plan.scale,
                    fdct,
                ).1,
                ..st
            }),
        ),
    }
}

/// The encoding after all of an order.
pub open spec fn order_encoded<
    D: Fn([[i16; 8]; 8]) -> [[i32; 8]; 8],
    F: Fn([[i32; 8]; 8]) -> [[i16; 8]; 8],
>(
    plan: SequencePlan,
    frames: Seq<FrameContents>,
    order: Seq<Coded>,
    st: SequenceEncoding,
    fdct: D,
    idct: F,
) -> Result<SequenceEncoding>
    decreases order.len(),
{
    if order.len() == 0 {
        Ok(st)
    } else {
        match order_encoded(plan, frames, order.drop_last(), st, fdct, idct) {
            Err(e) => Err(e),
            Ok(before) => one_encoded(plan, frames, order.last(), before, fdct, idct),
        }
    }
}

proof fn lemma_encoded_joined<
    D: Fn([[i16; 8]; 8]) -> [[i32; 8]; 8],
    F: Fn([[i32; 8]; 8]) -> [[i16; 8]; 8],
>(
    plan: SequencePlan,
    frames: Seq<FrameContents>,
    a: Seq<Coded>,
    b: Seq<Coded>,
    st: SequenceEncoding,
    fdct: D,
    idct: F,
)
    ensures
        order_encoded(plan, frames, a + b, st, fdct, idct) == (match order_encoded(
            plan,
            frames,
            a,
            st,
            fdct,
            idct,
        ) {
            Err(e) => Err::<SequenceEncoding, Error>(e),
            Ok(mid) => order_encoded(plan, frames, b, mid, fdct, idct),
        }),
    decreases b.len(),
{
    if b.len() == 0 {
        assert(a + b =~= a);
    } else {
        assert((a + b).drop_last() =~= a + b.drop_last());
        assert((a + b).last() == b.last());
        lemma_encoded_joined(plan, frames, a, b.drop_last(), st, fdct, idct);
    }
}

proof fn lemma_encoded_one<
    D: Fn([[i16; 8]; 8]) -> [[i32; 8]; 8],
    F: Fn([[i32; 8]; 8]) -> [[i16; 8]; 8],
>(
    plan: SequencePlan,
    frames: Seq<FrameContents>,
    c: Coded,
    st: SequenceEncoding,
    fdct: D,
    idct: F,
)
    ensures
        order_encoded(plan, frames, seq![c], st, fdct, idct) == one_encoded(
            plan,
            frames,
            c,
            st,
            fdct,
            idct,
        ),
{
    reveal_with_fuel(order_encoded, 2);
    assert(seq![c].drop_last() =~= Seq::<Coded>::empty());
    assert(seq![c].last() == c);
}

proof fn lemma_run_encoded<
    D: Fn([[i16; 8]; 8]) -> [[i32; 8]; 8],
    F: Fn([[i32; 8]; 8]) -> [[i16; 8]; 8],
>(
    plan: SequencePlan,
    frames: Seq<FrameContents>,
    group: int,
    k: int,
    forward: int,
    anchor: int,
    st: SequenceEncoding,
    fdct: D,
    idct: F,
)
    ensures
        order_encoded(
            plan,
            frames,
            run_order(group, k, forward, anchor),
            st,
            fdct,
            idct,
        ) == Ok::<SequenceEncoding, Error>(
            (SequenceEncoding {
                bits: b_run_encoded(
                    plan,
                    frames,
                    group,
                    k,
                    anchor,
                    st.anchors[forward],
                    st.anchors[anchor],
                    st.bits,
                    fdct,
                ),
                ..st
            }),
        ),
    decreases anchor - k,
{
    if k < anchor {
        let c = Coded::Between { group, frame: k, forward, backward: anchor };
        lemma_encoded_one(plan, frames, c, st, fdct, idct);
        lemma_encoded_joined(
            plan,
            frames,
            seq![c],
            run_order(group, k + 1, forward, anchor),
            st,
            fdct,
            idct,
        );
        let after = one_encoded(plan, frames, c, st, fdct, idct)->Ok_0;
        lemma_run_encoded(plan, frames, group, k + 1, forward, anchor, after, fdct, idct);
    }
}

/// The bits of an encoding.
pub open spec fn bits_after(r: Result<SequenceEncoding>) -> Result<Seq<bool>> {
    match r {
        Err(e) => Err(e),
        Ok(st) => Ok(st.bits),
    }
}

proof fn lemma_period_encoded<
    D: Fn([[i16; 8]; 8]) -> [[i32; 8]; 8],
    F: Fn([[i32; 8]; 8]) -> [[i16; 8]; 8],
>(
    plan: SequencePlan,
    frames: Seq<FrameContents>,
    group: int,
    prev: int,
    end: int,
    st: SequenceEncoding,
    fdct: D,
    idct: F,
)
    ensures
        bits_after(
            order_encoded(
                plan,
                frames,
                period_order(plan.step, group, prev, end),
                st,
                fdct,
                idct,
            ),
        ) == anchors_encoded(
            plan,
            frames,
            group,
            prev,
            end,
            st.anchors[prev],
            st.bits,
            fdct,
            idct,
        ),
    decreases end - prev,
{
    if prev < end && plan.step >= 1 {
        let next = least(prev + plan.step, end);
        let c = Coded::Predicted { group, frame: next, forward: prev };
        let run = run_order(group, prev + 1, prev, next);
        let rest = period_order(plan.step, group, next, end);
        assert(seq![c] + run + rest =~= seq![c] + (run + rest));
        lemma_encoded_one(plan, frames, c, st, fdct, idct);
        lemma_encoded_joined(plan, frames, seq![c], run + rest, st, fdct, idct);
        if let Ok(one) = one_encoded(plan, frames, c, st, fdct, idct) {
            lemma_encoded_joined(plan, frames, run, rest, one, fdct, idct);
            lemma_run_encoded(plan, frames, group, prev + 1, prev, next, one, fdct, idct);
            let two = order_encoded(plan, frames, run, one, fdct, idct)->Ok_0;
            lemma_period_encoded(plan, frames, group, next, end, two, fdct, idct);
        }
    }
}

/// The bits of the groups of a sequence are those of its group headers and pictures
/// in the order of coding, each picture predicted from what a decoder has of the
/// frames that it needs, and numbered from the first frame of its group.
pub proof fn law_sequence_follows_order<
    D: Fn([[i16; 8]; 8]) -> [[i32; 8]; 8],
    F: Fn([[i32; 8]; 8]) -> [[i16; 8]; 8],
>(
    plan: SequencePlan,
    frames: Seq<FrameContents>,
    start: int,
    st: SequenceEncoding,
    fdct: D,
    idct: F,
)
    requires
        0 <= start,
    ensures
        gops_encoded(plan, frames, start, st.bits, fdct, idct) == bits_after(
            order_encoded(
                plan,
                frames,
                sequence_order(plan.step, plan.anchors_per_gop, frames.len() as int, start),
                st,
                fdct,
                idct,
            ),
        ),
    decreases frames.len() - start,
{
    let n = frames.len() as int;
    let end = group_end(plan.step, plan.anchors_per_gop, n, start);
    if start < n && end >= start {
        let g = Coded::Group { group: start };
        let i = Coded::Intra { group: start };
        let period = period_order(plan.step, start, start, end);
        let rest = sequence_order(plan.step, plan.anchors_per_gop, n, end + 1);
        assert(seq![g, i] + period + rest =~= seq![g] + (seq![i] + (period + rest)));
        lemma_encoded_one(plan, frames, g, st, fdct, idct);
        lemma_encoded_joined(plan, frames, seq![g], seq![i] + (period + rest), st, fdct, idct);
        if let Ok(one) = one_encoded(plan, frames, g, st, fdct, idct) {
            lemma_encoded_one(plan, frames, i, one, fdct, idct);
            lemma_encoded_joined(plan, frames, seq![i], period + rest, one, fdct, idct);
            if let Ok(two) = one_encoded(plan, frames, i, one, fdct, idct) {
                lemma_encoded_joined(plan, frames, period, rest, two, fdct, idct);
                lemma_period_encoded(plan, frames, start, start, end, two, fdct, idct);
                if let Ok(three) = order_encoded(plan, frames, period, two, fdct, idct) {
                    law_sequence_follows_order(plan, frames, end + 1, three, fdct, idct);
                }
            }
        }
    }
}

/// Whether what stands in an order lies `step` frames from what it is predicted from, or
/// less at the end of its group.
pub open spec fn spaced(c: Coded, step: int, end: int) -> bool {
    match c {
        Coded::Predicted { frame, forward, .. } => frame == forward + step || frame == end && frame
            < forward + step,
        Coded::Between { forward, backward, .. } => backward == forward + step || backward == end
            && backward < forward + step,
        _ => true,
    }
}

proof fn lemma_run_spaced(group: int, k: int, forward: int, anchor: int, step: int, end: int, i: int)
    requires
        anchor == forward + step || anchor == end && anchor < forward + step,
        0 <= i < run_order(group, k, forward, anchor).len(),
    ensures
        spaced(run_order(group, k, forward, anchor)[i], step, end),
    decreases anchor - k,
{
    if k < anchor && i > 0 {
        lemma_run_spaced(group, k + 1, forward, anchor, step, end, i - 1);
    }
}

/// The anchors of a group lie as far apart as asked, but for the last, which is the last
/// frame of the group; and what lies between is predicted from the two anchors around it.
pub proof fn law_anchors_are_spaced(step: int, group: int, prev: int, end: int, i: int)
    requires
        step >= 1,
        0 <= i < period_order(step, group, prev, end).len(),
    ensures
        spaced(period_order(step, group, prev, end)[i], step, end),
        period_order(step, group, prev, end)[i].group_of() == group,
    decreases end - prev,
{
    if prev < end {
        let next = least(prev + step, end);
        let c = Coded::Predicted { group, frame: next, forward: prev };
        let run = run_order(group, prev + 1, prev, next);
        let rest = period_order(step, group, next, end);
        let all = period_order(step, group, prev, end);
        assert(all == seq![c] + run + rest);
        if i == 0 {
            assert(all[0] == c);
        } else if i <= run.len() {
            assert(all[i] == run[i - 1]);
            lemma_run_spaced(group, prev + 1, prev, next, step, end, i - 1);
            lemma_run_group(group, prev + 1, prev, next, i - 1);
        } else {
            assert(all[i] == rest[i - 1 - run.len()]);
            law_anchors_are_spaced(step, group, next, end, i - 1 - run.len());
        }
    }
}

proof fn lemma_run_group(group: int, k: int, forward: int, anchor: int, i: int)
    requires
        0 <= i < run_order(group, k, forward, anchor).len(),
    ensures
        run_order(group, k, forward, anchor)[i].group_of() == group,
    decreases anchor - k,
{
    if k < anchor && i > 0 {
        lemma_run_group(group, k + 1, forward, anchor, i - 1);
    }
}

/// A sequence starts with a group header and an intra picture of its first frame; the
/// group holds as many anchor periods as asked, or the frames that are left, and the next
/// group starts with the frame after it.
pub proof fn law_groups_are_filled(step: int, anchors_per_gop: int, frames: int, start: int)
    requires
        step >= 1,
        anchors_per_gop >= 1,
        0 <= start < frames,
    ensures
        ({
            let order = sequence_order(step, anchors_per_gop, frames, start);
            let last = if start + anchors_per_gop * step < frames - 1 {
                start + anchors_per_gop * step
            } else {
                frames - 1
            };
            let own = order.len() - sequence_order(step, anchors_per_gop, frames, last + 1).len();
            &&& order[0] == (Coded::Group { group: start })
            &&& order[1] == (Coded::Intra { group: start })
            &&& own >= 2
            &&& order.subrange(own, order.len() as int) == sequence_order(
                step,
                anchors_per_gop,
                frames,
                last + 1,
            )
            &&& forall|i: int| 0 <= i < own ==> (#[trigger] order[i]).group_of() == start
        }),
{
    lemma_group_end(step, anchors_per_gop, frames, start);
    let order = sequence_order(step, anchors_per_gop, frames, start);
    let end = group_end(step, anchors_per_gop, frames, start);
    let g = Coded::Group { group: start };
    let i = Coded::Intra { group: start };
    let period = period_order(step, start, start, end);
    let rest = sequence_order(step, anchors_per_gop, frames, end + 1);
    assert(order == seq![g, i] + period + rest);
    let own = 2 + period.len();
    assert(order.subrange(own as int, order.len() as int) =~= rest);
    assert forall|j: int| 0 <= j < own implies (#[trigger] order[j]).group_of() == start by {
        if j == 0 {
            assert(order[0] == g);
        } else if j == 1 {
            assert(order[1] == i);
        } else {
            assert(order[j] == period[j - 2]);
            law_anchors_are_spaced(step, start, start, end, j - 2);
        }
    }
}

} // verus!
