//! A decoder that takes in the pictures of a sequence one after the other holds the
//! anchors of the encoder.

use crate::arith::blocks_of_16;
use crate::bits::{
    be_value, bits_of, lemma_holds_at_split, lemma_holds_field, lemma_holds_flag, lemma_value_bits_len,
    value_bits,
};
use crate::coding_order::{one_encoded, order_encoded, Coded, SequenceEncoding};
use crate::dequantize::scale_valid;
use crate::encoded_bits::{added, lemma_added_twice};
use crate::error::{Error, Result};
use crate::frame_assembly::{zero_frame, FrameContents};
use crate::gop_header::{gop_bits, nominal_rate, time_of, Mpeg2Gop, GROUP_START_CODE};
use crate::inter_reconstruction::ReferenceContents;
use crate::motion_estimation::forward_only;
use crate::mpeg1_b_round_trip::{
    law_b_picture_round_trip, law_b_picture_start_codes, lemma_b_picture_added, BSource,
};
use crate::mpeg1_encoder::{Anchors, SequencePlan};
use crate::mpeg1_intra_round_trip::{
    law_intra_picture_round_trip, law_intra_picture_start_codes, lemma_intra_picture_added, macroblocks_addressable,
};
use crate::mpeg1_p_round_trip::{
    law_p_picture_round_trip, law_p_picture_start_codes, lemma_p_picture_added, PSource,
};
use crate::mpeg1_picture::{inter_slice, intra_slice, Mpeg1InterParams};
use crate::picture::ChromaFormat;
use crate::picture_header::{picture_header_at, PictureCodingType};
use crate::picture_slices::decoded_slices;
use crate::slice_header::{prefix_stands, SliceHeader};
use crate::slice_layout::{lemma_no_prefix, lemma_start_code_bytes};
use crate::start_codes::{holds_codes, lemma_code_is_one, lemma_one_code, picture_codes};
use crate::stream_writer::law_picture_header_round_trip;
use crate::zero_runs::lemma_one_in;
use vstd::arithmetic::power2::lemma2_to64;
use vstd::prelude::*;

verus! {

/// Whether the start codes of rows stay below the one of extensions, and the encoder
/// takes the scale and the `f_code` values.
pub open spec fn plan_codable(plan: SequencePlan) -> bool {
    &&& 1 <= plan.params.width
    &&& plan.params.height <= 2880
    &&& scale_valid(plan.scale)
    &&& 1 <= plan.forward_f_code <= 7
    &&& 1 <= plan.backward_f_code <= 7
}

/// Whether, besides, a decoder can number the rows and the macroblocks of the pictures.
pub open spec fn plan_ok(plan: SequencePlan) -> bool {
    &&& plan_codable(plan)
    &&& plan.params.height <= 2800
    &&& macroblocks_addressable(plan.params)
}

/// A frame of zero samples.
pub open spec fn blank(plan: SequencePlan) -> FrameContents {
    zero_frame(plan.params.width as int, plan.params.height as int, ChromaFormat::Yuv420)
}

// ---------------------------------------------------------------------------
// The decoder
// ---------------------------------------------------------------------------

/// What a decoder makes of the bytes of a picture.
pub open spec fn picture_decoded(
    plan: SequencePlan,
    bytes: Seq<u8>,
    slice: spec_fn(Seq<u8>, SliceHeader, FrameContents) -> Result<(FrameContents, int)>,
) -> Result<FrameContents> {
    match decoded_slices(bytes, 0, plan.params.height as u32, 0, blank(plan), 0, slice) {
        Err(e) => Err(e),
        Ok((frame, _)) => Ok(frame),
    }
}

/// What the predicted pictures of a sequence are decoded with.
pub open spec fn inter_params(plan: SequencePlan, coding: PictureCodingType) -> Mpeg1InterParams {
    Mpeg1InterParams {
        base: plan.params,
        picture_coding_type: coding,
        forward_f_code: plan.forward_f_code,
        full_pel_forward_vector: false,
        backward_f_code: plan.backward_f_code,
        full_pel_backward_vector: false,
    }
}

/// The anchors of a decoder after one more piece of the sequence.
pub open spec fn one_decoded<F: Fn([[i32; 8]; 8]) -> [[i16; 8]; 8]>(
    plan: SequencePlan,
    c: Coded,
    bytes: Seq<u8>,
    anchors: Map<int, FrameContents>,
    idct: F,
) -> Result<Map<int, FrameContents>> {
    match c {
        Coded::Group { .. } => Ok(anchors),
        Coded::Intra { group } => match picture_decoded(
            plan,
            bytes,
            intra_slice(plan.params, idct),
        ) {
            Err(e) => Err(e),
            Ok(frame) => Ok(anchors.insert(group, frame)),
        },
        Coded::Predicted { frame, forward, .. } => match picture_decoded(
            plan,
            bytes,
            inter_slice(
                inter_params(plan, PictureCodingType::Predictive),
                forward_only(anchors[forward]),
                idct,
            ),
        ) {
            Err(e) => Err(e),
            Ok(decoded) => Ok(anchors.insert(frame, decoded)),
        },
        Coded::Between { forward, backward, .. } => match picture_decoded(
            plan,
            bytes,
            inter_slice(
                inter_params(plan, PictureCodingType::Bidirectional),
                (ReferenceContents {
                    forward: Some(anchors[forward]),
                    backward: Some(anchors[backward]),
                }),
                idct,
            ),
        ) {
            Err(e) => Err(e),
            Ok(_) => Ok(anchors),
        },
    }
}

/// The anchors of a decoder after all pieces.
pub open spec fn order_decoded<F: Fn([[i32; 8]; 8]) -> [[i16; 8]; 8]>(
    plan: SequencePlan,
    order: Seq<Coded>,
    pieces: Seq<Seq<u8>>,
    anchors: Map<int, FrameContents>,
    idct: F,
) -> Result<Map<int, FrameContents>>
    decreases order.len(),
{
    if order.len() == 0 {
        Ok(anchors)
    } else {
        match order_decoded(plan, order.drop_last(), pieces, anchors, idct) {
            Err(e) => Err(e),
            Ok(before) => one_decoded(
                plan,
                order.last(),
                pieces[order.len() - 1],
                before,
                idct,
            ),
        }
    }
}

// ---------------------------------------------------------------------------
// The encoder
// ---------------------------------------------------------------------------

pub open spec fn p_source(
    plan: SequencePlan,
    frames: Seq<FrameContents>,
    frame: int,
    forward: FrameContents,
) -> PSource {
    PSource {
        current: frames[frame],
        reference: forward,
        params: plan.params,
        scale: plan.scale,
        f_code: plan.forward_f_code,
    }
}

pub open spec fn b_source(
    plan: SequencePlan,
    frames: Seq<FrameContents>,
    frame: int,
    forward: FrameContents,
    backward: FrameContents,
) -> BSource {
    BSource {
        current: frames[frame],
        anchors: Anchors {
            forward,
            backward,
            forward_f_code: plan.forward_f_code,
            backward_f_code: plan.backward_f_code,
        },
        params: plan.params,
        scale: plan.scale,
    }
}

/// The start codes of a group header or a picture.
pub open spec fn codes_of(plan: SequencePlan, c: Coded) -> Seq<u8> {
    if c is Group {
        seq![0xB8u8]
    } else {
        picture_codes(blocks_of_16(plan.params.height as int))
    }
}

/// Whether the pieces are what the encoder adds for each of an order.
pub open spec fn pieces_hold<
    D: Fn([[i16; 8]; 8]) -> [[i32; 8]; 8],
    F: Fn([[i32; 8]; 8]) -> [[i16; 8]; 8],
>(
    plan: SequencePlan,
    frames: Seq<FrameContents>,
    order: Seq<Coded>,
    pieces: Seq<Seq<u8>>,
    st: SequenceEncoding,
    fdct: D,
    idct: F,
) -> bool
    decreases order.len(),
{
    order.len() == 0 || {
        let before = order_encoded(plan, frames, order.drop_last(), st, fdct, idct)->Ok_0;
        let after = order_encoded(plan, frames, order, st, fdct, idct)->Ok_0;
        &&& pieces_hold(plan, frames, order.drop_last(), pieces, st, fdct, idct)
        &&& bits_of(pieces[order.len() - 1]) == added(before.bits, after.bits)
    }
}

/// Each piece of a sequence is made of whole bytes.
pub proof fn lemma_piece_added<
    D: Fn([[i16; 8]; 8]) -> [[i32; 8]; 8],
    F: Fn([[i32; 8]; 8]) -> [[i16; 8]; 8],
>(
    plan: SequencePlan,
    frames: Seq<FrameContents>,
    c: Coded,
    st: SequenceEncoding,
    fdct: D,
    idct: F,
)
    requires
        plan_codable(plan),
        one_encoded(plan, frames, c, st, fdct, idct) is Ok,
    ensures
        ({
            let after = one_encoded(plan, frames, c, st, fdct, idct)->Ok_0;
            st.bits.is_prefix_of(after.bits) && after.bits.len() % 8 == 0
        }),
{
    match c {
        Coded::Group { .. } => {
            lemma_group_added(plan, frames, c, st, fdct, idct);
        },
        Coded::Intra { group } => {
            lemma_intra_picture_added(
                st.bits,
                frames[group],
                plan.params,
                0,
                plan.scale,
                fdct,
                idct,
            );
        },
        Coded::Predicted { group, frame, forward } => {
            let x = p_source(plan, frames, frame, st.anchors[forward]);
            lemma_p_picture_added(st.bits, x, (frame - group) as u16, fdct, idct);
        },
        Coded::Between { group, frame, forward, backward } => {
            let x = b_source(plan, frames, frame, st.anchors[forward], st.anchors[backward]);
            lemma_b_picture_added(st.bits, x, (frame - group) as u16, fdct);
        },
    }
}

/// One piece of a sequence that was encoded holds its start codes and no others.
pub proof fn law_piece_start_codes<
    D: Fn([[i16; 8]; 8]) -> [[i32; 8]; 8],
    F: Fn([[i32; 8]; 8]) -> [[i16; 8]; 8],
>(
    plan: SequencePlan,
    frames: Seq<FrameContents>,
    c: Coded,
    bytes: Seq<u8>,
    st: SequenceEncoding,
    fdct: D,
    idct: F,
)
    requires
        plan_codable(plan),
        st.bits.len() % 8 == 0,
        one_encoded(plan, frames, c, st, fdct, idct) is Ok,
        bits_of(bytes) == added(st.bits, one_encoded(plan, frames, c, st, fdct, idct)->Ok_0.bits),
    ensures
        holds_codes(bytes, codes_of(plan, c)),
{
    match c {
        Coded::Group { .. } => {
            lemma_group_codes(plan, frames, c, bytes, st, fdct, idct);
        },
        Coded::Intra { group } => {
            law_intra_picture_start_codes(
                st.bits,
                frames[group],
                plan.params,
                0,
                plan.scale,
                bytes,
                fdct,
                idct,
            );
        },
        Coded::Predicted { group, frame, forward } => {
            let x = p_source(plan, frames, frame, st.anchors[forward]);
            law_p_picture_start_codes(st.bits, x, (frame - group) as u16, bytes, fdct, idct);
        },
        Coded::Between { group, frame, forward, backward } => {
            let x = b_source(plan, frames, frame, st.anchors[forward], st.anchors[backward]);
            law_b_picture_start_codes(st.bits, x, (frame - group) as u16, bytes, fdct);
        },
    }
}

/// One piece of a sequence that was encoded is decoded to the anchors of the encoder.
pub proof fn law_piece_round_trip<
    D: Fn([[i16; 8]; 8]) -> [[i32; 8]; 8],
    F: Fn([[i32; 8]; 8]) -> [[i16; 8]; 8],
>(
    plan: SequencePlan,
    frames: Seq<FrameContents>,
    c: Coded,
    bytes: Seq<u8>,
    st: SequenceEncoding,
    fdct: D,
    idct: F,
)
    requires
        plan_ok(plan),
        st.bits.len() % 8 == 0,
        one_encoded(plan, frames, c, st, fdct, idct) is Ok,
        bits_of(bytes) == added(st.bits, one_encoded(plan, frames, c, st, fdct, idct)->Ok_0.bits),
    ensures
        ({
            let after = one_encoded(plan, frames, c, st, fdct, idct)->Ok_0;
            &&& one_decoded(plan, c, bytes, st.anchors, idct) == Ok::<
                Map<int, FrameContents>,
                Error,
            >(after.anchors)
            &&& st.bits.is_prefix_of(after.bits)
            &&& after.bits.len() % 8 == 0
        }),
{
    lemma_piece_added(plan, frames, c, st, fdct, idct);
    match c {
        Coded::Group { .. } => {},
        Coded::Intra { group } => {
            law_intra_picture_round_trip(
                st.bits,
                frames[group],
                plan.params,
                0,
                plan.scale,
                bytes,
                fdct,
                idct,
            );
        },
        Coded::Predicted { group, frame, forward } => {
            let x = p_source(plan, frames, frame, st.anchors[forward]);
            let tr = (frame - group) as u16;
            law_p_picture_round_trip(
                st.bits,
                x,
                tr,
                inter_params(plan, PictureCodingType::Predictive),
                bytes,
                fdct,
                idct,
            );
        },
        Coded::Between { group, frame, forward, backward } => {
            let x = b_source(plan, frames, frame, st.anchors[forward], st.anchors[backward]);
            let tr = (frame - group) as u16;
            law_b_picture_round_trip(
                st.bits,
                x,
                tr,
                inter_params(plan, PictureCodingType::Bidirectional),
                bytes,
                fdct,
                idct,
            );
        },
    }
}

/// A group header adds whole bytes.
#[verifier::rlimit(40)]
proof fn lemma_group_added<
    D: Fn([[i16; 8]; 8]) -> [[i32; 8]; 8],
    F: Fn([[i32; 8]; 8]) -> [[i16; 8]; 8],
>(
    plan: SequencePlan,
    frames: Seq<FrameContents>,
    c: Coded,
    st: SequenceEncoding,
    fdct: D,
    idct: F,
)
    requires
        c is Group,
        one_encoded(plan, frames, c, st, fdct, idct) is Ok,
    ensures
        ({
            let after = one_encoded(plan, frames, c, st, fdct, idct)->Ok_0;
            st.bits.is_prefix_of(after.bits) && after.bits.len() % 8 == 0
        }),
{
    let after = one_encoded(plan, frames, c, st, fdct, idct)->Ok_0;
    assert(st.bits.is_prefix_of(after.bits)) by {
        assert forall|k: int| 0 <= k < st.bits.len() implies st.bits[k] == after.bits[k] by {}
    }
}

/// A group header holds one start code.
proof fn lemma_group_codes<
    D: Fn([[i16; 8]; 8]) -> [[i32; 8]; 8],
    F: Fn([[i32; 8]; 8]) -> [[i16; 8]; 8],
>(
    plan: SequencePlan,
    frames: Seq<FrameContents>,
    c: Coded,
    bytes: Seq<u8>,
    st: SequenceEncoding,
    fdct: D,
    idct: F,
)
    requires
        c is Group,
        st.bits.len() % 8 == 0,
        one_encoded(plan, frames, c, st, fdct, idct) is Ok,
        bits_of(bytes) == added(st.bits, one_encoded(plan, frames, c, st, fdct, idct)->Ok_0.bits),
    ensures
        holds_codes(bytes, seq![0xB8u8]),
{
    reveal(holds_codes);
    let gop = Mpeg2Gop {
        time_code: time_of(c.group_of(), nominal_rate(plan.picture_rate_code)->0),
        closed_gop: true,
        broken_link: false,
    };
    let header = gop_bits(gop);
    let time = gop.time_code;
    let hours = value_bits(time.hours as int, 5);
    let minutes = value_bits(time.minutes as int, 6);
    let rest = value_bits(time.seconds as int, 6) + value_bits(time.pictures as int, 6).push(
        true,
    ).push(false);
    let t3 = seq![true] + rest;
    let t2 = minutes + t3;
    let t1 = hours + t2;
    let t0 = seq![time.drop_frame_flag] + t1;
    lemma_value_bits_len(GROUP_START_CODE as int, 32);
    lemma_value_bits_len(time.hours as int, 5);
    lemma_value_bits_len(time.minutes as int, 6);
    lemma_value_bits_len(time.seconds as int, 6);
    lemma_value_bits_len(time.pictures as int, 6);
    assert(header =~= value_bits(GROUP_START_CODE as int, 32) + t0);
    assert(header.len() == 59);
    let s = bits_of(bytes);
    assert(s.len() == 8 * bytes.len());
    assert(s.subrange(0, 59) =~= header);
    lemma2_to64();
    lemma_holds_field(s, 0, GROUP_START_CODE as int, 32, t0);
    lemma_holds_flag(s, 32, time.drop_frame_flag, t1);
    lemma_holds_at_split(s, 33, hours, t2);
    lemma_holds_at_split(s, 38, minutes, t3);
    lemma_holds_flag(s, 44, true, rest);
    lemma_start_code_bytes(bytes, 0, 0xB8);
    lemma_code_is_one(bytes, 0);
    assert forall|i: int| 1 <= i < 8 && i + 3 <= bytes.len() implies !#[trigger] prefix_stands(
        bytes,
        i,
    ) by {
        if i >= 4 {
            lemma_one_in(s, 8 * i, 8 * i + 23, 44);
            lemma_no_prefix(bytes, i);
        }
    }
    lemma_one_code(bytes, 0, 8);
}

/// Decoding what was encoded of an order, piece by piece and each picture from the
/// decoder's own anchors, gives the anchors of the encoder, provided that the decoder
/// can number the rows and the macroblocks.
pub proof fn law_sequence_round_trip<
    D: Fn([[i16; 8]; 8]) -> [[i32; 8]; 8],
    F: Fn([[i32; 8]; 8]) -> [[i16; 8]; 8],
>(
    plan: SequencePlan,
    frames: Seq<FrameContents>,
    order: Seq<Coded>,
    pieces: Seq<Seq<u8>>,
    st: SequenceEncoding,
    fdct: D,
    idct: F,
)
    requires
        plan_ok(plan),
        st.bits.len() % 8 == 0,
        order_encoded(plan, frames, order, st, fdct, idct) is Ok,
        pieces_hold(plan, frames, order, pieces, st, fdct, idct),
    ensures
        ({
            let after = order_encoded(plan, frames, order, st, fdct, idct)->Ok_0;
            &&& order_decoded(plan, order, pieces, st.anchors, idct) == Ok::<
                Map<int, FrameContents>,
                Error,
            >(after.anchors)
            &&& st.bits.is_prefix_of(after.bits)
            &&& after.bits.len() % 8 == 0
        }),
    decreases order.len(),
{
    if order.len() > 0 {
        law_sequence_round_trip(plan, frames, order.drop_last(), pieces, st, fdct, idct);
        let before = order_encoded(plan, frames, order.drop_last(), st, fdct, idct)->Ok_0;
        let after = order_encoded(plan, frames, order, st, fdct, idct)->Ok_0;
        law_piece_round_trip(
            plan,
            frames,
            order.last(),
            pieces[order.len() - 1],
            before,
            fdct,
            idct,
        );
        lemma_added_twice(st.bits, before.bits, after.bits);
    } else {
        assert(st.bits.is_prefix_of(st.bits));
    }
}

/// The header of a group says which picture of the day its first frame is, and that the
/// group is closed: nothing in it needs a picture before it.
pub proof fn law_group_header_in_sequence<
    D: Fn([[i16; 8]; 8]) -> [[i32; 8]; 8],
    F: Fn([[i32; 8]; 8]) -> [[i16; 8]; 8],
>(
    plan: SequencePlan,
    frames: Seq<FrameContents>,
    group: int,
    st: SequenceEncoding,
    fdct: D,
    idct: F,
)
    requires
        0 <= group,
        nominal_rate(plan.picture_rate_code) is Some,
        group / nominal_rate(plan.picture_rate_code)->0 < 86400,
    ensures
        ({
            let after = one_encoded(plan, frames, Coded::Group { group }, st, fdct, idct);
            let s = after->Ok_0.bits;
            let at = st.bits.len() as int;
            let hours = be_value(s, at + 33, 5);
            let minutes = be_value(s, at + 38, 6);
            let seconds = be_value(s, at + 45, 6);
            let pictures = be_value(s, at + 51, 6);
            &&& after is Ok
            &&& after->Ok_0.anchors == st.anchors
            &&& be_value(s, at, 32) == 0x1B8
            &&& ((hours * 60 + minutes) * 60 + seconds) * nominal_rate(plan.picture_rate_code)->0
                + pictures == group
            &&& s[at + 57]
            &&& !s[at + 58]
        }),
{
    let rate = nominal_rate(plan.picture_rate_code)->0;
    let gop = Mpeg2Gop {
        time_code: time_of(group, rate),
        closed_gop: true,
        broken_link: false,
    };
    let s = one_encoded(plan, frames, Coded::Group { group }, st, fdct, idct)->Ok_0.bits;
    let at = st.bits.len() as int;
    crate::gop_header::law_time_code_counts_pictures(group, rate);
    let n = gop_bits(gop).len() as int;
    assert(s.subrange(at, at + n) =~= gop_bits(gop));
    crate::gop_header::law_group_header_fields(s, at, gop);
}

/// The header of a picture says what sort of picture it is, how its vectors are coded,
/// and which of the frames of its group it shows, counted from the I-picture.
pub proof fn law_picture_header_in_sequence<
    D: Fn([[i16; 8]; 8]) -> [[i32; 8]; 8],
    F: Fn([[i32; 8]; 8]) -> [[i16; 8]; 8],
>(
    plan: SequencePlan,
    frames: Seq<FrameContents>,
    c: Coded,
    group: int,
    k: int,
    st: SequenceEncoding,
    fdct: D,
    idct: F,
)
    requires
        plan_codable(plan),
        0 <= k < 1024,
        c.codes(group + k),
        c.group_of() == group,
        one_encoded(plan, frames, c, st, fdct, idct) is Ok,
    ensures
        ({
            let after = one_encoded(plan, frames, c, st, fdct, idct)->Ok_0;
            let read = picture_header_at(after.bits, st.bits.len() as int).0;
            let h = read->Ok_0;
            &&& read is Ok
            &&& h.temporal_reference == k
            &&& c is Intra ==> k == 0 && h.picture_coding_type == PictureCodingType::Intra
            &&& c is Predicted ==> h.picture_coding_type == PictureCodingType::Predictive
            &&& c is Between ==> h.picture_coding_type == PictureCodingType::Bidirectional
            &&& h.fwd_f_code == (if c is Intra {
                None
            } else {
                Some(plan.forward_f_code)
            })
            &&& h.bwd_f_code == (if c is Between {
                Some(plan.backward_f_code)
            } else {
                None
            })
            &&& h.full_pel_forward_vector != Some(true)
            &&& h.full_pel_backward_vector != Some(true)
        }),
{
    let at = st.bits.len() as int;
    let bits = one_encoded(plan, frames, c, st, fdct, idct)->Ok_0.bits;
    match c {
        Coded::Group { group } => {},
        Coded::Intra { group } => {
            lemma_intra_picture_added(
                st.bits,
                frames[group],
                plan.params,
                0,
                plan.scale,
                fdct,
                idct,
            );
            law_picture_header_round_trip(bits, at, 0, PictureCodingType::Intra, 7, 7);
        },
        Coded::Predicted { group, frame, forward } => {
            let x = PSource {
                current: frames[frame],
                reference: st.anchors[forward],
                params: plan.params,
                scale: plan.scale,
                f_code: plan.forward_f_code,
            };
            lemma_p_picture_added(st.bits, x, k as u16, fdct, idct);
            law_picture_header_round_trip(
                bits,
                at,
                k as u16,
                PictureCodingType::Predictive,
                plan.forward_f_code,
                7,
            );
        },
        Coded::Between { group, frame, forward, backward } => {
            let x = BSource {
                current: frames[frame],
                anchors: Anchors {
                    forward: st.anchors[forward],
                    backward: st.anchors[backward],
                    forward_f_code: plan.forward_f_code,
                    backward_f_code: plan.backward_f_code,
                },
                params: plan.params,
                scale: plan.scale,
            };
            lemma_b_picture_added(st.bits, x, k as u16, fdct);
            law_picture_header_round_trip(
                bits,
                at,
                k as u16,
                PictureCodingType::Bidirectional,
                plan.forward_f_code,
                plan.backward_f_code,
            );
        },
    }
}

} // verus!
