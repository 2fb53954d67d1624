//! Where the pieces of an encoded sequence stand in the bytes of its stream, and the
//! start codes that the stream holds.

use crate::arith::blocks_of_16;
use crate::bits::{
    bits_of, holds_at, lemma_holds_at_split, lemma_holds_field, lemma_holds_flag,
    lemma_value_bits_len, value_bits, zero_padded,
};
use crate::coding_order::{
    law_as_many_pictures_as_frames, law_sequence_follows_order, lemma_group_end, order_encoded,
    pictures, sequence_order, Coded, SequenceEncoding,
};
use crate::encoded_bits::{added, lemma_added_twice};
use crate::error::Error;
use crate::frame_assembly::FrameContents;
use crate::gop_header::nominal_rate;
use crate::mpeg1_encoder::{
    effective_header, gops_encoded, params_of, plan_of, sequence_encoded, sequence_error,
    stream_holds, SequencePlan,
};
use crate::mpeg1_sequence_round_trip::{
    codes_of, law_piece_start_codes, law_sequence_round_trip, lemma_piece_added, order_decoded,
    pieces_hold, plan_codable, plan_ok,
};
use crate::mpeg1_stream_writer::{
    law_sequence_header_is_twelve_bytes, sequence_header_bits, Mpeg1SequenceParams,
    SEQUENCE_HEADER_CODE,
};
use crate::slice_header::prefix_stands;
use crate::slice_layout::{lemma_bits_of_subrange, lemma_no_prefix, lemma_start_code_bytes};
use crate::start_codes::{
    holds_codes, lemma_code_is_one, lemma_codes_joined, lemma_occurrences_joined,
    lemma_occurrences_one, lemma_one_code, lemma_picture_occurrences, occurrences, start_codes,
};
use crate::zero_runs::{lemma_one_in, one_in};
use vstd::arithmetic::power2::{lemma2_to64, lemma_pow2_pos, lemma_pow2_unfold, pow2};
use vstd::prelude::*;

verus! {

// ---------------------------------------------------------------------------
// The sequence header
// ---------------------------------------------------------------------------

/// A field whose number is not zero in as many bits holds a one.
proof fn lemma_field_one(s: Seq<bool>, at: int, v: int, n: int)
    requires
        0 <= n,
        holds_at(s, at, value_bits(v, n)),
        v % pow2(n as nat) as int != 0,
    ensures
        one_in(s, at, at + n),
    decreases n,
{
    lemma2_to64();
    lemma_value_bits_len(v, n);
    if n > 0 {
        lemma_value_bits_len(v / 2, n - 1);
        lemma_pow2_unfold(n as nat);
        let w = s.subrange(at, at + n);
        assert(w[n - 1] == s[at + n - 1]);
        if v % 2 == 1 {
            lemma_one_in(s, at, at + n, at + n - 1);
        } else {
            let p = pow2((n - 1) as nat) as int;
            lemma_pow2_pos((n - 1) as nat);
            assert(value_bits(v, n) =~= value_bits(v / 2, n - 1) + seq![false]);
            lemma_holds_at_split(s, at, value_bits(v / 2, n - 1), seq![false]);
            if (v / 2) % p == 0 {
                let q = (v / 2) / p;
                vstd::arithmetic::div_mod::lemma_fundamental_div_mod(v / 2, p);
                assert(v == q * (2 * p)) by (nonlinear_arith)
                    requires
                        v == 2 * (p * q),
                ;
                vstd::arithmetic::div_mod::lemma_mod_multiples_basic(q, 2 * p);
            }
            lemma_field_one(s, at, v / 2, n - 1);
        }
    }
}

/// Whether the fields of a sequence header keep apart what would look like a start
/// code: the sizes are not zero and one.
pub open spec fn sizes_apart(p: Mpeg1SequenceParams) -> bool {
    p.horizontal_size % 4096 != 0 || p.vertical_size != 1
}

/// A sequence header holds one start code.
#[verifier::rlimit(40)]
proof fn lemma_sequence_header_codes(p: Mpeg1SequenceParams, bytes: Seq<u8>)
    requires
        bits_of(bytes) == sequence_header_bits(p),
        nominal_rate(p.picture_rate_code) is Some,
        1 <= p.vertical_size < 4096,
        sizes_apart(p),
    ensures
        holds_codes(bytes, seq![0xB3u8]),
        bytes.len() == 12,
{
    reveal(holds_codes);
    let s = bits_of(bytes);
    let width = p.horizontal_size as int;
    let height = p.vertical_size as int;
    law_sequence_header_is_twelve_bytes(p);
    assert(s.len() == 8 * bytes.len());
    let rest = value_bits(p.vbv_buffer_size_value as int, 10).push(
        p.constrained_parameters_flag,
    ).push(false).push(false);
    let t5 = seq![true] + rest;
    let t4 = value_bits(p.bit_rate_value as int, 18) + t5;
    let t3 = value_bits(p.picture_rate_code as int, 4) + t4;
    let t2 = value_bits(p.pel_aspect_ratio_code as int, 4) + t3;
    let t1 = value_bits(height, 12) + t2;
    let t0 = value_bits(width, 12) + t1;
    lemma_value_bits_len(SEQUENCE_HEADER_CODE as int, 32);
    lemma_value_bits_len(width, 12);
    lemma_value_bits_len(height, 12);
    lemma_value_bits_len(p.pel_aspect_ratio_code as int, 4);
    lemma_value_bits_len(p.picture_rate_code as int, 4);
    lemma_value_bits_len(p.bit_rate_value as int, 18);
    lemma_value_bits_len(p.vbv_buffer_size_value as int, 10);
    let all = value_bits(SEQUENCE_HEADER_CODE as int, 32) + t0;
    assert(sequence_header_bits(p) =~= all);
    assert(s.subrange(0, 96) =~= all);
    lemma2_to64();
    lemma_holds_field(s, 0, SEQUENCE_HEADER_CODE as int, 32, t0);
    lemma_holds_at_split(s, 32, value_bits(width, 12), t1);
    lemma_holds_at_split(s, 44, value_bits(height, 12), t2);
    lemma_holds_at_split(s, 56, value_bits(p.pel_aspect_ratio_code as int, 4), t3);
    lemma_holds_at_split(s, 60, value_bits(p.picture_rate_code as int, 4), t4);
    lemma_holds_at_split(s, 64, value_bits(p.bit_rate_value as int, 18), t5);
    lemma_holds_flag(s, 82, true, rest);
    lemma_start_code_bytes(bytes, 0, 0xB3);
    lemma_code_is_one(bytes, 0);
    assert(one_in(s, 32, 55)) by {
        if width % 4096 != 0 {
            lemma_field_one(s, 32, width, 12);
        } else {
            lemma_value_bits_len(height / 2, 11);
            assert(value_bits(height, 12) =~= value_bits(height / 2, 11) + seq![height % 2 == 1]);
            lemma_holds_at_split(s, 44, value_bits(height / 2, 11), seq![height % 2 == 1]);
            lemma_field_one(s, 44, height / 2, 11);
        }
    }
    lemma_field_one(s, 44, height, 12);
    assert(p.picture_rate_code as int % 16 != 0);
    assert(pow2(4) == 16);
    lemma_field_one(s, 60, p.picture_rate_code as int, 4);
    assert forall|i: int| 1 <= i < 12 && i + 3 <= bytes.len() implies !#[trigger] prefix_stands(
        bytes,
        i,
    ) by {
        if i >= 4 {
            assert(one_in(s, 8 * i, 8 * i + 23)) by {
                if i >= 8 {
                    lemma_one_in(s, 8 * i, 8 * i + 23, 82);
                }
            }
            lemma_no_prefix(bytes, i);
        }
    }
    lemma_one_code(bytes, 0, 12);
}

// ---------------------------------------------------------------------------
// The pieces
// ---------------------------------------------------------------------------

/// The start codes of the pieces of an order.
pub open spec fn order_codes(plan: SequencePlan, order: Seq<Coded>) -> Seq<u8>
    decreases order.len(),
{
    if order.len() == 0 {
        Seq::empty()
    } else {
        order_codes(plan, order.drop_last()) + codes_of(plan, order.last())
    }
}

/// How many bytes are written after an order.
pub open spec fn bytes_after<
    D: Fn([[i16; 8]; 8]) -> [[i32; 8]; 8],
    F: Fn([[i32; 8]; 8]) -> [[i16; 8]; 8],
>(
    plan: SequencePlan,
    frames: Seq<FrameContents>,
    order: Seq<Coded>,
    st: SequenceEncoding,
    fdct: D,
    idct: F,
) -> int {
    order_encoded(plan, frames, order, st, fdct, idct)->Ok_0.bits.len() as int / 8
}

/// The bytes of a stream for each of an order.
pub open spec fn stream_pieces<
    D: Fn([[i16; 8]; 8]) -> [[i32; 8]; 8],
    F: Fn([[i32; 8]; 8]) -> [[i16; 8]; 8],
>(
    plan: SequencePlan,
    frames: Seq<FrameContents>,
    order: Seq<Coded>,
    stream: Seq<u8>,
    st: SequenceEncoding,
    fdct: D,
    idct: F,
) -> Seq<Seq<u8>> {
    Seq::new(
        order.len(),
        |i: int|
            stream.subrange(
                bytes_after(plan, frames, order.take(i), st, fdct, idct),
                bytes_after(plan, frames, order.take(i + 1), st, fdct, idct),
            ),
    )
}

/// Whether a stream begins with given bits.
pub open spec fn begins_with(stream: Seq<u8>, bits: Seq<bool>) -> bool {
    bits.is_prefix_of(bits_of(stream))
}

/// What is added to bits that a stream begins with stands behind them.
proof fn lemma_added_bytes(stream: Seq<u8>, before: Seq<bool>, after: Seq<bool>)
    requires
        before.is_prefix_of(after),
        begins_with(stream, after),
        before.len() % 8 == 0,
        after.len() % 8 == 0,
    ensures
        begins_with(stream, before),
        0 <= before.len() as int / 8 <= after.len() as int / 8 <= stream.len(),
        bits_of(stream.subrange(before.len() as int / 8, after.len() as int / 8)) == added(
            before,
            after,
        ),
{
    let s = bits_of(stream);
    let a = before.len() as int / 8;
    let b = after.len() as int / 8;
    assert(s.len() == 8 * stream.len());
    lemma_added_twice(before, after, s);
    lemma_bits_of_subrange(stream, a, b);
    assert(s.subrange(8 * a, 8 * b) =~= added(before, after));
}

/// The last piece of an order, and what stands before it.
proof fn lemma_last_piece<
    D: Fn([[i16; 8]; 8]) -> [[i32; 8]; 8],
    F: Fn([[i32; 8]; 8]) -> [[i16; 8]; 8],
>(
    plan: SequencePlan,
    frames: Seq<FrameContents>,
    order: Seq<Coded>,
    stream: Seq<u8>,
    st: SequenceEncoding,
    fdct: D,
    idct: F,
)
    requires
        plan_codable(plan),
        order.len() > 0,
        order_encoded(plan, frames, order, st, fdct, idct) is Ok,
        begins_with(stream, order_encoded(plan, frames, order, st, fdct, idct)->Ok_0.bits),
        order_encoded(
            plan,
            frames,
            order.drop_last(),
            st,
            fdct,
            idct,
        )->Ok_0.bits.len() % 8 == 0,
    ensures
        ({
            let before = order_encoded(plan, frames, order.drop_last(), st, fdct, idct)->Ok_0;
            let after = order_encoded(plan, frames, order, st, fdct, idct)->Ok_0;
            let a = bytes_after(plan, frames, order.drop_last(), st, fdct, idct);
            let b = bytes_after(plan, frames, order, st, fdct, idct);
            &&& begins_with(stream, before.bits)
            &&& after.bits.len() % 8 == 0
            &&& 0 <= a <= b <= stream.len()
            &&& bits_of(stream.subrange(a, b)) == added(before.bits, after.bits)
        }),
{
    let before = order_encoded(plan, frames, order.drop_last(), st, fdct, idct)->Ok_0;
    let after = order_encoded(plan, frames, order, st, fdct, idct)->Ok_0;
    lemma_piece_added(plan, frames, order.last(), before, fdct, idct);
    lemma_added_bytes(stream, before.bits, after.bits);
}

/// What is encoded of an order is made of whole bytes.
proof fn lemma_whole_bytes<
    D: Fn([[i16; 8]; 8]) -> [[i32; 8]; 8],
    F: Fn([[i32; 8]; 8]) -> [[i16; 8]; 8],
>(
    plan: SequencePlan,
    frames: Seq<FrameContents>,
    order: Seq<Coded>,
    st: SequenceEncoding,
    fdct: D,
    idct: F,
)
    requires
        plan_codable(plan),
        st.bits.len() % 8 == 0,
        order_encoded(plan, frames, order, st, fdct, idct) is Ok,
    ensures
        order_encoded(plan, frames, order, st, fdct, idct)->Ok_0.bits.len() % 8 == 0,
    decreases order.len(),
{
    if order.len() > 0 {
        lemma_whole_bytes(plan, frames, order.drop_last(), st, fdct, idct);
        let before = order_encoded(plan, frames, order.drop_last(), st, fdct, idct)->Ok_0;
        lemma_piece_added(plan, frames, order.last(), before, fdct, idct);
    }
}

/// The pieces of a stream are what the encoder added.
proof fn lemma_pieces_hold<
    D: Fn([[i16; 8]; 8]) -> [[i32; 8]; 8],
    F: Fn([[i32; 8]; 8]) -> [[i16; 8]; 8],
>(
    plan: SequencePlan,
    frames: Seq<FrameContents>,
    order: Seq<Coded>,
    k: int,
    stream: Seq<u8>,
    st: SequenceEncoding,
    fdct: D,
    idct: F,
)
    requires
        plan_codable(plan),
        st.bits.len() % 8 == 0,
        0 <= k <= order.len(),
        order_encoded(plan, frames, order.take(k), st, fdct, idct) is Ok,
        begins_with(
            stream,
            order_encoded(plan, frames, order.take(k), st, fdct, idct)->Ok_0.bits,
        ),
    ensures
        pieces_hold(
            plan,
            frames,
            order.take(k),
            stream_pieces(plan, frames, order, stream, st, fdct, idct),
            st,
            fdct,
            idct,
        ),
    decreases k,
{
    if k > 0 {
        let part = order.take(k);
        assert(part.drop_last() =~= order.take(k - 1));
        lemma_whole_bytes(plan, frames, part.drop_last(), st, fdct, idct);
        lemma_last_piece(plan, frames, part, stream, st, fdct, idct);
        lemma_pieces_hold(plan, frames, order, k - 1, stream, st, fdct, idct);
    }
}

/// The start codes of the bytes up to the end of an order, which `head` begins.
#[verifier::spinoff_prover]
#[verifier::rlimit(40)]
proof fn lemma_order_codes<
    D: Fn([[i16; 8]; 8]) -> [[i32; 8]; 8],
    F: Fn([[i32; 8]; 8]) -> [[i16; 8]; 8],
>(
    plan: SequencePlan,
    frames: Seq<FrameContents>,
    order: Seq<Coded>,
    stream: Seq<u8>,
    head: Seq<u8>,
    st: SequenceEncoding,
    fdct: D,
    idct: F,
)
    requires
        plan_codable(plan),
        st.bits.len() % 8 == 0,
        order_encoded(plan, frames, order, st, fdct, idct) is Ok,
        begins_with(stream, order_encoded(plan, frames, order, st, fdct, idct)->Ok_0.bits),
        holds_codes(stream.subrange(0, st.bits.len() as int / 8), head),
    ensures
        holds_codes(
            stream.subrange(0, bytes_after(plan, frames, order, st, fdct, idct)),
            head + order_codes(plan, order),
        ),
    decreases order.len(),
{
    if order.len() == 0 {
        assert(head + order_codes(plan, order) =~= head);
    } else {
        let rest = order.drop_last();
        let before = order_encoded(plan, frames, rest, st, fdct, idct)->Ok_0;
        let a = bytes_after(plan, frames, rest, st, fdct, idct);
        let b = bytes_after(plan, frames, order, st, fdct, idct);
        lemma_whole_bytes(plan, frames, rest, st, fdct, idct);
        lemma_last_piece(plan, frames, order, stream, st, fdct, idct);
        lemma_order_codes(plan, frames, rest, stream, head, st, fdct, idct);
        law_piece_start_codes(
            plan,
            frames,
            order.last(),
            stream.subrange(a, b),
            before,
            fdct,
            idct,
        );
        let codes = head + order_codes(plan, rest);
        let last = codes_of(plan, order.last());
        lemma_codes_joined(stream.subrange(0, a), codes, stream.subrange(a, b), last);
        assert(stream.subrange(0, a) + stream.subrange(a, b) =~= stream.subrange(0, b));
        assert(codes + last =~= head + order_codes(plan, order));
    }
}

/// How often a start code that is not one of slices occurs in an order.
proof fn lemma_order_occurrences(plan: SequencePlan, order: Seq<Coded>, code: u8)
    requires
        plan_codable(plan),
        code == 0 || code == 0xB5,
    ensures
        occurrences(order_codes(plan, order), code) == (if code == 0 {
            pictures(order)
        } else {
            0int
        }),
    decreases order.len(),
{
    if order.len() > 0 {
        let rest = order.drop_last();
        lemma_order_occurrences(plan, rest, code);
        lemma_occurrences_joined(order_codes(plan, rest), codes_of(plan, order.last()), code);
        lemma_occurrences_one(0xB8, code);
        lemma_picture_occurrences(blocks_of_16(plan.params.height as int), code);
    }
}

// ---------------------------------------------------------------------------
// The stream
// ---------------------------------------------------------------------------

/// What is written, and what a decoder has, before the first group.
pub open spec fn headed(
    frames: Seq<FrameContents>,
    b_between: int,
    seq: Mpeg1SequenceParams,
    forward_f_code: u8,
    backward_f_code: u8,
) -> SequenceEncoding {
    SequenceEncoding {
        bits: sequence_header_bits(
            effective_header(
                seq,
                frames.len() as int,
                b_between,
                forward_f_code,
                backward_f_code,
            ),
        ),
        anchors: Map::empty(),
    }
}

/// The pictures of a sequence whose arguments are taken can be decoded.
#[verifier::spinoff_prover]
proof fn lemma_plan_ok(
    frames: Seq<FrameContents>,
    b_between: int,
    anchors_per_gop: int,
    seq: Mpeg1SequenceParams,
    scale: u8,
    forward_f_code: u8,
    backward_f_code: u8,
)
    requires
        1 <= seq.horizontal_size,
        seq.vertical_size <= 2880,
        sequence_error(
            frames,
            anchors_per_gop,
            params_of(seq),
            scale,
            forward_f_code,
            backward_f_code,
        ) is None,
    ensures
        ({
            let plan = plan_of(
                b_between,
                anchors_per_gop,
                seq,
                scale,
                forward_f_code,
                backward_f_code,
            );
            plan_codable(plan) && (seq.vertical_size <= 2800 ==> plan_ok(plan))
        }),
        frames.len() > 0,
        anchors_per_gop != 0,
{
    let h = blocks_of_16(seq.vertical_size as int);
    let w = blocks_of_16(seq.horizontal_size as int);
    assert(h * w <= 180 * 4096) by (nonlinear_arith)
        requires
            0 <= h <= 180,
            0 <= w <= 4096,
    ;
}

/// A sequence that is encoded has a picture rate.
#[verifier::spinoff_prover]
proof fn lemma_has_rate<
    D: Fn([[i16; 8]; 8]) -> [[i32; 8]; 8],
    F: Fn([[i32; 8]; 8]) -> [[i16; 8]; 8],
>(plan: SequencePlan, frames: Seq<FrameContents>, bits: Seq<bool>, fdct: D, idct: F)
    requires
        frames.len() > 0,
        plan.step >= 1,
        plan.anchors_per_gop >= 1,
        gops_encoded(plan, frames, 0, bits, fdct, idct) is Ok,
    ensures
        nominal_rate(plan.picture_rate_code) is Some,
{
    lemma_group_end(plan.step, plan.anchors_per_gop, frames.len() as int, 0);
}

/// A stream that holds whole bytes begins with them.
#[verifier::spinoff_prover]
proof fn lemma_stream_begins(stream: Seq<u8>, bits: Seq<bool>)
    requires
        stream_holds(stream, bits),
        bits.len() % 8 == 0,
    ensures
        bits.len() == 8 * (stream.len() - 4),
        begins_with(stream, bits),
        stream == stream.subrange(0, stream.len() - 4) + seq![0u8, 0u8, 1u8, 0xB7u8],
{
    let n = stream.len() - 4;
    let body = stream.subrange(0, n);
    assert(zero_padded(bits) =~= bits);
    assert(bits_of(body).len() == 8 * body.len());
    lemma_bits_of_subrange(stream, 0, n);
    assert(bits.is_prefix_of(bits_of(stream)));
    assert(stream =~= body + stream.subrange(n, n + 4));
}

/// A sequence whose arguments are taken can be decoded, and its bits are those of its
/// header and of its groups in the order of coding.
#[verifier::spinoff_prover]
#[verifier::rlimit(60)]
proof fn lemma_stream_bits<
    D: Fn([[i16; 8]; 8]) -> [[i32; 8]; 8],
    F: Fn([[i32; 8]; 8]) -> [[i16; 8]; 8],
>(
    frames: Seq<FrameContents>,
    b_between: int,
    anchors_per_gop: int,
    seq: Mpeg1SequenceParams,
    scale: u8,
    forward_f_code: u8,
    backward_f_code: u8,
    stream: Seq<u8>,
    fdct: D,
    idct: F,
)
    requires
        0 <= b_between,
        0 <= anchors_per_gop,
        1 <= seq.horizontal_size,
        seq.vertical_size <= 2880,
        ({
            let bits = sequence_encoded(
                frames,
                b_between,
                anchors_per_gop,
                seq,
                scale,
                forward_f_code,
                backward_f_code,
                fdct,
                idct,
            );
            bits is Ok && stream_holds(stream, bits->Ok_0)
        }),
    ensures
        ({
            let plan = plan_of(
                b_between,
                anchors_per_gop,
                seq,
                scale,
                forward_f_code,
                backward_f_code,
            );
            let st = headed(frames, b_between, seq, forward_f_code, backward_f_code);
            let order = sequence_order(
                b_between + 1,
                anchors_per_gop,
                frames.len() as int,
                0,
            );
            let all = order_encoded(plan, frames, order, st, fdct, idct);
            &&& frames.len() > 0
            &&& anchors_per_gop >= 1
            &&& plan_codable(plan)
            &&& seq.vertical_size <= 2800 ==> plan_ok(plan)
            &&& nominal_rate(seq.picture_rate_code) is Some
            &&& st.bits.len() == 96
            &&& all is Ok
            &&& all->Ok_0.bits.len() % 8 == 0
            &&& all->Ok_0.bits.len() == 8 * (stream.len() - 4)
            &&& begins_with(stream, all->Ok_0.bits)
            &&& stream == stream.subrange(0, stream.len() - 4) + seq![0u8, 0u8, 1u8, 0xB7u8]
        }),
{
    let plan = plan_of(b_between, anchors_per_gop, seq, scale, forward_f_code, backward_f_code);
    let st = headed(frames, b_between, seq, forward_f_code, backward_f_code);
    let count = frames.len() as int;
    let order = sequence_order(b_between + 1, anchors_per_gop, count, 0);
    lemma_plan_ok(
        frames,
        b_between,
        anchors_per_gop,
        seq,
        scale,
        forward_f_code,
        backward_f_code,
    );
    law_sequence_header_is_twelve_bytes(
        effective_header(seq, count, b_between, forward_f_code, backward_f_code),
    );
    assert(zero_padded(Seq::empty() + st.bits) =~= st.bits);
    lemma_has_rate(plan, frames, st.bits, fdct, idct);
    law_sequence_follows_order(plan, frames, 0, st, fdct, idct);
    lemma_whole_bytes(plan, frames, order, st, fdct, idct);
    lemma_stream_begins(
        stream,
        order_encoded(plan, frames, order, st, fdct, idct)->Ok_0.bits,
    );
}

/// The stream of a sequence is its header, the pieces of its groups in the order of
/// coding, one directly behind the other, and the end code. Where a decoder can number
/// the rows of the pictures, decoding the pieces gives the anchors of the encoder. There
/// must not be so many rows that the start code of one is that of an extension.
#[verifier::spinoff_prover]
#[verifier::rlimit(60)]
pub proof fn law_stream_pieces<
    D: Fn([[i16; 8]; 8]) -> [[i32; 8]; 8],
    F: Fn([[i32; 8]; 8]) -> [[i16; 8]; 8],
>(
    frames: Seq<FrameContents>,
    b_between: int,
    anchors_per_gop: int,
    seq: Mpeg1SequenceParams,
    scale: u8,
    forward_f_code: u8,
    backward_f_code: u8,
    stream: Seq<u8>,
    fdct: D,
    idct: F,
)
    requires
        0 <= b_between,
        0 <= anchors_per_gop,
        1 <= seq.horizontal_size,
        seq.vertical_size <= 2880,
        ({
            let bits = sequence_encoded(
                frames,
                b_between,
                anchors_per_gop,
                seq,
                scale,
                forward_f_code,
                backward_f_code,
                fdct,
                idct,
            );
            bits is Ok && stream_holds(stream, bits->Ok_0)
        }),
    ensures
        ({
            let plan = plan_of(
                b_between,
                anchors_per_gop,
                seq,
                scale,
                forward_f_code,
                backward_f_code,
            );
            let st = headed(frames, b_between, seq, forward_f_code, backward_f_code);
            let order = sequence_order(
                b_between + 1,
                anchors_per_gop,
                frames.len() as int,
                0,
            );
            let all = order_encoded(plan, frames, order, st, fdct, idct);
            let pieces = stream_pieces(plan, frames, order, stream, st, fdct, idct);
            &&& bits_of(stream.subrange(0, 12)) == st.bits
            &&& bytes_after(plan, frames, order.take(0), st, fdct, idct) == 12
            &&& all is Ok
            &&& pieces_hold(plan, frames, order, pieces, st, fdct, idct)
            &&& seq.vertical_size <= 2800 ==> order_decoded(
                plan,
                order,
                pieces,
                st.anchors,
                idct,
            ) == Ok::<Map<int, FrameContents>, Error>(all->Ok_0.anchors)
            &&& bytes_after(plan, frames, order, st, fdct, idct) == stream.len() - 4
            &&& stream.subrange(stream.len() - 4, stream.len() as int) == seq![
                0u8,
                0u8,
                1u8,
                0xB7u8,
            ]
        }),
{
    let plan = plan_of(b_between, anchors_per_gop, seq, scale, forward_f_code, backward_f_code);
    let st = headed(frames, b_between, seq, forward_f_code, backward_f_code);
    let order = sequence_order(b_between + 1, anchors_per_gop, frames.len() as int, 0);
    lemma_stream_bits(
        frames,
        b_between,
        anchors_per_gop,
        seq,
        scale,
        forward_f_code,
        backward_f_code,
        stream,
        fdct,
        idct,
    );
    assert(order.take(order.len() as int) =~= order);
    lemma_pieces_hold(plan, frames, order, order.len() as int, stream, st, fdct, idct);
    let pieces = stream_pieces(plan, frames, order, stream, st, fdct, idct);
    if seq.vertical_size <= 2800 {
        law_sequence_round_trip(plan, frames, order, pieces, st, fdct, idct);
    }
    lemma_header_bytes(plan, frames, order, stream, st, fdct, idct);
}

/// The bytes of a stream that the encoding starts from.
proof fn lemma_header_bytes<
    D: Fn([[i16; 8]; 8]) -> [[i32; 8]; 8],
    F: Fn([[i32; 8]; 8]) -> [[i16; 8]; 8],
>(
    plan: SequencePlan,
    frames: Seq<FrameContents>,
    order: Seq<Coded>,
    stream: Seq<u8>,
    st: SequenceEncoding,
    fdct: D,
    idct: F,
)
    requires
        plan_codable(plan),
        st.bits.len() % 8 == 0,
        order_encoded(plan, frames, order, st, fdct, idct) is Ok,
        begins_with(stream, order_encoded(plan, frames, order, st, fdct, idct)->Ok_0.bits),
    ensures
        bits_of(stream.subrange(0, st.bits.len() as int / 8)) == st.bits,
        st.bits.len() <= 8 * stream.len(),
        bytes_after(plan, frames, order.take(0), st, fdct, idct) == st.bits.len() as int / 8,
    decreases order.len(),
{
    if order.len() == 0 {
        let n = st.bits.len() as int / 8;
        assert(bits_of(stream).len() == 8 * stream.len());
        lemma_bits_of_subrange(stream, 0, n);
        assert(bits_of(stream).subrange(0, 8 * n) =~= st.bits);
    } else {
        let rest = order.drop_last();
        lemma_whole_bytes(plan, frames, rest, st, fdct, idct);
        lemma_last_piece(plan, frames, order, stream, st, fdct, idct);
        lemma_header_bytes(plan, frames, rest, stream, st, fdct, idct);
        assert(rest.take(0) =~= order.take(0));
    }
}

/// A stream holds the start codes of its header, of its group headers, pictures and
/// slices in the order of coding, and of its end, and no others: no extension start
/// code, and one picture start code for each frame. There must not be so many rows that
/// the start code of one is that of an extension, and the fields of the sizes must not
/// look like a start code themselves.
#[verifier::spinoff_prover]
#[verifier::rlimit(60)]
pub proof fn law_stream_start_codes<
    D: Fn([[i16; 8]; 8]) -> [[i32; 8]; 8],
    F: Fn([[i32; 8]; 8]) -> [[i16; 8]; 8],
>(
    frames: Seq<FrameContents>,
    b_between: int,
    anchors_per_gop: int,
    seq: Mpeg1SequenceParams,
    scale: u8,
    forward_f_code: u8,
    backward_f_code: u8,
    stream: Seq<u8>,
    fdct: D,
    idct: F,
)
    requires
        0 <= b_between,
        0 <= anchors_per_gop,
        1 <= seq.horizontal_size,
        1 <= seq.vertical_size <= 2880,
        sizes_apart(seq),
        ({
            let bits = sequence_encoded(
                frames,
                b_between,
                anchors_per_gop,
                seq,
                scale,
                forward_f_code,
                backward_f_code,
                fdct,
                idct,
            );
            bits is Ok && stream_holds(stream, bits->Ok_0)
        }),
    ensures
        ({
            let plan = plan_of(
                b_between,
                anchors_per_gop,
                seq,
                scale,
                forward_f_code,
                backward_f_code,
            );
            let order = sequence_order(
                b_between + 1,
                anchors_per_gop,
                frames.len() as int,
                0,
            );
            start_codes(stream) == seq![0xB3u8] + order_codes(plan, order) + seq![0xB7u8]
        }),
        occurrences(start_codes(stream), 0xB5) == 0,
        occurrences(start_codes(stream), 0x00) == frames.len(),
{
    let plan = plan_of(b_between, anchors_per_gop, seq, scale, forward_f_code, backward_f_code);
    let st = headed(frames, b_between, seq, forward_f_code, backward_f_code);
    let count = frames.len() as int;
    let order = sequence_order(b_between + 1, anchors_per_gop, count, 0);
    let n = stream.len() - 4;
    lemma_stream_bits(
        frames,
        b_between,
        anchors_per_gop,
        seq,
        scale,
        forward_f_code,
        backward_f_code,
        stream,
        fdct,
        idct,
    );
    let header = effective_header(seq, count, b_between, forward_f_code, backward_f_code);
    let head = seq![0xB3u8];
    let tail = seq![0xB7u8];
    let end = seq![0u8, 0u8, 1u8, 0xB7u8];
    lemma_header_bytes(plan, frames, order, stream, st, fdct, idct);
    lemma_sequence_header_codes(header, stream.subrange(0, 12));
    lemma_order_codes(plan, frames, order, stream, head, st, fdct, idct);
    assert(holds_codes(end, tail)) by {
        reveal(holds_codes);
        lemma_code_is_one(end, 0);
        lemma_one_code(end, 0, 4);
    }
    let body = order_codes(plan, order);
    lemma_codes_joined(stream.subrange(0, n), head + body, end, tail);
    assert(start_codes(stream) == head + body + tail) by {
        reveal(holds_codes);
    }
    law_as_many_pictures_as_frames(b_between + 1, anchors_per_gop, count, 0);
    lemma_order_occurrences(plan, order, 0);
    lemma_order_occurrences(plan, order, 0xB5);
    lemma_occurrences_joined(head, body, 0);
    lemma_occurrences_joined(head, body, 0xB5);
    lemma_occurrences_joined(head + body, tail, 0);
    lemma_occurrences_joined(head + body, tail, 0xB5);
    lemma_occurrences_one(0xB3, 0);
    lemma_occurrences_one(0xB3, 0xB5);
    lemma_occurrences_one(0xB7, 0);
    lemma_occurrences_one(0xB7, 0xB5);
}

} // verus!
