//! What the headers say: fields that stand one after another in the bits come out of the
//! readers as they went in.

use crate::bits::{
    be_value, bits_of, holds_at, lemma_holds_at_split, lemma_holds_field, lemma_holds_flag,
    lemma_value_bits_len, sign_extended, value_bits,
};
use crate::error::Error;
use crate::picture::ChromaFormat;
use crate::picture_display_extension::{
    display_extension_at, offset_at, offset_count, offsets_at, FrameCentreOffset,
    PictureDisplayContext,
};
use crate::picture_header::{
    extra_information_at, lemma_zeros_passed, picture_header_at, vector_hint_at, zero_bytes,
    PictureCodingType, PictureHeaderFields,
};
use crate::picture_spatial_scalable_extension::{
    spatial_extension_at, PictureSpatialScalableExtension,
};
use crate::picture_temporal_scalable_extension::{
    temporal_extension_at, PictureTemporalScalableExtension,
};
use crate::sequence_extension::{sequence_extension, sequence_of, Mpeg2SequenceExtension};
use crate::sequence_header::{sequence_header_at, weights_at, AspectRatio, SequenceFields};
use crate::slice_header::slice_header_of;
use vstd::arithmetic::power2::{lemma2_to64, pow2};
use vstd::prelude::*;

verus! {

/// Extra information: each byte after a one bit, and a zero bit after the last.
pub open spec fn extra_bits(extra: Seq<u8>) -> Seq<bool>
    decreases extra.len(),
{
    if extra.len() == 0 {
        seq![false]
    } else {
        seq![true] + (value_bits(extra[0] as int, 8) + extra_bits(extra.drop_first()))
    }
}

/// Extra information comes back byte by byte.
pub proof fn law_extra_information(s: Seq<bool>, at: int, extra: Seq<u8>, rest: Seq<bool>)
    requires
        holds_at(s, at, extra_bits(extra) + rest),
    ensures
        extra_information_at(s, at) == (
            Ok::<Seq<u8>, Error>(extra),
            at + 9 * extra.len() + 1,
        ),
        extra_bits(extra).len() == 9 * extra.len() + 1,
        holds_at(s, at + 9 * extra.len() + 1, rest),
    decreases extra.len(),
{
    lemma2_to64();
    if extra.len() == 0 {
        lemma_holds_flag(s, at, false, rest);
        assert(extra =~= Seq::empty());
    } else {
        let tail = extra.drop_first();
        let b = extra_bits(tail) + rest;
        let v = value_bits(extra[0] as int, 8) + b;
        assert(extra_bits(extra) + rest =~= seq![true] + v);
        lemma_holds_flag(s, at, true, v);
        lemma_holds_field(s, at + 1, extra[0] as int, 8, b);
        lemma_value_bits_len(extra[0] as int, 8);
        law_extra_information(s, at + 9, tail, rest);
        assert(seq![extra[0]] + tail =~= extra);
    }
}

/// The full-sample flag and the `f_code` of one direction, where the picture has it.
pub open spec fn direction_bits(full_pel: Option<bool>, f_code: Option<u8>) -> Seq<bool> {
    match (full_pel, f_code) {
        (Some(full), Some(code)) => seq![full] + value_bits(code as int, 3),
        _ => Seq::empty(),
    }
}

/// Whether a direction is there exactly where it should be.
pub open spec fn direction_fits(present: bool, full_pel: Option<bool>, f_code: Option<u8>) -> bool {
    &&& full_pel is Some <==> present
    &&& f_code is Some <==> present
    &&& f_code matches Some(code) ==> code < 8
}

proof fn lemma_direction(
    s: Seq<bool>,
    at: int,
    present: bool,
    full_pel: Option<bool>,
    f_code: Option<u8>,
    rest: Seq<bool>,
)
    requires
        direction_fits(present, full_pel, f_code),
        holds_at(s, at, direction_bits(full_pel, f_code) + rest),
    ensures
        vector_hint_at(s, at, present) == (
            Ok::<(Option<bool>, Option<u8>), Error>((full_pel, f_code)),
            at + direction_bits(full_pel, f_code).len(),
        ),
        holds_at(s, at + direction_bits(full_pel, f_code).len(), rest),
{
    lemma2_to64();
    if present {
        let f = value_bits(f_code->0 as int, 3) + rest;
        assert(direction_bits(full_pel, f_code) + rest =~= seq![full_pel->0] + f);
        lemma_holds_flag(s, at, full_pel->0, f);
        lemma_holds_field(s, at + 1, f_code->0 as int, 3, rest);
        lemma_value_bits_len(f_code->0 as int, 3);
    } else {
        assert(direction_bits(full_pel, f_code) + rest =~= rest);
    }
}

/// A picture header of type `type_code` with the given fields.
pub open spec fn picture_fields_bits(h: PictureHeaderFields, type_code: int) -> Seq<bool> {
    value_bits(0x100, 32) + (value_bits(h.temporal_reference as int, 10) + (value_bits(type_code, 3)
        + (value_bits(h.vbv_delay as int, 16) + (direction_bits(
        h.full_pel_forward_vector,
        h.fwd_f_code,
    ) + (direction_bits(h.full_pel_backward_vector, h.bwd_f_code) + extra_bits(
        h.extra_information_picture,
    ))))))
}

/// The fields of a picture header come back: the types I, P, B and D have the codes 1 to
/// 4, P and B say how their forward vectors are coded, and B how its backward vectors are.
pub proof fn law_picture_header_fields(
    s: Seq<bool>,
    at: int,
    h: PictureHeaderFields,
    type_code: int,
)
    requires
        h.temporal_reference < 1024,
        h.picture_coding_type == (if type_code == 1 {
            PictureCodingType::Intra
        } else if type_code == 2 {
            PictureCodingType::Predictive
        } else if type_code == 3 {
            PictureCodingType::Bidirectional
        } else {
            PictureCodingType::DcIntra
        }),
        1 <= type_code <= 4,
        direction_fits(
            type_code == 2 || type_code == 3,
            h.full_pel_forward_vector,
            h.fwd_f_code,
        ),
        direction_fits(type_code == 3, h.full_pel_backward_vector, h.bwd_f_code),
        holds_at(s, at, picture_fields_bits(h, type_code)),
    ensures
        picture_header_at(s, at) == (
            Ok::<PictureHeaderFields, Error>(h),
            at + picture_fields_bits(h, type_code).len(),
        ),
{
    lemma2_to64();
    let fwd = direction_bits(h.full_pel_forward_vector, h.fwd_f_code);
    let bwd = direction_bits(h.full_pel_backward_vector, h.bwd_f_code);
    let x = extra_bits(h.extra_information_picture);
    let b = bwd + x;
    let f = fwd + b;
    let v = value_bits(h.vbv_delay as int, 16) + f;
    let t = value_bits(type_code, 3) + v;
    let r = value_bits(h.temporal_reference as int, 10) + t;
    lemma_holds_field(s, at, 0x100, 32, r);
    lemma_holds_field(s, at + 32, h.temporal_reference as int, 10, t);
    lemma_holds_field(s, at + 42, type_code, 3, v);
    lemma_holds_field(s, at + 45, h.vbv_delay as int, 16, f);
    let forward = type_code == 2 || type_code == 3;
    lemma_direction(s, at + 61, forward, h.full_pel_forward_vector, h.fwd_f_code, b);
    let p1 = at + 61 + fwd.len();
    lemma_direction(s, p1, type_code == 3, h.full_pel_backward_vector, h.bwd_f_code, x);
    let p2 = p1 + bwd.len();
    assert(x =~= x + Seq::<bool>::empty());
    law_extra_information(s, p2, h.extra_information_picture, Seq::empty());
    lemma_value_bits_len(0x100, 32);
    lemma_value_bits_len(h.temporal_reference as int, 10);
    lemma_value_bits_len(type_code, 3);
    lemma_value_bits_len(h.vbv_delay as int, 16);
}

/// A weighting matrix, or the word that there is none.
pub open spec fn matrix_bits(w: Option<Seq<u8>>) -> Seq<bool> {
    match w {
        None => seq![false],
        Some(w) => seq![true] + bytes_bits(w),
    }
}

/// Bytes one after another.
pub open spec fn bytes_bits(w: Seq<u8>) -> Seq<bool>
    decreases w.len(),
{
    if w.len() == 0 {
        Seq::empty()
    } else {
        value_bits(w[0] as int, 8) + bytes_bits(w.drop_first())
    }
}

proof fn lemma_bytes(s: Seq<bool>, at: int, w: Seq<u8>, rest: Seq<bool>)
    requires
        holds_at(s, at, bytes_bits(w) + rest),
    ensures
        at + 8 * w.len() <= s.len(),
        bytes_bits(w).len() == 8 * w.len(),
        forall|k: int| 0 <= k < w.len() ==> #[trigger] w[k] == be_value(s, at + 8 * k, 8),
        holds_at(s, at + 8 * w.len(), rest),
    decreases w.len(),
{
    lemma2_to64();
    if w.len() == 0 {
        assert(bytes_bits(w) + rest =~= rest);
    } else {
        let tail = w.drop_first();
        let b = bytes_bits(tail) + rest;
        assert(bytes_bits(w) + rest =~= value_bits(w[0] as int, 8) + b);
        lemma_holds_field(s, at, w[0] as int, 8, b);
        lemma_value_bits_len(w[0] as int, 8);
        lemma_bytes(s, at + 8, tail, rest);
        assert forall|k: int| 0 <= k < w.len() implies #[trigger] w[k] == be_value(
            s,
            at + 8 * k,
            8,
        ) by {
            if k > 0 {
                assert(w[k] == tail[k - 1]);
                assert(at + 8 + 8 * (k - 1) == at + 8 * k);
            }
        }
    }
}

proof fn lemma_matrix(s: Seq<bool>, at: int, w: Option<Seq<u8>>, rest: Seq<bool>)
    requires
        w matches Some(w) ==> w.len() == 64,
        holds_at(s, at, matrix_bits(w) + rest),
    ensures
        weights_at(s, at) == (Ok::<Option<Seq<u8>>, Error>(w), at + matrix_bits(w).len()),
        holds_at(s, at + matrix_bits(w).len(), rest),
{
    match w {
        None => {
            lemma_holds_flag(s, at, false, rest);
        },
        Some(m) => {
            let b = bytes_bits(m) + rest;
            assert(matrix_bits(w) + rest =~= seq![true] + b);
            lemma_holds_flag(s, at, true, b);
            lemma_bytes(s, at + 1, m, rest);
            let read = Seq::new(64, |k: int| be_value(s, at + 1 + 8 * k, 8) as u8);
            assert(read =~= m);
        },
    }
}

/// A sequence header with the given fields.
pub open spec fn sequence_fields_bits(h: SequenceFields, aspect_code: int) -> Seq<bool> {
    value_bits(0x1B3, 32) + (value_bits(h.width as int, 12) + (value_bits(h.height as int, 12) + (
    value_bits(aspect_code, 4) + (value_bits(h.frame_rate_code as int, 4) + (value_bits(
        h.bit_rate as int,
        18,
    ) + (seq![true] + (value_bits(h.vbv_buffer_size as int, 10) + (seq![h.constrained_parameters]
        + (matrix_bits(h.intra_quant) + matrix_bits(h.non_intra_quant))))))))))
}

/// Whether fields can be written, and the aspect ratio is that of the code.
pub open spec fn sequence_fields_fit(h: SequenceFields, aspect_code: int) -> bool {
    &&& h.width < 4096
    &&& h.height < 4096
    &&& 1 <= aspect_code < 16
    &&& h.aspect_ratio == (if aspect_code == 1 {
        AspectRatio::Square
    } else {
        AspectRatio::Other(aspect_code as u8)
    })
    &&& 1 <= h.frame_rate_code < 16
    &&& h.bit_rate < 0x4_0000
    &&& h.vbv_buffer_size < 1024
    &&& h.intra_quant matches Some(w) ==> w.len() == 64
    &&& h.non_intra_quant matches Some(w) ==> w.len() == 64
}

/// The fields of a sequence header come back, each weighting matrix among them that is
/// there.
pub proof fn law_sequence_header_fields(
    s: Seq<bool>,
    at: int,
    h: SequenceFields,
    aspect_code: int,
)
    requires
        sequence_fields_fit(h, aspect_code),
        holds_at(s, at, sequence_fields_bits(h, aspect_code)),
    ensures
        sequence_header_at(s, at) == (
            Ok::<SequenceFields, Error>(h),
            at + sequence_fields_bits(h, aspect_code).len(),
        ),
{
    lemma2_to64();
    assert(0x4_0000 == pow2(18));
    let n = matrix_bits(h.non_intra_quant);
    let m = matrix_bits(h.intra_quant) + n;
    let c = seq![h.constrained_parameters] + m;
    let v = value_bits(h.vbv_buffer_size as int, 10) + c;
    let k = seq![true] + v;
    let b = value_bits(h.bit_rate as int, 18) + k;
    let f = value_bits(h.frame_rate_code as int, 4) + b;
    let a = value_bits(aspect_code, 4) + f;
    let y = value_bits(h.height as int, 12) + a;
    let x = value_bits(h.width as int, 12) + y;
    lemma_holds_field(s, at, 0x1B3, 32, x);
    lemma_holds_field(s, at + 32, h.width as int, 12, y);
    lemma_holds_field(s, at + 44, h.height as int, 12, a);
    lemma_holds_field(s, at + 56, aspect_code, 4, f);
    lemma_holds_field(s, at + 60, h.frame_rate_code as int, 4, b);
    lemma_holds_field(s, at + 64, h.bit_rate as int, 18, k);
    lemma_holds_flag(s, at + 82, true, v);
    lemma_holds_field(s, at + 83, h.vbv_buffer_size as int, 10, c);
    lemma_holds_flag(s, at + 93, h.constrained_parameters, m);
    lemma_matrix(s, at + 94, h.intra_quant, n);
    assert(n =~= n + Seq::<bool>::empty());
    lemma_matrix(s, at + 94 + matrix_bits(h.intra_quant).len(), h.non_intra_quant, Seq::empty());
    lemma_value_bits_len(0x1B3, 32);
    lemma_value_bits_len(h.width as int, 12);
    lemma_value_bits_len(h.height as int, 12);
    lemma_value_bits_len(aspect_code, 4);
    lemma_value_bits_len(h.frame_rate_code as int, 4);
    lemma_value_bits_len(h.bit_rate as int, 18);
    lemma_value_bits_len(h.vbv_buffer_size as int, 10);
}

/// A sequence extension with the given fields.
pub open spec fn sequence_extension_bits(x: Mpeg2SequenceExtension, chroma_code: int) -> Seq<bool> {
    value_bits(0x1B5, 32) + (value_bits(1, 4) + (value_bits(x.profile_and_level as int, 8) + (
    seq![x.progressive_sequence] + (value_bits(chroma_code, 2) + (value_bits(
        x.horizontal_size_extension as int,
        2,
    ) + (value_bits(x.vertical_size_extension as int, 2) + (value_bits(
        x.bit_rate_extension as int,
        12,
    ) + (seq![true] + (value_bits(x.vbv_buffer_size_extension as int, 8) + (seq![x.low_delay] + (
    value_bits(x.frame_rate_extension_n as int, 2) + value_bits(
        x.frame_rate_extension_d as int,
        5,
    ))))))))))))
}

/// The fields of a sequence extension come back; 4:2:0, 4:2:2 and 4:4:4 have the codes 1
/// to 3.
#[verifier::spinoff_prover]
pub proof fn law_sequence_extension_fields(
    s: Seq<bool>,
    x: Mpeg2SequenceExtension,
    chroma_code: int,
)
    requires
        1 <= chroma_code <= 3,
        x.chroma_format == (if chroma_code == 1 {
            ChromaFormat::Yuv420
        } else if chroma_code == 2 {
            ChromaFormat::Yuv422
        } else {
            ChromaFormat::Yuv444
        }),
        x.horizontal_size_extension < 4,
        x.vertical_size_extension < 4,
        x.bit_rate_extension < 4096,
        x.frame_rate_extension_n < 4,
        x.frame_rate_extension_d < 32,
        holds_at(s, 0, sequence_extension_bits(x, chroma_code)),
    ensures
        sequence_extension(s) == Ok::<Mpeg2SequenceExtension, Error>(x),
{
    lemma2_to64();
    let d = value_bits(x.frame_rate_extension_d as int, 5);
    let n = value_bits(x.frame_rate_extension_n as int, 2) + d;
    let l = seq![x.low_delay] + n;
    let v = value_bits(x.vbv_buffer_size_extension as int, 8) + l;
    let k = seq![true] + v;
    let b = value_bits(x.bit_rate_extension as int, 12) + k;
    let y = value_bits(x.vertical_size_extension as int, 2) + b;
    let w = value_bits(x.horizontal_size_extension as int, 2) + y;
    let c = value_bits(chroma_code, 2) + w;
    let p = seq![x.progressive_sequence] + c;
    let q = value_bits(x.profile_and_level as int, 8) + p;
    let i = value_bits(1, 4) + q;
    lemma_holds_field(s, 0, 0x1B5, 32, i);
    lemma_holds_field(s, 32, 1, 4, q);
    lemma_holds_field(s, 36, x.profile_and_level as int, 8, p);
    lemma_holds_flag(s, 44, x.progressive_sequence, c);
    lemma_holds_field(s, 45, chroma_code, 2, w);
    lemma_holds_field(s, 47, x.horizontal_size_extension as int, 2, y);
    lemma_holds_field(s, 49, x.vertical_size_extension as int, 2, b);
    lemma_holds_field(s, 51, x.bit_rate_extension as int, 12, k);
    lemma_holds_flag(s, 63, true, v);
    lemma_holds_field(s, 64, x.vbv_buffer_size_extension as int, 8, l);
    lemma_holds_flag(s, 72, x.low_delay, n);
    lemma_holds_field(s, 73, x.frame_rate_extension_n as int, 2, d);
    assert(d =~= d + Seq::<bool>::empty());
    lemma_holds_field(s, 75, x.frame_rate_extension_d as int, 5, Seq::empty());
}

/// A slice header: the row's start code, its high part where the picture is tall, the
/// quantiser scale and the extra information.
pub open spec fn slice_fields_bits(row: int, scale: int, extra: Seq<u8>, tall: bool) -> Seq<bool> {
    if tall {
        value_bits(0x100 + row % 128, 32) + (value_bits(row / 128, 3) + (value_bits(scale, 5)
            + extra_bits(extra)))
    } else {
        value_bits(0x100 + row, 32) + (value_bits(scale, 5) + extra_bits(extra))
    }
}

/// The fields of a slice header come back. In a picture of more than 2800 lines the row
/// is split into its seven low and its three high bits.
pub proof fn law_slice_header_fields(
    s: Seq<bool>,
    row: int,
    scale: int,
    extra: Seq<u8>,
    vertical_size: u32,
)
    requires
        1 <= scale <= 31,
        vertical_size <= 2800 ==> 1 <= row <= 175,
        vertical_size > 2800 ==> 1 <= row < 1024 && row % 128 != 0,
        holds_at(s, 0, slice_fields_bits(row, scale, extra, vertical_size > 2800)),
        s.len() <= u64::MAX,
    ensures
        ({
            let read = slice_header_of(s, vertical_size);
            &&& read is Ok
            &&& read->Ok_0.slice_vertical_position == row
            &&& read->Ok_0.quantiser_scale_code == scale
            &&& read->Ok_0.body_bit_position == slice_fields_bits(
                row,
                scale,
                extra,
                vertical_size > 2800,
            ).len()
        }),
{
    lemma2_to64();
    let e = extra_bits(extra);
    let c = value_bits(scale, 5) + e;
    assert(e =~= e + Seq::<bool>::empty());
    lemma_value_bits_len(scale, 5);
    if vertical_size > 2800 {
        let h = value_bits(row / 128, 3) + c;
        lemma_holds_field(s, 0, 0x100 + row % 128, 32, h);
        lemma_holds_field(s, 32, row / 128, 3, c);
        lemma_holds_field(s, 35, scale, 5, e);
        law_extra_information(s, 40, extra, Seq::empty());
        lemma_value_bits_len(0x100 + row % 128, 32);
        lemma_value_bits_len(row / 128, 3);
    } else {
        lemma_holds_field(s, 0, 0x100 + row, 32, c);
        lemma_holds_field(s, 32, scale, 5, e);
        law_extra_information(s, 37, extra, Seq::empty());
        lemma_value_bits_len(0x100 + row, 32);
    }
}

/// A signed field of `n` bits in two's complement.
pub open spec fn signed_bits(v: int, n: int) -> Seq<bool> {
    value_bits(
        if v < 0 {
            v + pow2(n as nat)
        } else {
            v
        },
        n,
    )
}

proof fn lemma_signed_field(s: Seq<bool>, at: int, v: int, n: int, rest: Seq<bool>)
    requires
        n == 15 || n == 16,
        -pow2((n - 1) as nat) <= v < pow2((n - 1) as nat),
        holds_at(s, at, signed_bits(v, n) + rest),
    ensures
        at + n <= s.len(),
        sign_extended(be_value(s, at, n), n) == v,
        holds_at(s, at + n, rest),
        signed_bits(v, n).len() == n,
{
    lemma2_to64();
    let u = if v < 0 {
        v + pow2(n as nat)
    } else {
        v
    };
    lemma_value_bits_len(u, n);
    lemma_holds_field(s, at, u, n, rest);
}

/// A temporal scalable extension with the given fields.
pub open spec fn temporal_extension_bits(x: PictureTemporalScalableExtension) -> Seq<bool> {
    value_bits(0x1B5, 32) + (value_bits(10, 4) + (value_bits(x.reference_select_code as int, 2) + (
    value_bits(x.forward_temporal_reference as int, 10) + (seq![true] + value_bits(
        x.backward_temporal_reference as int,
        10,
    )))))
}

/// The fields of a temporal scalable extension come back.
pub proof fn law_temporal_extension_fields(
    s: Seq<bool>,
    at: int,
    x: PictureTemporalScalableExtension,
)
    requires
        x.reference_select_code < 4,
        x.forward_temporal_reference < 1024,
        x.backward_temporal_reference < 1024,
        holds_at(s, at, temporal_extension_bits(x)),
    ensures
        temporal_extension_at(s, at) == (
            Ok::<PictureTemporalScalableExtension, Error>(x),
            at + 59,
        ),
{
    lemma2_to64();
    let b = value_bits(x.backward_temporal_reference as int, 10);
    let k = seq![true] + b;
    let f = value_bits(x.forward_temporal_reference as int, 10) + k;
    let r = value_bits(x.reference_select_code as int, 2) + f;
    let i = value_bits(10, 4) + r;
    lemma_holds_field(s, at, 0x1B5, 32, i);
    lemma_holds_field(s, at + 32, 10, 4, r);
    lemma_holds_field(s, at + 36, x.reference_select_code as int, 2, f);
    lemma_holds_field(s, at + 38, x.forward_temporal_reference as int, 10, k);
    lemma_holds_flag(s, at + 48, true, b);
    assert(b =~= b + Seq::<bool>::empty());
    lemma_holds_field(s, at + 49, x.backward_temporal_reference as int, 10, Seq::empty());
}

/// A spatial scalable extension with the given fields.
pub open spec fn spatial_extension_bits(x: PictureSpatialScalableExtension) -> Seq<bool> {
    value_bits(0x1B5, 32) + (value_bits(9, 4) + (value_bits(
        x.lower_layer_temporal_reference as int,
        10,
    ) + (seq![true] + (signed_bits(x.lower_layer_horizontal_offset as int, 15) + (seq![true] + (
    signed_bits(x.lower_layer_vertical_offset as int, 15) + (value_bits(
        x.spatial_temporal_weight_code_table_index as int,
        2,
    ) + (seq![x.lower_layer_progressive_frame] + seq![
        x.lower_layer_deinterlaced_field_select,
    ]))))))))
}

/// The fields of a spatial scalable extension come back.
#[verifier::spinoff_prover]
pub proof fn law_spatial_extension_fields(
    s: Seq<bool>,
    at: int,
    x: PictureSpatialScalableExtension,
)
    requires
        x.lower_layer_temporal_reference < 1024,
        -16384 <= x.lower_layer_horizontal_offset < 16384,
        -16384 <= x.lower_layer_vertical_offset < 16384,
        x.spatial_temporal_weight_code_table_index < 4,
        holds_at(s, at, spatial_extension_bits(x)),
    ensures
        spatial_extension_at(s, at) == (
            Ok::<PictureSpatialScalableExtension, Error>(x),
            at + 82,
        ),
{
    lemma2_to64();
    let d = seq![x.lower_layer_deinterlaced_field_select];
    let p = seq![x.lower_layer_progressive_frame] + d;
    let w = value_bits(x.spatial_temporal_weight_code_table_index as int, 2) + p;
    let v = signed_bits(x.lower_layer_vertical_offset as int, 15) + w;
    let k2 = seq![true] + v;
    let h = signed_bits(x.lower_layer_horizontal_offset as int, 15) + k2;
    let k1 = seq![true] + h;
    let t = value_bits(x.lower_layer_temporal_reference as int, 10) + k1;
    let i = value_bits(9, 4) + t;
    lemma_holds_field(s, at, 0x1B5, 32, i);
    lemma_holds_field(s, at + 32, 9, 4, t);
    lemma_holds_field(s, at + 36, x.lower_layer_temporal_reference as int, 10, k1);
    lemma_holds_flag(s, at + 46, true, h);
    lemma_signed_field(s, at + 47, x.lower_layer_horizontal_offset as int, 15, k2);
    lemma_holds_flag(s, at + 62, true, v);
    lemma_signed_field(s, at + 63, x.lower_layer_vertical_offset as int, 15, w);
    lemma_holds_field(s, at + 78, x.spatial_temporal_weight_code_table_index as int, 2, p);
    lemma_holds_flag(s, at + 80, x.lower_layer_progressive_frame, d);
    assert(d =~= d + Seq::<bool>::empty());
    lemma_holds_flag(s, at + 81, x.lower_layer_deinterlaced_field_select, Seq::empty());
}

/// One offset: two signed fields, each before a one bit.
pub open spec fn offset_bits(o: FrameCentreOffset) -> Seq<bool> {
    signed_bits(o.horizontal as int, 16) + (seq![true] + (signed_bits(o.vertical as int, 16)
        + seq![true]))
}

/// Offsets one after another.
pub open spec fn offsets_bits(w: Seq<FrameCentreOffset>) -> Seq<bool>
    decreases w.len(),
{
    if w.len() == 0 {
        Seq::empty()
    } else {
        offsets_bits(w.drop_last()) + offset_bits(w.last())
    }
}

/// Whether an offset can be written.
pub open spec fn offset_fits(o: FrameCentreOffset) -> bool {
    &&& -32768 <= o.horizontal < 32768
    &&& -32768 <= o.vertical < 32768
}

proof fn lemma_offset(s: Seq<bool>, at: int, o: FrameCentreOffset)
    requires
        offset_fits(o),
        holds_at(s, at, offset_bits(o)),
    ensures
        offset_at(s, at) == (Ok::<FrameCentreOffset, Error>(o), at + 34),
        offset_bits(o).len() == 34,
{
    lemma2_to64();
    let k = seq![true];
    let v = signed_bits(o.vertical as int, 16) + k;
    let m = seq![true] + v;
    lemma_signed_field(s, at, o.horizontal as int, 16, m);
    lemma_holds_flag(s, at + 16, true, v);
    lemma_signed_field(s, at + 17, o.vertical as int, 16, k);
    assert(k =~= k + Seq::<bool>::empty());
    lemma_holds_flag(s, at + 33, true, Seq::empty());
}

proof fn lemma_offsets(s: Seq<bool>, at: int, w: Seq<FrameCentreOffset>)
    requires
        forall|i: int| 0 <= i < w.len() ==> offset_fits(#[trigger] w[i]),
        holds_at(s, at, offsets_bits(w)),
    ensures
        offsets_at(s, at, w.len() as int) == (
            Ok::<Seq<FrameCentreOffset>, Error>(w),
            at + 34 * w.len(),
        ),
        offsets_bits(w).len() == 34 * w.len(),
    decreases w.len(),
{
    if w.len() == 0 {
        assert(w =~= Seq::empty());
    } else {
        let head = w.drop_last();
        lemma_holds_at_split(s, at, offsets_bits(head), offset_bits(w.last()));
        assert forall|i: int| 0 <= i < head.len() implies offset_fits(#[trigger] head[i]) by {
            assert(head[i] == w[i]);
        }
        lemma_offsets(s, at, head);
        assert(offset_fits(w[w.len() - 1]));
        lemma_offset(s, at + 34 * head.len(), w.last());
        assert(head.push(w.last()) =~= w);
    }
}

/// A display extension with the given offsets.
pub open spec fn display_extension_bits(w: Seq<FrameCentreOffset>) -> Seq<bool> {
    value_bits(0x1B5, 32) + (value_bits(7, 4) + offsets_bits(w))
}

/// The offsets of a display extension come back, as many as the picture is displayed as.
pub proof fn law_display_extension_fields(
    s: Seq<bool>,
    at: int,
    ctx: PictureDisplayContext,
    w: Seq<FrameCentreOffset>,
)
    requires
        w.len() == offset_count(ctx),
        forall|i: int| 0 <= i < w.len() ==> offset_fits(#[trigger] w[i]),
        holds_at(s, at, display_extension_bits(w)),
    ensures
        display_extension_at(s, at, ctx) == (
            Ok::<Seq<FrameCentreOffset>, Error>(w),
            at + 36 + 34 * w.len(),
        ),
{
    lemma2_to64();
    let i = value_bits(7, 4) + offsets_bits(w);
    lemma_holds_field(s, at, 0x1B5, 32, i);
    lemma_holds_field(s, at + 32, 7, 4, offsets_bits(w));
    lemma_offsets(s, at + 36, w);
}

/// A picture that is not repeated is displayed once where it is a field or the sequence
/// is progressive, and as two fields otherwise. Repeating its first field displays a
/// frame once more, and once more still where the sequence is progressive and the top
/// field comes first. A field picture of an interlaced sequence is displayed once in any
/// event.
pub proof fn law_repeated_pictures_are_displayed_more(
    plain: PictureDisplayContext,
    repeated: PictureDisplayContext,
)
    requires
        !plain.repeat_first_field,
        repeated == (PictureDisplayContext { repeat_first_field: true, ..plain }),
    ensures
        ({
            let frame = plain.picture_structure
                == crate::picture_header::PictureStructure::Frame;
            let more = offset_count(repeated) - offset_count(plain);
            &&& plain.progressive_sequence || !frame ==> offset_count(plain) == 1
            &&& !plain.progressive_sequence && frame ==> offset_count(plain) == 2 && more == 1
            &&& !plain.progressive_sequence && !frame ==> more == 0
            &&& plain.progressive_sequence ==> more == (if plain.top_field_first {
                2int
            } else {
                1int
            })
        }),
{
}

/// A sequence is read from its header and its extension, whatever zero bytes stand
/// between them.
#[verifier::spinoff_prover]
pub proof fn law_sequence_is_header_and_extension(
    header: Seq<u8>,
    stuffing: nat,
    extension: Seq<u8>,
    h: SequenceFields,
    aspect_code: int,
    x: Mpeg2SequenceExtension,
)
    requires
        bits_of(header) == sequence_fields_bits(h, aspect_code),
        sequence_fields_fit(h, aspect_code),
        4 <= extension.len(),
        extension[0] == 0,
        extension[1] == 0,
        extension[2] == 1,
        sequence_extension(bits_of(extension)) == Ok::<Mpeg2SequenceExtension, Error>(x),
    ensures
        sequence_of(header + zero_bytes(stuffing) + extension) == Ok::<
            (SequenceFields, Mpeg2SequenceExtension),
            Error,
        >((h, x)),
{
    let buf = header + zero_bytes(stuffing) + extension;
    let s = bits_of(header);
    let t = bits_of(buf);
    assert forall|k: int| 0 <= k < s.len() implies #[trigger] s[k] == t[k] by {
        assert(buf[k / 8] == header[k / 8]);
    }
    assert(t.subrange(0, s.len() as int) =~= s);
    law_sequence_header_fields(t, 0, h, aspect_code);
    let from = header.len() as int;
    let start = from + stuffing;
    assert forall|i: int| from <= i < start + 2 implies #[trigger] buf[i] == 0 by {
        if i >= start {
            assert(buf[i] == extension[i - start]);
        } else {
            assert(buf[i] == zero_bytes(stuffing)[i - from]);
        }
    }
    assert(buf[start + 2] == extension[2]);
    lemma_zeros_passed(buf, from, start + 2);
    assert(buf.subrange(start, buf.len() as int) =~= extension);
}

} // verus!
