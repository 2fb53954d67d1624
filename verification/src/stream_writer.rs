//! Picture headers, picture coding extensions and slice headers, as encoders
//! write them.

use crate::bits::{
    holds_at, lemma_holds_field, lemma_holds_flag, value_bits, writer_bits, zero_padded,
};
use crate::error::Error;
use crate::picture_header::{
    coding_extension, extra_information_at, picture_header_at, vector_hint_at,
    PictureCodingExtension, PictureCodingType, PictureHeaderFields, PictureStructure,
    EXTENSION_START_CODE, PICTURE_CODING_EXTENSION_ID, PICTURE_START_CODE,
};
use oxideav_core::bits::BitWriter;
use vstd::arithmetic::power2::lemma2_to64;
use vstd::prelude::*;

verus! {

/// The end of a sequence.
pub const SEQUENCE_END_CODE: u32 = 0x0000_01B7;

/// The start code of the first slice of a picture.
pub const FIRST_SLICE_START_CODE: u32 = 0x0000_0101;

/// The three-bit code of a coding type.
pub open spec fn coding_type_code(t: PictureCodingType) -> int {
    match t {
        PictureCodingType::Intra => 1,
        PictureCodingType::Predictive => 2,
        PictureCodingType::Bidirectional => 3,
        PictureCodingType::DcIntra => 4,
    }
}

/// The bits of a vector hint: no full-sample vectors, then the `f_code`.
pub open spec fn hint_bits(present: bool, f_code: u8) -> Seq<bool> {
    if present {
        seq![false] + value_bits(f_code as int, 3)
    } else {
        Seq::empty()
    }
}

/// The bits of a picture header of variable bit rate, without padding.
pub open spec fn picture_header_bits(
    temporal_reference: u16,
    t: PictureCodingType,
    forward_f_code: u8,
    backward_f_code: u8,
) -> Seq<bool> {
    value_bits(PICTURE_START_CODE as int, 32) + (value_bits(temporal_reference as int, 10) + (
    value_bits(coding_type_code(t), 3) + (value_bits(0xFFFF, 16) + (hint_bits(
        t.spec_uses_forward(),
        forward_f_code,
    ) + (hint_bits(t.spec_uses_backward(), backward_f_code) + seq![false])))))
}

/// Writes a picture header, padded to a byte boundary.
pub fn write_picture_header(
    bw: &mut BitWriter,
    temporal_reference: u16,
    picture_coding_type: PictureCodingType,
    forward_f_code: u8,
    backward_f_code: u8,
)
    ensures
        writer_bits(*final(bw)) == zero_padded(
            writer_bits(*old(bw)) + picture_header_bits(
                temporal_reference,
                picture_coding_type,
                forward_f_code,
                backward_f_code,
            ),
        ),
{
    let ghost before = writer_bits(*bw);
    let code: u32 = match picture_coding_type {
        PictureCodingType::Intra => 1,
        PictureCodingType::Predictive => 2,
        PictureCodingType::Bidirectional => 3,
        PictureCodingType::DcIntra => 4,
    };
    bw.write_u32(PICTURE_START_CODE, 32);
    bw.write_u32(temporal_reference as u32, 10);
    bw.write_u32(code, 3);
    bw.write_u32(0xFFFF, 16);
    if picture_coding_type.uses_forward() {
        bw.write_bit(false);
        bw.write_u32(forward_f_code as u32, 3);
    }
    if picture_coding_type.uses_backward() {
        bw.write_bit(false);
        bw.write_u32(backward_f_code as u32, 3);
    }
    bw.write_bit(false);
    assert(writer_bits(*bw) =~= before + picture_header_bits(
        temporal_reference,
        picture_coding_type,
        forward_f_code,
        backward_f_code,
    ));
    bw.align_to_byte_zero();
}

/// A picture header that was written is read back field by field.
pub proof fn law_picture_header_round_trip(
    s: Seq<bool>,
    at: int,
    temporal_reference: u16,
    t: PictureCodingType,
    forward_f_code: u8,
    backward_f_code: u8,
)
    requires
        temporal_reference < 1024,
        forward_f_code < 8,
        backward_f_code < 8,
        holds_at(
            s,
            at,
            picture_header_bits(temporal_reference, t, forward_f_code, backward_f_code),
        ),
    ensures
        picture_header_at(s, at) == (
            Ok::<PictureHeaderFields, Error>(
                (PictureHeaderFields {
                    temporal_reference,
                    picture_coding_type: t,
                    vbv_delay: 0xFFFF,
                    full_pel_forward_vector: if t.spec_uses_forward() {
                        Some(false)
                    } else {
                        None
                    },
                    fwd_f_code: if t.spec_uses_forward() {
                        Some(forward_f_code)
                    } else {
                        None
                    },
                    full_pel_backward_vector: if t.spec_uses_backward() {
                        Some(false)
                    } else {
                        None
                    },
                    bwd_f_code: if t.spec_uses_backward() {
                        Some(backward_f_code)
                    } else {
                        None
                    },
                    extra_information_picture: Seq::empty(),
                }),
            ),
            at + picture_header_bits(temporal_reference, t, forward_f_code, backward_f_code).len(),
        ),
{
    lemma2_to64();
    let tail = seq![false];
    let b = hint_bits(t.spec_uses_backward(), backward_f_code) + tail;
    let f = hint_bits(t.spec_uses_forward(), forward_f_code) + b;
    let v = value_bits(0xFFFF, 16) + f;
    let c = value_bits(coding_type_code(t), 3) + v;
    let r = value_bits(temporal_reference as int, 10) + c;
    lemma_holds_field(s, at, PICTURE_START_CODE as int, 32, r);
    lemma_holds_field(s, at + 32, temporal_reference as int, 10, c);
    lemma_holds_field(s, at + 42, coding_type_code(t), 3, v);
    lemma_holds_field(s, at + 45, 0xFFFF, 16, f);
    lemma_hint(s, at + 61, t.spec_uses_forward(), forward_f_code, b);
    let p1 = vector_hint_at(s, at + 61, t.spec_uses_forward()).1;
    lemma_hint(s, p1, t.spec_uses_backward(), backward_f_code, tail);
    let p2 = vector_hint_at(s, p1, t.spec_uses_backward()).1;
    assert(tail =~= seq![false] + Seq::<bool>::empty());
    lemma_holds_flag(s, p2, false, Seq::empty());
    assert(extra_information_at(s, p2) == (Ok::<Seq<u8>, Error>(Seq::empty()), p2 + 1));
    crate::bits::lemma_value_bits_len(PICTURE_START_CODE as int, 32);
    crate::bits::lemma_value_bits_len(temporal_reference as int, 10);
    crate::bits::lemma_value_bits_len(coding_type_code(t), 3);
    crate::bits::lemma_value_bits_len(0xFFFF, 16);
    crate::bits::lemma_value_bits_len(forward_f_code as int, 3);
    crate::bits::lemma_value_bits_len(backward_f_code as int, 3);
}

proof fn lemma_hint(s: Seq<bool>, at: int, present: bool, f_code: u8, rest: Seq<bool>)
    requires
        f_code < 8,
        holds_at(s, at, hint_bits(present, f_code) + rest),
    ensures
        vector_hint_at(s, at, present) == (
            Ok::<(Option<bool>, Option<u8>), Error>(
                if present {
                    (Some(false), Some(f_code))
                } else {
                    (None, None)
                },
            ),
            at + hint_bits(present, f_code).len(),
        ),
        holds_at(s, vector_hint_at(s, at, present).1, rest),
{
    lemma2_to64();
    if present {
        assert(hint_bits(present, f_code) + rest =~= seq![false] + (value_bits(f_code as int, 3)
            + rest));
        lemma_holds_flag(s, at, false, value_bits(f_code as int, 3) + rest);
        lemma_holds_field(s, at + 1, f_code as int, 3, rest);
        crate::bits::lemma_value_bits_len(f_code as int, 3);
    } else {
        assert(hint_bits(present, f_code) + rest =~= rest);
    }
}

/// The bits of a slice header: its row in the start code, the quantiser scale, no
/// extra information.
pub open spec fn slice_header_bits(mb_row: int, quantiser_scale_code: u8) -> Seq<bool> {
    value_bits(FIRST_SLICE_START_CODE + mb_row, 32) + value_bits(
        quantiser_scale_code as int,
        5,
    ).push(false)
}

/// A slice header takes 38 bits.
pub proof fn lemma_slice_header_len(mb_row: int, quantiser_scale_code: u8)
    ensures
        slice_header_bits(mb_row, quantiser_scale_code).len() == 38,
{
    crate::bits::lemma_value_bits_len(FIRST_SLICE_START_CODE + mb_row, 32);
    crate::bits::lemma_value_bits_len(quantiser_scale_code as int, 5);
}

/// Writes the header of the slice that starts in macroblock row `mb_row`.
pub fn write_slice_header(bw: &mut BitWriter, mb_row: u32, quantiser_scale_code: u8)
    requires
        FIRST_SLICE_START_CODE + mb_row <= u32::MAX,
    ensures
        writer_bits(*final(bw)) == writer_bits(*old(bw)) + slice_header_bits(
            mb_row as int,
            quantiser_scale_code,
        ),
{
    let ghost before = writer_bits(*bw);
    bw.write_u32(FIRST_SLICE_START_CODE + mb_row, 32);
    bw.write_u32(quantiser_scale_code as u32, 5);
    bw.write_bit(false);
    assert(writer_bits(*bw) =~= before + slice_header_bits(mb_row as int, quantiser_scale_code));
}

/// What an encoder chooses in a picture coding extension of a frame picture.
#[derive(Debug, Clone, Copy, PartialEq, Eq)]
pub struct PictureCodingExtensionParams {
    /// Both forward `f_code` values; 15 where there are no forward vectors.
    pub forward_f_code: u8,
    /// Both backward `f_code` values; 15 where there are no backward vectors.
    pub backward_f_code: u8,
    pub intra_dc_precision: u8,
    pub top_field_first: bool,
    pub frame_pred_frame_dct: bool,
    pub q_scale_type: bool,
    pub intra_vlc_format: bool,
    pub alternate_scan: bool,
    pub repeat_first_field: bool,
    pub progressive_frame: bool,
}

/// The extension that stands for an encoder's choices.
pub open spec fn written_extension(p: PictureCodingExtensionParams) -> PictureCodingExtension {
    PictureCodingExtension {
        f_code_fwd_horiz: p.forward_f_code,
        f_code_fwd_vert: p.forward_f_code,
        f_code_bwd_horiz: p.backward_f_code,
        f_code_bwd_vert: p.backward_f_code,
        intra_dc_precision: p.intra_dc_precision,
        picture_structure: PictureStructure::Frame,
        top_field_first: p.top_field_first,
        frame_pred_frame_dct: p.frame_pred_frame_dct,
        concealment_motion_vectors: false,
        q_scale_type: p.q_scale_type,
        intra_vlc_format: p.intra_vlc_format,
        alternate_scan: p.alternate_scan,
        repeat_first_field: p.repeat_first_field,
        chroma_420_type: p.progressive_frame,
        progressive_frame: p.progressive_frame,
        composite_display_flag: false,
    }
}

/// The ten flags at the end of an extension.
pub open spec fn extension_flags(x: PictureCodingExtension) -> Seq<bool> {
    seq![
        x.top_field_first,
        x.frame_pred_frame_dct,
        x.concealment_motion_vectors,
        x.q_scale_type,
        x.intra_vlc_format,
        x.alternate_scan,
        x.repeat_first_field,
        x.chroma_420_type,
        x.progressive_frame,
        x.composite_display_flag,
    ]
}

/// The bits of a picture coding extension, without padding.
pub open spec fn extension_bits(p: PictureCodingExtensionParams) -> Seq<bool> {
    let x = written_extension(p);
    value_bits(EXTENSION_START_CODE as int, 32) + (value_bits(
        PICTURE_CODING_EXTENSION_ID as int,
        4,
    ) + (value_bits(x.f_code_fwd_horiz as int, 4) + (value_bits(x.f_code_fwd_vert as int, 4) + (
    value_bits(x.f_code_bwd_horiz as int, 4) + (value_bits(x.f_code_bwd_vert as int, 4) + (
    value_bits(x.intra_dc_precision as int, 2) + (value_bits(3, 2) + extension_flags(x))))))))
}

/// Writes the picture coding extension of a frame picture, padded to a byte
/// boundary.
pub fn write_picture_coding_extension(bw: &mut BitWriter, p: &PictureCodingExtensionParams)
    ensures
        writer_bits(*final(bw)) == zero_padded(writer_bits(*old(bw)) + extension_bits(*p)),
{
    let ghost before = writer_bits(*bw);
    bw.write_u32(EXTENSION_START_CODE, 32);
    bw.write_u32(PICTURE_CODING_EXTENSION_ID, 4);
    bw.write_u32(p.forward_f_code as u32, 4);
    bw.write_u32(p.forward_f_code as u32, 4);
    bw.write_u32(p.backward_f_code as u32, 4);
    bw.write_u32(p.backward_f_code as u32, 4);
    bw.write_u32(p.intra_dc_precision as u32, 2);
    bw.write_u32(3, 2);
    write_extension_flags(bw, p);
    assert(writer_bits(*bw) =~= before + extension_bits(*p));
    bw.align_to_byte_zero();
}

#[verifier::rlimit(40)]
fn write_extension_flags(bw: &mut BitWriter, p: &PictureCodingExtensionParams)
    ensures
        writer_bits(*final(bw)) == writer_bits(*old(bw)) + extension_flags(written_extension(*p)),
{
    let ghost before = writer_bits(*bw);
    bw.write_bit(p.top_field_first);
    bw.write_bit(p.frame_pred_frame_dct);
    bw.write_bit(false);
    bw.write_bit(p.q_scale_type);
    bw.write_bit(p.intra_vlc_format);
    bw.write_bit(p.alternate_scan);
    bw.write_bit(p.repeat_first_field);
    bw.write_bit(p.progressive_frame);
    bw.write_bit(p.progressive_frame);
    bw.write_bit(false);
    assert(writer_bits(*bw) =~= before + extension_flags(written_extension(*p)));
}

/// A picture coding extension that was written is read back field by field.
pub proof fn law_coding_extension_round_trip(s: Seq<bool>, p: PictureCodingExtensionParams)
    requires
        1 <= p.forward_f_code < 16,
        1 <= p.backward_f_code < 16,
        p.intra_dc_precision < 4,
        holds_at(s, 0, extension_bits(p)),
    ensures
        coding_extension(s) == Ok::<PictureCodingExtension, Error>(written_extension(p)),
{
    lemma2_to64();
    let x = written_extension(p);
    let t8 = extension_flags(x);
    let t7 = value_bits(3, 2) + t8;
    let t6 = value_bits(x.intra_dc_precision as int, 2) + t7;
    let t5 = value_bits(x.f_code_bwd_vert as int, 4) + t6;
    let t4 = value_bits(x.f_code_bwd_horiz as int, 4) + t5;
    let t3 = value_bits(x.f_code_fwd_vert as int, 4) + t4;
    let t2 = value_bits(x.f_code_fwd_horiz as int, 4) + t3;
    let t1 = value_bits(PICTURE_CODING_EXTENSION_ID as int, 4) + t2;
    lemma_holds_field(s, 0, EXTENSION_START_CODE as int, 32, t1);
    lemma_holds_field(s, 32, PICTURE_CODING_EXTENSION_ID as int, 4, t2);
    lemma_holds_field(s, 36, x.f_code_fwd_horiz as int, 4, t3);
    lemma_holds_field(s, 40, x.f_code_fwd_vert as int, 4, t4);
    lemma_holds_field(s, 44, x.f_code_bwd_horiz as int, 4, t5);
    lemma_holds_field(s, 48, x.f_code_bwd_vert as int, 4, t6);
    lemma_holds_field(s, 52, x.intra_dc_precision as int, 2, t7);
    lemma_holds_field(s, 54, 3, 2, t8);
    let w = s.subrange(56, 66);
    assert(w == t8);
    assert(s[56] == w[0] && s[57] == w[1] && s[58] == w[2] && s[59] == w[3] && s[60] == w[4]
        && s[61] == w[5] && s[62] == w[6] && s[63] == w[7] && s[64] == w[8] && s[65] == w[9]);
}

} // verus!
