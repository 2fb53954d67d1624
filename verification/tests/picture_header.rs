use oxideav_core::bits::BitWriter;
use oxideav_mpeg12video::error::Error;
use oxideav_mpeg12video::picture_header::{
    Mpeg2PictureHeader, PICTURE_CODING_EXTENSION_ID, PICTURE_START_CODE, PictureCodingExtension,
    PictureCodingType, PictureStructure,
};

/// Emit a minimal `picture_header()` for an I-frame, given the
/// caller's `temporal_reference` and `vbv_delay`.
fn write_picture_header_i(bw: &mut BitWriter, temporal_reference: u32, vbv_delay: u32) {
    bw.write_u32(PICTURE_START_CODE, 32);
    bw.write_u32(temporal_reference, 10);
    bw.write_u32(0b001, 3); // I
    bw.write_u32(vbv_delay, 16);
    // No forward/backward sub-fields.
    bw.write_bit(false); // terminating extra_bit_picture == 0
    bw.align_to_byte();
}

fn write_picture_header_p(
    bw: &mut BitWriter,
    temporal_reference: u32,
    vbv_delay: u32,
    full_pel_fwd: bool,
    fwd_f_code: u32,
) {
    bw.write_u32(PICTURE_START_CODE, 32);
    bw.write_u32(temporal_reference, 10);
    bw.write_u32(0b010, 3); // P
    bw.write_u32(vbv_delay, 16);
    bw.write_bit(full_pel_fwd);
    bw.write_u32(fwd_f_code, 3);
    bw.write_bit(false); // terminating extra_bit_picture == 0
    bw.align_to_byte();
}

#[allow(clippy::too_many_arguments)]
fn write_picture_header_b(
    bw: &mut BitWriter,
    temporal_reference: u32,
    vbv_delay: u32,
    full_pel_fwd: bool,
    fwd_f_code: u32,
    full_pel_bwd: bool,
    bwd_f_code: u32,
) {
    bw.write_u32(PICTURE_START_CODE, 32);
    bw.write_u32(temporal_reference, 10);
    bw.write_u32(0b011, 3); // B
    bw.write_u32(vbv_delay, 16);
    bw.write_bit(full_pel_fwd);
    bw.write_u32(fwd_f_code, 3);
    bw.write_bit(full_pel_bwd);
    bw.write_u32(bwd_f_code, 3);
    bw.write_bit(false); // terminating extra_bit_picture == 0
    bw.align_to_byte();
}

#[test]
fn parses_intra_picture_zero_temporal_reference() {
    let mut bw = BitWriter::new();
    write_picture_header_i(&mut bw, 0, 0xFFFF);
    let bytes = bw.finish();
    let pic = Mpeg2PictureHeader::parse(&bytes).expect("parse");
    assert_eq!(pic.temporal_reference, 0);
    assert_eq!(pic.picture_coding_type, PictureCodingType::Intra);
    assert_eq!(pic.vbv_delay, 0xFFFF);
    assert!(pic.full_pel_forward_vector.is_none());
    assert!(pic.fwd_f_code.is_none());
    assert!(pic.full_pel_backward_vector.is_none());
    assert!(pic.bwd_f_code.is_none());
    assert!(pic.extra_information_picture.is_empty());
}

#[test]
fn parses_predictive_picture_with_fwd_fcode() {
    let mut bw = BitWriter::new();
    write_picture_header_p(&mut bw, 3, 0x1234, false, 0b111);
    let bytes = bw.finish();
    let pic = Mpeg2PictureHeader::parse(&bytes).expect("parse");
    assert_eq!(pic.temporal_reference, 3);
    assert_eq!(pic.picture_coding_type, PictureCodingType::Predictive);
    assert_eq!(pic.vbv_delay, 0x1234);
    assert_eq!(pic.full_pel_forward_vector, Some(false));
    assert_eq!(pic.fwd_f_code, Some(0b111));
    assert!(pic.full_pel_backward_vector.is_none());
    assert!(pic.bwd_f_code.is_none());
}

#[test]
fn parses_bidirectional_picture_with_both_fcodes() {
    // B picture. Both directions carry sentinel `0b111` / 0.
    let mut bw = BitWriter::new();
    write_picture_header_b(&mut bw, 5, 0xCAFE, false, 0b111, false, 0b111);
    let bytes = bw.finish();
    let pic = Mpeg2PictureHeader::parse(&bytes).expect("parse");
    assert_eq!(pic.temporal_reference, 5);
    assert_eq!(pic.picture_coding_type, PictureCodingType::Bidirectional);
    assert_eq!(pic.vbv_delay, 0xCAFE);
    assert_eq!(pic.fwd_f_code, Some(0b111));
    assert_eq!(pic.bwd_f_code, Some(0b111));
}

#[test]
fn captures_mpeg1_full_pel_flags() {
    // MPEG-1 may set full_pel_*_vector to 1; we preserve the
    // raw bit. Use a P picture so only forward is present.
    let mut bw = BitWriter::new();
    write_picture_header_p(&mut bw, 7, 0, true, 0b100);
    let bytes = bw.finish();
    let pic = Mpeg2PictureHeader::parse(&bytes).expect("parse");
    assert_eq!(pic.full_pel_forward_vector, Some(true));
    assert_eq!(pic.fwd_f_code, Some(0b100));
}

#[test]
fn rejects_wrong_start_code() {
    let mut bw = BitWriter::new();
    write_picture_header_i(&mut bw, 0, 0);
    let mut bytes = bw.finish();
    bytes[3] = 0xB3; // sequence_header_code
    let err = Mpeg2PictureHeader::parse(&bytes).unwrap_err();
    assert!(matches!(err, Error::InvalidBitstream(_)));
}

#[test]
fn rejects_forbidden_picture_coding_type() {
    let mut bw = BitWriter::new();
    bw.write_u32(PICTURE_START_CODE, 32);
    bw.write_u32(0, 10);
    bw.write_u32(0b000, 3); // forbidden
    bw.write_u32(0, 16);
    bw.write_bit(false);
    bw.align_to_byte();
    let bytes = bw.finish();
    let err = Mpeg2PictureHeader::parse(&bytes).unwrap_err();
    assert!(matches!(err, Error::InvalidBitstream(_)));
}

#[test]
fn d_picture_coding_type_parses_bare_but_not_with_extension() {
    let mut bw = BitWriter::new();
    bw.write_u32(PICTURE_START_CODE, 32);
    bw.write_u32(0, 10);
    bw.write_u32(0b100, 3);
    bw.write_u32(0, 16);
    bw.write_bit(false);
    bw.align_to_byte();
    // A following extension start-code prefix so the chained
    // parser reaches its own Table 6-12 gate.
    bw.write_u32(0x0000_01B5, 32);
    let bytes = bw.finish();

    let hdr = Mpeg2PictureHeader::parse(&bytes).expect("11172-2 path accepts D");
    assert_eq!(hdr.picture_coding_type, PictureCodingType::DcIntra);
    assert_eq!(hdr.fwd_f_code, None);
    assert_eq!(hdr.bwd_f_code, None);

    let err = Mpeg2PictureHeader::parse_with_extension(&bytes).unwrap_err();
    assert!(matches!(err, Error::InvalidBitstream(_)));
}

#[test]
fn rejects_reserved_picture_coding_type() {
    for code in [0b101u32, 0b110, 0b111] {
        let mut bw = BitWriter::new();
        bw.write_u32(PICTURE_START_CODE, 32);
        bw.write_u32(0, 10);
        bw.write_u32(code, 3);
        bw.write_u32(0, 16);
        bw.write_bit(false);
        bw.align_to_byte();
        let bytes = bw.finish();
        let err = Mpeg2PictureHeader::parse(&bytes).unwrap_err();
        assert!(matches!(err, Error::InvalidBitstream(_)), "code {code:03b}");
    }
}

#[test]
fn picture_header_rejects_truncated_buffer() {
    // 4 bytes start code + 1 byte: parser needs at least 32 + 10
    // + 3 + 16 + 1 = 62 bits = 8 bytes (plus alignment).
    let bytes = vec![0x00, 0x00, 0x01, 0x00, 0x00];
    let err = Mpeg2PictureHeader::parse(&bytes).unwrap_err();
    assert!(matches!(err, Error::ShortHeader));
}

#[test]
fn parses_extra_information_picture_byte() {
    // Force one non-conforming extra_bit_picture=1 byte to walk
    // the while-loop, then terminator. Two extra-info bytes
    // exercise the loop's repetition.
    let mut bw = BitWriter::new();
    bw.write_u32(PICTURE_START_CODE, 32);
    bw.write_u32(42, 10);
    bw.write_u32(0b001, 3); // I
    bw.write_u32(0xFFFF, 16);
    // First extra: bit=1, byte=0xA5.
    bw.write_bit(true);
    bw.write_u32(0xA5, 8);
    // Second extra: bit=1, byte=0x5A.
    bw.write_bit(true);
    bw.write_u32(0x5A, 8);
    // Terminator.
    bw.write_bit(false);
    bw.align_to_byte();
    let bytes = bw.finish();
    let pic = Mpeg2PictureHeader::parse(&bytes).expect("parse");
    assert_eq!(pic.temporal_reference, 42);
    assert_eq!(pic.extra_information_picture, vec![0xA5, 0x5A]);
}

#[test]
fn picture_coding_type_helpers() {
    assert!(!PictureCodingType::Intra.uses_forward());
    assert!(!PictureCodingType::Intra.uses_backward());
    assert!(PictureCodingType::Predictive.uses_forward());
    assert!(!PictureCodingType::Predictive.uses_backward());
    assert!(PictureCodingType::Bidirectional.uses_forward());
    assert!(PictureCodingType::Bidirectional.uses_backward());
}

// --- picture_coding_extension() tests -------------------------

#[allow(clippy::too_many_arguments)]
fn write_picture_coding_extension(
    bw: &mut BitWriter,
    f00: u32,
    f01: u32,
    f10: u32,
    f11: u32,
    intra_dc_precision: u32,
    picture_structure: u32,
    top_field_first: bool,
    frame_pred_frame_dct: bool,
    concealment_motion_vectors: bool,
    q_scale_type: bool,
    intra_vlc_format: bool,
    alternate_scan: bool,
    repeat_first_field: bool,
    chroma_420_type: bool,
    progressive_frame: bool,
    composite_display_flag: bool,
) {
    bw.write_u32(0x0000_01B5, 32);
    bw.write_u32(PICTURE_CODING_EXTENSION_ID, 4);
    bw.write_u32(f00, 4);
    bw.write_u32(f01, 4);
    bw.write_u32(f10, 4);
    bw.write_u32(f11, 4);
    bw.write_u32(intra_dc_precision, 2);
    bw.write_u32(picture_structure, 2);
    bw.write_bit(top_field_first);
    bw.write_bit(frame_pred_frame_dct);
    bw.write_bit(concealment_motion_vectors);
    bw.write_bit(q_scale_type);
    bw.write_bit(intra_vlc_format);
    bw.write_bit(alternate_scan);
    bw.write_bit(repeat_first_field);
    bw.write_bit(chroma_420_type);
    bw.write_bit(progressive_frame);
    bw.write_bit(composite_display_flag);
    bw.align_to_byte();
}

#[test]
fn parses_minimal_picture_coding_extension() {
    // I-picture's MPEG-2 PCE: f_code = 15 (unused) across the
    // board, intra_dc_precision = 0 (8 bits), frame picture,
    // top_field_first = 1, frame_pred_frame_dct = 1,
    // progressive_frame = 1, composite_display_flag = 0.
    let mut bw = BitWriter::new();
    write_picture_coding_extension(
        &mut bw, 15, 15, 15, 15, 0, 0b11, true, true, false, false, false, false, false, false,
        true, false,
    );
    let bytes = bw.finish();
    let ext = PictureCodingExtension::parse(&bytes).expect("parse");
    assert_eq!(ext.f_code_fwd_horiz, 15);
    assert_eq!(ext.f_code_fwd_vert, 15);
    assert_eq!(ext.f_code_bwd_horiz, 15);
    assert_eq!(ext.f_code_bwd_vert, 15);
    assert_eq!(ext.intra_dc_precision, 0);
    assert_eq!(ext.picture_structure, PictureStructure::Frame);
    assert!(ext.top_field_first);
    assert!(ext.frame_pred_frame_dct);
    assert!(!ext.concealment_motion_vectors);
    assert!(ext.progressive_frame);
    assert!(!ext.composite_display_flag);
}

#[test]
fn rejects_zero_f_code_in_extension() {
    let mut bw = BitWriter::new();
    write_picture_coding_extension(
        &mut bw, 0, 15, 15, 15, 0, 0b11, true, true, false, false, false, false, false, false,
        true, false,
    );
    let bytes = bw.finish();
    let err = PictureCodingExtension::parse(&bytes).unwrap_err();
    assert!(matches!(err, Error::InvalidBitstream(_)));
}

#[test]
fn rejects_reserved_picture_structure() {
    let mut bw = BitWriter::new();
    write_picture_coding_extension(
        &mut bw, 15, 15, 15, 15, 0, 0b00, // reserved
        true, true, false, false, false, false, false, false, true, false,
    );
    let bytes = bw.finish();
    let err = PictureCodingExtension::parse(&bytes).unwrap_err();
    assert!(matches!(err, Error::InvalidBitstream(_)));
}

#[test]
fn rejects_wrong_extension_id_for_pce() {
    // Build a buffer with Sequence Extension ID (0001) instead
    // of Picture Coding Extension ID (1000).
    let mut bw = BitWriter::new();
    bw.write_u32(0x0000_01B5, 32);
    bw.write_u32(0b0001, 4);
    // Pad the rest of a PCE-shaped buffer with zeros so the
    // parser fails at the id check, not on EOF.
    for _ in 0..8 {
        bw.write_u32(0, 4);
    }
    bw.align_to_byte();
    let bytes = bw.finish();
    let err = PictureCodingExtension::parse(&bytes).unwrap_err();
    assert!(matches!(err, Error::InvalidBitstream(_)));
}

#[test]
fn rejects_truncated_picture_coding_extension() {
    let bytes = vec![0x00, 0x00, 0x01, 0xB5, 0x80]; // start code + id nibble
    let err = PictureCodingExtension::parse(&bytes).unwrap_err();
    assert!(matches!(err, Error::ShortHeader));
}

#[test]
fn picture_structure_decodes_all_legal_codes() {
    for (code, expected) in [
        (0b01u32, PictureStructure::TopField),
        (0b10, PictureStructure::BottomField),
        (0b11, PictureStructure::Frame),
    ] {
        let mut bw = BitWriter::new();
        write_picture_coding_extension(
            &mut bw, 15, 15, 15, 15, 0, code, true, true, false, false, false, false, false,
            false, true, false,
        );
        let bytes = bw.finish();
        let ext = PictureCodingExtension::parse(&bytes).expect("parse");
        assert_eq!(ext.picture_structure, expected);
    }
}

// --- composition ------------------------------------------------

#[test]
fn composes_picture_header_with_extension() {
    let mut bw = BitWriter::new();
    write_picture_header_i(&mut bw, 11, 0xFFFF);
    // The picture_header() writers above leave us byte-aligned,
    // so the extension follows immediately.
    write_picture_coding_extension(
        &mut bw, 15, 15, 15, 15, 0, 0b11, true, true, false, false, false, false, false, false,
        true, false,
    );
    let bytes = bw.finish();
    let (hdr, ext) =
        Mpeg2PictureHeader::parse_with_extension(&bytes).expect("compose header + extension");
    assert_eq!(hdr.temporal_reference, 11);
    assert_eq!(hdr.picture_coding_type, PictureCodingType::Intra);
    assert_eq!(ext.f_code_fwd_horiz, 15);
    assert_eq!(ext.picture_structure, PictureStructure::Frame);
}

#[test]
fn composes_picture_header_with_extension_after_zero_stuffing() {
    let mut bw = BitWriter::new();
    write_picture_header_p(&mut bw, 1, 0, false, 0b111);
    let mut bytes = bw.finish();
    bytes.extend_from_slice(&[0x00, 0x00]); // two stuffing bytes
    let mut tail = BitWriter::new();
    write_picture_coding_extension(
        &mut tail, 15, 15, 15, 15, 0, 0b11, true, true, false, false, false, false, false,
        false, true, false,
    );
    bytes.extend_from_slice(&tail.finish());
    let (hdr, ext) =
        Mpeg2PictureHeader::parse_with_extension(&bytes).expect("compose with stuffing");
    assert_eq!(hdr.picture_coding_type, PictureCodingType::Predictive);
    assert_eq!(ext.intra_dc_precision, 0);
}

#[test]
fn rejects_missing_extension_after_picture_header() {
    let mut bw = BitWriter::new();
    write_picture_header_i(&mut bw, 0, 0xFFFF);
    let mut bytes = bw.finish();
    // Sequence_end_code instead of extension_start_code.
    bytes.extend_from_slice(&[0x00, 0x00, 0x01, 0xB7]);
    let err = Mpeg2PictureHeader::parse_with_extension(&bytes).unwrap_err();
    assert!(matches!(err, Error::InvalidBitstream(_)));
}

#[test]
fn debug_impl_smoke() {
    let mut bw = BitWriter::new();
    write_picture_header_i(&mut bw, 0, 0xFFFF);
    let bytes = bw.finish();
    let pic = Mpeg2PictureHeader::parse(&bytes).expect("parse");
    let s = format!("{pic:?}");
    assert!(s.contains("Intra"));
    assert!(s.contains("Mpeg2PictureHeader") || s.contains("temporal_reference"));
}

#[test]
fn any_number_of_zero_bytes_may_stand_before_the_extension() {
    let mut bw = BitWriter::new();
    write_picture_header_p(&mut bw, 9, 0, false, 0b111);
    let head = bw.finish();
    let mut bw = BitWriter::new();
    write_picture_coding_extension(
        &mut bw, 3, 4, 15, 15, 2, 0b11, true, true, false, true, false, false, false, false, true,
        false,
    );
    let tail = bw.finish();
    let own = PictureCodingExtension::parse(&tail).expect("extension");
    for stuffing in [0usize, 1, 2, 3, 7, 40] {
        let mut bytes = head.clone();
        bytes.extend(vec![0u8; stuffing]);
        bytes.extend_from_slice(&tail);
        let (hdr, ext) = Mpeg2PictureHeader::parse_with_extension(&bytes).expect("both");
        assert_eq!(hdr.temporal_reference, 9);
        assert_eq!(ext.f_code_fwd_horiz, 3);
        assert_eq!(ext, own);
    }
}
