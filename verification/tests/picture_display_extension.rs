use oxideav_core::bits::BitWriter;
use oxideav_mpeg12video::error::Error;
use oxideav_mpeg12video::picture_display_extension::{
    FieldUsage, FrameCentreOffset, FrameCentreOffsetState, PICTURE_DISPLAY_EXTENSION_ID,
    PictureDisplayContext, PictureDisplayExtension, number_of_frame_centre_offsets,
};
use oxideav_mpeg12video::picture_header::{EXTENSION_START_CODE, PictureStructure};

fn ctx(
    progressive_sequence: bool,
    picture_structure: PictureStructure,
    repeat_first_field: bool,
    top_field_first: bool,
) -> PictureDisplayContext {
    PictureDisplayContext {
        progressive_sequence,
        picture_structure,
        repeat_first_field,
        top_field_first,
    }
}

fn write_picture_display_extension(bw: &mut BitWriter, offsets: &[(i32, i32)]) {
    bw.write_u32(EXTENSION_START_CODE, 32);
    bw.write_u32(PICTURE_DISPLAY_EXTENSION_ID, 4);
    for &(h, v) in offsets {
        bw.write_i32(h, 16);
        bw.write_bit(true);
        bw.write_i32(v, 16);
        bw.write_bit(true);
    }
    bw.align_to_byte();
}

#[test]
fn derivation_progressive_no_rff_is_one() {
    // progressive_sequence == 1 && repeat_first_field == 0 -> 1.
    let c = ctx(true, PictureStructure::Frame, false, false);
    assert_eq!(number_of_frame_centre_offsets(c), 1);
}

#[test]
fn derivation_progressive_rff_tff_is_three() {
    let c = ctx(true, PictureStructure::Frame, true, true);
    assert_eq!(number_of_frame_centre_offsets(c), 3);
}

#[test]
fn derivation_progressive_rff_no_tff_is_two() {
    let c = ctx(true, PictureStructure::Frame, true, false);
    assert_eq!(number_of_frame_centre_offsets(c), 2);
}

#[test]
fn derivation_interlaced_field_is_one() {
    let c = ctx(false, PictureStructure::TopField, true, true);
    assert_eq!(number_of_frame_centre_offsets(c), 1);
    let c = ctx(false, PictureStructure::BottomField, false, false);
    assert_eq!(number_of_frame_centre_offsets(c), 1);
}

#[test]
fn derivation_interlaced_frame_rff_is_three() {
    let c = ctx(false, PictureStructure::Frame, true, false);
    assert_eq!(number_of_frame_centre_offsets(c), 3);
}

#[test]
fn derivation_interlaced_frame_no_rff_is_two() {
    let c = ctx(false, PictureStructure::Frame, false, true);
    assert_eq!(number_of_frame_centre_offsets(c), 2);
}

// ---- Wire parses ----------------------------------------------

#[test]
fn parses_single_offset_pair() {
    let pairs = [(123, -456)];
    let mut bw = BitWriter::new();
    write_picture_display_extension(&mut bw, &pairs);
    let bytes = bw.finish();
    let c = ctx(true, PictureStructure::Frame, false, false);
    let ext = PictureDisplayExtension::parse(&bytes, c).expect("parse");
    assert_eq!(ext.count, 1);
    assert_eq!(ext.offsets()[0].horizontal, 123);
    assert_eq!(ext.offsets()[0].vertical, -456);
}

#[test]
fn parses_two_offset_pairs() {
    let pairs = [(10, 20), (-30, -40)];
    let mut bw = BitWriter::new();
    write_picture_display_extension(&mut bw, &pairs);
    let bytes = bw.finish();
    let c = ctx(true, PictureStructure::Frame, true, false);
    let ext = PictureDisplayExtension::parse(&bytes, c).expect("parse");
    assert_eq!(ext.count, 2);
    assert_eq!(
        ext.offsets()[0],
        FrameCentreOffset {
            horizontal: 10,
            vertical: 20
        }
    );
    assert_eq!(
        ext.offsets()[1],
        FrameCentreOffset {
            horizontal: -30,
            vertical: -40,
        }
    );
}

#[test]
fn parses_three_offset_pairs() {
    let pairs = [(1, 2), (3, 4), (5, 6)];
    let mut bw = BitWriter::new();
    write_picture_display_extension(&mut bw, &pairs);
    let bytes = bw.finish();
    let c = ctx(true, PictureStructure::Frame, true, true);
    let ext = PictureDisplayExtension::parse(&bytes, c).expect("parse");
    assert_eq!(ext.count, 3);
    for (i, &(h, v)) in pairs.iter().enumerate() {
        assert_eq!(
            ext.offsets()[i],
            FrameCentreOffset {
                horizontal: h,
                vertical: v,
            }
        );
    }
}

#[test]
fn parses_extreme_signed_offsets() {
    // Boundary values for 16-bit signed integers.
    let pairs = [(i16::MIN as i32, i16::MAX as i32)];
    let mut bw = BitWriter::new();
    write_picture_display_extension(&mut bw, &pairs);
    let bytes = bw.finish();
    let c = ctx(true, PictureStructure::Frame, false, false);
    let ext = PictureDisplayExtension::parse(&bytes, c).expect("parse");
    assert_eq!(ext.offsets()[0].horizontal, i16::MIN as i32);
    assert_eq!(ext.offsets()[0].vertical, i16::MAX as i32);
}

// ---- Rejection sites -----------------------------------------

#[test]
fn picture_display_extension_rejects_wrong_extension_start_code() {
    let pairs = [(0, 0)];
    let mut bw = BitWriter::new();
    write_picture_display_extension(&mut bw, &pairs);
    let mut bytes = bw.finish();
    bytes[3] = 0xB3; // sequence_header_code instead
    let c = ctx(true, PictureStructure::Frame, false, false);
    let err = PictureDisplayExtension::parse(&bytes, c).unwrap_err();
    assert!(matches!(err, Error::InvalidBitstream(_)));
}

#[test]
fn rejects_wrong_extension_identifier() {
    // Build manually with the identifier set to '0001'
    // (Sequence Extension ID) rather than '0111'.
    let mut bw = BitWriter::new();
    bw.write_u32(EXTENSION_START_CODE, 32);
    bw.write_u32(0b0001, 4);
    bw.write_i32(0, 16);
    bw.write_bit(true);
    bw.write_i32(0, 16);
    bw.write_bit(true);
    bw.align_to_byte();
    let bytes = bw.finish();
    let c = ctx(true, PictureStructure::Frame, false, false);
    let err = PictureDisplayExtension::parse(&bytes, c).unwrap_err();
    assert!(matches!(err, Error::InvalidBitstream(_)));
}

#[test]
fn rejects_zero_marker_bit_after_horizontal() {
    // Build manually with the first marker_bit forced to '0'.
    let mut bw = BitWriter::new();
    bw.write_u32(EXTENSION_START_CODE, 32);
    bw.write_u32(PICTURE_DISPLAY_EXTENSION_ID, 4);
    bw.write_i32(0, 16);
    bw.write_bit(false); // forbidden: marker_bit must be '1'
    bw.write_i32(0, 16);
    bw.write_bit(true);
    bw.align_to_byte();
    let bytes = bw.finish();
    let c = ctx(true, PictureStructure::Frame, false, false);
    let err = PictureDisplayExtension::parse(&bytes, c).unwrap_err();
    assert!(matches!(err, Error::InvalidBitstream(_)));
}

#[test]
fn rejects_zero_marker_bit_after_vertical() {
    let mut bw = BitWriter::new();
    bw.write_u32(EXTENSION_START_CODE, 32);
    bw.write_u32(PICTURE_DISPLAY_EXTENSION_ID, 4);
    bw.write_i32(0, 16);
    bw.write_bit(true);
    bw.write_i32(0, 16);
    bw.write_bit(false); // forbidden: marker_bit must be '1'
    bw.align_to_byte();
    let bytes = bw.finish();
    let c = ctx(true, PictureStructure::Frame, false, false);
    let err = PictureDisplayExtension::parse(&bytes, c).unwrap_err();
    assert!(matches!(err, Error::InvalidBitstream(_)));
}

#[test]
fn short_buffer_returns_short_header() {
    let bytes = [0u8, 0u8];
    let c = ctx(true, PictureStructure::Frame, false, false);
    let err = PictureDisplayExtension::parse(&bytes, c).unwrap_err();
    assert!(matches!(err, Error::ShortHeader));
}

// ---- State carry-over ----------------------------------------

#[test]
fn state_starts_at_zero() {
    let s = FrameCentreOffsetState::zero();
    assert_eq!(s.current, FrameCentreOffset::default());
}

#[test]
fn state_apply_adopts_first_offset() {
    let pairs = [(10, 20), (30, 40)];
    let mut bw = BitWriter::new();
    write_picture_display_extension(&mut bw, &pairs);
    let bytes = bw.finish();
    let c = ctx(true, PictureStructure::Frame, true, false);
    let ext = PictureDisplayExtension::parse(&bytes, c).expect("parse");
    let mut state = FrameCentreOffsetState::zero();
    state.apply(&ext);
    assert_eq!(
        state.current,
        FrameCentreOffset {
            horizontal: 10,
            vertical: 20
        }
    );
}

#[test]
fn state_reset_clears_to_zero() {
    let mut state = FrameCentreOffsetState::zero();
    state.current.horizontal = 99;
    state.current.vertical = -99;
    state.reset_to_zero();
    assert_eq!(state, FrameCentreOffsetState::zero());
}

#[test]
fn between_pictures_field_usage_round_trips() {
    assert_eq!(FieldUsage::BetweenPictures, FieldUsage::BetweenPictures);
    assert_eq!(FieldUsage::PerPicture, FieldUsage::PerPicture);
    assert_ne!(FieldUsage::BetweenPictures, FieldUsage::PerPicture);
}

#[test]
fn parses_first_byte_after_extension_for_three_offsets() {
    // 36 + 34 * 3 = 138 bits = 17 bytes + 2 bits. The writer
    // pads to byte boundary, so the resulting buffer is 18 bytes.
    let pairs = [(0, 0), (0, 0), (0, 0)];
    let mut bw = BitWriter::new();
    write_picture_display_extension(&mut bw, &pairs);
    let bytes = bw.finish();
    assert_eq!(bytes.len(), 18);
}

#[test]
fn parses_first_byte_after_extension_for_two_offsets() {
    // 36 + 34 * 2 = 104 bits = 13 bytes. Already byte-aligned.
    let pairs = [(0, 0), (0, 0)];
    let mut bw = BitWriter::new();
    write_picture_display_extension(&mut bw, &pairs);
    let bytes = bw.finish();
    assert_eq!(bytes.len(), 13);
}

#[test]
fn parses_first_byte_after_extension_for_one_offset() {
    // 36 + 34 = 70 bits = 8 bytes + 6 bits. The writer pads to
    // byte boundary, so the resulting buffer is 9 bytes.
    let pairs = [(0, 0)];
    let mut bw = BitWriter::new();
    write_picture_display_extension(&mut bw, &pairs);
    let bytes = bw.finish();
    assert_eq!(bytes.len(), 9);
}
