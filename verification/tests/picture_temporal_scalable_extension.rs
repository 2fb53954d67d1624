use oxideav_core::bits::BitWriter;
use oxideav_mpeg12video::error::Error;
use oxideav_mpeg12video::picture_header::{EXTENSION_START_CODE, PictureCodingType};
use oxideav_mpeg12video::picture_temporal_scalable_extension::{
    PICTURE_TEMPORAL_SCALABLE_EXTENSION_ID, PictureReferences, PictureTemporalScalableExtension,
    ReferenceSource,
};

struct Fixture {
    id: u32,
    reference_select_code: u32,
    forward: u32,
    marker: bool,
    backward: u32,
}

impl Default for Fixture {
    fn default() -> Self {
        Self {
            id: PICTURE_TEMPORAL_SCALABLE_EXTENSION_ID,
            reference_select_code: 0b01,
            forward: 5,
            marker: true,
            backward: 7,
        }
    }
}

fn build(fx: &Fixture) -> Vec<u8> {
    let mut bw = BitWriter::new();
    bw.write_u32(EXTENSION_START_CODE, 32);
    bw.write_u32(fx.id, 4);
    bw.write_u32(fx.reference_select_code, 2);
    bw.write_u32(fx.forward, 10);
    bw.write_bit(fx.marker);
    bw.write_u32(fx.backward, 10);
    bw.finish()
}

#[test]
fn parses_a_temporal_scalable_extension() {
    let buf = build(&Fixture::default());
    let ext = PictureTemporalScalableExtension::parse(&buf).unwrap();
    assert_eq!(ext.reference_select_code, 0b01);
    assert_eq!(ext.forward_temporal_reference, 5);
    assert_eq!(ext.backward_temporal_reference, 7);
}

#[test]
fn ten_bit_temporal_references_round_trip_full_range() {
    let buf = build(&Fixture {
        forward: 0x3FF,
        backward: 0x3FF,
        ..Fixture::default()
    });
    let ext = PictureTemporalScalableExtension::parse(&buf).unwrap();
    assert_eq!(ext.forward_temporal_reference, 1023);
    assert_eq!(ext.backward_temporal_reference, 1023);
}

#[test]
fn element_is_fifty_nine_bits_eight_padded_bytes() {
    // 32 (start code) + 4 + 2 + 10 + 1 + 10 = 59 bits → 8 bytes.
    let buf = build(&Fixture::default());
    assert_eq!(buf.len(), 8);
}

#[test]
fn picture_temporal_scalable_extension_rejects_wrong_extension_start_code() {
    let mut buf = build(&Fixture::default());
    buf[3] = 0xB3; // sequence_header_code value byte
    assert!(matches!(
        PictureTemporalScalableExtension::parse(&buf),
        Err(Error::InvalidBitstream(_))
    ));
}

#[test]
fn picture_temporal_scalable_extension_rejects_wrong_identifier() {
    let buf = build(&Fixture {
        id: PICTURE_SPATIAL_SCALABLE_ID_FOR_TEST,
        ..Fixture::default()
    });
    assert!(matches!(
        PictureTemporalScalableExtension::parse(&buf),
        Err(Error::InvalidBitstream(_))
    ));
}

const PICTURE_SPATIAL_SCALABLE_ID_FOR_TEST: u32 = 0b1001;

#[test]
fn rejects_zero_marker_bit() {
    let buf = build(&Fixture {
        marker: false,
        ..Fixture::default()
    });
    assert!(matches!(
        PictureTemporalScalableExtension::parse(&buf),
        Err(Error::InvalidBitstream(_))
    ));
}

#[test]
fn picture_temporal_scalable_extension_rejects_truncated_buffer() {
    let buf = build(&Fixture::default());
    assert!(matches!(
        PictureTemporalScalableExtension::parse(&buf[..6]),
        Err(Error::ShortHeader)
    ));
}

#[test]
fn validate_i_picture_requires_eleven() {
    let ok = PictureTemporalScalableExtension {
        reference_select_code: 0b11,
        forward_temporal_reference: 0,
        backward_temporal_reference: 0,
    };
    assert!(ok.validate(PictureCodingType::Intra).is_ok());
    let bad = PictureTemporalScalableExtension {
        reference_select_code: 0b01,
        ..ok
    };
    assert!(matches!(
        bad.validate(PictureCodingType::Intra),
        Err(Error::InvalidBitstream(_))
    ));
}

#[test]
fn validate_p_picture_forbids_eleven() {
    let bad = PictureTemporalScalableExtension {
        reference_select_code: 0b11,
        forward_temporal_reference: 0,
        backward_temporal_reference: 0,
    };
    assert!(matches!(
        bad.validate(PictureCodingType::Predictive),
        Err(Error::InvalidBitstream(_))
    ));
    let ok = PictureTemporalScalableExtension {
        reference_select_code: 0b01,
        ..bad
    };
    assert!(ok.validate(PictureCodingType::Predictive).is_ok());
}

#[test]
fn validate_b_picture_forbids_zero() {
    let bad = PictureTemporalScalableExtension {
        reference_select_code: 0b00,
        forward_temporal_reference: 0,
        backward_temporal_reference: 0,
    };
    assert!(matches!(
        bad.validate(PictureCodingType::Bidirectional),
        Err(Error::InvalidBitstream(_))
    ));
    let ok = PictureTemporalScalableExtension {
        reference_select_code: 0b10,
        ..bad
    };
    assert!(ok.validate(PictureCodingType::Bidirectional).is_ok());
}

// ---- resolve_references: Tables 7-28 / 7-29 ----

fn ext(code: u8) -> PictureTemporalScalableExtension {
    PictureTemporalScalableExtension {
        reference_select_code: code,
        forward_temporal_reference: 0,
        backward_temporal_reference: 0,
    }
}

#[test]
fn resolve_intra_has_no_references() {
    assert_eq!(
        ext(0b11)
            .resolve_references(PictureCodingType::Intra)
            .unwrap(),
        PictureReferences::Intra
    );
}

#[test]
fn resolve_p_picture_table_7_28() {
    for (code, src) in [
        (0b00u8, ReferenceSource::MostRecentEnhancement),
        (0b01, ReferenceSource::MostRecentLowerLayer),
        (0b10, ReferenceSource::NextLowerLayer),
    ] {
        assert_eq!(
            ext(code)
                .resolve_references(PictureCodingType::Predictive)
                .unwrap(),
            PictureReferences::Predictive { forward: src }
        );
    }
}

#[test]
fn resolve_p_picture_rejects_forbidden_eleven() {
    assert!(matches!(
        ext(0b11).resolve_references(PictureCodingType::Predictive),
        Err(Error::InvalidBitstream(_))
    ));
}

#[test]
fn resolve_b_picture_table_7_29() {
    for (code, fwd, bwd) in [
        (0b01u8, ReferenceSource::MostRecentEnhancement, ReferenceSource::MostRecentLowerLayer),
        (0b10, ReferenceSource::MostRecentEnhancement, ReferenceSource::NextLowerLayer),
        (0b11, ReferenceSource::MostRecentLowerLayer, ReferenceSource::NextLowerLayer),
    ] {
        assert_eq!(
            ext(code)
                .resolve_references(PictureCodingType::Bidirectional)
                .unwrap(),
            PictureReferences::Bidirectional {
                forward: fwd,
                backward: bwd
            }
        );
    }
}

#[test]
fn resolve_b_picture_rejects_forbidden_zero() {
    assert!(matches!(
        ext(0b00).resolve_references(PictureCodingType::Bidirectional),
        Err(Error::InvalidBitstream(_))
    ));
}

#[test]
fn resolve_b_picture_backward_is_always_lower_layer() {
    for code in [0b01u8, 0b10, 0b11] {
        if let PictureReferences::Bidirectional { backward, .. } = ext(code)
            .resolve_references(PictureCodingType::Bidirectional)
            .unwrap()
        {
            assert_ne!(backward, ReferenceSource::MostRecentEnhancement);
        } else {
            panic!("expected Bidirectional");
        }
    }
}
