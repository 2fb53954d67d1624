use oxideav_core::bits::BitWriter;
use oxideav_mpeg12video::error::Error;
use oxideav_mpeg12video::picture::ChromaFormat;
use oxideav_mpeg12video::picture_header::EXTENSION_START_CODE;
use oxideav_mpeg12video::picture_spatial_scalable_extension::{
    PICTURE_SPATIAL_SCALABLE_EXTENSION_ID, PictureSpatialScalableExtension,
};

struct Fixture {
    id: u32,
    temporal_reference: u32,
    markers: [bool; 2],
    horizontal: i32,
    vertical: i32,
    weight_index: u32,
    progressive: bool,
    deinterlaced: bool,
}

impl Default for Fixture {
    fn default() -> Self {
        Self {
            id: PICTURE_SPATIAL_SCALABLE_EXTENSION_ID,
            temporal_reference: 9,
            markers: [true; 2],
            horizontal: 4,
            vertical: -6,
            weight_index: 0b00,
            progressive: true,
            deinterlaced: false,
        }
    }
}

fn build(fx: &Fixture) -> Vec<u8> {
    let mut bw = BitWriter::new();
    bw.write_u32(EXTENSION_START_CODE, 32);
    bw.write_u32(fx.id, 4);
    bw.write_u32(fx.temporal_reference, 10);
    bw.write_bit(fx.markers[0]);
    bw.write_i32(fx.horizontal, 15);
    bw.write_bit(fx.markers[1]);
    bw.write_i32(fx.vertical, 15);
    bw.write_u32(fx.weight_index, 2);
    bw.write_bit(fx.progressive);
    bw.write_bit(fx.deinterlaced);
    bw.finish()
}

#[test]
fn parses_a_spatial_scalable_extension() {
    let buf = build(&Fixture::default());
    let ext = PictureSpatialScalableExtension::parse(&buf).unwrap();
    assert_eq!(ext.lower_layer_temporal_reference, 9);
    assert_eq!(ext.lower_layer_horizontal_offset, 4);
    assert_eq!(ext.lower_layer_vertical_offset, -6);
    assert_eq!(ext.spatial_temporal_weight_code_table_index, 0b00);
    assert!(ext.lower_layer_progressive_frame);
    assert!(!ext.lower_layer_deinterlaced_field_select);
}

#[test]
fn fifteen_bit_offsets_round_trip_full_signed_range() {
    let buf = build(&Fixture {
        horizontal: 16383,
        vertical: -16384,
        ..Fixture::default()
    });
    let ext = PictureSpatialScalableExtension::parse(&buf).unwrap();
    assert_eq!(ext.lower_layer_horizontal_offset, 16383);
    assert_eq!(ext.lower_layer_vertical_offset, -16384);
}

#[test]
fn element_is_eighty_three_bits_eleven_padded_bytes() {
    // 32 + 4 + 10 + 1 + 15 + 1 + 15 + 2 + 1 + 1 = 82 bits of payload
    // after the start code prefix... recount: 4+10+1+15+1+15+2+1+1=50,
    // plus 32 = 82 bits → 11 bytes.
    let buf = build(&Fixture::default());
    assert_eq!(buf.len(), 11);
}

#[test]
fn captures_all_four_weight_table_indices() {
    for idx in 0..4u32 {
        let buf = build(&Fixture {
            weight_index: idx,
            ..Fixture::default()
        });
        let ext = PictureSpatialScalableExtension::parse(&buf).unwrap();
        assert_eq!(ext.spatial_temporal_weight_code_table_index, idx as u8);
    }
}

#[test]
fn picture_spatial_scalable_extension_rejects_wrong_extension_start_code() {
    let mut buf = build(&Fixture::default());
    buf[3] = 0xB3;
    assert!(matches!(
        PictureSpatialScalableExtension::parse(&buf),
        Err(Error::InvalidBitstream(_))
    ));
}

#[test]
fn picture_spatial_scalable_extension_rejects_wrong_identifier() {
    let buf = build(&Fixture {
        id: 0b1010, // temporal scalable ID
        ..Fixture::default()
    });
    assert!(matches!(
        PictureSpatialScalableExtension::parse(&buf),
        Err(Error::InvalidBitstream(_))
    ));
}

#[test]
fn rejects_zero_first_marker_bit() {
    let buf = build(&Fixture {
        markers: [false, true],
        ..Fixture::default()
    });
    assert!(matches!(
        PictureSpatialScalableExtension::parse(&buf),
        Err(Error::InvalidBitstream(_))
    ));
}

#[test]
fn rejects_zero_second_marker_bit() {
    let buf = build(&Fixture {
        markers: [true, false],
        ..Fixture::default()
    });
    assert!(matches!(
        PictureSpatialScalableExtension::parse(&buf),
        Err(Error::InvalidBitstream(_))
    ));
}

#[test]
fn picture_spatial_scalable_extension_rejects_truncated_buffer() {
    let buf = build(&Fixture::default());
    assert!(matches!(
        PictureSpatialScalableExtension::parse(&buf[..8]),
        Err(Error::ShortHeader)
    ));
}

#[test]
fn validate_accepts_even_offsets_for_420() {
    let ext = PictureSpatialScalableExtension {
        lower_layer_temporal_reference: 0,
        lower_layer_horizontal_offset: 4,
        lower_layer_vertical_offset: -6,
        spatial_temporal_weight_code_table_index: 0,
        lower_layer_progressive_frame: false,
        lower_layer_deinterlaced_field_select: false,
    };
    assert!(ext.validate(ChromaFormat::Yuv420).is_ok());
}

#[test]
fn validate_rejects_odd_horizontal_for_422() {
    let ext = PictureSpatialScalableExtension {
        lower_layer_temporal_reference: 0,
        lower_layer_horizontal_offset: 3,
        lower_layer_vertical_offset: 0,
        spatial_temporal_weight_code_table_index: 0,
        lower_layer_progressive_frame: false,
        lower_layer_deinterlaced_field_select: false,
    };
    assert!(matches!(
        ext.validate(ChromaFormat::Yuv422),
        Err(Error::InvalidBitstream(_))
    ));
}

#[test]
fn validate_rejects_odd_vertical_only_for_420() {
    let ext = PictureSpatialScalableExtension {
        lower_layer_temporal_reference: 0,
        lower_layer_horizontal_offset: 4,
        lower_layer_vertical_offset: 5,
        spatial_temporal_weight_code_table_index: 0,
        lower_layer_progressive_frame: false,
        lower_layer_deinterlaced_field_select: false,
    };
    // 4:2:0 requires even vertical → reject.
    assert!(matches!(
        ext.validate(ChromaFormat::Yuv420),
        Err(Error::InvalidBitstream(_))
    ));
    // 4:2:2 has no vertical even-offset rule → accept.
    assert!(ext.validate(ChromaFormat::Yuv422).is_ok());
}

#[test]
fn validate_accepts_odd_offsets_for_444() {
    let ext = PictureSpatialScalableExtension {
        lower_layer_temporal_reference: 0,
        lower_layer_horizontal_offset: 3,
        lower_layer_vertical_offset: 5,
        spatial_temporal_weight_code_table_index: 0,
        lower_layer_progressive_frame: false,
        lower_layer_deinterlaced_field_select: false,
    };
    assert!(ext.validate(ChromaFormat::Yuv444).is_ok());
}
