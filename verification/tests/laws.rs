use oxideav_core::bits::{BitReader, BitWriter};
use oxideav_mpeg12video::coded_block_pattern::{
    CodedBlockPattern, encode_cbp420, encode_coded_block_pattern,
};
use oxideav_mpeg12video::dct_coeff::{encode_mpeg1_coeff, parse_mpeg1_coeff};
use oxideav_mpeg12video::dequantize::{
    DEFAULT_NON_INTRA_QUANT, IntraDcPredictors, dequantize_non_intra_block,
    finalise_intra_macroblock,
};
use oxideav_mpeg12video::error::Error;
use oxideav_mpeg12video::frame_assembly::{FrameBuffer, Plane};
use oxideav_mpeg12video::gop_header::{Mpeg2Gop, TimeCode, write_gop_header};
use oxideav_mpeg12video::inter_reconstruction::{
    FrameMotion, MotionVectorPel, ReferenceFrames, reconstruct_inter_macroblock,
};
use oxideav_mpeg12video::macroblock_type::MacroblockType;
use oxideav_mpeg12video::mb_address_increment::{MbAddressIncrement, MbAddressIncrementContext};
use oxideav_mpeg12video::motion_estimation::{estimate_forward_mv, max_search_range};
use oxideav_mpeg12video::motion_vector::{MotionVector, encode_motion_component};
use oxideav_mpeg12video::mpeg1_motion_vector::{Mpeg1MotionDirection, Mpeg1MotionVector};
use oxideav_mpeg12video::mpeg1_reconstruct::{Mpeg1FrameMvContext, Mpeg1Predictor, reconstruct};
use oxideav_mpeg12video::mpeg1_stream_writer::{
    Mpeg1SequenceParams, constrained_parameters_admissible, write_mpeg1_sequence_header,
};
use oxideav_mpeg12video::mpeg2_block_dc::{
    ColourComponent, DcComponent, DcPredictors, decode_dc_block, encode_intra_dc,
};
use oxideav_mpeg12video::mpeg2_dct_coeff::{
    CoefficientPosition, DctCoeff, DctCoeffStep, TableSelection, encode_dct_coeff,
    encode_end_of_block,
};
use oxideav_mpeg12video::mpeg2_dequantize::{quantiser_scale, saturate_and_mismatch};
use oxideav_mpeg12video::p_picture_encoder::wrap_delta;
use oxideav_mpeg12video::picture::{ChromaFormat, PictureBuffer, PictureType, ReferenceManager};
use oxideav_mpeg12video::picture_header::{
    Mpeg2PictureHeader, PictureCodingExtension, PictureCodingType, PictureStructure,
};
use oxideav_mpeg12video::picture_reconstruction::reconstruct_skipped_macroblock;
use oxideav_mpeg12video::picture_temporal_scalable_extension::{
    PictureReferences, PictureTemporalScalableExtension, ReferenceSource,
};
use oxideav_mpeg12video::pmv::vector_range;
use oxideav_mpeg12video::sequence_extension::{Mpeg2Sequence, Mpeg2SequenceExtension};
use oxideav_mpeg12video::sequence_header::{AspectRatio, Mpeg2SequenceHeader};
use oxideav_mpeg12video::slice_header::{SliceContext, SliceHeader, find_slice_start_code};
use oxideav_mpeg12video::slice_motion::reconstruct_vector_component;
use oxideav_mpeg12video::stream_writer::{
    PictureCodingExtensionParams, write_picture_coding_extension, write_picture_header,
    write_slice_header,
};

#[test]
fn motion_components_read_back() {
    for f_code in 1..=9u8 {
        let f = 1i32 << (f_code - 1);
        for delta in [-16 * f, -f - 1, -1, 0, 1, f, 16 * f - 1] {
            let mut bw = BitWriter::new();
            encode_motion_component(&mut bw, delta, f_code);
            bw.write_u32(0, 16);
            let bytes = bw.finish();
            let mut br = BitReader::new(&bytes);
            let (code, residual, dmv) =
                MotionVector::parse_component(&mut br, f_code, false).expect("component");
            assert_eq!(dmv, None);
            // From a zero predictor the component is the difference itself.
            let c = reconstruct_vector_component(code, residual, f_code, 0).expect("vector");
            assert_eq!(c.delta, delta, "f_code {f_code}");
            assert_eq!(c.vector_prime, delta);
        }
    }
}

#[test]
fn vector_differences_wrap_into_the_range() {
    assert_eq!(vector_range(1).expect("range"), (-16, 15, 32));
    assert_eq!(vector_range(9).expect("range"), (-4096, 4095, 8192));
    assert!(matches!(vector_range(10), Err(Error::InvalidBitstream(_))));
    assert_eq!(wrap_delta(20, 1).expect("delta"), -12);
    assert_eq!(wrap_delta(-17, 1).expect("delta"), 15);
    assert_eq!(wrap_delta(15, 1).expect("delta"), 15);
    // A predictor of 15 and a difference of 10 turn round the range.
    let c = reconstruct_vector_component(10, None, 1, 15).expect("vector");
    assert_eq!(c.vector_prime, -7);
}

#[test]
fn mpeg1_vectors_stay_in_range_and_stop_at_the_seam() {
    let ctx = Mpeg1FrameMvContext { f_code: 1, full_pel: false };
    let mut predictor = Mpeg1Predictor::new();
    let mut recon = |code: i8| {
        let mv = Mpeg1MotionVector {
            direction: Mpeg1MotionDirection::Forward,
            horizontal_code: code,
            horizontal_r: None,
            vertical_code: 0,
            vertical_r: None,
            bit_position_after: 0,
        };
        reconstruct(&mv, ctx, &mut predictor, Mpeg1MotionDirection::Forward)
    };
    assert!(recon(10).is_ok());
    assert!(recon(10).is_ok());
    // 20 lies beyond 15 and wraps to -12.
    assert!(matches!(recon(-16), Err(Error::InvalidBitstream(_))));
}

#[test]
fn mpeg2_coefficients_read_back() {
    for table in [TableSelection::TableZero, TableSelection::TableOne] {
        for position in [CoefficientPosition::First, CoefficientPosition::Next] {
            for (run, level) in [(0u8, 1i16), (0, -1), (1, 2), (5, -3), (31, 1), (40, 7), (63, -2047)] {
                let mut bw = BitWriter::new();
                encode_dct_coeff(&mut bw, table, position, run, level);
                bw.write_u32(0, 24);
                let bytes = bw.finish();
                let mut br = BitReader::new(&bytes);
                let step = DctCoeffStep::parse(&mut br, table, position).expect("coefficient");
                match step.symbol {
                    DctCoeff::RunLevel { run: r, signed_level, .. } => {
                        assert_eq!((r, signed_level), (run, level));
                    }
                    _ => panic!("end of block for {run}, {level}"),
                }
            }
        }
        let mut bw = BitWriter::new();
        encode_end_of_block(&mut bw, table);
        bw.write_u32(0, 24);
        let bytes = bw.finish();
        let mut br = BitReader::new(&bytes);
        let step =
            DctCoeffStep::parse(&mut br, table, CoefficientPosition::Next).expect("end of block");
        assert!(!matches!(step.symbol, DctCoeff::RunLevel { .. }));
    }
}

#[test]
fn mpeg1_coefficients_read_back() {
    for (run, level) in [(0u8, 1i16), (3, -2), (10, 40), (2, -200), (62, 255)] {
        let mut bw = BitWriter::new();
        encode_mpeg1_coeff(&mut bw, CoefficientPosition::Next, run, level);
        bw.write_u32(0, 24);
        let bytes = bw.finish();
        let mut br = BitReader::new(&bytes);
        let step = parse_mpeg1_coeff(&mut br, CoefficientPosition::Next).expect("coefficient");
        match step.symbol {
            DctCoeff::RunLevel { run: r, signed_level, .. } => {
                assert_eq!((r, signed_level), (run, level));
            }
            _ => panic!("end of block for {run}, {level}"),
        }
    }
}

#[test]
fn dc_differences_read_back_and_predictors_are_apart() {
    let mut predictors = DcPredictors::new(1).expect("predictors");
    assert_eq!(predictors.get(ColourComponent::Y), 256);
    let mut bw = BitWriter::new();
    encode_intra_dc(&mut bw, DcComponent::Luminance, -100);
    encode_intra_dc(&mut bw, DcComponent::Chrominance, 37);
    let bytes = bw.finish();
    let mut br = BitReader::new(&bytes);
    let y = decode_dc_block(&mut br, &mut predictors, ColourComponent::Y).expect("luminance");
    assert_eq!((y.dct_diff, y.qfs_zero), (-100, 156));
    let cr = decode_dc_block(&mut br, &mut predictors, ColourComponent::Cr).expect("chrominance");
    assert_eq!((cr.dct_diff, cr.qfs_zero), (37, 293));
    assert_eq!(predictors.get(ColourComponent::Cb), 256);
    predictors.reset();
    assert_eq!(predictors.get(ColourComponent::Y), 256);
    assert!(matches!(DcPredictors::new(4), Err(Error::InvalidBitstream(_))));
}

#[test]
fn scales_grow_with_their_codes() {
    for q_scale_type in [false, true] {
        let mut last = 0;
        for code in 1..=31u8 {
            let scale = quantiser_scale(code, q_scale_type).expect("scale");
            assert!(scale > last);
            last = scale;
        }
        assert_eq!(last, if q_scale_type { 112 } else { 62 });
        assert!(matches!(quantiser_scale(0, q_scale_type), Err(Error::InvalidBitstream(_))));
        assert!(matches!(quantiser_scale(32, q_scale_type), Err(Error::InvalidBitstream(_))));
    }
}

#[test]
fn mismatch_control_makes_the_sum_odd() {
    let mut f = [[0i32; 8]; 8];
    f[0][0] = 40;
    let out = saturate_and_mismatch(&f);
    assert_eq!((out[0][0], out[7][7]), (40, 1));
    f[7][7] = 3;
    f[0][0] = 41;
    let out = saturate_and_mismatch(&f);
    assert_eq!((out[0][0], out[7][7]), (41, 2));
    f[7][7] = 4;
    let out = saturate_and_mismatch(&f);
    assert_eq!((out[0][0], out[7][7]), (41, 4));
    f[0][0] = 5000;
    let out = saturate_and_mismatch(&f);
    assert_eq!((out[0][0], out[7][7]), (2047, 4));
}

#[test]
fn mpeg1_coefficients_are_odd() {
    let mut levels = [0i32; 64];
    levels[0] = 3;
    levels[1] = -7;
    let f = dequantize_non_intra_block(&levels, 4, &DEFAULT_NON_INTRA_QUANT).expect("block");
    // (2 * 3 + 1) * 4 * 16 / 16 = 28 moves one step toward zero; so does -60.
    assert_eq!((f[0][0], f[0][1]), (27, -59));
    assert!(matches!(
        dequantize_non_intra_block(&levels, 0, &DEFAULT_NON_INTRA_QUANT),
        Err(Error::InvalidBitstream(_))
    ));
}

#[test]
fn an_intra_macroblock_becomes_the_last() {
    let mut p = IntraDcPredictors::at_slice_start();
    finalise_intra_macroblock(&mut p, 7);
    let mut q = IntraDcPredictors::at_slice_start();
    finalise_intra_macroblock(&mut q, 8);
    assert_ne!(p, q);
}

#[test]
fn patterns_read_back() {
    for cbp in 0..64u8 {
        let mut bw = BitWriter::new();
        encode_cbp420(&mut bw, cbp);
        bw.write_u32(0, 16);
        let bytes = bw.finish();
        let mut br = BitReader::new(&bytes);
        let read = CodedBlockPattern::parse(&mut br, ChromaFormat::Yuv420).expect("pattern");
        assert_eq!(read.cbp, cbp);
    }
    let flags = [true, false, false, true, false, true, false, true];
    let mut bw = BitWriter::new();
    encode_coded_block_pattern(&mut bw, &flags, ChromaFormat::Yuv422).expect("pattern");
    bw.write_u32(0, 16);
    let bytes = bw.finish();
    let mut br = BitReader::new(&bytes);
    let read = CodedBlockPattern::parse(&mut br, ChromaFormat::Yuv422).expect("pattern");
    assert_eq!(read.pattern_code(false, true)[..8], flags);
    assert_eq!(read.pattern_code(true, false), [true; 12]);
    assert_eq!(read.pattern_code(false, false), [false; 12]);
    let mut bw = BitWriter::new();
    let res = encode_coded_block_pattern(&mut bw, &flags, ChromaFormat::Yuv420);
    assert!(matches!(res, Err(Error::InvalidBitstream(_))));
}

#[test]
fn increments_and_types_read_back() {
    // The codeword of an increment of 8 is 0000111.
    let mut bw = BitWriter::new();
    bw.write_u32(0b0000_111, 7);
    bw.write_u32(0b0001_1, 5);
    bw.write_u32(0, 20);
    let bytes = bw.finish();
    let mut br = BitReader::new(&bytes);
    let increment =
        MbAddressIncrement::parse(&mut br, MbAddressIncrementContext::mpeg2()).expect("increment");
    assert_eq!((increment.value, increment.bit_position_after), (8, 7));
    let t = MacroblockType::parse(&mut br, PictureCodingType::Predictive).expect("type");
    assert!(t.macroblock_intra);
    assert_eq!(t.bit_position_after, 12);
    // Stuffing stands before an increment in MPEG-1 only.
    let mut bw = BitWriter::new();
    bw.write_u32(0b0000_0001_111, 11);
    bw.write_u32(1, 1);
    let bytes = bw.finish();
    let mut br = BitReader::new(&bytes);
    let increment =
        MbAddressIncrement::parse(&mut br, MbAddressIncrementContext::mpeg1()).expect("increment");
    assert_eq!(increment.value, 1);
    let mut br = BitReader::new(&bytes);
    assert!(MbAddressIncrement::parse(&mut br, MbAddressIncrementContext::mpeg2()).is_err());
}

#[test]
fn slice_headers_read_back() {
    let mut bw = BitWriter::new();
    write_slice_header(&mut bw, 9, 17);
    bw.write_u32(0, 16);
    let bytes = bw.finish();
    let header = SliceHeader::parse(&bytes, SliceContext::non_scalable(288)).expect("slice");
    assert_eq!(header.slice_vertical_position, 10);
    assert_eq!(header.quantiser_scale_code, 17);
    assert_eq!(header.body_bit_position, 38);
    assert_eq!(find_slice_start_code(&bytes, 0), Some(0));
    assert_eq!(find_slice_start_code(&bytes, 1), None);
    assert!(matches!(
        SliceHeader::parse(&bytes[..3], SliceContext::non_scalable(288)),
        Err(Error::ShortHeader)
    ));
}

#[test]
fn picture_headers_and_extensions_read_back() {
    let mut bw = BitWriter::new();
    write_picture_header(&mut bw, 513, PictureCodingType::Bidirectional, 3, 5);
    let bytes = bw.finish();
    let header = Mpeg2PictureHeader::parse(&bytes).expect("header");
    assert_eq!(header.temporal_reference, 513);
    assert_eq!(header.picture_coding_type, PictureCodingType::Bidirectional);
    let params = PictureCodingExtensionParams {
        forward_f_code: 4,
        backward_f_code: 15,
        intra_dc_precision: 2,
        top_field_first: false,
        frame_pred_frame_dct: true,
        q_scale_type: true,
        intra_vlc_format: false,
        alternate_scan: true,
        repeat_first_field: false,
        progressive_frame: true,
    };
    let mut bw = BitWriter::new();
    write_picture_coding_extension(&mut bw, &params);
    let bytes = bw.finish();
    assert_eq!(bytes.len(), 9);
    let ext = PictureCodingExtension::parse(&bytes).expect("extension");
    assert_eq!((ext.f_code_fwd_horiz, ext.f_code_fwd_vert), (4, 4));
    assert_eq!(ext.f_code_bwd_horiz, 15);
    assert_eq!(ext.intra_dc_precision, 2);
    assert_eq!(ext.picture_structure, PictureStructure::Frame);
    assert!(ext.q_scale_type && ext.alternate_scan && !ext.intra_vlc_format);
    assert!(ext.progressive_frame && ext.chroma_420_type);
}

#[test]
fn sequence_headers_read_back() {
    let params = Mpeg1SequenceParams {
        horizontal_size: 352,
        vertical_size: 288,
        pel_aspect_ratio_code: 1,
        picture_rate_code: 3,
        bit_rate_value: 2880,
        vbv_buffer_size_value: 20,
        constrained_parameters_flag: true,
    };
    let mut bw = BitWriter::new();
    write_mpeg1_sequence_header(&mut bw, &params);
    let bytes = bw.finish();
    assert_eq!(bytes.len(), 12);
    let header = Mpeg2SequenceHeader::parse(&bytes).expect("header");
    assert_eq!((header.width, header.height), (352, 288));
    assert_eq!(header.aspect_ratio, AspectRatio::Square);
    assert_eq!((header.bit_rate, header.vbv_buffer_size), (2880, 20));
    assert!(header.constrained_parameters);
    assert!(header.intra_quant.is_none() && header.non_intra_quant.is_none());
    assert!(matches!(Mpeg2SequenceHeader::parse(&bytes[..8]), Err(Error::ShortHeader)));
    // A sequence of MPEG-1 has no extension.
    assert!(matches!(Mpeg2Sequence::from_buf(&bytes), Err(Error::InvalidBitstream(_))));
    // An extension right after the header.
    let mut all = bytes.clone();
    let mut bw = BitWriter::new();
    bw.write_u32(0x0000_01B5, 32);
    bw.write_u32(0b0001, 4);
    bw.write_u32(0x48, 8);
    bw.write_u32(1, 1);
    bw.write_u32(2, 2);
    bw.write_u32(0, 2);
    bw.write_u32(0, 2);
    bw.write_u32(0, 12);
    bw.write_u32(1, 1);
    bw.write_u32(0, 8);
    bw.write_u32(0, 1);
    bw.write_u32(0, 2);
    bw.write_u32(0, 5);
    bw.align_to_byte_zero();
    let extension = bw.finish();
    let parsed = Mpeg2SequenceExtension::parse(&extension).expect("extension");
    assert_eq!(parsed.chroma_format, ChromaFormat::Yuv422);
    assert!(parsed.progressive_sequence);
    all.extend_from_slice(&extension);
    let sequence = Mpeg2Sequence::from_buf(&all).expect("sequence");
    assert_eq!(sequence.header.width, 352);
    assert_eq!(sequence.extension.profile_and_level, 0x48);
}

#[test]
fn constraints_hold_for_whatever_is_smaller() {
    let small = Mpeg1SequenceParams {
        horizontal_size: 352,
        vertical_size: 240,
        pel_aspect_ratio_code: 1,
        picture_rate_code: 4,
        bit_rate_value: 2880,
        vbv_buffer_size_value: 20,
        constrained_parameters_flag: false,
    };
    assert!(constrained_parameters_admissible(&small, 4, 4));
    assert!(constrained_parameters_admissible(&small, 1, 1));
    assert!(!constrained_parameters_admissible(&small, 5, 1));
    let wide = Mpeg1SequenceParams { horizontal_size: 784, ..small };
    assert!(!constrained_parameters_admissible(&wide, 1, 1));
}

#[test]
fn time_codes_count_the_pictures() {
    let t = TimeCode::from_display_index(25 * 3600 + 25 * 61 + 7, 3).expect("time");
    assert_eq!((t.hours, t.minutes, t.seconds, t.pictures), (1, 1, 1, 7));
    assert!(!t.drop_frame_flag);
    assert!(matches!(TimeCode::from_display_index(0, 9), Err(Error::InvalidBitstream(_))));
    let mut bw = BitWriter::new();
    write_gop_header(&mut bw, &Mpeg2Gop { time_code: t, closed_gop: true, broken_link: false });
    assert_eq!(bw.finish()[..4], [0, 0, 1, 0xB8]);
}

#[test]
fn anchors_are_shown_in_the_order_they_came() {
    let mut window = ReferenceManager::new();
    let mut shown: Vec<u16> = Vec::new();
    for tr in 0..5u16 {
        let pic = PictureBuffer::new(16, 16, PictureType::P, tr);
        if let Some(p) = window.push_anchor(pic) {
            shown.push(p.temporal_reference);
        }
        assert_eq!(window.backward().map(|p| p.temporal_reference), Some(tr));
        assert_eq!(window.forward().map(|p| p.temporal_reference), tr.checked_sub(1));
    }
    for p in window.drain() {
        shown.push(p.temporal_reference);
    }
    assert_eq!(shown, vec![0, 1, 2, 3, 4]);
    assert!(window.forward().is_none() && window.backward().is_none());
    assert_eq!(window.drain().len(), 0);
}

fn ramp(width: usize, height: usize) -> FrameBuffer {
    let mut f = FrameBuffer::new(width, height, ChromaFormat::Yuv420);
    for y in 0..height {
        for x in 0..width {
            f.y.put_sample(x, y, (3 * x + 5 * y) as u8);
        }
    }
    for y in 0..f.cb.height() {
        for x in 0..f.cb.width() {
            f.cb.put_sample(x, y, (x + 2 * y) as u8);
            f.cr.put_sample(x, y, (2 * x + y) as u8);
        }
    }
    f
}

#[test]
fn a_skipped_macroblock_is_copied_and_nothing_else_changes() {
    let reference = ramp(48, 32);
    let mut frame = FrameBuffer::new(48, 32, ChromaFormat::Yuv420);
    let n = reconstruct_skipped_macroblock(
        &mut frame,
        ReferenceFrames::forward_only(&reference),
        4,
        3,
        PictureCodingType::Predictive,
        None,
    )
    .expect("skip");
    assert_eq!(n, 1);
    for y in 0..32 {
        for x in 0..48 {
            let inside = (16..32).contains(&x) && (16..32).contains(&y);
            let want = if inside { reference.y.get(x, y) } else { Some(0) };
            assert_eq!(frame.y.get(x, y), want);
        }
    }
    assert_eq!(frame.cb.get(8, 8), reference.cb.get(8, 8));
    assert_eq!(frame.cr.get(15, 15), reference.cr.get(15, 15));
    assert_eq!(frame.cr.get(16, 15), Some(0));
}

#[test]
fn predictions_interpolate_between_samples() {
    let reference = ramp(32, 32);
    let mut frame = FrameBuffer::new(32, 32, ChromaFormat::Yuv420);
    // Half a sample to the right: 3x + 5y and 3x + 3 + 5y give 3x + 5y + 2.
    reconstruct_inter_macroblock(
        &mut frame,
        ReferenceFrames::forward_only(&reference),
        0,
        0,
        false,
        FrameMotion::forward(MotionVectorPel::new(1, 0)),
        &[],
    )
    .expect("prediction");
    assert_eq!(frame.y.get(4, 3), Some(29));
    let res = reconstruct_inter_macroblock(
        &mut frame,
        ReferenceFrames::forward_only(&reference),
        0,
        0,
        false,
        FrameMotion::backward(MotionVectorPel::new(0, 0)),
        &[],
    );
    assert!(matches!(res, Err(Error::InvalidBitstream(_))));
}

#[test]
fn the_search_finds_a_shift_within_its_range() {
    let mut reference = FrameBuffer::new(64, 64, ChromaFormat::Yuv420);
    let mut current = FrameBuffer::new(64, 64, ChromaFormat::Yuv420);
    for y in 0..64usize {
        for x in 0..64usize {
            reference.y.put_sample(x, y, ((x * x + 3 * y * y + x * y) % 251) as u8);
            let (sx, sy) = (x + 3, y + 2);
            current.y.put_sample(x, y, ((sx * sx + 3 * sy * sy + sx * sy) % 251) as u8);
        }
    }
    let best = estimate_forward_mv(&current, &reference, 1, 1, 7);
    assert_eq!((best.vector.horizontal, best.vector.vertical), (6, 4));
    assert_eq!(best.sad, 0);
    assert_eq!(max_search_range(1), 7);
    assert_eq!(max_search_range(9), 2047);
    assert_eq!(max_search_range(0), 0);
}

#[test]
fn a_put_changes_one_sample() {
    let mut p = Plane::new(4, 3);
    p.put_sample(2, 1, 9);
    for y in 0..3 {
        for x in 0..4 {
            assert_eq!(p.get(x, y), Some(if (x, y) == (2, 1) { 9 } else { 0 }));
        }
    }
    p.put_sample(4, 1, 7);
    assert_eq!(p.get(4, 1), None);
    assert_eq!(p.get(0, 2), Some(0));
    assert_eq!(p.get_nearest(9, 1, 5), 0);
    assert_eq!(Plane::new(0, 3).get_nearest(0, 0, 5), 5);
}

#[test]
fn backward_references_are_of_the_lower_layer() {
    for code in 0..4u8 {
        let ext = PictureTemporalScalableExtension {
            reference_select_code: code,
            forward_temporal_reference: 1,
            backward_temporal_reference: 2,
        };
        if let Ok(PictureReferences::Bidirectional { backward, .. }) =
            ext.resolve_references(PictureCodingType::Bidirectional)
        {
            assert_ne!(backward, ReferenceSource::MostRecentEnhancement);
        }
        assert_eq!(
            ext.resolve_references(PictureCodingType::Intra),
            Ok(PictureReferences::Intra)
        );
    }
}

#[test]
fn a_truncated_escape_is_short() {
    let bytes = [0b0000_0100u8, 0b1000_0000];
    let mut br = BitReader::new(&bytes);
    assert!(matches!(DctCoeffStep::parse_escape(&mut br), Err(Error::ShortHeader)));
    // The codeword and the run were read.
    assert_eq!(br.bit_position(), 12);
    let mut br = BitReader::new(&bytes[..1]);
    assert!(matches!(DctCoeffStep::parse_escape(&mut br), Err(Error::ShortHeader)));
    assert_eq!(br.bit_position(), 6);
}

#[test]
fn chroma_blocks_follow_the_format() {
    assert_eq!(ChromaFormat::Yuv420.chroma_blocks_per_mb(), 1);
    assert_eq!(ChromaFormat::Yuv422.chroma_blocks_per_mb(), 2);
    assert_eq!(ChromaFormat::Yuv444.chroma_blocks_per_mb(), 4);
}
