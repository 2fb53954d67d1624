use oxideav_core::bits::BitWriter;
use oxideav_mpeg12video::error::Error;
use oxideav_mpeg12video::frame_assembly::{FrameBuffer, IntraPictureParams, Plane};
use oxideav_mpeg12video::inter_reconstruction::ReferenceFrames;
use oxideav_mpeg12video::mpeg1_encoder::{
    encode_mpeg1_b_picture, encode_mpeg1_display_order_sequence, encode_mpeg1_intra_picture,
    encode_mpeg1_p_picture, picture_params,
};
use oxideav_mpeg12video::mpeg1_picture::{
    Mpeg1InterParams, Mpeg1PictureParams, decode_mpeg1_d_picture, decode_mpeg1_inter_picture,
    decode_mpeg1_intra_picture, try_decode_mpeg1_d_picture, try_decode_mpeg1_inter_picture,
    try_decode_mpeg1_intra_picture,
};
use oxideav_mpeg12video::mpeg1_stream_writer::Mpeg1SequenceParams;
use oxideav_mpeg12video::p_picture_encoder::encode_p_picture;
use oxideav_mpeg12video::picture::ChromaFormat;
use oxideav_mpeg12video::picture_header::{Mpeg2PictureHeader, PictureCodingType};
use oxideav_mpeg12video::picture_reconstruction::{
    PicturePredictionParams, decode_inter_picture, try_decode_inter_picture,
};
use oxideav_mpeg12video::pmv::ERR_VECTOR_RANGE;
use oxideav_mpeg12video::slice_header::find_slice_start_code;

fn basis(k: usize, n: usize) -> f64 {
    let scale = if k == 0 { (0.125f64).sqrt() } else { 0.5 };
    scale * ((2 * n + 1) as f64 * k as f64 * std::f64::consts::PI / 16.0).cos()
}

fn idct(f: [[i32; 8]; 8]) -> [[i16; 8]; 8] {
    let mut out = [[0i16; 8]; 8];
    for y in 0..8 {
        for x in 0..8 {
            let mut sum = 0.0f64;
            for v in 0..8 {
                for u in 0..8 {
                    sum += f64::from(f[v][u]) * basis(v, y) * basis(u, x);
                }
            }
            out[y][x] = (sum + 0.5).floor().clamp(-256.0, 255.0) as i16;
        }
    }
    out
}

fn fdct(f: [[i16; 8]; 8]) -> [[i32; 8]; 8] {
    let mut out = [[0i32; 8]; 8];
    for v in 0..8 {
        for u in 0..8 {
            let mut sum = 0.0f64;
            for y in 0..8 {
                for x in 0..8 {
                    sum += f64::from(f[y][x]) * basis(v, y) * basis(u, x);
                }
            }
            out[v][u] = (sum + 0.5).floor() as i32;
        }
    }
    out
}

fn fill(plane: &mut Plane, seed: usize, shift: usize) {
    for y in 0..plane.height() {
        for x in 0..plane.width() {
            let v = 40 + ((x + shift) * 7 + y * 5 + ((x + shift) / 5) * (y / 3) * seed) % 170;
            plane.put_sample(x, y, v as u8);
        }
    }
}

/// A frame with texture, moved by `shift` samples.
fn textured(width: usize, height: usize, chroma: ChromaFormat, shift: usize) -> FrameBuffer {
    let mut f = FrameBuffer::new(width, height, chroma);
    fill(&mut f.y, 3, shift);
    fill(&mut f.cb, 2, shift / 2);
    fill(&mut f.cr, 1, shift / 2);
    f
}

fn same_plane(a: &Plane, b: &Plane) -> bool {
    if (a.width(), a.height()) != (b.width(), b.height()) {
        return false;
    }
    for y in 0..a.height() {
        for x in 0..a.width() {
            if a.get(x, y) != b.get(x, y) {
                return false;
            }
        }
    }
    true
}

fn same(a: &FrameBuffer, b: &FrameBuffer) -> bool {
    same_plane(&a.y, &b.y) && same_plane(&a.cb, &b.cb) && same_plane(&a.cr, &b.cr)
}

fn mpeg1(width: u16, height: u16) -> Mpeg1PictureParams {
    picture_params(&Mpeg1SequenceParams {
        horizontal_size: width,
        vertical_size: height,
        ..Default::default()
    })
}

fn inter(base: Mpeg1PictureParams, t: PictureCodingType, f: u8, b: u8) -> Mpeg1InterParams {
    Mpeg1InterParams {
        base,
        picture_coding_type: t,
        forward_f_code: f,
        full_pel_forward_vector: false,
        backward_f_code: b,
        full_pel_backward_vector: false,
    }
}

#[test]
fn mpeg1_intra_picture_decodes_to_the_encoder_frame() {
    let params = mpeg1(40, 24);
    let current = textured(40, 24, ChromaFormat::Yuv420, 0);
    let mut bw = BitWriter::new();
    let recon = encode_mpeg1_intra_picture(&mut bw, &current, &params, 5, 4, &fdct, &idct)
        .expect("encode");
    let bytes = bw.finish();
    let (decoded, placed) = decode_mpeg1_intra_picture(&bytes, &params, &idct).expect("decode");
    assert!(same(&decoded, &recon));
    // Three by two macroblocks.
    assert_eq!(placed, 6);
    let header = Mpeg2PictureHeader::parse(&bytes).expect("header");
    assert_eq!(header.temporal_reference, 5);
}

#[test]
fn mpeg1_p_picture_decodes_to_the_encoder_frame() {
    let params = mpeg1(48, 32);
    let reference = textured(48, 32, ChromaFormat::Yuv420, 0);
    let current = textured(48, 32, ChromaFormat::Yuv420, 3);
    let mut bw = BitWriter::new();
    let recon =
        encode_mpeg1_p_picture(&mut bw, &current, &reference, &params, 1, 6, 2, &fdct, &idct)
            .expect("encode");
    let bytes = bw.finish();
    let (decoded, placed) = decode_mpeg1_inter_picture(
        &bytes,
        &inter(params, PictureCodingType::Predictive, 2, 1),
        ReferenceFrames::forward_only(&reference),
        &idct,
    )
    .expect("decode");
    assert!(same(&decoded, &recon));
    assert_eq!(placed, 6);
    // A decoder that starts from another frame does not get there.
    let (other, _) = decode_mpeg1_inter_picture(
        &bytes,
        &inter(params, PictureCodingType::Predictive, 2, 1),
        ReferenceFrames::forward_only(&current),
        &idct,
    )
    .expect("decode");
    assert!(!same(&other, &recon));
}

#[test]
fn mpeg1_b_picture_is_close_to_its_source() {
    let params = mpeg1(32, 32);
    let forward = textured(32, 32, ChromaFormat::Yuv420, 0);
    let current = textured(32, 32, ChromaFormat::Yuv420, 2);
    let backward = textured(32, 32, ChromaFormat::Yuv420, 4);
    let mut bw = BitWriter::new();
    encode_mpeg1_b_picture(
        &mut bw, &current, &forward, &backward, &params, 1, 3, 2, 2, &fdct, &idct,
    )
    .expect("encode");
    let bytes = bw.finish();
    let (decoded, placed) = decode_mpeg1_inter_picture(
        &bytes,
        &inter(params, PictureCodingType::Bidirectional, 2, 2),
        ReferenceFrames::bidirectional(&forward, &backward),
        &idct,
    )
    .expect("decode");
    assert_eq!(placed, 4);
    for y in 0..32 {
        for x in 0..32 {
            let d = i32::from(decoded.y.get(x, y).unwrap());
            let c = i32::from(current.y.get(x, y).unwrap());
            assert!((d - c).abs() <= 24, "({x}, {y}): {d} for {c}");
        }
    }
}

fn geometry(chroma_format: ChromaFormat, variant: u8) -> IntraPictureParams {
    IntraPictureParams {
        progressive_sequence: variant % 2 == 0,
        width: 40,
        height: 32,
        chroma_format,
        frame_pred_frame_dct: true,
        intra_dc_precision: variant % 4,
        intra_vlc_format: variant & 1 == 1,
        alternate_scan: variant & 2 == 2,
        q_scale_type: variant & 1 == 1,
    }
}

fn predicted(geometry: IntraPictureParams, f_code: u8) -> PicturePredictionParams {
    PicturePredictionParams {
        geometry,
        picture_coding_type: PictureCodingType::Predictive,
        f_code_fwd_horiz: f_code,
        f_code_fwd_vert: f_code,
        f_code_bwd_horiz: 15,
        f_code_bwd_vert: 15,
        concealment_motion_vectors: false,
    }
}

fn check_mpeg2(chroma: ChromaFormat, variant: u8, f_code: u8, flat_reference: bool) {
    let geometry = geometry(chroma, variant);
    let reference = if flat_reference {
        FrameBuffer::new(40, 32, chroma)
    } else {
        textured(40, 32, chroma, 0)
    };
    let current = textured(40, 32, chroma, 5);
    let mut bw = BitWriter::new();
    let recon = encode_p_picture(
        &mut bw, &current, &reference, geometry, 3, 5, f_code, &fdct, &idct,
    )
    .expect("encode");
    let bytes = bw.finish();
    let (decoded, placed) = decode_inter_picture(
        &bytes,
        predicted(geometry, f_code),
        ReferenceFrames::forward_only(&reference),
        &idct,
    )
    .expect("decode");
    assert!(same(&decoded, &recon), "{chroma:?} {variant}");
    assert_eq!(placed, 6);
    // The header and the extension may be left out.
    let first = find_slice_start_code(&bytes, 0).expect("slice");
    let (slices, placed) = decode_inter_picture(
        &bytes[first..],
        predicted(geometry, f_code),
        ReferenceFrames::forward_only(&reference),
        &idct,
    )
    .expect("decode");
    assert!(first > 0 && same(&slices, &recon));
    assert_eq!(placed, 6);
    let (header, extension) = Mpeg2PictureHeader::parse_with_extension(&bytes).expect("headers");
    assert_eq!(header.temporal_reference, 3);
    assert_eq!(header.picture_coding_type, PictureCodingType::Predictive);
    assert_eq!(extension.f_code_fwd_horiz, f_code);
    assert_eq!(extension.intra_dc_precision, geometry.intra_dc_precision);
}

#[test]
fn mpeg2_p_picture_decodes_to_the_encoder_frame_420() {
    check_mpeg2(ChromaFormat::Yuv420, 0, 2, false);
    check_mpeg2(ChromaFormat::Yuv420, 3, 1, false);
}

#[test]
fn mpeg2_p_picture_decodes_to_the_encoder_frame_422() {
    check_mpeg2(ChromaFormat::Yuv422, 1, 3, false);
}

#[test]
fn mpeg2_p_picture_decodes_to_the_encoder_frame_444() {
    check_mpeg2(ChromaFormat::Yuv444, 2, 9, false);
}

#[test]
fn mpeg2_p_picture_with_intra_macroblocks_decodes_to_the_encoder_frame() {
    check_mpeg2(ChromaFormat::Yuv420, 3, 2, true);
    check_mpeg2(ChromaFormat::Yuv422, 2, 2, true);
}

#[test]
fn display_order_sequence_codes_anchors_first() {
    let frames: Vec<FrameBuffer> =
        (0..6).map(|k| textured(32, 16, ChromaFormat::Yuv420, k)).collect();
    let seq = Mpeg1SequenceParams {
        horizontal_size: 32,
        vertical_size: 16,
        ..Default::default()
    };
    // One B-picture between anchors, one anchor period to a group: frames 0, 2 and 1,
    // then 3, 5 and 4.
    let stream = encode_mpeg1_display_order_sequence(&frames, 1, 1, &seq, 8, 2, 2, &fdct, &idct)
        .expect("encode");
    let mut coded: Vec<(PictureCodingType, u16)> = Vec::new();
    let mut groups = 0;
    let mut ends = 0;
    for i in 0..stream.len() - 3 {
        if stream[i..i + 3] == [0, 0, 1] {
            match stream[i + 3] {
                0x00 => {
                    let header = Mpeg2PictureHeader::parse(&stream[i..]).expect("header");
                    coded.push((header.picture_coding_type, header.temporal_reference));
                }
                0xB8 => groups += 1,
                0xB7 => ends += 1,
                _ => {}
            }
        }
    }
    assert_eq!((groups, ends), (2, 1));
    assert_eq!(
        coded,
        vec![
            (PictureCodingType::Intra, 0),
            (PictureCodingType::Predictive, 2),
            (PictureCodingType::Bidirectional, 1),
            (PictureCodingType::Intra, 0),
            (PictureCodingType::Predictive, 2),
            (PictureCodingType::Bidirectional, 1),
        ]
    );
}

#[test]
fn frames_of_another_size_are_refused() {
    let frames = vec![textured(16, 16, ChromaFormat::Yuv420, 0)];
    let seq = Mpeg1SequenceParams {
        horizontal_size: 32,
        vertical_size: 16,
        ..Default::default()
    };
    let res = encode_mpeg1_display_order_sequence(&frames, 0, 1, &seq, 8, 1, 1, &fdct, &idct);
    assert!(matches!(res, Err(Error::InvalidBitstream(_))));
}

#[test]
fn pictures_of_the_wrong_kind_are_refused() {
    let base = mpeg1(16, 16);
    let reference = textured(16, 16, ChromaFormat::Yuv420, 0);
    let res = decode_mpeg1_inter_picture(
        &[],
        &inter(base, PictureCodingType::Intra, 1, 1),
        ReferenceFrames::forward_only(&reference),
        &idct,
    );
    assert!(matches!(res, Err(Error::InvalidBitstream(_))));
    let mut params = predicted(geometry(ChromaFormat::Yuv420, 0), 1);
    params.picture_coding_type = PictureCodingType::Intra;
    let res = decode_inter_picture(&[], params, ReferenceFrames::forward_only(&reference), &idct);
    assert!(matches!(res, Err(Error::InvalidBitstream(_))));
}

#[test]
fn a_picture_without_slices_is_blank() {
    let base = mpeg1(16, 16);
    let (frame, placed) = decode_mpeg1_d_picture(&[0, 0, 1, 0], &base, &idct).expect("decode");
    assert_eq!(placed, 0);
    assert_eq!(frame.y.get(3, 3), Some(0));
    let (frame, placed) = decode_mpeg1_intra_picture(&[], &base, &idct).expect("decode");
    assert_eq!(placed, 0);
    assert_eq!(frame.y.get(15, 15), Some(0));
    assert_eq!(frame.y.get(16, 15), None);
}

#[test]
fn f_codes_without_a_range_are_refused() {
    let reference = textured(40, 32, ChromaFormat::Yuv420, 0);
    let mut bw = BitWriter::new();
    let res = encode_p_picture(
        &mut bw,
        &reference,
        &reference,
        geometry(ChromaFormat::Yuv420, 0),
        0,
        5,
        10,
        &fdct,
        &idct,
    );
    assert!(matches!(res, Err(Error::InvalidBitstream(_))));
    let mut bw = BitWriter::new();
    let res = encode_p_picture(
        &mut bw,
        &reference,
        &reference,
        geometry(ChromaFormat::Yuv420, 0),
        0,
        0,
        1,
        &fdct,
        &idct,
    );
    assert!(matches!(res, Err(Error::InvalidBitstream(_))));
    // Nothing was written for a scale code that means nothing.
    assert_eq!(bw.finish().len(), 0);
}

#[test]
fn a_decoded_sequence_follows_the_encoder() {
    let frames: Vec<FrameBuffer> =
        (0..3).map(|k| textured(32, 16, ChromaFormat::Yuv420, 2 * k)).collect();
    let seq = Mpeg1SequenceParams {
        horizontal_size: 32,
        vertical_size: 16,
        ..Default::default()
    };
    let params = picture_params(&seq);
    let stream = encode_mpeg1_display_order_sequence(&frames, 1, 1, &seq, 5, 2, 2, &fdct, &idct)
        .expect("encode");
    let mut starts: Vec<usize> = Vec::new();
    for i in 0..stream.len() - 3 {
        if stream[i..i + 4] == [0, 0, 1, 0] {
            starts.push(i);
        }
    }
    starts.push(stream.len() - 4);
    assert_eq!(starts.len(), 4);
    // What the encoder has after its first two pictures.
    let mut bw = BitWriter::new();
    let first = encode_mpeg1_intra_picture(&mut bw, &frames[0], &params, 0, 5, &fdct, &idct)
        .expect("encode");
    let second =
        encode_mpeg1_p_picture(&mut bw, &frames[2], &first, &params, 2, 5, 2, &fdct, &idct)
            .expect("encode");
    // What a decoder has after each.
    let (intra, _) =
        decode_mpeg1_intra_picture(&stream[starts[0]..starts[1]], &params, &idct).expect("decode");
    assert!(same(&intra, &first));
    let (anchor, _) = decode_mpeg1_inter_picture(
        &stream[starts[1]..starts[2]],
        &inter(params, PictureCodingType::Predictive, 2, 2),
        ReferenceFrames::forward_only(&intra),
        &idct,
    )
    .expect("decode");
    assert!(same(&anchor, &second));
    let (_, placed) = decode_mpeg1_inter_picture(
        &stream[starts[2]..starts[3]],
        &inter(params, PictureCodingType::Bidirectional, 2, 2),
        ReferenceFrames::bidirectional(&intra, &anchor),
        &idct,
    )
    .expect("decode");
    assert_eq!(placed, 2);
}

#[test]
fn a_picture_of_intra_macroblocks_needs_no_vector_range() {
    // Nothing of a black reference helps a bright texture, so every macroblock is
    // intra, and an f_code without a range does no harm.
    let g = geometry(ChromaFormat::Yuv420, 0);
    let mut current = FrameBuffer::new(40, 32, ChromaFormat::Yuv420);
    for y in 0..32 {
        for x in 0..40 {
            current.y.put_sample(x, y, 200 + ((x + y) % 3) as u8);
        }
    }
    let reference = FrameBuffer::new(40, 32, ChromaFormat::Yuv420);
    let mut bw = BitWriter::new();
    let recon = encode_p_picture(&mut bw, &current, &reference, g, 0, 5, 15, &fdct, &idct)
        .expect("encode");
    let bytes = bw.finish();
    let (decoded, _) = decode_inter_picture(
        &bytes,
        predicted(g, 15),
        ReferenceFrames::forward_only(&reference),
        &idct,
    )
    .expect("decode");
    assert!(same(&decoded, &recon));
}

#[test]
fn a_picture_without_columns_is_empty() {
    let base = mpeg1(0, 16);
    let (frame, placed) = decode_mpeg1_intra_picture(&[0, 0, 1, 0], &base, &idct).expect("decode");
    assert_eq!((frame.y.width(), frame.y.height(), placed), (0, 16, 0));
}

fn codes(stream: &[u8]) -> Vec<u8> {
    let mut found: Vec<u8> = Vec::new();
    for i in 0..stream.len() - 3 {
        if stream[i..i + 3] == [0, 0, 1] {
            found.push(stream[i + 3]);
        }
    }
    found
}

#[test]
fn a_stream_holds_the_start_codes_of_its_order_and_no_others() {
    let frames: Vec<FrameBuffer> =
        (0..4).map(|k| textured(32, 32, ChromaFormat::Yuv420, k)).collect();
    let seq = Mpeg1SequenceParams {
        horizontal_size: 32,
        vertical_size: 32,
        ..Default::default()
    };
    let stream = encode_mpeg1_display_order_sequence(&frames, 1, 1, &seq, 8, 2, 2, &fdct, &idct)
        .expect("encode");
    // Frames 0, 2 and 1 in one group, frame 3 in another; every picture has two rows.
    assert_eq!(
        codes(&stream),
        vec![0xB3, 0xB8, 0, 1, 2, 0, 1, 2, 0, 1, 2, 0xB8, 0, 1, 2, 0xB7]
    );
}

#[test]
fn a_group_may_have_as_many_anchors_as_can_be_counted() {
    let frames: Vec<FrameBuffer> =
        (0..3).map(|k| textured(16, 16, ChromaFormat::Yuv420, k)).collect();
    let seq = Mpeg1SequenceParams {
        horizontal_size: 16,
        vertical_size: 16,
        ..Default::default()
    };
    let stream =
        encode_mpeg1_display_order_sequence(&frames, 0, usize::MAX, &seq, 8, 1, 1, &fdct, &idct)
            .expect("encode");
    assert_eq!(codes(&stream), vec![0xB3, 0xB8, 0, 1, 0, 1, 0, 1, 0xB7]);
}

#[test]
fn arguments_are_refused_before_the_group_is_measured() {
    let none: Vec<FrameBuffer> = Vec::new();
    let one = vec![textured(16, 16, ChromaFormat::Yuv420, 0)];
    let seq = Mpeg1SequenceParams {
        horizontal_size: 16,
        vertical_size: 16,
        ..Default::default()
    };
    let most = usize::MAX;
    let res = encode_mpeg1_display_order_sequence(&none, most, most, &seq, 8, 1, 1, &fdct, &idct);
    assert!(matches!(res, Err(Error::InvalidBitstream(_))));
    let res = encode_mpeg1_display_order_sequence(&one, most, most, &seq, 0, 1, 1, &fdct, &idct);
    assert!(matches!(res, Err(Error::InvalidBitstream(_))));
}

fn speckle(x: usize, y: usize) -> u8 {
    let h = (x * 2_654_435_761 + y * 40_503 + (x ^ y) * 97) % 65_521;
    (30 + (h * h / 7) % 200) as u8
}

/// A frame of speckles, and one whose macroblocks come from four samples to the right
/// and four to the left of them by turns.
fn swaying() -> (FrameBuffer, FrameBuffer) {
    let mut still = FrameBuffer::new(96, 16, ChromaFormat::Yuv420);
    let mut moved = FrameBuffer::new(96, 16, ChromaFormat::Yuv420);
    for y in 0..16 {
        for x in 0..96 {
            still.y.put_sample(x, y, speckle(x + 8, y));
            let from = if (x / 16) % 2 == 0 { x + 12 } else { x + 4 };
            moved.y.put_sample(x, y, speckle(from, y));
        }
    }
    (still, moved)
}

#[test]
fn vectors_half_the_range_apart_decode_to_the_encoder_frame() {
    // With the smallest range, half-sample vectors of 8 and -8 are apart by half of it.
    let params = mpeg1(96, 16);
    let (reference, current) = swaying();
    let mut bw = BitWriter::new();
    let recon =
        encode_mpeg1_p_picture(&mut bw, &current, &reference, &params, 1, 4, 1, &fdct, &idct)
            .expect("encode");
    let bytes = bw.finish();
    let (decoded, placed) = decode_mpeg1_inter_picture(
        &bytes,
        &inter(params, PictureCodingType::Predictive, 1, 1),
        ReferenceFrames::forward_only(&reference),
        &idct,
    )
    .expect("decode");
    assert!(same(&decoded, &recon));
    assert_eq!(placed, 6);
}

#[test]
fn vectors_half_the_range_apart_decode_between_two_anchors() {
    let params = mpeg1(96, 16);
    let (reference, current) = swaying();
    let mut bw = BitWriter::new();
    encode_mpeg1_b_picture(
        &mut bw, &current, &reference, &reference, &params, 1, 4, 1, 1, &fdct, &idct,
    )
    .expect("encode");
    let bytes = bw.finish();
    let (decoded, placed) = decode_mpeg1_inter_picture(
        &bytes,
        &inter(params, PictureCodingType::Bidirectional, 1, 1),
        ReferenceFrames::bidirectional(&reference, &reference),
        &idct,
    )
    .expect("decode");
    assert_eq!(placed, 6);
    // The picture is near what was encoded.
    let mut off: i32 = 0;
    for y in 0..16 {
        for x in 0..96 {
            let a = decoded.y.get(x, y).expect("sample");
            let b = current.y.get(x, y).expect("sample");
            off += (i32::from(a) - i32::from(b)).abs();
        }
    }
    assert!(off < 96 * 16 * 12, "off by {off}");
}

#[test]
fn a_d_picture_macroblock_far_beyond_the_frame_leaves_it_as_it_was() {
    // Row 175 of a frame of one line and 1.6 million macroblock columns.
    let params = Mpeg1PictureParams { width: 16 * 1_600_000, height: 1, ..mpeg1(16, 16) };
    let mut bw = BitWriter::new();
    bw.write_u32(0x0000_01AF, 32);
    bw.write_u32(8, 5);
    bw.write_bit(false);
    bw.write_bit(true);
    bw.write_bit(true);
    for _ in 0..4 {
        bw.write_u32(0b100, 3);
    }
    bw.write_u32(0, 4);
    bw.write_bit(true);
    bw.align_to_byte();
    let (frame, placed) = decode_mpeg1_d_picture(&bw.finish(), &params, &idct).expect("decode");
    assert_eq!(placed, 1);
    assert_eq!(frame.y.get(0, 0), Some(0));
}

/// The start of a slice in the first row.
fn slice_started() -> BitWriter {
    let mut bw = BitWriter::new();
    bw.write_u32(0x0000_0101, 32);
    bw.write_u32(8, 5);
    bw.write_bit(false);
    bw
}

/// A macroblock of a P-picture with four coded blocks and no vector.
fn write_coded_macroblock(bw: &mut BitWriter) {
    bw.write_bit(true);
    bw.write_u32(0b01, 2);
    bw.write_u32(0b111, 3);
    for _ in 0..4 {
        bw.write_u32(0b1010, 4);
    }
}

/// A macroblock of a P-picture with a zero vector difference and no blocks.
fn write_moved_macroblock(bw: &mut BitWriter) {
    bw.write_bit(true);
    bw.write_u32(0b001, 3);
    bw.write_u32(0b11, 2);
}

#[test]
fn a_bad_vector_of_a_later_macroblock_comes_before_a_missing_reference() {
    let nothing = ReferenceFrames { forward: None, backward: None };
    let mut params = predicted(geometry(ChromaFormat::Yuv420, 0), 15);
    let mut bw = slice_started();
    write_coded_macroblock(&mut bw);
    write_moved_macroblock(&mut bw);
    bw.align_to_byte();
    let bytes = bw.finish();
    match decode_inter_picture(&bytes, params, nothing, &idct) {
        Err(Error::InvalidBitstream(rule)) => assert_eq!(rule, ERR_VECTOR_RANGE),
        _ => panic!("the vector has no range"),
    }
    // With a range for the vector the reference is what is missing.
    params.f_code_fwd_horiz = 1;
    params.f_code_fwd_vert = 1;
    match decode_inter_picture(&bytes, params, nothing, &idct) {
        Err(Error::InvalidBitstream(rule)) => assert_ne!(rule, ERR_VECTOR_RANGE),
        _ => panic!("there is no reference"),
    }
}

#[test]
fn a_picture_without_columns_is_refused_for_what_comes_before_a_macroblock() {
    let base = mpeg1(0, 16);
    let nothing = ReferenceFrames { forward: None, backward: None };
    // A slice header whose scale means nothing, and one that breaks off.
    for bytes in [vec![0u8, 0, 1, 1, 0, 0], vec![0u8, 0, 1, 1]] {
        assert!(decode_mpeg1_intra_picture(&bytes, &base, &idct).is_err());
        assert!(decode_mpeg1_d_picture(&bytes, &base, &idct).is_err());
        let p = inter(base, PictureCodingType::Predictive, 1, 1);
        assert!(decode_mpeg1_inter_picture(&bytes, &p, nothing, &idct).is_err());
    }
    // A picture of the wrong kind.
    let mut bw = slice_started();
    write_coded_macroblock(&mut bw);
    bw.align_to_byte();
    let bytes = bw.finish();
    let i = inter(base, PictureCodingType::Intra, 1, 1);
    assert!(decode_mpeg1_inter_picture(&bytes, &i, nothing, &idct).is_err());
    // A D-picture macroblock that is refused at its type.
    let mut bw = slice_started();
    bw.write_u32(0b10, 2);
    bw.align_to_byte();
    assert!(decode_mpeg1_d_picture(&bw.finish(), &base, &idct).is_err());
    // An MPEG-2 vector without a range.
    let mut bw = slice_started();
    write_moved_macroblock(&mut bw);
    bw.align_to_byte();
    let mut params = predicted(geometry(ChromaFormat::Yuv420, 0), 15);
    params.geometry.width = 0;
    match decode_inter_picture(&bw.finish(), params, nothing, &idct) {
        Err(Error::InvalidBitstream(rule)) => assert_eq!(rule, ERR_VECTOR_RANGE),
        _ => panic!("the vector has no range"),
    }
}

#[test]
fn a_macroblock_without_a_column_gives_no_frame() {
    let base = mpeg1(0, 16);
    let nothing = ReferenceFrames { forward: None, backward: None };
    let mut bw = slice_started();
    write_coded_macroblock(&mut bw);
    bw.align_to_byte();
    let bytes = bw.finish();
    let p = inter(base, PictureCodingType::Predictive, 1, 1);
    let res = try_decode_mpeg1_inter_picture(&bytes, &p, nothing, &idct);
    assert!(matches!(res, Ok(None)));
    let mut params = predicted(geometry(ChromaFormat::Yuv420, 0), 1);
    params.geometry.width = 0;
    assert!(matches!(try_decode_inter_picture(&bytes, params, nothing, &idct), Ok(None)));
    // An increment and a type bit.
    let mut bw = slice_started();
    bw.write_u32(0b11, 2);
    bw.align_to_byte();
    assert!(matches!(try_decode_mpeg1_d_picture(&bw.finish(), &base, &idct), Ok(None)));
    // An I-picture macroblock of six blocks that are all DC.
    let mut bw = slice_started();
    bw.write_u32(0b11, 2);
    for _ in 0..4 {
        bw.write_u32(0b10010, 5);
    }
    for _ in 0..2 {
        bw.write_u32(0b0010, 4);
    }
    bw.align_to_byte();
    let bytes = bw.finish();
    assert!(matches!(try_decode_mpeg1_intra_picture(&bytes, &base, &idct), Ok(None)));
    let wide = try_decode_mpeg1_intra_picture(&bytes, &mpeg1(16, 16), &idct).expect("decode");
    assert_eq!(wide.expect("frame").1, 1);
}

#[test]
fn a_stream_of_176_rows_holds_no_extension_code() {
    let frames = vec![textured(16, 2816, ChromaFormat::Yuv420, 0)];
    let seq = Mpeg1SequenceParams {
        horizontal_size: 16,
        vertical_size: 2816,
        ..Default::default()
    };
    let stream = encode_mpeg1_display_order_sequence(&frames, 0, 1, &seq, 31, 1, 1, &fdct, &idct)
        .expect("encode");
    let mut expected: Vec<u8> = vec![0xB3, 0xB8, 0];
    for row in 1..=176 {
        expected.push(row);
    }
    expected.push(0xB7);
    assert_eq!(codes(&stream), expected);
}
