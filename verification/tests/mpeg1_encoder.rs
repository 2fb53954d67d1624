use oxideav_core::bits::BitWriter;
use oxideav_mpeg12video::dequantize::{DEFAULT_INTRA_QUANT, DEFAULT_NON_INTRA_QUANT};
use oxideav_mpeg12video::error::Error;
use oxideav_mpeg12video::frame_assembly::FrameBuffer;
use oxideav_mpeg12video::gop_header::{Mpeg2Gop, TimeCode, write_gop_header};
use oxideav_mpeg12video::mpeg1_encoder::{
    encode_mpeg1_display_order_sequence, encode_mpeg1_intra_picture, encode_mpeg1_intra_stream,
    picture_params,
};
use oxideav_mpeg12video::mpeg1_picture::{Mpeg1PictureParams, decode_mpeg1_intra_picture};
use oxideav_mpeg12video::mpeg1_stream_writer::{Mpeg1SequenceParams, write_mpeg1_sequence_header};
use oxideav_mpeg12video::picture::ChromaFormat;
use oxideav_mpeg12video::picture_header::{Mpeg2PictureHeader, PictureCodingType};
use oxideav_mpeg12video::stream_writer::SEQUENCE_END_CODE;

fn basis(k: usize, n: usize) -> f64 {
    let scale = if k == 0 { (0.125f64).sqrt() } else { 0.5 };
    scale * ((2 * n + 1) as f64 * k as f64 * std::f64::consts::PI / 16.0).cos()
}

fn idct(f: [[i32; 8]; 8]) -> [[i16; 8]; 8] {
    let mut out = [[0i16; 8]; 8];
    for y in 0..8 {
        for x in 0..8 {
            let mut sum = 0.0f64;
            for v in 0..8 {
                for u in 0..8 {
                    sum += f64::from(f[v][u]) * basis(v, y) * basis(u, x);
                }
            }
            out[y][x] = (sum + 0.5).floor().clamp(-256.0, 255.0) as i16;
        }
    }
    out
}

fn fdct(f: [[i16; 8]; 8]) -> [[i32; 8]; 8] {
    let mut out = [[0i32; 8]; 8];
    for v in 0..8 {
        for u in 0..8 {
            let mut sum = 0.0f64;
            for y in 0..8 {
                for x in 0..8 {
                    sum += f64::from(f[y][x]) * basis(v, y) * basis(u, x);
                }
            }
            out[v][u] = (sum + 0.5).floor() as i32;
        }
    }
    out
}

fn decode_stream(stream: &[u8], width: usize, height: usize) -> Vec<FrameBuffer> {
    let mut starts: Vec<usize> = Vec::new();
    let mut end = stream.len();
    for i in 0..stream.len() - 3 {
        if stream[i..i + 3] == [0, 0, 1] {
            match stream[i + 3] {
                0x00 => starts.push(i),
                0xB7 => end = i,
                _ => {}
            }
        }
    }
    starts.push(end);
    let base = Mpeg1PictureParams {
        width,
        height,
        intra_quant: DEFAULT_INTRA_QUANT,
        non_intra_quant: DEFAULT_NON_INTRA_QUANT,
    };
    starts
        .windows(2)
        .map(|w| {
            let picture = &stream[w[0]..w[1]];
            let header = Mpeg2PictureHeader::parse(picture).expect("picture header");
            assert_eq!(header.picture_coding_type, PictureCodingType::Intra);
            decode_mpeg1_intra_picture(picture, &base, &idct).expect("decode").0
        })
        .collect()
}

fn flat_frame(width: usize, height: usize, luma: u8) -> FrameBuffer {
    let mut f = FrameBuffer::new(width, height, ChromaFormat::Yuv420);
    for y in 0..height {
        for x in 0..width {
            f.y.put_sample(x, y, luma);
        }
    }
    for y in 0..f.cb.height() {
        for x in 0..f.cb.width() {
            f.cb.put_sample(x, y, 128);
            f.cr.put_sample(x, y, 128);
        }
    }
    f
}

fn seq(width: u16, height: u16) -> Mpeg1SequenceParams {
    Mpeg1SequenceParams {
        horizontal_size: width,
        vertical_size: height,
        ..Default::default()
    }
}

#[test]
fn intra_stream_layout_is_mpeg1() {
    let frame = flat_frame(16, 16, 128);
    let stream = encode_mpeg1_intra_stream(&frame, &seq(16, 16), 8, &fdct, &idct).expect("encode");
    // sequence_header_code at the head…
    assert_eq!(&stream[0..4], &[0x00, 0x00, 0x01, 0xB3]);
    // …GOP start code right after the 12-byte header (no
    // extension start code anywhere before it)…
    assert_eq!(&stream[12..16], &[0x00, 0x00, 0x01, 0xB8]);
    // …and the sequence_end_code at the tail.
    assert_eq!(&stream[stream.len() - 4..], &[0x00, 0x00, 0x01, 0xB7]);
    // No 0xB5 extension start code may appear (MPEG-1-legal
    // extension absence).
    assert!(
        !stream
            .windows(4)
            .any(|w| w[0] == 0 && w[1] == 0 && w[2] == 1 && w[3] == 0xB5),
        "extension start code in an MPEG-1 stream"
    );
}

#[test]
fn flat_grey_frame_roundtrips_exactly() {
    // Flat 128 everywhere: DC differential 0 against the slice
    // reset, all AC zero → decodes back to exactly 128.
    let frame = flat_frame(16, 16, 128);
    let stream = encode_mpeg1_intra_stream(&frame, &seq(16, 16), 8, &fdct, &idct).expect("encode");
    let frames = decode_stream(&stream, 16, 16);
    assert_eq!(frames.len(), 1);
    for y in 0..16 {
        for x in 0..16 {
            assert_eq!(frames[0].y.get(x, y), Some(128), "luma ({x},{y})");
        }
    }
}

#[test]
fn intra_reconstruction_matches_decoder_exactly() {
    // Structured content: the returned reconstruction must equal
    // the decode of the emitted stream sample-for-sample.
    let mut frame = flat_frame(48, 32, 0);
    for y in 0..32 {
        for x in 0..48 {
            frame.y.put_sample(x, y, (16 + (x * 5 + y * 3) % 200) as u8);
        }
    }
    for y in 0..16 {
        for x in 0..24 {
            frame.cb.put_sample(x, y, (100 + (x + y) % 56) as u8);
            frame.cr.put_sample(x, y, (90 + (x * 2 + y) % 80) as u8);
        }
    }
    let mut bw = BitWriter::new();
    write_mpeg1_sequence_header(&mut bw, &seq(48, 32));
    write_gop_header(
        &mut bw,
        &Mpeg2Gop {
            time_code: TimeCode::from_display_index(0, 3).unwrap(),
            closed_gop: true,
            broken_link: false,
        },
    );
    let params = picture_params(&seq(48, 32));
    let recon = encode_mpeg1_intra_picture(&mut bw, &frame, &params, 0, 6, &fdct, &idct).expect("encode");
    let mut stream = bw.finish();
    stream.extend_from_slice(&SEQUENCE_END_CODE.to_be_bytes());

    let frames = decode_stream(&stream, 48, 32);
    assert_eq!(frames.len(), 1);
    let dec = &frames[0];
    for y in 0..32 {
        for x in 0..48 {
            assert_eq!(dec.y.get(x, y), recon.y.get(x, y), "luma ({x},{y})");
        }
    }
    for y in 0..16 {
        for x in 0..24 {
            assert_eq!(dec.cb.get(x, y), recon.cb.get(x, y), "cb ({x},{y})");
            assert_eq!(dec.cr.get(x, y), recon.cr.get(x, y), "cr ({x},{y})");
        }
    }
}

#[test]
fn empty_frame_list_is_rejected() {
    let err = encode_mpeg1_display_order_sequence(&[], 0, 1, &seq(16, 16), 8, 1, 1, &fdct, &idct)
        .expect_err("empty frames");
    assert!(matches!(err, Error::InvalidBitstream(_)));
}

#[test]
fn zero_anchor_periods_rejected() {
    let frame = flat_frame(16, 16, 128);
    let err = encode_mpeg1_display_order_sequence(&[frame], 0, 0, &seq(16, 16), 8, 1, 1, &fdct, &idct)
        .expect_err("zero anchors_per_gop");
    assert!(matches!(err, Error::InvalidBitstream(_)));
}

#[test]
fn out_of_range_quantizer_and_f_codes_rejected() {
    let frame = flat_frame(16, 16, 128);
    for (q, ff, bf) in [(0u8, 1u8, 1u8), (32, 1, 1), (8, 0, 1), (8, 8, 1), (8, 1, 8)] {
        let err = encode_mpeg1_display_order_sequence(
            std::slice::from_ref(&frame),
            1,
            1,
            &seq(16, 16),
            q,
            ff,
            bf,
            &fdct,
            &idct,
        )
        .expect_err("range violation");
        assert!(matches!(err, Error::InvalidBitstream(_)), "{q} {ff} {bf}");
    }
}
