use oxideav_core::time::TimeBase;
use oxideav_mpeg12video::picture::{ChromaFormat, PictureBuffer, PictureType};

#[test]
fn chroma_format_round_trip() {
    for fmt in [
        ChromaFormat::Yuv420,
        ChromaFormat::Yuv422,
        ChromaFormat::Yuv444,
    ] {
        assert_eq!(ChromaFormat::from_code(fmt.to_code()), Some(fmt));
    }
    assert_eq!(ChromaFormat::from_code(0), None);
}

#[test]
fn blocks_per_mb_matches_spec() {
    assert_eq!(ChromaFormat::Yuv420.blocks_per_mb(), 6);
    assert_eq!(ChromaFormat::Yuv422.blocks_per_mb(), 8);
    assert_eq!(ChromaFormat::Yuv444.blocks_per_mb(), 12);
}

#[test]
fn chroma_buffer_geometry_per_format() {
    // 32x32 frame:
    //   4:2:0 → chroma 16x16
    //   4:2:2 → chroma 16x32
    //   4:4:4 → chroma 32x32
    for (fmt, exp_cw, exp_ch) in [
        (ChromaFormat::Yuv420, 16, 16),
        (ChromaFormat::Yuv422, 16, 32),
        (ChromaFormat::Yuv444, 32, 32),
    ] {
        let pic = PictureBuffer::new_with_format(32, 32, PictureType::I, 0, fmt);
        assert_eq!(pic.c_stride, exp_cw, "{fmt:?} c_stride");
        let ch_actual = pic.cb.len() / pic.c_stride;
        assert_eq!(ch_actual, exp_ch, "{fmt:?} chroma height");
        let vf = pic.to_video_frame(None, TimeBase::new(1, 25));
        assert_eq!(vf.planes[1].stride, exp_cw, "{fmt:?} VideoFrame Cb stride");
        assert_eq!(
            vf.planes[1].data.len() / vf.planes[1].stride,
            exp_ch,
            "{fmt:?} VideoFrame Cb height"
        );
    }
}

#[test]
fn yuv444_chroma_buffer_geometry() {
    // 4:4:4 chroma is the same size as luma. Sentinel-fill the chroma
    // buffer and confirm the VideoFrame copy preserves it.
    let mut pic =
        PictureBuffer::new_with_format(32, 32, PictureType::I, 0, ChromaFormat::Yuv444);
    for (i, p) in pic.cb.iter_mut().enumerate() {
        *p = (i & 0xff) as u8;
    }
    for (i, p) in pic.cr.iter_mut().enumerate() {
        *p = ((i ^ 0xa5) & 0xff) as u8;
    }
    let vf = pic.to_video_frame(None, TimeBase::new(1, 25));
    assert_eq!(vf.planes[1].stride, 32);
    assert_eq!(vf.planes[1].data.len(), 32 * 32);
    assert_eq!(vf.planes[2].data.len(), 32 * 32);
    // Spot-check a couple of pixels.
    assert_eq!(vf.planes[1].data[0], 0);
    assert_eq!(vf.planes[1].data[31], 31);
    assert_eq!(vf.planes[1].data[32], (32 & 0xff) as u8);
}
