use oxideav_mpeg12video::frame_assembly::FrameBuffer;
use oxideav_mpeg12video::inter_reconstruction::{MotionVectorPel, ReferenceFrames};
use oxideav_mpeg12video::picture::ChromaFormat;
use oxideav_mpeg12video::picture_header::PictureCodingType;
use oxideav_mpeg12video::picture_reconstruction::{
    frame_motion_from_reconstructed, reconstruct_skipped_macroblock,
};
use oxideav_mpeg12video::pmv::ReconstructedComponent;
use oxideav_mpeg12video::slice_motion::{ReconstructedMotionVectors, ReconstructedVector};

fn rc(v: i32) -> ReconstructedComponent {
    ReconstructedComponent {
        vector_prime: v,
        new_pmv: v,
        delta: 0,
        range: 16,
    }
}

#[test]
fn frame_motion_picks_first_vector_components() {
    let recon = ReconstructedMotionVectors {
        forward: Some(vec![ReconstructedVector {
            horizontal: rc(6),
            vertical: rc(-4),
        }]),
        backward: None,
    };
    let m = frame_motion_from_reconstructed(&recon);
    assert_eq!(m.forward, Some(MotionVectorPel::new(6, -4)));
    assert_eq!(m.backward, None);
}

#[test]
fn frame_motion_bidirectional() {
    let recon = ReconstructedMotionVectors {
        forward: Some(vec![ReconstructedVector {
            horizontal: rc(2),
            vertical: rc(2),
        }]),
        backward: Some(vec![ReconstructedVector {
            horizontal: rc(-2),
            vertical: rc(-2),
        }]),
    };
    let m = frame_motion_from_reconstructed(&recon);
    assert_eq!(m.forward, Some(MotionVectorPel::new(2, 2)));
    assert_eq!(m.backward, Some(MotionVectorPel::new(-2, -2)));
}

#[test]
fn skipped_p_picture_is_forward_zero_mv() {
    let cf = ChromaFormat::Yuv420;
    let mut reference = FrameBuffer::new(16, 16, cf);
    for y in 0..16 {
        for x in 0..16 {
            reference.y.put_sample(x, y, 99);
        }
    }
    let mut frame = FrameBuffer::new(16, 16, cf);
    let refs = ReferenceFrames::forward_only(&reference);
    let n = reconstruct_skipped_macroblock(
        &mut frame,
        refs,
        0,
        1,
        PictureCodingType::Predictive,
        None,
    )
    .unwrap();
    assert_eq!(n, 1);
    // Skipped P macroblock copies the reference verbatim.
    assert_eq!(frame.y.get(0, 0), Some(99));
    assert_eq!(frame.y.get(15, 15), Some(99));
}
