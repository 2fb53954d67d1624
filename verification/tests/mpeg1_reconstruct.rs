use oxideav_mpeg12video::error::Error;
use oxideav_mpeg12video::mpeg1_motion_vector::{Mpeg1MotionDirection, Mpeg1MotionVector};
use oxideav_mpeg12video::mpeg1_reconstruct::{
    Mpeg1FrameMvContext, Mpeg1Predictor, make_split, reconstruct, reconstruct_absent,
    reconstruct_zero,
};

fn mv(
    direction: Mpeg1MotionDirection,
    hc: i8,
    hr: Option<u8>,
    vc: i8,
    vr: Option<u8>,
) -> Mpeg1MotionVector {
    Mpeg1MotionVector {
        direction,
        horizontal_code: hc,
        horizontal_r: hr,
        vertical_code: vc,
        vertical_r: vr,
        bit_position_after: 0,
    }
}

#[test]
fn f_code_one_no_residual_zero_code_zero_recon() {
    // f_code = 1 → f = 1. code = 0 everywhere → no residual.
    // Zero PMV → zero recon.
    let mut pred = Mpeg1Predictor::new();
    let ctx = Mpeg1FrameMvContext {
        f_code: 1,
        full_pel: false,
    };
    let element = mv(Mpeg1MotionDirection::Forward, 0, None, 0, None);
    let rc = reconstruct(&element, ctx, &mut pred, Mpeg1MotionDirection::Forward).unwrap();
    assert_eq!(rc.recon_right, 0);
    assert_eq!(rc.recon_down, 0);
    assert_eq!(rc.right_for_luma, 0);
    assert_eq!(rc.down_for_luma, 0);
    assert_eq!(rc.right_half_for_luma, 0);
    assert_eq!(rc.down_half_for_luma, 0);
    assert_eq!(rc.right_for_chroma, 0);
    assert_eq!(rc.right_half_for_chroma, 0);
    assert_eq!(pred.recon_right_prev, 0);
    assert_eq!(pred.recon_down_prev, 0);
}

#[test]
fn f_code_one_nonzero_code_uses_code_as_little() {
    // f_code = 1 → f = 1, no residual. little = code * 1 = code.
    // Starting PMV 0, code = +1 → recon = 1 (half-sample units).
    let mut pred = Mpeg1Predictor::new();
    let ctx = Mpeg1FrameMvContext {
        f_code: 1,
        full_pel: false,
    };
    let element = mv(Mpeg1MotionDirection::Forward, 1, None, -2, None);
    let rc = reconstruct(&element, ctx, &mut pred, Mpeg1MotionDirection::Forward).unwrap();
    assert_eq!(rc.recon_right, 1);
    assert_eq!(rc.recon_down, -2);
    // luma half-pel split: right >> 1 = 0, half = 1
    assert_eq!(rc.right_for_luma, 0);
    assert_eq!(rc.right_half_for_luma, 1);
    // down: -2 >> 1 = -1, half = 0
    assert_eq!(rc.down_for_luma, -1);
    assert_eq!(rc.down_half_for_luma, 0);
    // PMV updated in half-sample units, pre-full_pel-shift.
    assert_eq!(pred.recon_right_prev, 1);
    assert_eq!(pred.recon_down_prev, -2);
}

#[test]
fn f_code_two_residual_present_positive_code() {
    // f_code = 2 → r_size = 1, f = 2.
    // code = +3, r = 1 → complement = f - 1 - r = 2 - 1 - 1 = 0.
    // little = 3 * 2 - 0 = 6. prev = 0 → new = 6 inside [-32, 31].
    let mut pred = Mpeg1Predictor::new();
    let ctx = Mpeg1FrameMvContext {
        f_code: 2,
        full_pel: false,
    };
    let element = mv(Mpeg1MotionDirection::Forward, 3, Some(1), 0, None);
    let rc = reconstruct(&element, ctx, &mut pred, Mpeg1MotionDirection::Forward).unwrap();
    assert_eq!(rc.recon_right, 6);
    assert_eq!(pred.recon_right_prev, 6);
}

#[test]
fn f_code_two_residual_present_negative_code() {
    // code = -3, r = 1, f = 2 → complement = 0.
    // little = -3 * 2 + 0 = -6.
    let mut pred = Mpeg1Predictor::new();
    let ctx = Mpeg1FrameMvContext {
        f_code: 2,
        full_pel: false,
    };
    let element = mv(Mpeg1MotionDirection::Forward, -3, Some(1), 0, None);
    let rc = reconstruct(&element, ctx, &mut pred, Mpeg1MotionDirection::Forward).unwrap();
    assert_eq!(rc.recon_right, -6);
    assert_eq!(pred.recon_right_prev, -6);
}

#[test]
fn f_code_two_complement_nonzero() {
    // code = +3, r = 0, f = 2 → complement = 2 - 1 - 0 = 1.
    // little = 3 * 2 - 1 = 5.
    let mut pred = Mpeg1Predictor::new();
    let ctx = Mpeg1FrameMvContext {
        f_code: 2,
        full_pel: false,
    };
    let element = mv(Mpeg1MotionDirection::Forward, 3, Some(0), 0, None);
    let rc = reconstruct(&element, ctx, &mut pred, Mpeg1MotionDirection::Forward).unwrap();
    assert_eq!(rc.recon_right, 5);
}

#[test]
fn pmv_accumulates_across_macroblocks() {
    // Two predictive macroblocks in a row: PMV must carry over.
    let mut pred = Mpeg1Predictor::new();
    let ctx = Mpeg1FrameMvContext {
        f_code: 1,
        full_pel: false,
    };
    let _ = reconstruct(
        &mv(Mpeg1MotionDirection::Forward, 5, None, 0, None),
        ctx,
        &mut pred,
        Mpeg1MotionDirection::Forward,
    )
    .unwrap();
    assert_eq!(pred.recon_right_prev, 5);
    let rc = reconstruct(
        &mv(Mpeg1MotionDirection::Forward, 3, None, 0, None),
        ctx,
        &mut pred,
        Mpeg1MotionDirection::Forward,
    )
    .unwrap();
    assert_eq!(rc.recon_right, 8);
    assert_eq!(pred.recon_right_prev, 8);
}

#[test]
fn wrap_around_high_to_low() {
    // f_code = 1 → f = 1. Range is [-16, 15], wrap = 32.
    // prev = 10, code = +10 → little = 10. candidate = 20 > 15 → wrap to big.
    // big = little - 32 = -22. recon = prev + big = -12.
    let mut pred = Mpeg1Predictor {
        recon_right_prev: 10,
        recon_down_prev: 0,
    };
    let ctx = Mpeg1FrameMvContext {
        f_code: 1,
        full_pel: false,
    };
    let element = mv(Mpeg1MotionDirection::Forward, 10, None, 0, None);
    let rc = reconstruct(&element, ctx, &mut pred, Mpeg1MotionDirection::Forward).unwrap();
    assert_eq!(rc.recon_right, -12);
    assert_eq!(pred.recon_right_prev, -12);
}

#[test]
fn wrap_around_low_to_high() {
    // prev = -10, code = -10, f = 1 → little = -10. candidate = -20 < -16 → wrap.
    // big = little + 32 = 22. recon = prev + big = 12.
    let mut pred = Mpeg1Predictor {
        recon_right_prev: -10,
        recon_down_prev: 0,
    };
    let ctx = Mpeg1FrameMvContext {
        f_code: 1,
        full_pel: false,
    };
    let element = mv(Mpeg1MotionDirection::Forward, -10, None, 0, None);
    let rc = reconstruct(&element, ctx, &mut pred, Mpeg1MotionDirection::Forward).unwrap();
    assert_eq!(rc.recon_right, 12);
}

#[test]
fn full_pel_doubles_recon_but_not_predictor() {
    // f_code = 1, full_pel = true. code = +5, prev = 0.
    // little = 5, recon_unshifted = 5, predictor stores 5,
    // recon (post-shift) = 10.
    let mut pred = Mpeg1Predictor::new();
    let ctx = Mpeg1FrameMvContext {
        f_code: 1,
        full_pel: true,
    };
    let element = mv(Mpeg1MotionDirection::Forward, 5, None, 0, None);
    let rc = reconstruct(&element, ctx, &mut pred, Mpeg1MotionDirection::Forward).unwrap();
    assert_eq!(rc.recon_right, 10);
    assert_eq!(pred.recon_right_prev, 5);
    // luma split: 10 >> 1 = 5, half = 0
    assert_eq!(rc.right_for_luma, 5);
    assert_eq!(rc.right_half_for_luma, 0);
}

#[test]
fn wrap_seam_conformance_guard_positive() {
    let mut pred = Mpeg1Predictor::new();
    let ctx = Mpeg1FrameMvContext {
        f_code: 2,
        full_pel: false,
    };
    let element = mv(Mpeg1MotionDirection::Forward, 16, Some(1), 0, None);
    let err = reconstruct(&element, ctx, &mut pred, Mpeg1MotionDirection::Forward).unwrap_err();
    assert!(matches!(err, Error::InvalidBitstream(_)));
}

#[test]
fn wrap_seam_conformance_guard_negative() {
    // Symmetric: code = -16, r = 1, f = 2, complement = 0.
    // little = -16 * 2 + 0 = -32 = -f * 16. Seam hit.
    let mut pred = Mpeg1Predictor::new();
    let ctx = Mpeg1FrameMvContext {
        f_code: 2,
        full_pel: false,
    };
    let element = mv(Mpeg1MotionDirection::Forward, -16, Some(1), 0, None);
    let err = reconstruct(&element, ctx, &mut pred, Mpeg1MotionDirection::Forward).unwrap_err();
    assert!(matches!(err, Error::InvalidBitstream(_)));
}

#[test]
fn rejects_direction_mismatch() {
    let mut pred = Mpeg1Predictor::new();
    let ctx = Mpeg1FrameMvContext {
        f_code: 1,
        full_pel: false,
    };
    let element = mv(Mpeg1MotionDirection::Backward, 0, None, 0, None);
    let err = reconstruct(&element, ctx, &mut pred, Mpeg1MotionDirection::Forward).unwrap_err();
    assert!(matches!(err, Error::InvalidBitstream(_)));
}

#[test]
fn rejects_f_code_zero() {
    let mut pred = Mpeg1Predictor::new();
    let ctx = Mpeg1FrameMvContext {
        f_code: 0,
        full_pel: false,
    };
    let element = mv(Mpeg1MotionDirection::Forward, 0, None, 0, None);
    let err = reconstruct(&element, ctx, &mut pred, Mpeg1MotionDirection::Forward).unwrap_err();
    assert!(matches!(err, Error::InvalidBitstream(_)));
}

#[test]
fn rejects_f_code_above_seven() {
    let mut pred = Mpeg1Predictor::new();
    let ctx = Mpeg1FrameMvContext {
        f_code: 8,
        full_pel: false,
    };
    let element = mv(Mpeg1MotionDirection::Forward, 0, None, 0, None);
    let err = reconstruct(&element, ctx, &mut pred, Mpeg1MotionDirection::Forward).unwrap_err();
    assert!(matches!(err, Error::InvalidBitstream(_)));
}

#[test]
fn rejects_residual_present_when_f_one() {
    let mut pred = Mpeg1Predictor::new();
    let ctx = Mpeg1FrameMvContext {
        f_code: 1,
        full_pel: false,
    };
    let element = mv(Mpeg1MotionDirection::Forward, 0, Some(0), 0, None);
    let err = reconstruct(&element, ctx, &mut pred, Mpeg1MotionDirection::Forward).unwrap_err();
    assert!(matches!(err, Error::InvalidBitstream(_)));
}

#[test]
fn rejects_residual_present_when_code_zero() {
    // f_code = 2, code = 0 → residual must be absent.
    let mut pred = Mpeg1Predictor::new();
    let ctx = Mpeg1FrameMvContext {
        f_code: 2,
        full_pel: false,
    };
    let element = mv(Mpeg1MotionDirection::Forward, 0, Some(0), 0, None);
    let err = reconstruct(&element, ctx, &mut pred, Mpeg1MotionDirection::Forward).unwrap_err();
    assert!(matches!(err, Error::InvalidBitstream(_)));
}

#[test]
fn rejects_residual_absent_when_required() {
    let mut pred = Mpeg1Predictor::new();
    let ctx = Mpeg1FrameMvContext {
        f_code: 2,
        full_pel: false,
    };
    let element = mv(Mpeg1MotionDirection::Forward, 3, None, 0, None);
    let err = reconstruct(&element, ctx, &mut pred, Mpeg1MotionDirection::Forward).unwrap_err();
    assert!(matches!(err, Error::InvalidBitstream(_)));
}

#[test]
fn reconstruct_zero_zeros_predictor() {
    let mut pred = Mpeg1Predictor {
        recon_right_prev: 42,
        recon_down_prev: -7,
    };
    let rc = reconstruct_zero(&mut pred);
    assert_eq!(rc.recon_right, 0);
    assert_eq!(rc.recon_down, 0);
    assert_eq!(pred.recon_right_prev, 0);
    assert_eq!(pred.recon_down_prev, 0);
}

#[test]
fn reconstruct_absent_b_picture_carries_pmv() {
    let pred = Mpeg1Predictor {
        recon_right_prev: 5,
        recon_down_prev: -3,
    };
    let ctx = Mpeg1FrameMvContext {
        f_code: 1,
        full_pel: false,
    };
    let rc = reconstruct_absent(ctx, &pred);
    assert_eq!(rc.recon_right, 5);
    assert_eq!(rc.recon_down, -3);
    // predictor stays put (caller didn't move it).
    assert_eq!(pred.recon_right_prev, 5);
    assert_eq!(pred.recon_down_prev, -3);
}

#[test]
fn reconstruct_absent_applies_full_pel_shift() {
    // Even on the absence path, full_pel scales the recon output.
    let pred = Mpeg1Predictor {
        recon_right_prev: 5,
        recon_down_prev: -3,
    };
    let ctx = Mpeg1FrameMvContext {
        f_code: 1,
        full_pel: true,
    };
    let rc = reconstruct_absent(ctx, &pred);
    assert_eq!(rc.recon_right, 10);
    assert_eq!(rc.recon_down, -6);
}

#[test]
fn luminance_chrominance_split_negative_value() {
    let split = make_split(-3, 0);
    assert_eq!(split.right_for_luma, -2);
    assert_eq!(split.right_half_for_luma, 1);
    assert_eq!(split.right_for_chroma, -1);
    assert_eq!(split.right_half_for_chroma, 1);
}

#[test]
fn luminance_chrominance_split_positive_value() {
    // recon_right = +5.
    // Luma: 5 >> 1 = 2, half = 5 - 4 = 1.
    // Chroma: 5 / 2 = 2, 2 >> 1 = 1. half = 2 - 2 = 0.
    let split = make_split(5, 0);
    assert_eq!(split.right_for_luma, 2);
    assert_eq!(split.right_half_for_luma, 1);
    assert_eq!(split.right_for_chroma, 1);
    assert_eq!(split.right_half_for_chroma, 0);
}

#[test]
fn backward_direction_independent_predictor() {
    let mut pred = Mpeg1Predictor::new();
    let ctx = Mpeg1FrameMvContext {
        f_code: 1,
        full_pel: false,
    };
    let element = mv(Mpeg1MotionDirection::Backward, 7, None, -4, None);
    let rc = reconstruct(&element, ctx, &mut pred, Mpeg1MotionDirection::Backward).unwrap();
    assert_eq!(rc.recon_right, 7);
    assert_eq!(rc.recon_down, -4);
    assert_eq!(pred.recon_right_prev, 7);
    assert_eq!(pred.recon_down_prev, -4);
}

#[test]
fn predictor_reset_zeroes_state() {
    let mut pred = Mpeg1Predictor {
        recon_right_prev: 11,
        recon_down_prev: -9,
    };
    pred.reset();
    assert_eq!(pred.recon_right_prev, 0);
    assert_eq!(pred.recon_down_prev, 0);
}
