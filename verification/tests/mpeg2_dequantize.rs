use oxideav_mpeg12video::mpeg2_dequantize::{
    BlockCoding, Component, DEFAULT_INTRA_WEIGHT, DEFAULT_NON_INTRA_WEIGHT, F_SATURATION_MAX,
    F_SATURATION_MIN, intra_dc_mult, inverse_quantise_block, quantiser_scale, saturate,
    select_weighting_matrix_index, sign,
};
use oxideav_mpeg12video::picture::ChromaFormat;

#[test]
fn intra_dc_mult_table_7_4() {
    assert_eq!(intra_dc_mult(0).unwrap(), 8);
    assert_eq!(intra_dc_mult(1).unwrap(), 4);
    assert_eq!(intra_dc_mult(2).unwrap(), 2);
    assert_eq!(intra_dc_mult(3).unwrap(), 1);
}

#[test]
fn intra_dc_mult_rejects_out_of_range() {
    // Defence in depth: the syntax field is two bits, but the
    // function still rejects any unexpected value.
    assert!(intra_dc_mult(4).is_err());
    assert!(intra_dc_mult(255).is_err());
}

#[test]
fn weighting_matrix_index_yuv420() {
    // 4:2:0 collapses chroma into the luma slot.
    assert_eq!(
        select_weighting_matrix_index(
            BlockCoding::Intra,
            Component::Luminance,
            ChromaFormat::Yuv420
        ),
        0
    );
    assert_eq!(
        select_weighting_matrix_index(
            BlockCoding::Intra,
            Component::Chrominance,
            ChromaFormat::Yuv420
        ),
        0
    );
    assert_eq!(
        select_weighting_matrix_index(
            BlockCoding::NonIntra,
            Component::Luminance,
            ChromaFormat::Yuv420
        ),
        1
    );
    assert_eq!(
        select_weighting_matrix_index(
            BlockCoding::NonIntra,
            Component::Chrominance,
            ChromaFormat::Yuv420
        ),
        1
    );
}

#[test]
fn weighting_matrix_index_yuv422_yuv444() {
    for fmt in [ChromaFormat::Yuv422, ChromaFormat::Yuv444] {
        assert_eq!(
            select_weighting_matrix_index(BlockCoding::Intra, Component::Luminance, fmt),
            0
        );
        assert_eq!(
            select_weighting_matrix_index(BlockCoding::NonIntra, Component::Luminance, fmt),
            1
        );
        assert_eq!(
            select_weighting_matrix_index(BlockCoding::Intra, Component::Chrominance, fmt),
            2
        );
        assert_eq!(
            select_weighting_matrix_index(BlockCoding::NonIntra, Component::Chrominance, fmt),
            3
        );
    }
}

#[test]
fn default_non_intra_weight_is_all_16() {
    for v in 0..8 {
        for u in 0..8 {
            assert_eq!(DEFAULT_NON_INTRA_WEIGHT[v][u], 16);
        }
    }
}

#[test]
fn quantiser_scale_linear_doubles_code() {
    for code in 1u8..=31 {
        assert_eq!(quantiser_scale(code, false).unwrap(), 2 * code);
    }
}

#[test]
fn quantiser_scale_nonlinear_spec_table() {
    // Spot-check the Table 7-6 non-linear column at the
    // distinctive bend points: code 8 -> 8 (same as 2*4 by
    // accident), code 9 -> 10, code 16 -> 24, code 25 -> 64,
    // code 31 -> 112.
    assert_eq!(quantiser_scale(1, true).unwrap(), 1);
    assert_eq!(quantiser_scale(8, true).unwrap(), 8);
    assert_eq!(quantiser_scale(9, true).unwrap(), 10);
    assert_eq!(quantiser_scale(16, true).unwrap(), 24);
    assert_eq!(quantiser_scale(25, true).unwrap(), 64);
    assert_eq!(quantiser_scale(31, true).unwrap(), 112);
}

#[test]
fn quantiser_scale_full_nonlinear_column_matches_table() {
    // Cross-check every entry against the Table 7-6 column.
    let expected_nonlinear = [
        // index 0 is forbidden — skipped.
        (1, 1),
        (2, 2),
        (3, 3),
        (4, 4),
        (5, 5),
        (6, 6),
        (7, 7),
        (8, 8),
        (9, 10),
        (10, 12),
        (11, 14),
        (12, 16),
        (13, 18),
        (14, 20),
        (15, 22),
        (16, 24),
        (17, 28),
        (18, 32),
        (19, 36),
        (20, 40),
        (21, 44),
        (22, 48),
        (23, 52),
        (24, 56),
        (25, 64),
        (26, 72),
        (27, 80),
        (28, 88),
        (29, 96),
        (30, 104),
        (31, 112),
    ];
    for (code, expected) in expected_nonlinear {
        assert_eq!(quantiser_scale(code, true).unwrap(), expected);
    }
}

#[test]
fn quantiser_scale_rejects_forbidden_zero() {
    assert!(quantiser_scale(0, false).is_err());
    assert!(quantiser_scale(0, true).is_err());
}

#[test]
fn quantiser_scale_rejects_out_of_range() {
    assert!(quantiser_scale(32, false).is_err());
    assert!(quantiser_scale(255, true).is_err());
}

#[test]
fn sign_matches_section_4_1() {
    assert_eq!(sign(-7), -1);
    assert_eq!(sign(-1), -1);
    assert_eq!(sign(0), 0);
    assert_eq!(sign(1), 1);
    assert_eq!(sign(2047), 1);
}

#[test]
fn saturate_clamps_to_12_bit_band() {
    assert_eq!(saturate(2048), 2047);
    assert_eq!(saturate(2047), 2047);
    assert_eq!(saturate(0), 0);
    assert_eq!(saturate(-2048), -2048);
    assert_eq!(saturate(-2049), -2048);
    assert_eq!(saturate(i32::MAX), 2047);
    assert_eq!(saturate(i32::MIN), -2048);
}

#[test]
fn all_zero_qf_intra_produces_only_dc_then_mismatch_flip() {
    let mut qf = [[0i32; 8]; 8];
    qf[0][0] = 1;
    let f = inverse_quantise_block(
        &qf,
        BlockCoding::Intra,
        &DEFAULT_INTRA_WEIGHT,
        // quantiser_scale is irrelevant for the DC-only intra
        // path (the rest is k=0 and QF=0) but we still pass a
        // valid one.
        2,
        8,
    );
    assert_eq!(f[0][0], 8);
    assert_eq!(f[7][7], 1);
    // Every other slot stays zero.
    for v in 0..8 {
        for u in 0..8 {
            if (v, u) != (0, 0) && (v, u) != (7, 7) {
                assert_eq!(f[v][u], 0, "expected zero at [{}][{}]", v, u);
            }
        }
    }
}

#[test]
fn all_zero_qf_intra_dc_odd_sum_skips_mismatch_flip() {
    let mut qf = [[0i32; 8]; 8];
    qf[0][0] = 7;
    let f = inverse_quantise_block(&qf, BlockCoding::Intra, &DEFAULT_INTRA_WEIGHT, 2, 1);
    assert_eq!(f[0][0], 7);
    assert_eq!(f[7][7], 0);
}

#[test]
fn intra_ac_uses_w_quantiser_scale_over_32() {
    let mut qf = [[0i32; 8]; 8];
    qf[1][1] = 4;
    let f = inverse_quantise_block(&qf, BlockCoding::Intra, &DEFAULT_INTRA_WEIGHT, 8, 8);
    assert_eq!(f[1][1], 32);
    assert_eq!(f[0][0], 0, "intra DC should remain zero for QF[0][0] = 0");
    // sum = 32 — even — so F[7][7] flips from 0 to 1.
    assert_eq!(f[7][7], 1);
}

#[test]
fn non_intra_uses_signed_k_offset() {
    let mut qf = [[0i32; 8]; 8];
    qf[2][3] = 5;
    let f = inverse_quantise_block(
        &qf,
        BlockCoding::NonIntra,
        &DEFAULT_NON_INTRA_WEIGHT,
        8,
        // intra_dc_mult is irrelevant for non-intra.
        42,
    );
    assert_eq!(f[2][3], 44);
    // sum = 44 — even — so F[7][7] flips from 0 to 1.
    assert_eq!(f[7][7], 1);
}

#[test]
fn non_intra_negative_qf_uses_negative_k() {
    // QF[3][4] = -5, non-intra, W = 16, qs = 8.
    // F'' = (2*-5 + Sign(-5)) * 16 * 8 / 32 = -11 * 128 / 32
    //     = -44.
    let mut qf = [[0i32; 8]; 8];
    qf[3][4] = -5;
    let f =
        inverse_quantise_block(&qf, BlockCoding::NonIntra, &DEFAULT_NON_INTRA_WEIGHT, 8, 42);
    assert_eq!(f[3][4], -44);
    // sum = -44 — even — so F[7][7] flips from 0 to 1.
    assert_eq!(f[7][7], 1);
}

#[test]
fn saturation_clamps_extreme_qf_to_2047() {
    let mut qf = [[0i32; 8]; 8];
    qf[0][1] = 32_000;
    let f = inverse_quantise_block(
        &qf,
        BlockCoding::NonIntra,
        &DEFAULT_NON_INTRA_WEIGHT,
        62,
        42,
    );
    assert_eq!(f[0][1], F_SATURATION_MAX);
}

#[test]
fn saturation_clamps_extreme_negative_qf_to_minus_2048() {
    let mut qf = [[0i32; 8]; 8];
    qf[5][5] = -32_000;
    let f = inverse_quantise_block(
        &qf,
        BlockCoding::NonIntra,
        &DEFAULT_NON_INTRA_WEIGHT,
        62,
        42,
    );
    assert_eq!(f[5][5], F_SATURATION_MIN);
}

#[test]
fn mismatch_control_only_touches_f_7_7() {
    // Pick a QF that yields a non-trivial sum but doesn't
    // overwrite F[7][7] via the arithmetic.
    let mut qf = [[0i32; 8]; 8];
    qf[0][0] = 1; // intra DC -> F''[0][0] = 8.
    qf[0][1] = 1; // F'' = (2 + 0) * 16 * 2 / 32 = 2 (using intra k=0, qs=2).
    let f = inverse_quantise_block(
        &qf,
        BlockCoding::Intra,
        &DEFAULT_NON_INTRA_WEIGHT, // all-16 weight makes the
        // arithmetic easy to mentally
        // verify.
        2,
        8,
    );
    // Pre-mismatch sum: 8 + 2 = 10 — even — flip F[7][7]:
    // 0 -> 1.
    assert_eq!(f[0][0], 8);
    assert_eq!(f[0][1], 2);
    assert_eq!(f[7][7], 1);
}

#[test]
fn mismatch_control_no_op_when_sum_is_odd() {
    // Force an odd sum: intra DC of 9 plus nothing else.
    let mut qf = [[0i32; 8]; 8];
    qf[0][0] = 9;
    let f = inverse_quantise_block(&qf, BlockCoding::Intra, &DEFAULT_INTRA_WEIGHT, 2, 1);
    // F''[0][0] = 1 * 9 = 9; sum is 9 — odd — F[7][7] stays 0.
    assert_eq!(f[0][0], 9);
    assert_eq!(f[7][7], 0);
}
