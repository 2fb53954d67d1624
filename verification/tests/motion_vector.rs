use oxideav_core::bits::{BitReader, BitWriter};
use oxideav_mpeg12video::error::Error;
use oxideav_mpeg12video::macroblock_modes::{MotionType, MvFormat, PredictionType};
use oxideav_mpeg12video::motion_vector::{
    MotionVector, MotionVectorEntry, MotionVectors, MotionVectorsContext, MotionVectorsKind,
    TABLE_B10, match_b10, match_b11,
};

/// Emit `bits` codewords back to back, pad to a byte with a
/// trailing `1`, and return the resulting buffer.
fn buf(codes: &[(u32, u32)]) -> Vec<u8> {
    let mut bw = BitWriter::new();
    for &(code, n) in codes {
        bw.write_u32(code, n);
    }
    bw.write_bit(true);
    bw.align_to_byte();
    bw.finish()
}

fn frame_based(count: u8) -> MotionType {
    MotionType {
        code: 0b10,
        prediction_type: PredictionType::FrameBased,
        motion_vector_count: count,
        mv_format: MvFormat::Frame,
        dmv: false,
    }
}

fn field_based_one() -> MotionType {
    MotionType {
        code: 0b01,
        prediction_type: PredictionType::FieldBased,
        motion_vector_count: 1,
        mv_format: MvFormat::Field,
        dmv: false,
    }
}

fn sixteen_by_eight() -> MotionType {
    MotionType {
        code: 0b10,
        prediction_type: PredictionType::SixteenByEight,
        motion_vector_count: 2,
        mv_format: MvFormat::Field,
        dmv: false,
    }
}

fn dual_prime() -> MotionType {
    MotionType {
        code: 0b11,
        prediction_type: PredictionType::DualPrime,
        motion_vector_count: 1,
        mv_format: MvFormat::Field,
        dmv: true,
    }
}

fn ctx_all_one() -> MotionVectorsContext {
    MotionVectorsContext {
        f_code_fwd_horiz: 1,
        f_code_fwd_vert: 1,
        f_code_bwd_horiz: 1,
        f_code_bwd_vert: 1,
    }
}

#[test]
fn b10_zero_decodes_to_zero_with_one_bit() {
    // Bit '1' alone = motion_code 0.
    let data = buf(&[(0b1, 1)]);
    let mut br = BitReader::new(&data);
    let entry = match_b10(&mut br).expect("match");
    assert_eq!(entry.value, 0);
    assert_eq!(entry.bits, 1);
    assert_eq!(br.bit_position(), 1);
}

#[test]
fn b10_three_bit_negative_one_and_one() {
    let n = buf(&[(0b011, 3)]);
    let mut br = BitReader::new(&n);
    assert_eq!(match_b10(&mut br).unwrap().value, -1);

    let p = buf(&[(0b010, 3)]);
    let mut br = BitReader::new(&p);
    assert_eq!(match_b10(&mut br).unwrap().value, 1);
}

#[test]
fn b10_extremes_minus16_and_plus16() {
    let neg = buf(&[(0b0000_0011_001, 11)]);
    let mut br = BitReader::new(&neg);
    let entry = match_b10(&mut br).unwrap();
    assert_eq!(entry.value, -16);
    assert_eq!(entry.bits, 11);

    let pos = buf(&[(0b0000_0011_000, 11)]);
    let mut br = BitReader::new(&pos);
    let entry = match_b10(&mut br).unwrap();
    assert_eq!(entry.value, 16);
    assert_eq!(entry.bits, 11);
}

#[test]
fn b10_table_has_33_unique_entries() {
    // -16..=+16 inclusive = 33 values.
    assert_eq!(TABLE_B10.len(), 33);
    let mut values: Vec<i8> = TABLE_B10.iter().map(|e| e.2).collect();
    values.sort_unstable();
    let expected: Vec<i8> = (-16..=16).collect();
    assert_eq!(values, expected);
}

#[test]
fn b10_table_is_prefix_free() {
    // Every codeword, extended into a u32 left-justified at bit 31,
    // must not be a prefix of any other entry.
    for &(a_code, a_bits, a_value) in &TABLE_B10 {
        for &(b_code, b_bits, b_value) in &TABLE_B10 {
            if a_bits == b_bits && a_code == b_code {
                continue; // same row
            }
            if a_bits < b_bits {
                let b_prefix = b_code >> (b_bits - a_bits);
                assert!(
                    b_prefix != a_code,
                    "Table B-10: row (value={}) prefix of (value={})",
                    a_value,
                    b_value
                );
            }
        }
    }
}

#[test]
fn b10_every_code_fits_its_width() {
    for &(code, bits, _) in &TABLE_B10 {
        assert!(
            u32::from(code) < (1u32 << bits),
            "code {:b} does not fit in {} bits",
            code,
            bits
        );
    }
}

#[test]
fn b10_walks_each_row_individually() {
    for &(code, bits, value) in &TABLE_B10 {
        let data = buf(&[(u32::from(code), u32::from(bits))]);
        let mut br = BitReader::new(&data);
        let got = match_b10(&mut br).unwrap_or_else(|err| {
            panic!("row value={value} bits={bits} failed: {err:?}")
        });
        assert_eq!(got.value, value);
        assert_eq!(got.bits, bits);
        assert_eq!(br.bit_position(), u64::from(bits));
    }
}

#[test]
fn b10_unknown_prefix_is_rejected() {
    // 11 zero bits = `0000 0000 000`, not in Table B-10.
    let data = buf(&[(0, 11)]);
    let mut br = BitReader::new(&data);
    let err = match_b10(&mut br).unwrap_err();
    assert!(matches!(err, Error::InvalidBitstream(_)));
}

#[test]
fn b10_truncated_short_buffer_rejected() {
    let data: [u8; 0] = [];
    let mut br = BitReader::new(&data);
    let err = match_b10(&mut br).unwrap_err();
    assert!(matches!(err, Error::InvalidBitstream(_)));
}

#[test]
fn b11_decodes_zero_with_one_bit() {
    let data = buf(&[(0b0, 1)]);
    let mut br = BitReader::new(&data);
    assert_eq!(match_b11(&mut br).unwrap(), 0);
    assert_eq!(br.bit_position(), 1);
}

#[test]
fn b11_decodes_plus_one_and_minus_one() {
    let pos = buf(&[(0b10, 2)]);
    let mut br = BitReader::new(&pos);
    assert_eq!(match_b11(&mut br).unwrap(), 1);
    assert_eq!(br.bit_position(), 2);

    let neg = buf(&[(0b11, 2)]);
    let mut br = BitReader::new(&neg);
    assert_eq!(match_b11(&mut br).unwrap(), -1);
    assert_eq!(br.bit_position(), 2);
}

#[test]
fn b11_truncated_after_first_one_bit_is_short() {
    // Only a single '1' bit available, but Table B-11 needs a
    // second bit to disambiguate +1 from -1.
    let data = [0b0000_0001u8];
    let mut br = BitReader::new(&data);
    br.skip(7).expect("skip");
    // Now exactly 1 bit left, value '1'.
    let err = match_b11(&mut br).unwrap_err();
    assert!(matches!(err, Error::ShortHeader));
}

#[test]
fn motion_vector_minimal_f_code_one_no_residual() {
    // motion_code = 0 (1 bit '1'), motion_code_vert = 0,
    // f_code=1 for both components → no residuals, no dmvector.
    let data = buf(&[(0b1, 1), (0b1, 1)]);
    let mut br = BitReader::new(&data);
    let mv = MotionVector::parse(&mut br, 1, 1, false).expect("parse");
    assert_eq!(mv.motion_code_horiz, 0);
    assert_eq!(mv.motion_code_vert, 0);
    assert_eq!(mv.motion_residual_horiz, None);
    assert_eq!(mv.motion_residual_vert, None);
    assert_eq!(mv.dmvector_horiz, None);
    assert_eq!(mv.dmvector_vert, None);
    assert_eq!(mv.bit_position_after, 2);
}

#[test]
fn motion_vector_residual_only_when_code_nonzero_and_f_code_gt_one() {
    // f_code = 2 → r_size = 1; motion_code = -1 (3 bits '011') →
    // residual present (1 bit). Then code_vert = 0 → no residual.
    let data = buf(&[(0b011, 3), (0b1, 1), (0b1, 1)]);
    let mut br = BitReader::new(&data);
    let mv = MotionVector::parse(&mut br, 2, 1, false).expect("parse");
    assert_eq!(mv.motion_code_horiz, -1);
    assert_eq!(mv.motion_residual_horiz, Some(1));
    assert_eq!(mv.motion_code_vert, 0);
    assert_eq!(mv.motion_residual_vert, None);
    assert_eq!(mv.bit_position_after, 5);
}

#[test]
fn motion_vector_residual_width_tracks_f_code() {
    // f_code = 5 → r_size = 4. motion_code = +1 (3 bits '010') →
    // residual is 4 bits, value `1010` = 10.
    let data = buf(&[(0b010, 3), (0b1010, 4), (0b1, 1)]);
    let mut br = BitReader::new(&data);
    let mv = MotionVector::parse(&mut br, 5, 1, false).expect("parse");
    assert_eq!(mv.motion_code_horiz, 1);
    assert_eq!(mv.motion_residual_horiz, Some(10));
    assert_eq!(mv.motion_code_vert, 0);
    assert_eq!(mv.bit_position_after, 8);
}

#[test]
fn motion_vector_residual_absent_when_motion_code_zero_even_with_f_code_gt_one() {
    // f_code = 3 but motion_code = 0 → no residual.
    let data = buf(&[(0b1, 1), (0b1, 1)]);
    let mut br = BitReader::new(&data);
    let mv = MotionVector::parse(&mut br, 3, 3, false).expect("parse");
    assert_eq!(mv.motion_code_horiz, 0);
    assert_eq!(mv.motion_residual_horiz, None);
    assert_eq!(mv.bit_position_after, 2);
}

#[test]
fn motion_vector_dmvector_consumed_when_dmv_set() {
    // f_code = 1 → no residual. motion_code = 0 (1 bit '1') for
    // both components. dmv = 1 → dmvector after each.
    // dmvector: '11' → -1, then '0' → 0.
    let data = buf(&[(0b1, 1), (0b11, 2), (0b1, 1), (0b0, 1)]);
    let mut br = BitReader::new(&data);
    let mv = MotionVector::parse(&mut br, 1, 1, true).expect("parse");
    assert_eq!(mv.motion_code_horiz, 0);
    assert_eq!(mv.dmvector_horiz, Some(-1));
    assert_eq!(mv.motion_code_vert, 0);
    assert_eq!(mv.dmvector_vert, Some(0));
    assert_eq!(mv.bit_position_after, 5);
}

#[test]
fn motion_vector_rejects_out_of_range_f_code() {
    let data = buf(&[(0b011, 3), (0b0, 1), (0b1, 1)]);
    let mut br = BitReader::new(&data);
    let err = MotionVector::parse(&mut br, 0, 1, false).unwrap_err();
    assert!(matches!(err, Error::InvalidBitstream(_)));

    // f_code = 10 is also out of range (max is 9; 15 = unused).
    let data = buf(&[(0b011, 3), (0b0, 1), (0b1, 1)]);
    let mut br = BitReader::new(&data);
    let err = MotionVector::parse(&mut br, 10, 1, false).unwrap_err();
    assert!(matches!(err, Error::InvalidBitstream(_)));
}

#[test]
fn motion_vector_truncated_residual_is_short() {
    // f_code = 4 → r_size = 3. motion_code = -1 (3 bits '011').
    // Only the 3-bit code present, residual is missing.
    let data = buf(&[(0b011, 3)]);
    let mut br = BitReader::new(&data);
    // Consume the padding '1' bit so the next read sees a short
    // buffer for the residual.
    br.read_bit().ok(); // skip nothing — actually we want the buf
                        // to terminate after the 3 bits, so just
                        // build it explicitly without padding.
    let mut bw = BitWriter::new();
    bw.write_u32(0b011, 3);
    bw.align_to_byte();
    let data = bw.finish();
    let mut br = BitReader::new(&data);
    // 5 bits of padding remain (zeros) — enough for r_size=3
    // residual, then nothing for the vertical code.
    let err = MotionVector::parse(&mut br, 4, 1, false).unwrap_err();
    // After reading horiz code (3) + horiz residual (3) = 6, then
    // vertical code needs at least 1 bit; only 2 zero bits left so
    // the only matching B-10 row is '1' (value 0) but the high bit
    // is 0 — falls through to the unknown-prefix path.
    assert!(matches!(err, Error::InvalidBitstream(_)));
}

#[test]
fn motion_vectors_count_one_frame_no_vfs() {
    // Frame-based, count = 1, mv_format = frame → no
    // vertical_field_select; motion_vector(0, 0) only.
    // motion_code horiz = 0, motion_code vert = 0; f_code = 1.
    let data = buf(&[(0b1, 1), (0b1, 1)]);
    let mut br = BitReader::new(&data);
    let mt = frame_based(1);
    let ctx = ctx_all_one();
    let mvs =
        MotionVectors::parse(&mut br, MotionVectorsKind::Forward, &mt, &ctx).expect("parse");
    assert_eq!(mvs.entries.len(), 1);
    assert_eq!(mvs.entries[0].vertical_field_select, None);
    assert_eq!(mvs.bit_position_after, 2);
}

#[test]
fn motion_vectors_count_one_field_with_vfs() {
    // Field-based, count = 1, mv_format = field, dmv = 0 → VFS bit
    // present.
    let data = buf(&[(0b1, 1), (0b1, 1), (0b1, 1)]);
    let mut br = BitReader::new(&data);
    let mt = field_based_one();
    let ctx = ctx_all_one();
    let mvs =
        MotionVectors::parse(&mut br, MotionVectorsKind::Forward, &mt, &ctx).expect("parse");
    assert_eq!(mvs.entries.len(), 1);
    assert_eq!(mvs.entries[0].vertical_field_select, Some(true));
    assert_eq!(mvs.bit_position_after, 3);
}

#[test]
fn motion_vectors_dual_prime_no_vfs() {
    let data = buf(&[(0b1, 1), (0b0, 1), (0b1, 1), (0b0, 1)]);
    let mut br = BitReader::new(&data);
    let mt = dual_prime();
    let ctx = ctx_all_one();
    let mvs =
        MotionVectors::parse(&mut br, MotionVectorsKind::Forward, &mt, &ctx).expect("parse");
    assert_eq!(mvs.entries.len(), 1);
    assert_eq!(mvs.entries[0].vertical_field_select, None);
    assert_eq!(mvs.entries[0].motion_vector.dmvector_horiz, Some(0));
    assert_eq!(mvs.entries[0].motion_vector.dmvector_vert, Some(0));
    assert_eq!(mvs.bit_position_after, 4);
}

#[test]
fn motion_vectors_count_two_emits_two_vfs() {
    // 16×8 MC: count == 2 → two VFS bits, each followed by a
    // motion_vector(r, s). With f_code = 1 and motion_code = 0
    // everywhere, the layout is `VFS | 1 | 1 | VFS | 1 | 1`.
    let data = buf(&[(0b0, 1), (0b1, 1), (0b1, 1), (0b1, 1), (0b1, 1), (0b1, 1)]);
    let mut br = BitReader::new(&data);
    let mt = sixteen_by_eight();
    let ctx = ctx_all_one();
    let mvs =
        MotionVectors::parse(&mut br, MotionVectorsKind::Forward, &mt, &ctx).expect("parse");
    assert_eq!(mvs.entries.len(), 2);
    assert_eq!(mvs.entries[0].vertical_field_select, Some(false));
    assert_eq!(mvs.entries[1].vertical_field_select, Some(true));
    assert_eq!(mvs.bit_position_after, 6);
}

#[test]
fn motion_vectors_backward_picks_bwd_f_code() {
    // f_code_bwd_horiz = 2 → r_size = 1 for the horizontal residual
    // when motion_code != 0. Use a non-zero motion_code to confirm
    // the bwd table is in play.
    let data = buf(&[(0b011, 3), (0b1, 1), (0b1, 1)]);
    let mut br = BitReader::new(&data);
    let mt = frame_based(1);
    let ctx = MotionVectorsContext {
        f_code_fwd_horiz: 1,
        f_code_fwd_vert: 1,
        f_code_bwd_horiz: 2,
        f_code_bwd_vert: 1,
    };
    let mvs =
        MotionVectors::parse(&mut br, MotionVectorsKind::Backward, &mt, &ctx).expect("parse");
    assert_eq!(mvs.entries[0].motion_vector.motion_code_horiz, -1);
    assert_eq!(mvs.entries[0].motion_vector.motion_residual_horiz, Some(1));
    assert_eq!(mvs.entries[0].motion_vector.motion_code_vert, 0);
    assert_eq!(mvs.bit_position_after, 5);
}

#[test]
fn motion_vectors_rejects_invalid_count() {
    let mt = MotionType {
        code: 0,
        prediction_type: PredictionType::FrameBased,
        motion_vector_count: 0,
        mv_format: MvFormat::Frame,
        dmv: false,
    };
    let ctx = ctx_all_one();
    let data = buf(&[(0b1, 1)]);
    let mut br = BitReader::new(&data);
    let err = MotionVectors::parse(&mut br, MotionVectorsKind::Forward, &mt, &ctx).unwrap_err();
    assert!(matches!(err, Error::InvalidBitstream(_)));
}

#[test]
fn motion_vectors_kind_resolves_correct_f_code_pair() {
    let ctx = MotionVectorsContext {
        f_code_fwd_horiz: 1,
        f_code_fwd_vert: 2,
        f_code_bwd_horiz: 3,
        f_code_bwd_vert: 4,
    };
    assert_eq!(ctx.for_kind(MotionVectorsKind::Forward), (1, 2));
    assert_eq!(ctx.for_kind(MotionVectorsKind::Backward), (3, 4));
}

#[test]
fn motion_vectors_truncated_vfs_is_short() {
    // Field-based, count = 1 → VFS bit expected. Buffer empty.
    let data: [u8; 0] = [];
    let mut br = BitReader::new(&data);
    let mt = field_based_one();
    let ctx = ctx_all_one();
    let err = MotionVectors::parse(&mut br, MotionVectorsKind::Forward, &mt, &ctx).unwrap_err();
    assert!(matches!(err, Error::ShortHeader));
}

#[test]
fn motion_vectors_truncated_motion_code_is_invalid_bitstream() {
    // VFS present, then a zero motion_code prefix that does not
    // match any Table B-10 row.
    let data = [0u8; 2]; // VFS = 0, then 11 zero bits → unknown.
    let mut br = BitReader::new(&data);
    let mt = field_based_one();
    let ctx = ctx_all_one();
    let err = MotionVectors::parse(&mut br, MotionVectorsKind::Forward, &mt, &ctx).unwrap_err();
    assert!(matches!(err, Error::InvalidBitstream(_)));
}

#[test]
fn debug_impls_smoke() {
    let mvs = MotionVectors {
        kind: MotionVectorsKind::Forward,
        entries: vec![MotionVectorEntry {
            vertical_field_select: Some(false),
            motion_vector: MotionVector {
                motion_code_horiz: 0,
                motion_residual_horiz: None,
                dmvector_horiz: None,
                motion_code_vert: 0,
                motion_residual_vert: None,
                dmvector_vert: None,
                bit_position_after: 2,
            },
        }],
        bit_position_after: 3,
    };
    let s = format!("{mvs:?}");
    assert!(s.contains("MotionVectors"));
    assert!(s.contains("Forward"));
    let kind_s = format!("{:?}", MotionVectorsKind::Backward);
    assert!(kind_s.contains("Backward"));
}
