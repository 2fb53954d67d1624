use oxideav_core::bits::{BitReader, BitWriter};
use oxideav_mpeg12video::error::Error;
use oxideav_mpeg12video::motion_vector::match_motion_code;
use oxideav_mpeg12video::mpeg1_motion_vector::{Mpeg1MotionDirection, Mpeg1MotionVector};

const TABLE_B4: &[(u32, u8, i8)] = &[
    // (code, bits, value)
    (0b0000_0011_001, 11, -16),
    (0b0000_0011_011, 11, -15),
    (0b0000_0011_101, 11, -14),
    (0b0000_0011_111, 11, -13),
    (0b0000_0100_001, 11, -12),
    (0b0000_0100_011, 11, -11),
    (0b0000_0100_11, 10, -10),
    (0b0000_0101_01, 10, -9),
    (0b0000_0101_11, 10, -8),
    (0b0000_0111, 8, -7),
    (0b0000_1001, 8, -6),
    (0b0000_1011, 8, -5),
    (0b0000_111, 7, -4),
    (0b0001_1, 5, -3),
    (0b0011, 4, -2),
    (0b011, 3, -1),
    (0b1, 1, 0),
    (0b010, 3, 1),
    (0b0010, 4, 2),
    (0b0001_0, 5, 3),
    (0b0000_110, 7, 4),
    (0b0000_1010, 8, 5),
    (0b0000_1000, 8, 6),
    (0b0000_0110, 8, 7),
    (0b0000_0101_10, 10, 8),
    (0b0000_0101_00, 10, 9),
    (0b0000_0100_10, 10, 10),
    (0b0000_0100_010, 11, 11),
    (0b0000_0100_000, 11, 12),
    (0b0000_0011_110, 11, 13),
    (0b0000_0011_100, 11, 14),
    (0b0000_0011_010, 11, 15),
    (0b0000_0011_000, 11, 16),
];

fn buf(codes: &[(u32, u32)]) -> Vec<u8> {
    let mut bw = BitWriter::new();
    for &(code, n) in codes {
        bw.write_u32(code, n);
    }
    // Padding so the BitReader doesn't run dry mid-element when a
    // test only writes the syntactic minimum. The padding bit `1`
    // also doubles as the "code 0" entry of Table B.4 for tests
    // that need a follow-up motion_code.
    bw.write_bit(true);
    bw.align_to_byte();
    bw.finish()
}

#[test]
fn table_b4_has_33_unique_entries_covering_minus16_to_plus16() {
    assert_eq!(TABLE_B4.len(), 33);
    let mut values: Vec<i8> = TABLE_B4.iter().map(|&(_, _, v)| v).collect();
    values.sort_unstable();
    let expected: Vec<i8> = (-16..=16).collect();
    assert_eq!(values, expected);
}

#[test]
fn table_b4_every_row_decodes_via_match_motion_code() {
    for &(code, bits, value) in TABLE_B4 {
        let data = buf(&[(code, u32::from(bits))]);
        let mut br = BitReader::new(&data);
        let got = match_motion_code(&mut br)
            .unwrap_or_else(|err| panic!("row value={value} bits={bits} failed: {err:?}"));
        assert_eq!(got, value, "row value={value} bits={bits} code={code:b}");
        assert_eq!(br.bit_position(), u64::from(bits));
    }
}

#[test]
fn table_b4_zero_is_one_bit() {
    let data = buf(&[(0b1, 1)]);
    let mut br = BitReader::new(&data);
    assert_eq!(match_motion_code(&mut br).unwrap(), 0);
    assert_eq!(br.bit_position(), 1);
}

#[test]
fn table_b4_extremes_minus16_and_plus16() {
    let neg = buf(&[(0b0000_0011_001, 11)]);
    let mut br = BitReader::new(&neg);
    assert_eq!(match_motion_code(&mut br).unwrap(), -16);

    let pos = buf(&[(0b0000_0011_000, 11)]);
    let mut br = BitReader::new(&pos);
    assert_eq!(match_motion_code(&mut br).unwrap(), 16);
}

#[test]
fn table_b4_unknown_prefix_rejected() {
    // 11 zero bits: not in Table B.4 (any genuine entry has a
    // trailing '1' somewhere in its first 11 bits).
    let data = buf(&[(0, 11)]);
    let mut br = BitReader::new(&data);
    let err = match_motion_code(&mut br).unwrap_err();
    assert!(matches!(err, Error::InvalidBitstream(_)));
}

#[test]
fn parse_rejects_f_code_zero() {
    let data = buf(&[(0b1, 1), (0b1, 1)]);
    let mut br = BitReader::new(&data);
    let err = Mpeg1MotionVector::parse(&mut br, Mpeg1MotionDirection::Forward, 0).unwrap_err();
    assert!(matches!(err, Error::InvalidBitstream(_)));
}

#[test]
fn parse_rejects_f_code_above_seven() {
    let data = buf(&[(0b1, 1), (0b1, 1)]);
    let mut br = BitReader::new(&data);
    let err = Mpeg1MotionVector::parse(&mut br, Mpeg1MotionDirection::Forward, 8).unwrap_err();
    assert!(matches!(err, Error::InvalidBitstream(_)));
}

#[test]
fn parse_minimal_f_code_one_no_residual() {
    let data = buf(&[(0b1, 1), (0b1, 1)]);
    let mut br = BitReader::new(&data);
    let mv =
        Mpeg1MotionVector::parse(&mut br, Mpeg1MotionDirection::Forward, 1).expect("parse");
    assert_eq!(mv.direction, Mpeg1MotionDirection::Forward);
    assert_eq!(mv.horizontal_code, 0);
    assert_eq!(mv.horizontal_r, None);
    assert_eq!(mv.vertical_code, 0);
    assert_eq!(mv.vertical_r, None);
    assert_eq!(mv.bit_position_after, 2);
}

#[test]
fn parse_residual_only_when_code_nonzero_and_f_code_gt_one() {
    // f_code = 2 → r_size = 1. horizontal_code = -1 (3 bits '011')
    // → residual present (1 bit '1' → 1). vertical_code = 0 →
    // residual absent.
    let data = buf(&[(0b011, 3), (0b1, 1), (0b1, 1)]);
    let mut br = BitReader::new(&data);
    let mv =
        Mpeg1MotionVector::parse(&mut br, Mpeg1MotionDirection::Forward, 2).expect("parse");
    assert_eq!(mv.horizontal_code, -1);
    assert_eq!(mv.horizontal_r, Some(1));
    assert_eq!(mv.vertical_code, 0);
    assert_eq!(mv.vertical_r, None);
    // 3 (horiz code) + 1 (horiz residual) + 1 (vert code) = 5 bits.
    assert_eq!(mv.bit_position_after, 5);
}

#[test]
fn parse_residual_width_tracks_f_code() {
    // f_code = 5 → r_size = 4. horizontal_code = +1 ('010', 3 bits),
    // horizontal_r = 4 bits '1010' = 10. vertical_code = 0 → no r.
    let data = buf(&[(0b010, 3), (0b1010, 4), (0b1, 1)]);
    let mut br = BitReader::new(&data);
    let mv =
        Mpeg1MotionVector::parse(&mut br, Mpeg1MotionDirection::Forward, 5).expect("parse");
    assert_eq!(mv.horizontal_code, 1);
    assert_eq!(mv.horizontal_r, Some(10));
    assert_eq!(mv.vertical_code, 0);
    assert_eq!(mv.vertical_r, None);
    assert_eq!(mv.bit_position_after, 8);
}

#[test]
fn parse_residual_absent_when_motion_code_zero_even_with_large_f_code() {
    let data = buf(&[(0b1, 1), (0b1, 1)]);
    let mut br = BitReader::new(&data);
    let mv =
        Mpeg1MotionVector::parse(&mut br, Mpeg1MotionDirection::Forward, 7).expect("parse");
    assert_eq!(mv.horizontal_code, 0);
    assert_eq!(mv.horizontal_r, None);
    assert_eq!(mv.vertical_code, 0);
    assert_eq!(mv.vertical_r, None);
    assert_eq!(mv.bit_position_after, 2);
}

#[test]
fn parse_widest_residual_six_bits_when_f_code_is_seven() {
    // f_code = 7 → r_size = 6. horizontal_code = -16 (11 bits),
    // horizontal_r = 6 bits all-ones = 63. vertical_code = +16
    // (11 bits), vertical_r = 6 bits all-zeros = 0.
    let data = buf(&[
        (0b0000_0011_001, 11),
        (0b111111, 6),
        (0b0000_0011_000, 11),
        (0b000000, 6),
    ]);
    let mut br = BitReader::new(&data);
    let mv =
        Mpeg1MotionVector::parse(&mut br, Mpeg1MotionDirection::Backward, 7).expect("parse");
    assert_eq!(mv.direction, Mpeg1MotionDirection::Backward);
    assert_eq!(mv.horizontal_code, -16);
    assert_eq!(mv.horizontal_r, Some(63));
    assert_eq!(mv.vertical_code, 16);
    assert_eq!(mv.vertical_r, Some(0));
    // 11 + 6 + 11 + 6 = 34 bits.
    assert_eq!(mv.bit_position_after, 34);
}

#[test]
fn parse_truncated_horizontal_code_is_invalid_bitstream() {
    // 11 zeros = no Table B.4 row matches → InvalidBitstream.
    let data = [0u8; 2];
    let mut br = BitReader::new(&data);
    let err = Mpeg1MotionVector::parse(&mut br, Mpeg1MotionDirection::Forward, 1).unwrap_err();
    assert!(matches!(err, Error::InvalidBitstream(_)));
}

#[test]
fn parse_truncated_residual_is_short() {
    // f_code = 7 → r_size = 6. horizontal_code = -1 (3 bits '011').
    // Put just the 3-bit code into a single-byte buffer (5 zero
    // pad bits left → 5 bits remain) and pre-skip so we leave only
    // 4 bits ahead — read_u32(6) then runs short.
    let mut bw = BitWriter::new();
    bw.write_u32(0b011, 3);
    bw.align_to_byte();
    let mut data_vec = bw.finish();
    // Truncate trailing padding so the BitReader genuinely runs
    // out of bits when read_u32(6) tries to read the residual.
    // After the 3-bit code we have 5 zero pad bits in the single
    // byte; read_u32(6) needs 6 — exactly one bit short.
    data_vec.truncate(1);
    let mut br = BitReader::new(&data_vec);
    let err = Mpeg1MotionVector::parse(&mut br, Mpeg1MotionDirection::Forward, 7).unwrap_err();
    assert!(matches!(err, Error::ShortHeader));
}

#[test]
fn parse_backward_direction_records_backward_tag() {
    let data = buf(&[(0b1, 1), (0b1, 1)]);
    let mut br = BitReader::new(&data);
    let mv =
        Mpeg1MotionVector::parse(&mut br, Mpeg1MotionDirection::Backward, 1).expect("parse");
    assert_eq!(mv.direction, Mpeg1MotionDirection::Backward);
    assert_eq!(mv.horizontal_code, 0);
    assert_eq!(mv.vertical_code, 0);
}

#[test]
fn parse_both_components_can_carry_residual() {
    // f_code = 3 → r_size = 2. Both codes non-zero so both
    // residuals appear: horiz_code = -1 ('011'), horiz_r = '10' =
    // 2; vert_code = +1 ('010'), vert_r = '01' = 1.
    let data = buf(&[(0b011, 3), (0b10, 2), (0b010, 3), (0b01, 2)]);
    let mut br = BitReader::new(&data);
    let mv =
        Mpeg1MotionVector::parse(&mut br, Mpeg1MotionDirection::Forward, 3).expect("parse");
    assert_eq!(mv.horizontal_code, -1);
    assert_eq!(mv.horizontal_r, Some(2));
    assert_eq!(mv.vertical_code, 1);
    assert_eq!(mv.vertical_r, Some(1));
    // 3 + 2 + 3 + 2 = 10 bits.
    assert_eq!(mv.bit_position_after, 10);
}

#[test]
fn parse_mixed_components_one_residual_then_one_bare() {
    // f_code = 4 → r_size = 3. horiz_code = +2 ('0010'), horiz_r =
    // '101' = 5; vert_code = 0 (1 bit '1'), no vert_r.
    let data = buf(&[(0b0010, 4), (0b101, 3), (0b1, 1)]);
    let mut br = BitReader::new(&data);
    let mv =
        Mpeg1MotionVector::parse(&mut br, Mpeg1MotionDirection::Forward, 4).expect("parse");
    assert_eq!(mv.horizontal_code, 2);
    assert_eq!(mv.horizontal_r, Some(5));
    assert_eq!(mv.vertical_code, 0);
    assert_eq!(mv.vertical_r, None);
    // 4 + 3 + 1 = 8 bits.
    assert_eq!(mv.bit_position_after, 8);
}

#[test]
fn parse_zero_horiz_nonzero_vert_skips_horiz_residual_only() {
    // f_code = 4 → r_size = 3. horiz_code = 0 (1 bit '1'), no
    // horiz_r. vert_code = -2 ('0011'), vert_r = '110' = 6.
    let data = buf(&[(0b1, 1), (0b0011, 4), (0b110, 3)]);
    let mut br = BitReader::new(&data);
    let mv =
        Mpeg1MotionVector::parse(&mut br, Mpeg1MotionDirection::Forward, 4).expect("parse");
    assert_eq!(mv.horizontal_code, 0);
    assert_eq!(mv.horizontal_r, None);
    assert_eq!(mv.vertical_code, -2);
    assert_eq!(mv.vertical_r, Some(6));
    // 1 + 4 + 3 = 8 bits.
    assert_eq!(mv.bit_position_after, 8);
}

#[test]
fn direction_debug_smoke() {
    let f = format!("{:?}", Mpeg1MotionDirection::Forward);
    assert!(f.contains("Forward"));
    let b = format!("{:?}", Mpeg1MotionDirection::Backward);
    assert!(b.contains("Backward"));
}

#[test]
fn motion_vector_debug_smoke() {
    let mv = Mpeg1MotionVector {
        direction: Mpeg1MotionDirection::Forward,
        horizontal_code: -3,
        horizontal_r: Some(1),
        vertical_code: 0,
        vertical_r: None,
        bit_position_after: 7,
    };
    let s = format!("{mv:?}");
    assert!(s.contains("Mpeg1MotionVector"));
    assert!(s.contains("Forward"));
    assert!(s.contains("-3"));
}
