use oxideav_core::bits::{BitReader, BitWriter};
use oxideav_mpeg12video::error::Error;
use oxideav_mpeg12video::mpeg1_block_decoder::ERR_MPEG1_DC_SIZE;
use oxideav_mpeg12video::mpeg2_block_dc::{
    ColourComponent, DcCoefficient, DcComponent, DcPredictors, TABLE_B12, TABLE_B13,
    dc_pred_reset_value, decode_dc_block, match_dc_size, qfs_zero_max, reconstruct_dc_diff,
};

/// Helper: emit a Table B-12 code into a writer.
fn write_b12(bw: &mut BitWriter, size: u8) {
    let entry = TABLE_B12
        .iter()
        .find(|e| e.2 == size)
        .expect("size in 0..=11");
    bw.write_u32(u32::from(entry.0), u32::from(entry.1));
}

/// Helper: emit a Table B-13 code into a writer.
fn write_b13(bw: &mut BitWriter, size: u8) {
    let entry = TABLE_B13
        .iter()
        .find(|e| e.2 == size)
        .expect("size in 0..=11");
    bw.write_u32(u32::from(entry.0), u32::from(entry.1));
}

fn pad_and_finish(mut bw: BitWriter) -> Vec<u8> {
    // One '0' then byte-align, so a BitReader has at least one
    // trailing byte to load past the end of the payload.
    bw.write_bit(false);
    bw.align_to_byte();
    bw.finish()
}

// ----- Table B-12 / B-13 shape -----

#[test]
fn table_b12_has_twelve_entries_0_through_11() {
    let mut sizes: Vec<u8> = TABLE_B12.iter().map(|e| e.2).collect();
    sizes.sort_unstable();
    assert_eq!(sizes, (0u8..=11).collect::<Vec<u8>>());
}

#[test]
fn table_b13_has_twelve_entries_0_through_11() {
    let mut sizes: Vec<u8> = TABLE_B13.iter().map(|e| e.2).collect();
    sizes.sort_unstable();
    assert_eq!(sizes, (0u8..=11).collect::<Vec<u8>>());
}

#[test]
fn table_b12_codes_fit_their_widths() {
    for e in TABLE_B12 {
        let max = 1u32 << u32::from(e.1);
        assert!(u32::from(e.0) < max, "B-12 code {:b} too wide", e.0);
    }
}

#[test]
fn table_b13_codes_fit_their_widths() {
    for e in TABLE_B13 {
        let max = 1u32 << u32::from(e.1);
        assert!(u32::from(e.0) < max, "B-13 code {:b} too wide", e.0);
    }
}

#[test]
fn table_b12_codes_unique_per_width() {
    for &width in &[2u8, 3, 4, 5, 6, 7, 8, 9] {
        let group: Vec<_> = TABLE_B12.iter().filter(|e| e.1 == width).collect();
        for (i, a) in group.iter().enumerate() {
            for b in &group[i + 1..] {
                assert_ne!(a.0, b.0, "B-12 duplicate code at width {width}");
            }
        }
    }
}

#[test]
fn table_b13_codes_unique_per_width() {
    for &width in &[2u8, 3, 4, 5, 6, 7, 8, 9, 10] {
        let group: Vec<_> = TABLE_B13.iter().filter(|e| e.1 == width).collect();
        for (i, a) in group.iter().enumerate() {
            for b in &group[i + 1..] {
                assert_ne!(a.0, b.0, "B-13 duplicate code at width {width}");
            }
        }
    }
}

#[test]
fn b12_first_9_rows_match_b5a() {
    for size in 0u8..=8 {
        let mut bw = BitWriter::new();
        write_b12(&mut bw, size);
        for _ in 0..size {
            bw.write_bit(false);
        }
        let buf = pad_and_finish(bw);
        let mut br = BitReader::new(&buf);
        let mpeg1 = match_dc_size(&mut br, DcComponent::Luminance, 9, ERR_MPEG1_DC_SIZE).unwrap();
        assert_eq!(mpeg1, size);
    }
}

#[test]
fn b13_first_9_rows_match_b5b() {
    for size in 0u8..=8 {
        let mut bw = BitWriter::new();
        write_b13(&mut bw, size);
        for _ in 0..size {
            bw.write_bit(false);
        }
        let buf = pad_and_finish(bw);
        let mut br = BitReader::new(&buf);
        let mpeg1 = match_dc_size(&mut br, DcComponent::Chrominance, 9, ERR_MPEG1_DC_SIZE).unwrap();
        assert_eq!(mpeg1, size);
    }
}

// ----- VLC round-trips -----

#[test]
fn parses_every_b12_size() {
    // Decode every (size, raw=0) pair through Table B-12 at
    // intra_dc_precision = 3 (widest window). All-zero raw at
    // size N decodes to dct_diff = -(2^N - 1); prime the
    // predictor halfway through the [0, 2047] window so even
    // size = 11 (worst case -2047) stays in range.
    let mut predictors = DcPredictors::new(3).unwrap();
    for size in 0u8..=11 {
        let mut bw = BitWriter::new();
        write_b12(&mut bw, size);
        for _ in 0..size {
            bw.write_bit(false);
        }
        let buf = pad_and_finish(bw);
        let mut br = BitReader::new(&buf);
        predictors.luma = 2047;
        let dc = decode_dc_block(&mut br, &mut predictors, ColourComponent::Y)
            .expect("Table B-12 parse");
        assert_eq!(dc.dct_dc_size, size);
    }
}

#[test]
fn parses_every_b13_size() {
    let mut predictors = DcPredictors::new(3).unwrap();
    for size in 0u8..=11 {
        let mut bw = BitWriter::new();
        write_b13(&mut bw, size);
        for _ in 0..size {
            bw.write_bit(false);
        }
        let buf = pad_and_finish(bw);
        let mut br = BitReader::new(&buf);
        predictors.cb = 2047;
        let dc = decode_dc_block(&mut br, &mut predictors, ColourComponent::Cb)
            .expect("Table B-13 parse");
        assert_eq!(dc.dct_dc_size, size);
    }
}

#[test]
fn rejects_garbage_b12_prefix() {
    // The longest B-12 codeword is 9 bits. A run of '1's longer
    // than that hits the no-match branch. We need a sequence
    // whose 9-bit prefix is neither `1_1111_1110` (size 10) nor
    // `1_1111_1111` (size 11). 0b1_1111_1110 is in the table;
    // 0b1_1111_1111 is in the table too. So all-ones DOES match
    // size 11. To trip the no-match, build a prefix that's not
    // in any width: try 0b0_0000_0000 (9 bits zeroes). The
    // shortest match attempt is "100" (size 0) — not all zeros.
    // "00" (2 bits, size 1) matches the first two zeros. So
    // zeros parse fine. We need a 7-bit prefix that's a valid
    // size 8 width — `111_1110` ends in '0' (size 8). To fail
    // we want bits that don't form ANY code, so use a prefix
    // that doesn't match any short code: 0b0_0011_xxxx — let's
    // build the explicit non-matching sequence directly. The
    // 3-bit `001` doesn't match B-12 (codes: 100, 00, 01, 101,
    // 110, 1110, ...). The 2-bit `00` matches size 1. So a
    // 0b00 prefix parses, never reaching the bad bits.
    // Conclusion: every non-empty B-12 stream eventually
    // matches *something*. To trigger the no-match path we
    // must construct a buffer that's too short to satisfy any
    // codeword's bit-count: we already cover that in
    // `rejects_truncated_buffer_b12`. The "infinite ones"
    // failure mode only applies to MPEG-1's bounded B.5a; B-12
    // extends that to size 11 with the `1111 1111 1` codeword,
    // so MPEG-2's worst-case all-ones prefix *does* match.
    // Document the invariant and move on.

    // Confirm that 9 all-ones bits decode as size 11 (the
    // longest B-12 codeword), proving the table is complete on
    // the long-prefix path.
    let mut bw = BitWriter::new();
    bw.write_u32(0b1_1111_1111, 9);
    // append 11 zero differential bits + pad
    for _ in 0..11 {
        bw.write_bit(false);
    }
    let buf = pad_and_finish(bw);
    let mut predictors = DcPredictors::new(3).unwrap();
    predictors.luma = 2047;
    let mut br = BitReader::new(&buf);
    let dc =
        decode_dc_block(&mut br, &mut predictors, ColourComponent::Y).expect("size 11 parse");
    assert_eq!(dc.dct_dc_size, 11);
}

#[test]
fn rejects_truncated_buffer_b12() {
    let buf: [u8; 0] = [];
    let mut br = BitReader::new(&buf);
    let mut predictors = DcPredictors::new(0).unwrap();
    let err = decode_dc_block(&mut br, &mut predictors, ColourComponent::Y).unwrap_err();
    assert!(matches!(
        err,
        Error::InvalidBitstream(_) | Error::ShortHeader
    ));
}

#[test]
fn size_zero_yields_zero_diff() {
    assert_eq!(reconstruct_dc_diff(0, 0), 0);
}

#[test]
fn mpeg2_recon_matches_mpeg1_for_sizes_1_through_8() {
    for dc_size in 1u8..=8 {
        let n = 1u32 << dc_size;
        for raw in 0..n {
            let mpeg2 = reconstruct_dc_diff(dc_size, raw);
            let msb = 1u32 << (dc_size - 1);
            let mpeg1: i32 = if raw & msb != 0 {
                raw as i32
            } else {
                let ext: i64 = -(1i64 << dc_size);
                (ext | i64::from(raw + 1)) as i32
            };
            assert_eq!(mpeg2, mpeg1, "dc_size={dc_size} raw={raw}");
        }
    }
}

/// Worked example for `dct_dc_size = 3`:
///
/// | raw bits | dct_diff |
/// |----------|----------|
/// | 000      | -7       |
/// | 001      | -6       |
/// | 010      | -5       |
/// | 011      | -4       |
/// | 100      |  4       |
/// | 101      |  5       |
/// | 110      |  6       |
/// | 111      |  7       |
#[test]
fn spec_table_size_3_example() {
    let expected = [-7, -6, -5, -4, 4, 5, 6, 7];
    for (raw, want) in (0u32..8).zip(expected.iter().copied()) {
        assert_eq!(reconstruct_dc_diff(3, raw), want, "raw={raw:03b}");
    }
}

#[test]
fn size_11_corner_values() {
    // dct_dc_size = 11 → range [-2047, 2047].
    // raw = 0 → -2047; raw = 0x7FF (2047) → -1 (just below half_range);
    // raw = 0x400 (1024 = half_range) → 1024 (just at half_range);
    // raw = 0xFFF? — only 11 bits, so max raw = 0x7FF. Let's
    // re-verify: 2^11 = 2048, so raw in [0, 2047].
    assert_eq!(reconstruct_dc_diff(11, 0), -2047);
    assert_eq!(reconstruct_dc_diff(11, 1), -2046);
    assert_eq!(reconstruct_dc_diff(11, 1023), -1024);
    assert_eq!(reconstruct_dc_diff(11, 1024), 1024);
    assert_eq!(reconstruct_dc_diff(11, 2047), 2047);
}

// ----- Table 7-2 reset values + intra_dc_precision -----

#[test]
fn table_7_2_reset_values() {
    assert_eq!(dc_pred_reset_value(0).unwrap(), 128);
    assert_eq!(dc_pred_reset_value(1).unwrap(), 256);
    assert_eq!(dc_pred_reset_value(2).unwrap(), 512);
    assert_eq!(dc_pred_reset_value(3).unwrap(), 1024);
}

#[test]
fn table_7_2_rejects_out_of_range_precision() {
    assert!(dc_pred_reset_value(4).is_err());
    assert!(dc_pred_reset_value(255).is_err());
}

#[test]
fn qfs_zero_max_matches_8_plus_precision() {
    assert_eq!(qfs_zero_max(0).unwrap(), 255);
    assert_eq!(qfs_zero_max(1).unwrap(), 511);
    assert_eq!(qfs_zero_max(2).unwrap(), 1023);
    assert_eq!(qfs_zero_max(3).unwrap(), 2047);
}

// ----- Predictor lifecycle -----

#[test]
fn new_primes_all_three_to_reset() {
    for precision in 0u8..=3 {
        let p = DcPredictors::new(precision).unwrap();
        let reset = dc_pred_reset_value(precision).unwrap();
        assert_eq!(p.luma, reset);
        assert_eq!(p.cb, reset);
        assert_eq!(p.cr, reset);
        assert_eq!(p.intra_dc_precision, precision);
    }
}

#[test]
fn reset_returns_all_three_to_table_7_2_value() {
    let mut p = DcPredictors::new(1).unwrap();
    p.luma = 42;
    p.cb = 7;
    p.cr = 9;
    p.reset();
    assert_eq!(p.luma, 256);
    assert_eq!(p.cb, 256);
    assert_eq!(p.cr, 256);
}

// ----- Full decode_dc_block paths -----

#[test]
fn decode_dc_block_y_chains_predictor() {
    let expected_diffs = [-7, -6, -5, -4, 4, 5, 6, 7];
    for (raw, diff) in (0u32..8).zip(expected_diffs.iter().copied()) {
        let mut bw = BitWriter::new();
        write_b12(&mut bw, 3);
        bw.write_u32(raw, 3);
        let buf = pad_and_finish(bw);

        let mut p = DcPredictors::new(0).unwrap();
        assert_eq!(p.luma, 128);

        let mut br = BitReader::new(&buf);
        let dc = decode_dc_block(&mut br, &mut p, ColourComponent::Y).unwrap();
        assert_eq!(dc.dct_dc_size, 3);
        assert_eq!(dc.dct_diff, diff);
        assert_eq!(dc.qfs_zero, 128 + diff);
        assert_eq!(p.luma, 128 + diff, "predictor must advance to QFS[0]");
        // Cb / Cr untouched.
        assert_eq!(p.cb, 128);
        assert_eq!(p.cr, 128);
    }
}

/// Decode a Cb-then-Cr pair confirming the two chroma
/// predictors are independent.
#[test]
fn decode_dc_block_cb_and_cr_have_independent_state() {
    // Build [Cb size=2 raw=11 → +3] [Cr size=2 raw=00 → -3] back-to-back.
    let mut bw = BitWriter::new();
    write_b13(&mut bw, 2);
    bw.write_u32(0b11, 2); // raw = 3 → dct_diff = 3
    write_b13(&mut bw, 2);
    bw.write_u32(0b00, 2); // raw = 0 → dct_diff = -3
    let buf = pad_and_finish(bw);

    let mut p = DcPredictors::new(0).unwrap();
    let mut br = BitReader::new(&buf);

    let cb = decode_dc_block(&mut br, &mut p, ColourComponent::Cb).unwrap();
    assert_eq!(cb.dct_diff, 3);
    assert_eq!(cb.qfs_zero, 131);
    assert_eq!(p.cb, 131);
    // Cr predictor must still be the reset value.
    assert_eq!(p.cr, 128);

    let cr = decode_dc_block(&mut br, &mut p, ColourComponent::Cr).unwrap();
    assert_eq!(cr.dct_diff, -3);
    assert_eq!(cr.qfs_zero, 125);
    assert_eq!(p.cr, 125);
    // Cb predictor unchanged by the Cr decode.
    assert_eq!(p.cb, 131);
}

#[test]
fn out_of_range_qfs_zero_negative_is_rejected() {
    // dct_dc_size=3, raw=000 → dct_diff=-7. Starting predictor
    // at 5 → QFS[0] = -2, which violates the [0, 255] window.
    let mut bw = BitWriter::new();
    write_b12(&mut bw, 3);
    bw.write_u32(0b000, 3);
    let buf = pad_and_finish(bw);

    let mut p = DcPredictors::new(0).unwrap();
    p.luma = 5;
    let mut br = BitReader::new(&buf);
    let err = decode_dc_block(&mut br, &mut p, ColourComponent::Y).unwrap_err();
    match err {
        Error::InvalidBitstream(msg) => assert!(msg.contains("QFS[0]")),
        other => panic!("expected InvalidBitstream, got {other:?}"),
    }
}

#[test]
fn out_of_range_qfs_zero_above_max_is_rejected() {
    // dct_dc_size=3, raw=111 → dct_diff=+7. Starting predictor
    // at 250 → QFS[0] = 257, which violates the [0, 255] window
    // at intra_dc_precision = 0.
    let mut bw = BitWriter::new();
    write_b12(&mut bw, 3);
    bw.write_u32(0b111, 3);
    let buf = pad_and_finish(bw);

    let mut p = DcPredictors::new(0).unwrap();
    p.luma = 250;
    let mut br = BitReader::new(&buf);
    let err = decode_dc_block(&mut br, &mut p, ColourComponent::Y).unwrap_err();
    assert!(matches!(err, Error::InvalidBitstream(_)));
}

/// At `intra_dc_precision = 3` the [0, 2047] window is wide
/// enough that a +7 differential from a predictor of 1024
/// stays in range.
#[test]
fn precision_3_widens_qfs_zero_window() {
    let mut bw = BitWriter::new();
    write_b12(&mut bw, 3);
    bw.write_u32(0b111, 3);
    let buf = pad_and_finish(bw);

    let mut p = DcPredictors::new(3).unwrap();
    assert_eq!(p.luma, 1024);
    let mut br = BitReader::new(&buf);
    let dc = decode_dc_block(&mut br, &mut p, ColourComponent::Y).unwrap();
    assert_eq!(dc.qfs_zero, 1031);
}

// ----- Bit-position accounting -----

#[test]
fn bit_position_after_tracks_code_plus_differential() {
    // size 0 → 3 code bits, 0 differential bits.
    let mut bw = BitWriter::new();
    write_b12(&mut bw, 0);
    let buf = pad_and_finish(bw);
    let mut p = DcPredictors::new(0).unwrap();
    let mut br = BitReader::new(&buf);
    let dc = decode_dc_block(&mut br, &mut p, ColourComponent::Y).unwrap();
    assert_eq!(dc.bit_position_after, 3);

    // size 11 (longest B-12) → 9 code bits, 11 differential bits = 20.
    let mut bw = BitWriter::new();
    write_b12(&mut bw, 11);
    bw.write_u32(0b100_0000_0000, 11); // raw = 1024 → dct_diff = 1024 (in range)
    let buf = pad_and_finish(bw);
    let mut p = DcPredictors::new(3).unwrap();
    p.luma = 1023; // predictor 1023 + dct_diff 1024 = 2047 (max for precision 3)
    let mut br = BitReader::new(&buf);
    let dc = decode_dc_block(&mut br, &mut p, ColourComponent::Y).unwrap();
    assert_eq!(dc.bit_position_after, 9 + 11);
    assert_eq!(dc.dct_diff, 1024);
    assert_eq!(dc.qfs_zero, 1023 + 1024);
}

// ----- ColourComponent → DcComponent projection -----

#[test]
fn colour_component_projects_to_dc_component() {
    assert_eq!(ColourComponent::Y.dc_component(), DcComponent::Luminance);
    assert_eq!(ColourComponent::Cb.dc_component(), DcComponent::Chrominance);
    assert_eq!(ColourComponent::Cr.dc_component(), DcComponent::Chrominance);
}

#[test]
fn debug_smoke() {
    let dc = DcCoefficient {
        component: ColourComponent::Y,
        dct_dc_size: 3,
        dc_dct_differential: 0b101,
        dct_diff: 5,
        qfs_zero: 133,
        bit_position_after: 6,
    };
    let s = format!("{dc:?}");
    assert!(s.contains("DcCoefficient"));
    assert!(s.contains("qfs_zero"));
    let p = DcPredictors::new(0).unwrap();
    assert!(format!("{p:?}").contains("DcPredictors"));
    assert!(format!("{:?}", ColourComponent::Cb).contains("Cb"));
    assert!(format!("{:?}", DcComponent::Chrominance).contains("Chrominance"));
}
