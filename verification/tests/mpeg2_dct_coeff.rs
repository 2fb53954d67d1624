use oxideav_core::bits::{BitReader, BitWriter};
use oxideav_mpeg12video::error::Error;
use oxideav_mpeg12video::mpeg2_dct_coeff::{
    CoefficientPosition, DctCoeff, DctCoeffStep, EOB_B14_BITS, EOB_B14_CODE, EOB_B15_BITS,
    EOB_B15_CODE, ESCAPE_BITS, ESCAPE_CODE, ESCAPE_LEVEL_BITS, ESCAPE_RUN_BITS, TABLE_B14_PAGE1,
    TABLE_B14_PAGE2, TABLE_B14_PAGE3, TABLE_B14_PAGE4, TABLE_B15_PAGE1, TABLE_B15_PAGE2,
    TABLE_B15_PAGE3, TABLE_B15_PAGE4, TableSelection,
};

fn pad_and_finish(mut bw: BitWriter) -> Vec<u8> {
    for _ in 0..4 {
        bw.write_byte(0);
    }
    bw.finish()
}

fn all_b14() -> impl Iterator<Item = &'static (u16, u8, u8, u8)> {
    TABLE_B14_PAGE1
        .iter()
        .chain(&TABLE_B14_PAGE2)
        .chain(&TABLE_B14_PAGE3)
        .chain(&TABLE_B14_PAGE4)
}

fn all_b15() -> impl Iterator<Item = &'static (u16, u8, u8, u8)> {
    TABLE_B15_PAGE1
        .iter()
        .chain(&TABLE_B15_PAGE2)
        .chain(&TABLE_B15_PAGE3)
        .chain(&TABLE_B15_PAGE4)
}

#[test]
fn table_selection_follows_spec_table_7_3() {
    // Per Table 7-3:
    // intra_vlc_format = 0, intra blocks       → B-14
    // intra_vlc_format = 0, non-intra blocks   → B-14
    // intra_vlc_format = 1, intra blocks       → B-15
    // intra_vlc_format = 1, non-intra blocks   → B-14
    assert_eq!(
        TableSelection::from_context(false, true),
        TableSelection::TableZero
    );
    assert_eq!(
        TableSelection::from_context(false, false),
        TableSelection::TableZero
    );
    assert_eq!(
        TableSelection::from_context(true, true),
        TableSelection::TableOne
    );
    assert_eq!(
        TableSelection::from_context(true, false),
        TableSelection::TableZero
    );
}

// ----- table-shape invariants -----

#[test]
fn table_b14_has_112_rows() {
    assert_eq!(all_b14().count(), 112);
}

#[test]
fn table_b15_has_111_rows() {
    // The page1 row count is 31 (no NOTE 2 / NOTE 3 alternate),
    // pages 2..=4 are 32 + 32 + 16. Total 31 + 32 + 32 + 16 = 111.
    assert_eq!(all_b15().count(), 111);
}

#[test]
fn every_b14_code_fits_its_declared_width() {
    for e in all_b14() {
        assert!(u32::from(e.1) <= 16);
        let max = 1u32 << u32::from(e.1);
        assert!(u32::from(e.0) < max);
    }
}

#[test]
fn every_b15_code_fits_its_declared_width() {
    for e in all_b15() {
        assert!(u32::from(e.1) <= 16);
        let max = 1u32 << u32::from(e.1);
        assert!(u32::from(e.0) < max);
    }
}

#[test]
fn b14_codes_unique_within_each_width() {
    for w in 1u8..=16 {
        let group: Vec<_> = all_b14().filter(|e| e.1 == w).collect();
        for (i, a) in group.iter().enumerate() {
            for b in &group[i + 1..] {
                assert_ne!(
                    a.0, b.0,
                    "B-14 dup at width {w}: (run {} lvl {}) vs (run {} lvl {})",
                    a.2, a.3, b.2, b.3
                );
            }
        }
    }
}

#[test]
fn b15_codes_unique_within_each_width() {
    for w in 1u8..=16 {
        let group: Vec<_> = all_b15().filter(|e| e.1 == w).collect();
        for (i, a) in group.iter().enumerate() {
            for b in &group[i + 1..] {
                assert_ne!(
                    a.0, b.0,
                    "B-15 dup at width {w}: (run {} lvl {}) vs (run {} lvl {})",
                    a.2, a.3, b.2, b.3
                );
            }
        }
    }
}

/// For each codeword + sign, neither codeword should be a prefix
/// of the other (when EoB / escape are also included).
fn assert_prefix_free<'a, I>(
    entries: I,
    eob_code: u32,
    eob_bits: u32,
    include_first_only_1bit: bool,
    include_next_only_2bit: bool,
) where
    I: Iterator<Item = &'a (u16, u8, u8, u8)>,
{
    let mut items: Vec<(u32, u32)> = Vec::new(); // (bits, aligned)
    for e in entries {
        // Skip the FIRST-only `1s` row when checking NEXT, and
        // skip the NEXT-only `11s` row when checking FIRST.
        if e.1 == 1 && !include_first_only_1bit {
            continue;
        }
        if e.1 == 2 && e.0 == 0b11 && !include_next_only_2bit {
            continue;
        }
        // codeword bits (no sign included for prefix check; both
        // signs are legal on the trailing bit so they're not a
        // disambiguator).
        let cw_bits = u32::from(e.1);
        let aligned = u32::from(e.0) << (32 - cw_bits);
        items.push((cw_bits, aligned));
    }
    // Escape (no sign).
    items.push((ESCAPE_BITS, ESCAPE_CODE << (32 - ESCAPE_BITS)));
    // EoB (no sign) — only on NEXT.
    if !include_first_only_1bit {
        items.push((eob_bits, eob_code << (32 - eob_bits)));
    }

    for (i, &(bits_a, al_a)) in items.iter().enumerate() {
        for &(bits_b, al_b) in &items[i + 1..] {
            let min = bits_a.min(bits_b);
            let mask = if min == 32 {
                u32::MAX
            } else {
                !((1u32 << (32 - min)) - 1)
            };
            assert_ne!(
                al_a & mask,
                al_b & mask,
                "prefix collision: {:032b} ({} bits) vs {:032b} ({} bits)",
                al_a,
                bits_a,
                al_b,
                bits_b
            );
        }
    }
}

#[test]
fn b14_codebook_is_prefix_free_at_first_and_next() {
    // FIRST excludes `11s`; NEXT excludes `1s` and includes EoB.
    assert_prefix_free(all_b14(), EOB_B14_CODE, EOB_B14_BITS, true, false);
    assert_prefix_free(all_b14(), EOB_B14_CODE, EOB_B14_BITS, false, true);
}

#[test]
fn b15_codebook_is_prefix_free_at_next() {
    // B-15 has no NOTE 2 / NOTE 3 alternate; only NEXT semantics.
    // Include neither the `1s` nor the `11s` filter (B-15 has no
    // 1-bit code at all and its 2-bit `10` is the legitimate
    // (run=0, level=1) row).
    assert_prefix_free(all_b15(), EOB_B15_CODE, EOB_B15_BITS, true, true);
}

// ----- per-table round-trips -----

fn write_entry(bw: &mut BitWriter, e: &(u16, u8, u8, u8), negative: bool) {
    bw.write_u32(u32::from(e.0), u32::from(e.1));
    bw.write_bit(negative);
}

#[test]
fn every_b14_row_round_trips_at_next() {
    for entry in all_b14() {
        if entry.1 == 1 {
            // FIRST-only — handled in its own test.
            continue;
        }
        for negative in [false, true] {
            let mut bw = BitWriter::new();
            write_entry(&mut bw, entry, negative);
            let buf = pad_and_finish(bw);
            let mut br = BitReader::new(&buf);
            let step = DctCoeffStep::parse(
                &mut br,
                TableSelection::TableZero,
                CoefficientPosition::Next,
            )
            .unwrap_or_else(|e| {
                panic!(
                    "decode failed for B-14 entry width={} code=0x{:x} run={} level={} neg={}: {:?}",
                    entry.1, entry.0, entry.2, entry.3, negative, e
                )
            });
            match step.symbol {
                DctCoeff::RunLevel {
                    run,
                    signed_level,
                    escape,
                } => {
                    assert_eq!(run, entry.2);
                    let expected = if negative {
                        -i16::from(entry.3)
                    } else {
                        i16::from(entry.3)
                    };
                    assert_eq!(signed_level, expected);
                    assert!(!escape);
                }
                _ => panic!("expected RunLevel for ({}, {})", entry.2, entry.3),
            }
        }
    }
}

#[test]
fn every_b15_row_round_trips_at_next() {
    for entry in all_b15() {
        for negative in [false, true] {
            let mut bw = BitWriter::new();
            write_entry(&mut bw, entry, negative);
            let buf = pad_and_finish(bw);
            let mut br = BitReader::new(&buf);
            let step = DctCoeffStep::parse(
                &mut br,
                TableSelection::TableOne,
                CoefficientPosition::Next,
            )
            .unwrap_or_else(|e| {
                panic!(
                    "decode failed for B-15 entry width={} code=0x{:x} run={} level={} neg={}: {:?}",
                    entry.1, entry.0, entry.2, entry.3, negative, e
                )
            });
            match step.symbol {
                DctCoeff::RunLevel {
                    run,
                    signed_level,
                    escape,
                } => {
                    assert_eq!(run, entry.2);
                    let expected = if negative {
                        -i16::from(entry.3)
                    } else {
                        i16::from(entry.3)
                    };
                    assert_eq!(signed_level, expected);
                    assert!(!escape);
                }
                _ => panic!("expected RunLevel for ({}, {})", entry.2, entry.3),
            }
        }
    }
}

#[test]
fn b14_first_only_1s_form_legal_at_first() {
    // `1s` for FIRST: (run=0, level=±1).
    for negative in [false, true] {
        let mut bw = BitWriter::new();
        bw.write_u32(0b1, 1);
        bw.write_bit(negative);
        let buf = pad_and_finish(bw);
        let mut br = BitReader::new(&buf);
        let step = DctCoeffStep::parse(
            &mut br,
            TableSelection::TableZero,
            CoefficientPosition::First,
        )
        .unwrap();
        match step.symbol {
            DctCoeff::RunLevel {
                run, signed_level, ..
            } => {
                assert_eq!(run, 0);
                assert_eq!(signed_level, if negative { -1 } else { 1 });
            }
            _ => panic!("expected RunLevel"),
        }
    }
}

#[test]
fn b14_next_only_11s_form_legal_at_next_not_first() {
    // `11s`. At NEXT it decodes to (0, ±1). At FIRST it is
    // forbidden — the walker must instead match the `1s` 1-bit
    // form and the trailing `1` becomes the sign bit, producing
    // (0, -1) instead.
    for negative in [false, true] {
        let mut bw = BitWriter::new();
        bw.write_u32(0b11, 2);
        bw.write_bit(negative);
        let buf = pad_and_finish(bw);
        // NEXT — `11s` → (0, ±1).
        let mut br = BitReader::new(&buf);
        let step = DctCoeffStep::parse(
            &mut br,
            TableSelection::TableZero,
            CoefficientPosition::Next,
        )
        .unwrap();
        match step.symbol {
            DctCoeff::RunLevel {
                run, signed_level, ..
            } => {
                assert_eq!(run, 0);
                assert_eq!(signed_level, if negative { -1 } else { 1 });
            }
            _ => panic!("expected RunLevel"),
        }
    }
}

#[test]
fn b14_eob_at_next() {
    let mut bw = BitWriter::new();
    bw.write_u32(EOB_B14_CODE, EOB_B14_BITS);
    let buf = pad_and_finish(bw);
    let mut br = BitReader::new(&buf);
    let step = DctCoeffStep::parse(
        &mut br,
        TableSelection::TableZero,
        CoefficientPosition::Next,
    )
    .unwrap();
    assert!(matches!(step.symbol, DctCoeff::EndOfBlock));
    assert_eq!(step.bit_position_after, u64::from(EOB_B14_BITS));
}

#[test]
fn b15_eob_at_next() {
    let mut bw = BitWriter::new();
    bw.write_u32(EOB_B15_CODE, EOB_B15_BITS);
    let buf = pad_and_finish(bw);
    let mut br = BitReader::new(&buf);
    let step =
        DctCoeffStep::parse(&mut br, TableSelection::TableOne, CoefficientPosition::Next)
            .unwrap();
    assert!(matches!(step.symbol, DctCoeff::EndOfBlock));
    assert_eq!(step.bit_position_after, u64::from(EOB_B15_BITS));
}

// ----- Table B-16 escape -----

fn write_escape(bw: &mut BitWriter, run: u8, signed_level: i16) {
    // 6-bit escape prefix `000001`.
    bw.write_u32(ESCAPE_CODE, ESCAPE_BITS);
    // 6-bit run.
    bw.write_u32(u32::from(run), ESCAPE_RUN_BITS);
    // 12-bit signed_level (two's complement).
    let word = if signed_level < 0 {
        (signed_level as i32 + 0x1000) as u32
    } else {
        signed_level as u32
    };
    bw.write_u32(word & 0xFFF, ESCAPE_LEVEL_BITS);
}

#[test]
fn b16_escape_round_trip_positive() {
    let cases: &[(u8, i16)] = &[(0, 1), (5, 128), (10, 2047), (63, 100), (12, 500)];
    for &(run, level) in cases {
        let mut bw = BitWriter::new();
        write_escape(&mut bw, run, level);
        let buf = pad_and_finish(bw);
        let mut br = BitReader::new(&buf);
        let step = DctCoeffStep::parse(
            &mut br,
            TableSelection::TableZero,
            CoefficientPosition::Next,
        )
        .unwrap();
        match step.symbol {
            DctCoeff::RunLevel {
                run: r,
                signed_level,
                escape,
            } => {
                assert_eq!(r, run);
                assert_eq!(signed_level, level);
                assert!(escape);
            }
            _ => panic!("expected RunLevel escape"),
        }
    }
}

#[test]
fn b16_escape_round_trip_negative() {
    let cases: &[(u8, i16)] = &[(0, -1), (7, -128), (12, -500), (33, -2047), (63, -64)];
    for &(run, level) in cases {
        let mut bw = BitWriter::new();
        write_escape(&mut bw, run, level);
        let buf = pad_and_finish(bw);
        let mut br = BitReader::new(&buf);
        let step = DctCoeffStep::parse(
            &mut br,
            TableSelection::TableZero,
            CoefficientPosition::Next,
        )
        .unwrap();
        match step.symbol {
            DctCoeff::RunLevel {
                run: r,
                signed_level,
                escape,
            } => {
                assert_eq!(r, run);
                assert_eq!(signed_level, level);
                assert!(escape);
            }
            _ => panic!("expected RunLevel escape"),
        }
    }
}

#[test]
fn b16_escape_signed_level_zero_is_forbidden() {
    let mut bw = BitWriter::new();
    bw.write_u32(ESCAPE_CODE, ESCAPE_BITS);
    bw.write_u32(0, ESCAPE_RUN_BITS);
    bw.write_u32(0, ESCAPE_LEVEL_BITS);
    let buf = pad_and_finish(bw);
    let mut br = BitReader::new(&buf);
    let err = DctCoeffStep::parse(
        &mut br,
        TableSelection::TableZero,
        CoefficientPosition::Next,
    )
    .unwrap_err();
    assert!(matches!(err, Error::InvalidBitstream(_)));
}

#[test]
fn b16_escape_signed_level_neg2048_is_forbidden() {
    let mut bw = BitWriter::new();
    bw.write_u32(ESCAPE_CODE, ESCAPE_BITS);
    bw.write_u32(0, ESCAPE_RUN_BITS);
    bw.write_u32(0x800, ESCAPE_LEVEL_BITS);
    let buf = pad_and_finish(bw);
    let mut br = BitReader::new(&buf);
    let err = DctCoeffStep::parse(
        &mut br,
        TableSelection::TableZero,
        CoefficientPosition::Next,
    )
    .unwrap_err();
    assert!(matches!(err, Error::InvalidBitstream(_)));
}

#[test]
fn b16_escape_extremes_decode() {
    // Wire word 0x801 = -2047 — the most negative listed.
    let mut bw = BitWriter::new();
    bw.write_u32(ESCAPE_CODE, ESCAPE_BITS);
    bw.write_u32(63, ESCAPE_RUN_BITS);
    bw.write_u32(0x801, ESCAPE_LEVEL_BITS);
    let buf = pad_and_finish(bw);
    let mut br = BitReader::new(&buf);
    let step = DctCoeffStep::parse(
        &mut br,
        TableSelection::TableZero,
        CoefficientPosition::Next,
    )
    .unwrap();
    match step.symbol {
        DctCoeff::RunLevel {
            run,
            signed_level,
            escape,
        } => {
            assert_eq!(run, 63);
            assert_eq!(signed_level, -2047);
            assert!(escape);
        }
        _ => panic!(),
    }

    // Wire word 0x7FF = +2047 — the most positive listed.
    let mut bw = BitWriter::new();
    bw.write_u32(ESCAPE_CODE, ESCAPE_BITS);
    bw.write_u32(0, ESCAPE_RUN_BITS);
    bw.write_u32(0x7FF, ESCAPE_LEVEL_BITS);
    let buf = pad_and_finish(bw);
    let mut br = BitReader::new(&buf);
    let step = DctCoeffStep::parse(
        &mut br,
        TableSelection::TableZero,
        CoefficientPosition::Next,
    )
    .unwrap();
    match step.symbol {
        DctCoeff::RunLevel {
            run,
            signed_level,
            escape,
        } => {
            assert_eq!(run, 0);
            assert_eq!(signed_level, 2047);
            assert!(escape);
        }
        _ => panic!(),
    }
}

// ----- end-to-end block walk -----

#[test]
fn b14_full_block_walk() {
    // Emit a small non-intra block:
    //   FIRST: (run=0, level=+3) via `0010 1 s` = `00101 0`
    //   NEXT:  (run=2, level=-1) via `0101 s`  = `0101 1`
    //   NEXT:  escape (run=4, level=+1500)
    //   NEXT:  EoB                              = `10`
    let mut bw = BitWriter::new();
    bw.write_u32(0b0010_1, 5);
    bw.write_bit(false);
    bw.write_u32(0b0101, 4);
    bw.write_bit(true);
    write_escape(&mut bw, 4, 1500);
    bw.write_u32(EOB_B14_CODE, EOB_B14_BITS);
    let buf = pad_and_finish(bw);

    let mut br = BitReader::new(&buf);
    // FIRST.
    let s0 = DctCoeffStep::parse(
        &mut br,
        TableSelection::TableZero,
        CoefficientPosition::First,
    )
    .unwrap();
    match s0.symbol {
        DctCoeff::RunLevel {
            run,
            signed_level,
            escape,
        } => {
            assert_eq!(run, 0);
            assert_eq!(signed_level, 3);
            assert!(!escape);
        }
        _ => panic!(),
    }
    // NEXT (2, -1).
    let s1 = DctCoeffStep::parse(
        &mut br,
        TableSelection::TableZero,
        CoefficientPosition::Next,
    )
    .unwrap();
    match s1.symbol {
        DctCoeff::RunLevel {
            run,
            signed_level,
            escape,
        } => {
            assert_eq!(run, 2);
            assert_eq!(signed_level, -1);
            assert!(!escape);
        }
        _ => panic!(),
    }
    // NEXT escape.
    let s2 = DctCoeffStep::parse(
        &mut br,
        TableSelection::TableZero,
        CoefficientPosition::Next,
    )
    .unwrap();
    match s2.symbol {
        DctCoeff::RunLevel {
            run,
            signed_level,
            escape,
        } => {
            assert_eq!(run, 4);
            assert_eq!(signed_level, 1500);
            assert!(escape);
        }
        _ => panic!(),
    }
    // NEXT EoB.
    let s3 = DctCoeffStep::parse(
        &mut br,
        TableSelection::TableZero,
        CoefficientPosition::Next,
    )
    .unwrap();
    assert!(matches!(s3.symbol, DctCoeff::EndOfBlock));
}

#[test]
fn b15_intra_block_walk() {
    // Emit an intra block (B-15, NEXT-only after DC):
    //   NEXT: (run=0, level=+1) via `10 s`     = `10 0`
    //   NEXT: (run=0, level=+2) via `110 s`    = `110 0`
    //   NEXT: escape (run=20, level=-1234)
    //   NEXT: EoB `0110`.
    let mut bw = BitWriter::new();
    bw.write_u32(0b10, 2);
    bw.write_bit(false);
    bw.write_u32(0b110, 3);
    bw.write_bit(false);
    write_escape(&mut bw, 20, -1234);
    bw.write_u32(EOB_B15_CODE, EOB_B15_BITS);
    let buf = pad_and_finish(bw);

    let mut br = BitReader::new(&buf);
    let s0 = DctCoeffStep::parse(&mut br, TableSelection::TableOne, CoefficientPosition::Next)
        .unwrap();
    match s0.symbol {
        DctCoeff::RunLevel {
            run, signed_level, ..
        } => {
            assert_eq!(run, 0);
            assert_eq!(signed_level, 1);
        }
        _ => panic!(),
    }
    let s1 = DctCoeffStep::parse(&mut br, TableSelection::TableOne, CoefficientPosition::Next)
        .unwrap();
    match s1.symbol {
        DctCoeff::RunLevel {
            run, signed_level, ..
        } => {
            assert_eq!(run, 0);
            assert_eq!(signed_level, 2);
        }
        _ => panic!(),
    }
    let s2 = DctCoeffStep::parse(&mut br, TableSelection::TableOne, CoefficientPosition::Next)
        .unwrap();
    match s2.symbol {
        DctCoeff::RunLevel {
            run,
            signed_level,
            escape,
        } => {
            assert_eq!(run, 20);
            assert_eq!(signed_level, -1234);
            assert!(escape);
        }
        _ => panic!(),
    }
    let s3 = DctCoeffStep::parse(&mut br, TableSelection::TableOne, CoefficientPosition::Next)
        .unwrap();
    assert!(matches!(s3.symbol, DctCoeff::EndOfBlock));
}

// ----- error paths -----

#[test]
fn truncated_buffer_returns_short_header() {
    // A single 0 bit isn't a complete codeword (the longest legal
    // prefix is `1s` / `10`, both 2 bits min). All buffers <= 1
    // bit must error.
    let buf: &[u8] = &[];
    let mut br = BitReader::new(buf);
    let err = DctCoeffStep::parse(
        &mut br,
        TableSelection::TableZero,
        CoefficientPosition::Next,
    )
    .unwrap_err();
    assert!(matches!(err, Error::ShortHeader));
}

#[test]
fn unrecognised_prefix_returns_invalid_bitstream() {
    // 17 zero bits — none of the table codes nor the escape can
    // start with that many zeros (the longest-prefix-of-zero is
    // the 16-bit codeword `0000_0000_0001_xxxx s` whose 12 leading
    // zeros are followed by a `1`, so 16 leading zeros violates
    // every entry).
    let buf: &[u8] = &[0x00, 0x00, 0x00];
    let mut br = BitReader::new(buf);
    let err = DctCoeffStep::parse(
        &mut br,
        TableSelection::TableZero,
        CoefficientPosition::Next,
    )
    .unwrap_err();
    assert!(matches!(err, Error::InvalidBitstream(_)));
}
