use oxideav_mpeg12video::mpeg2_inverse_scan::{
    ALTERNATE_INVERSE_SCAN, ALTERNATE_SCAN, ZIGZAG_INVERSE_SCAN, apply_inverse_scan,
    inverse_scan_table, place_coefficient, scan_table,
};

const BLOCK_DC_SCAN: [[u8; 8]; 8] = [
    [0, 1, 5, 6, 14, 15, 27, 28],
    [2, 4, 7, 13, 16, 26, 29, 42],
    [3, 8, 12, 17, 25, 30, 41, 43],
    [9, 11, 18, 24, 31, 40, 44, 53],
    [10, 19, 23, 32, 39, 45, 52, 54],
    [20, 22, 33, 38, 46, 51, 55, 60],
    [21, 34, 37, 47, 50, 56, 59, 61],
    [35, 36, 48, 49, 57, 58, 62, 63],
];

fn block_dc_inverse_scan() -> [(u8, u8); 64] {
    let mut inverse = [(0u8, 0u8); 64];
    for v in 0..8u8 {
        for u in 0..8u8 {
            inverse[BLOCK_DC_SCAN[v as usize][u as usize] as usize] = (v, u);
        }
    }
    inverse
}

// ------------------------------------------------------------------
// Matrix-shape invariants — every cell in 0..=63 appears exactly once
// ------------------------------------------------------------------

fn assert_permutation(matrix: &[[u8; 8]; 8], label: &str) {
    let mut seen = [false; 64];
    for v in 0..8 {
        for u in 0..8 {
            let n = matrix[v][u] as usize;
            assert!(
                n < 64,
                "{label}: scan[{v}][{u}] = {n} out of range (must be < 64)",
            );
            assert!(
                !seen[n],
                "{label}: zig-zag index {n} appears twice (second hit at v={v} u={u})",
            );
            seen[n] = true;
        }
    }
    for n in 0..64 {
        assert!(
            seen[n],
            "{label}: zig-zag index {n} is missing from the matrix",
        );
    }
}

#[test]
fn alternate_scan_is_a_permutation_of_0_to_63() {
    assert_permutation(&ALTERNATE_SCAN, "ALTERNATE_SCAN (Figure 7-3)");
}

#[test]
fn zigzag_scan_via_block_dc_is_a_permutation_of_0_to_63() {
    assert_permutation(&BLOCK_DC_SCAN, "block_dc::SCAN (Figure 7-2)");
}

#[test]
fn figure_7_2_equals_block_dc_scan_cell_for_cell() {
    for v in 0..8 {
        for u in 0..8 {
            assert_eq!(
                scan_table(false)[v][u],
                BLOCK_DC_SCAN[v][u],
                "Figure 7-2 mismatch at v={v} u={u}",
            );
        }
    }
}

#[test]
fn zigzag_inverse_scan_matches_block_dc_inverse_scan() {
    for n in 0..64 {
        assert_eq!(
            ZIGZAG_INVERSE_SCAN[n], block_dc_inverse_scan()[n],
            "zig-zag inverse-scan mismatch at n={n}",
        );
    }
}

// ------------------------------------------------------------------
// Corner / endpoint spot-checks against the printed PDF
// ------------------------------------------------------------------

#[test]
fn figure_7_3_spec_corners() {
    assert_eq!(ALTERNATE_SCAN[0][0], 0);
    assert_eq!(ALTERNATE_SCAN[0][7], 52);
    assert_eq!(ALTERNATE_SCAN[7][0], 13);
    assert_eq!(ALTERNATE_SCAN[7][7], 63);
}

#[test]
fn figure_7_3_column_0_walks_down_first() {
    // Distinguishing feature of the alternate scan: the first
    // four rows of column 0 are 0,1,2,3 and the next four are
    // 10,11,12,13 — i.e. the scan walks down column 0 before
    // crossing to column 1, unlike Figure 7-2 which crosses
    // immediately.
    assert_eq!(ALTERNATE_SCAN[0][0], 0);
    assert_eq!(ALTERNATE_SCAN[1][0], 1);
    assert_eq!(ALTERNATE_SCAN[2][0], 2);
    assert_eq!(ALTERNATE_SCAN[3][0], 3);
    assert_eq!(ALTERNATE_SCAN[4][0], 10);
    assert_eq!(ALTERNATE_SCAN[5][0], 11);
    assert_eq!(ALTERNATE_SCAN[6][0], 12);
    assert_eq!(ALTERNATE_SCAN[7][0], 13);
}

#[test]
fn figure_7_3_row_0_matches_spec() {
    // Row 0 of Figure 7-3 (page 80): 0 4 6 20 22 36 38 52.
    assert_eq!(ALTERNATE_SCAN[0], [0, 4, 6, 20, 22, 36, 38, 52]);
}

#[test]
fn figure_7_3_row_7_matches_spec() {
    // Row 7 of Figure 7-3 (page 80): 13 14 29 33 45 49 59 63.
    assert_eq!(ALTERNATE_SCAN[7], [13, 14, 29, 33, 45, 49, 59, 63]);
}

#[test]
fn figure_7_3_diagonals_distinguish_from_figure_7_2() {
    // A second cross-check that we did not accidentally copy
    // Figure 7-2: confirm one cell that differs between the
    // two scans. scan[0][0][1] = 1 but scan[1][0][1] = 4.
    assert_eq!(BLOCK_DC_SCAN[0][1], 1);
    assert_eq!(ALTERNATE_SCAN[0][1], 4);
    // And scan[0][1][0] = 2 but scan[1][1][0] = 1.
    assert_eq!(BLOCK_DC_SCAN[1][0], 2);
    assert_eq!(ALTERNATE_SCAN[1][0], 1);
}

// ------------------------------------------------------------------
// Round-trip — forward · inverse = identity (both scans)
// ------------------------------------------------------------------

#[test]
fn alternate_scan_forward_and_inverse_round_trip() {
    for v in 0..8 {
        for u in 0..8 {
            let n = ALTERNATE_SCAN[v][u] as usize;
            let (v2, u2) = ALTERNATE_INVERSE_SCAN[n];
            assert_eq!(v2 as usize, v, "v mismatch for n={n}");
            assert_eq!(u2 as usize, u, "u mismatch for n={n}");
        }
    }
    // And the other direction: inverse → forward.
    for n in 0..64 {
        let (v, u) = ALTERNATE_INVERSE_SCAN[n];
        assert_eq!(ALTERNATE_SCAN[v as usize][u as usize] as usize, n);
    }
}

#[test]
fn zigzag_scan_forward_and_inverse_round_trip() {
    for v in 0..8 {
        for u in 0..8 {
            let n = BLOCK_DC_SCAN[v][u] as usize;
            let (v2, u2) = ZIGZAG_INVERSE_SCAN[n];
            assert_eq!(v2 as usize, v, "v mismatch for n={n}");
            assert_eq!(u2 as usize, u, "u mismatch for n={n}");
        }
    }
    for n in 0..64 {
        let (v, u) = ZIGZAG_INVERSE_SCAN[n];
        assert_eq!(BLOCK_DC_SCAN[v as usize][u as usize] as usize, n);
    }
}

// ------------------------------------------------------------------
// Selector
// ------------------------------------------------------------------

#[test]
fn scan_table_selector_branches_correctly() {
    // Compare by value rather than address: rustc is free to
    // instantiate a fresh static for a const reference returned
    // through a function, so `ptr::eq` is not a reliable identity
    // test here. Value equality is what callers actually depend on.
    assert_eq!(*scan_table(false), BLOCK_DC_SCAN);
    assert_eq!(*scan_table(true), ALTERNATE_SCAN);
    // And the two branches must be distinct from each other.
    assert_ne!(*scan_table(false), *scan_table(true));
}

#[test]
fn inverse_scan_table_selector_branches_correctly() {
    assert_eq!(*inverse_scan_table(false), ZIGZAG_INVERSE_SCAN);
    assert_eq!(*inverse_scan_table(true), ALTERNATE_INVERSE_SCAN);
    assert_ne!(*inverse_scan_table(false), *inverse_scan_table(true));
}

// ------------------------------------------------------------------
// place_coefficient
// ------------------------------------------------------------------

#[test]
fn place_coefficient_writes_at_zigzag_position() {
    let mut qf = [[0i16; 8]; 8];
    place_coefficient(&mut qf, 5, 42, false);
    assert_eq!(qf[0][2], 42);
    // Every other cell stays zero.
    for v in 0..8 {
        for u in 0..8 {
            if !(v == 0 && u == 2) {
                assert_eq!(qf[v][u], 0, "stray write at v={v} u={u}");
            }
        }
    }
}

#[test]
fn place_coefficient_writes_at_alternate_position() {
    let mut qf = [[0i16; 8]; 8];
    // Per Figure 7-3, n = 4 lands at (v, u) = (0, 1).
    place_coefficient(&mut qf, 4, -123, true);
    assert_eq!(qf[0][1], -123);
    // The same index n=4 under the zig-zag scan would land at
    // (v, u) = (1, 1) (per block_dc::SCAN row 1: 2,4,...) —
    // confirm the alternate placement does NOT touch that cell.
    assert_eq!(qf[1][1], 0);
}

#[test]
fn place_coefficient_index_0_lands_at_origin_for_both_scans() {
    // DC coefficient (n = 0) always lands at (0, 0) regardless
    // of scan flag — both Figure 7-2 and Figure 7-3 print 0
    // at the (0, 0) cell.
    let mut qf0 = [[0i16; 8]; 8];
    place_coefficient(&mut qf0, 0, 17, false);
    assert_eq!(qf0[0][0], 17);

    let mut qf1 = [[0i16; 8]; 8];
    place_coefficient(&mut qf1, 0, 17, true);
    assert_eq!(qf1[0][0], 17);
}

#[test]
fn place_coefficient_index_63_lands_at_corner_for_both_scans() {
    // Both scans land n = 63 at (7, 7).
    let mut qf0 = [[0i16; 8]; 8];
    place_coefficient(&mut qf0, 63, -9, false);
    assert_eq!(qf0[7][7], -9);

    let mut qf1 = [[0i16; 8]; 8];
    place_coefficient(&mut qf1, 63, -9, true);
    assert_eq!(qf1[7][7], -9);
}

#[test]
fn apply_inverse_scan_round_trips_through_zigzag() {
    let mut qf_in = [[0i16; 8]; 8];
    let mut next = 1i16;
    for row in &mut qf_in {
        for cell in row.iter_mut() {
            *cell = next;
            next += 1;
        }
    }

    // Forward — walk Figure 7-2 to flatten qf_in -> qfs.
    let mut qfs = [0i16; 64];
    for v in 0..8 {
        for u in 0..8 {
            let n = BLOCK_DC_SCAN[v][u] as usize;
            qfs[n] = qf_in[v][u];
        }
    }

    let qf_out = apply_inverse_scan(&qfs, false);
    assert_eq!(qf_out, qf_in);
}

#[test]
fn apply_inverse_scan_round_trips_through_alternate() {
    let mut qf_in = [[0i16; 8]; 8];
    let mut next = -100i16;
    for row in &mut qf_in {
        for cell in row.iter_mut() {
            *cell = next;
            next += 1;
        }
    }

    let mut qfs = [0i16; 64];
    for v in 0..8 {
        for u in 0..8 {
            let n = ALTERNATE_SCAN[v][u] as usize;
            qfs[n] = qf_in[v][u];
        }
    }

    let qf_out = apply_inverse_scan(&qfs, true);
    assert_eq!(qf_out, qf_in);
}

#[test]
fn apply_inverse_scan_agrees_with_repeated_place_coefficient() {
    let mut qfs = [0i16; 64];
    for (i, slot) in qfs.iter_mut().enumerate() {
        *slot = (i as i16) - 30;
    }

    for alt in [false, true] {
        let via_loop = apply_inverse_scan(&qfs, alt);

        let mut via_place = [[0i16; 8]; 8];
        for (n, &val) in qfs.iter().enumerate() {
            place_coefficient(&mut via_place, n, val, alt);
        }

        assert_eq!(via_loop, via_place, "scan flag = {alt}");
    }
}
