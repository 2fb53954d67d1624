use oxideav_core::bits::{BitReader, BitWriter};
use oxideav_mpeg12video::coded_block_pattern::CodedBlockPattern;
use oxideav_mpeg12video::error::Error;
use oxideav_mpeg12video::macroblock_type::MacroblockType;
use oxideav_mpeg12video::mpeg2_block_dc::{ColourComponent, DcPredictors};
use oxideav_mpeg12video::mpeg2_dequantize::{DEFAULT_INTRA_WEIGHT, DEFAULT_NON_INTRA_WEIGHT};
use oxideav_mpeg12video::mpeg2_macroblock_blocks::{
    DEFAULT_WEIGHT_MATRICES, MacroblockBlockContext, block_component, block_count,
    decode_macroblock_blocks,
};
use oxideav_mpeg12video::picture::ChromaFormat;

fn basis(k: usize, n: usize) -> f64 {
    let scale = if k == 0 { (0.125f64).sqrt() } else { 0.5 };
    scale * ((2 * n + 1) as f64 * k as f64 * std::f64::consts::PI / 16.0).cos()
}

fn idct(f: [[i32; 8]; 8]) -> [[i16; 8]; 8] {
    let mut out = [[0i16; 8]; 8];
    for y in 0..8 {
        for x in 0..8 {
            let mut sum = 0.0f64;
            for v in 0..8 {
                for u in 0..8 {
                    sum += f64::from(f[v][u]) * basis(v, y) * basis(u, x);
                }
            }
            out[y][x] = (sum + 0.5).floor().clamp(-256.0, 255.0) as i16;
        }
    }
    out
}

// ---- Helpers (mirroring mpeg2_block_decoder's test layout) ----

/// Table B-14 EOB = `10` (2 bits).
const EOB_B14_CODE: u32 = 0b10;
const EOB_B14_BITS: u32 = 2;

/// Table B-12 (`dct_dc_size_luminance`) size 0 → `100` (3 bits).
fn write_b12_size_zero(bw: &mut BitWriter) {
    bw.write_u32(0b100, 3);
}

/// Table B-13 (`dct_dc_size_chrominance`) size 0 → `00` (2 bits).
fn write_b13_size_zero(bw: &mut BitWriter) {
    bw.write_u32(0b00, 2);
}

/// Tail-pad with a `0` and align to a byte so the BitReader has
/// at least one trailing byte to load past the payload.
fn pad(mut bw: BitWriter) -> Vec<u8> {
    bw.write_bit(false);
    bw.align_to_byte();
    bw.finish()
}

/// Emit the wire syntax for one intra block whose DC-size is 0
/// (Table B-12 / B-13 `size = 0`) and whose residual is just an
/// immediate end_of_block. Six bits total (Y) or five (Cb/Cr).
fn write_size_zero_intra_block(bw: &mut BitWriter, component: ColourComponent) {
    match component {
        ColourComponent::Y => write_b12_size_zero(bw),
        ColourComponent::Cb | ColourComponent::Cr => write_b13_size_zero(bw),
    }
    bw.write_u32(EOB_B14_CODE, EOB_B14_BITS);
}

fn mt_intra() -> MacroblockType {
    MacroblockType {
        macroblock_quant: false,
        macroblock_motion_forward: false,
        macroblock_motion_backward: false,
        macroblock_pattern: false,
        macroblock_intra: true,
        spatial_temporal_weight_code_flag: false,
        bit_position_after: 0,
    }
}

fn mt_inter_pattern() -> MacroblockType {
    MacroblockType {
        macroblock_quant: false,
        macroblock_motion_forward: true,
        macroblock_motion_backward: false,
        macroblock_pattern: true,
        macroblock_intra: false,
        spatial_temporal_weight_code_flag: false,
        bit_position_after: 0,
    }
}

fn cbp_full() -> CodedBlockPattern {
    CodedBlockPattern {
        cbp: 0b111111,
        coded_block_pattern_1: None,
        coded_block_pattern_2: None,
        bit_position_after: 0,
    }
}

fn default_ctx(chroma: ChromaFormat) -> MacroblockBlockContext<'static> {
    MacroblockBlockContext::with_default_weight_matrices(
        false, // intra_vlc_format
        false, // alternate_scan
        0,     // intra_dc_precision
        8,     // quantiser_scale_value
        chroma,
    )
}

// ---- block_component coverage ----

#[test]
fn block_component_420_assigns_first_four_to_luma() {
    for i in 0..4 {
        assert_eq!(
            block_component(i, ChromaFormat::Yuv420),
            Some(ColourComponent::Y),
            "i={i}",
        );
    }
}

#[test]
fn block_component_420_assigns_index_4_to_cb_index_5_to_cr() {
    assert_eq!(
        block_component(4, ChromaFormat::Yuv420),
        Some(ColourComponent::Cb),
    );
    assert_eq!(
        block_component(5, ChromaFormat::Yuv420),
        Some(ColourComponent::Cr),
    );
}

#[test]
fn block_component_420_returns_none_past_block_count() {
    for i in 6..16 {
        assert_eq!(
            block_component(i, ChromaFormat::Yuv420),
            None,
            "i={i} is past the 4:2:0 block_count",
        );
    }
}

#[test]
fn block_component_422_assigns_cb_to_4_5_and_cr_to_6_7() {
    for i in 4..=5 {
        assert_eq!(
            block_component(i, ChromaFormat::Yuv422),
            Some(ColourComponent::Cb),
            "i={i}",
        );
    }
    for i in 6..=7 {
        assert_eq!(
            block_component(i, ChromaFormat::Yuv422),
            Some(ColourComponent::Cr),
            "i={i}",
        );
    }
}

#[test]
fn block_component_444_assigns_cb_to_4_7_and_cr_to_8_11() {
    for i in 4..=7 {
        assert_eq!(
            block_component(i, ChromaFormat::Yuv444),
            Some(ColourComponent::Cb),
            "i={i}",
        );
    }
    for i in 8..=11 {
        assert_eq!(
            block_component(i, ChromaFormat::Yuv444),
            Some(ColourComponent::Cr),
            "i={i}",
        );
    }
}

#[test]
fn block_count_matches_section_6_1_1_8() {
    assert_eq!(block_count(ChromaFormat::Yuv420), 6);
    assert_eq!(block_count(ChromaFormat::Yuv422), 8);
    assert_eq!(block_count(ChromaFormat::Yuv444), 12);
}

// ---- Driver behaviour ----

#[test]
fn intra_macroblock_420_walks_six_blocks_yyyy_cb_cr() {
    let mut bw = BitWriter::new();
    for _ in 0..4 {
        write_size_zero_intra_block(&mut bw, ColourComponent::Y);
    }
    write_size_zero_intra_block(&mut bw, ColourComponent::Cb);
    write_size_zero_intra_block(&mut bw, ColourComponent::Cr);
    let buf = pad(bw);
    let mut br = BitReader::new(&buf);

    let ctx = default_ctx(ChromaFormat::Yuv420);
    let mut dc = DcPredictors::new(0).unwrap();
    let mt = mt_intra();
    let cbp = CodedBlockPattern {
        cbp: 0,
        coded_block_pattern_1: None,
        coded_block_pattern_2: None,
        bit_position_after: 0,
    };

    let out =
        decode_macroblock_blocks(&mut br, &ctx, &mut dc, &mt, &cbp, &idct).expect("six blocks decode");
    assert_eq!(out.len(), 6, "4:2:0 intra MB has six coded blocks");
    // Block indices walk 0..=5 in order.
    let indices: Vec<u8> = out.iter().map(|b| b.block_index).collect();
    assert_eq!(indices, vec![0, 1, 2, 3, 4, 5]);
    // Components: Y, Y, Y, Y, Cb, Cr.
    let comps: Vec<ColourComponent> = out.iter().map(|b| b.component).collect();
    assert_eq!(
        comps,
        vec![
            ColourComponent::Y,
            ColourComponent::Y,
            ColourComponent::Y,
            ColourComponent::Y,
            ColourComponent::Cb,
            ColourComponent::Cr,
        ]
    );
    for db in &out {
        assert_eq!(db.decoded.qfs[0], 128, "block {}", db.block_index);
    }
    // Predictors landed at 128 for each independent cell.
    assert_eq!(dc.get(ColourComponent::Y), 128);
    assert_eq!(dc.get(ColourComponent::Cb), 128);
    assert_eq!(dc.get(ColourComponent::Cr), 128);
}

#[test]
fn pattern_code_gates_skip_uncoded_slots_in_bitstream() {
    let mut bw = BitWriter::new();
    for _ in 0..2 {
        bw.write_bit(true); // (0, +1) FIRST codeword `1`
        bw.write_bit(false); // sign +
        bw.write_u32(EOB_B14_CODE, EOB_B14_BITS);
    }
    let buf = pad(bw);
    let mut br = BitReader::new(&buf);

    let ctx = default_ctx(ChromaFormat::Yuv420);
    let mut dc = DcPredictors::new(0).unwrap();
    let mt = mt_inter_pattern();
    // CBP value: pattern_code is computed from the high-to-low
    // bit numbering of `cbp` (see CodedBlockPattern::pattern_code
    // tests in src/coded_block_pattern.rs). The pattern we want
    // is [F, T, F, T, F, F], i.e. blocks 1 and 3 set: 0b010100.
    let cbp = CodedBlockPattern {
        cbp: 0b010100,
        coded_block_pattern_1: None,
        coded_block_pattern_2: None,
        bit_position_after: 0,
    };

    let out = decode_macroblock_blocks(&mut br, &ctx, &mut dc, &mt, &cbp, &idct)
        .expect("two-block walk decodes");
    assert_eq!(out.len(), 2, "only the two coded slots are walked");
    let indices: Vec<u8> = out.iter().map(|b| b.block_index).collect();
    assert_eq!(indices, vec![1, 3]);
    // Both blocks were Y (indices < 4).
    for db in &out {
        assert_eq!(db.component, ColourComponent::Y);
    }
}

#[test]
fn non_intra_macroblock_resets_dc_predictors_per_section_7_2_1() {
    let ctx = default_ctx(ChromaFormat::Yuv420);
    let mut dc = DcPredictors::new(0).unwrap();
    // Seed the predictors to a non-reset value so we can see
    // the reset happen.
    dc.luma = 500;
    dc.cb = 600;
    dc.cr = 700;
    // Non-intra MB with `macroblock_pattern = false` → cbp
    // doesn't contribute; pattern_code is all-false.
    let mt = MacroblockType {
        macroblock_quant: false,
        macroblock_motion_forward: true,
        macroblock_motion_backward: false,
        macroblock_pattern: false,
        macroblock_intra: false,
        spatial_temporal_weight_code_flag: false,
        bit_position_after: 0,
    };
    let cbp = CodedBlockPattern {
        cbp: 0,
        coded_block_pattern_1: None,
        coded_block_pattern_2: None,
        bit_position_after: 0,
    };
    let buf = [0u8; 4];
    let mut br = BitReader::new(&buf);
    let out = decode_macroblock_blocks(&mut br, &ctx, &mut dc, &mt, &cbp, &idct)
        .expect("empty walk decodes");
    assert!(out.is_empty(), "no coded blocks");
    assert_eq!(dc.luma, 128);
    assert_eq!(dc.cb, 128);
    assert_eq!(dc.cr, 128);
}

#[test]
fn intra_macroblock_does_not_reset_predictors_at_macroblock_start() {
    let ctx = default_ctx(ChromaFormat::Yuv420);
    let mut dc = DcPredictors::new(0).unwrap();
    // Seed Y to 200 — if the driver resets it, the size-0
    // intra block's QFS[0] will land at 128 (reset) + 0
    // (diff) = 128. If the driver preserves the predictor,
    // QFS[0] lands at 200 + 0 = 200.
    dc.luma = 200;

    let mut bw = BitWriter::new();
    write_size_zero_intra_block(&mut bw, ColourComponent::Y);
    let buf = pad(bw);
    let mut br = BitReader::new(&buf);

    // Single-block intra MB: pattern_code is all-true for intra.
    // We can't easily build a single-block MB without 4+1+1
    // blocks for 4:2:0 — so instead, use the size-zero intra
    // block for Y, but we'd need 6 of them. Instead just
    // assert pre-walk that the driver does not invoke a reset:
    // check that the predictor's first-block update produces
    // QFS[0] == 200 (preserved), not 128 (reset).
    let mt = mt_intra();
    let cbp = CodedBlockPattern {
        cbp: 0,
        coded_block_pattern_1: None,
        coded_block_pattern_2: None,
        bit_position_after: 0,
    };

    // We'd need 6 blocks in the bitstream for a full intra
    // walk; instead we just check the first block's QFS[0]
    // by emitting 6 size-zero Y blocks (cheaper than emitting
    // distinct Cb/Cr blocks, and we only assert the FIRST
    // block's QFS[0]).
    let mut bw2 = BitWriter::new();
    for _ in 0..4 {
        write_size_zero_intra_block(&mut bw2, ColourComponent::Y);
    }
    write_size_zero_intra_block(&mut bw2, ColourComponent::Cb);
    write_size_zero_intra_block(&mut bw2, ColourComponent::Cr);
    let buf2 = pad(bw2);
    let mut br2 = BitReader::new(&buf2);
    // br was for the single-block sketch; not used further.
    let _ = &mut br;

    let out = decode_macroblock_blocks(&mut br2, &ctx, &mut dc, &mt, &cbp, &idct)
        .expect("six-block intra walk");
    assert_eq!(out.len(), 6);
    // First Y block's QFS[0]: predictor was 200, dct_diff = 0,
    // so QFS[0] = 200. If the driver had reset, this would be
    // 128 instead.
    assert_eq!(
        out[0].decoded.qfs[0], 200,
        "intra MB must preserve the DC predictor at MB entry"
    );
}

#[test]
fn weighting_matrix_dispatch_uses_chroma_matrix_for_chroma_block_at_4_4_4() {
    let mut intra_luma = DEFAULT_INTRA_WEIGHT;
    let mut non_intra_luma = DEFAULT_NON_INTRA_WEIGHT;
    let intra_chroma = DEFAULT_INTRA_WEIGHT;
    let mut non_intra_chroma = DEFAULT_NON_INTRA_WEIGHT;
    for row in non_intra_chroma.iter_mut() {
        for cell in row.iter_mut() {
            *cell = 32;
        }
    }
    // Leave luma matrices at the default so a luma block (if
    // we accidentally route there) is recognisable.
    for row in intra_luma.iter_mut() {
        for cell in row.iter_mut() {
            *cell = 16;
        }
    }
    for row in non_intra_luma.iter_mut() {
        for cell in row.iter_mut() {
            *cell = 16;
        }
    }
    let matrices = [intra_luma, non_intra_luma, intra_chroma, non_intra_chroma];

    let ctx = MacroblockBlockContext {
        intra_vlc_format: false,
        alternate_scan: false,
        intra_dc_precision: 0,
        quantiser_scale_value: 8,
        chroma_format: ChromaFormat::Yuv444,
        weight_matrices: &matrices,
    };

    let mut bw = BitWriter::new();
    // Block 4 body: `(0, +1) FIRST` `10` then EOB `10`.
    bw.write_bit(true); // codeword `1` for level +1 at run 0 FIRST
    bw.write_bit(false); // sign positive
    bw.write_u32(EOB_B14_CODE, EOB_B14_BITS);
    let buf = pad(bw);
    let mut br = BitReader::new(&buf);

    let mut dc = DcPredictors::new(0).unwrap();
    let mt = mt_inter_pattern();
    let cbp = CodedBlockPattern {
        cbp: 0b000010,
        coded_block_pattern_1: None,
        coded_block_pattern_2: None,
        bit_position_after: 0,
    };

    let out =
        decode_macroblock_blocks(&mut br, &ctx, &mut dc, &mt, &cbp, &idct).expect("one-block walk");
    assert_eq!(out.len(), 1);
    assert_eq!(out[0].block_index, 4);
    assert_eq!(out[0].component, ColourComponent::Cb);
    assert_eq!(
        out[0].decoded.f_quant[0][0], 24,
        "Table 7-5 must pick the chroma weighting matrix (w = 3) for a non-intra chroma block"
    );
}

#[test]
fn mpeg2_macroblock_blocks_intra_dc_precision_above_three_is_rejected() {
    let ctx = MacroblockBlockContext {
        intra_vlc_format: false,
        alternate_scan: false,
        intra_dc_precision: 4,
        quantiser_scale_value: 8,
        chroma_format: ChromaFormat::Yuv420,
        weight_matrices: &DEFAULT_WEIGHT_MATRICES,
    };
    let buf = [0u8; 1];
    let mut br = BitReader::new(&buf);
    let mut dc = DcPredictors::new(0).unwrap();
    let mt = mt_intra();
    let cbp = cbp_full();
    let result = decode_macroblock_blocks(&mut br, &ctx, &mut dc, &mt, &cbp, &idct);
    assert!(matches!(result, Err(Error::InvalidBitstream(_))));
}

#[test]
fn mpeg2_macroblock_blocks_quantiser_scale_value_zero_is_rejected() {
    let ctx = MacroblockBlockContext {
        intra_vlc_format: false,
        alternate_scan: false,
        intra_dc_precision: 0,
        quantiser_scale_value: 0,
        chroma_format: ChromaFormat::Yuv420,
        weight_matrices: &DEFAULT_WEIGHT_MATRICES,
    };
    let buf = [0u8; 1];
    let mut br = BitReader::new(&buf);
    let mut dc = DcPredictors::new(0).unwrap();
    let mt = mt_intra();
    let cbp = cbp_full();
    let result = decode_macroblock_blocks(&mut br, &ctx, &mut dc, &mt, &cbp, &idct);
    assert!(matches!(result, Err(Error::InvalidBitstream(_))));
}

#[test]
fn predictor_context_precision_mismatch_is_rejected() {
    let ctx = MacroblockBlockContext {
        intra_vlc_format: false,
        alternate_scan: false,
        intra_dc_precision: 1, // ctx says 1
        quantiser_scale_value: 8,
        chroma_format: ChromaFormat::Yuv420,
        weight_matrices: &DEFAULT_WEIGHT_MATRICES,
    };
    let buf = [0u8; 1];
    let mut br = BitReader::new(&buf);
    let mut dc = DcPredictors::new(0).unwrap(); // predictor says 0
    let mt = mt_intra();
    let cbp = cbp_full();
    let result = decode_macroblock_blocks(&mut br, &ctx, &mut dc, &mt, &cbp, &idct);
    assert!(matches!(result, Err(Error::InvalidBitstream(_))));
}

#[test]
fn first_failing_block_propagates_and_stops_the_walk() {
    let mut bw = BitWriter::new();
    for _ in 0..4 {
        write_size_zero_intra_block(&mut bw, ColourComponent::Y);
    }
    // Cb starts: emit a 1-bit prefix `0` and then truncate (no
    // pad). Cb size-0 codeword in B-13 is `00` (2 bits); we
    // emit only 1 bit and stop, leaving the BitReader to hit
    // ShortHeader on the second size bit.
    bw.write_bit(false);
    // Don't pad — drop the trailing byte alignment.
    let buf = bw.finish();
    let mut br = BitReader::new(&buf);

    let ctx = default_ctx(ChromaFormat::Yuv420);
    let mut dc = DcPredictors::new(0).unwrap();
    let mt = mt_intra();
    let cbp = cbp_full();
    let result = decode_macroblock_blocks(&mut br, &ctx, &mut dc, &mt, &cbp, &idct);
    assert!(
        matches!(
            result,
            Err(Error::ShortHeader) | Err(Error::InvalidBitstream(_))
        ),
        "the partial Cb block must surface as Short or InvalidBitstream"
    );
}
