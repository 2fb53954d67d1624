use oxideav_core::bits::{BitReader, BitWriter};
use oxideav_mpeg12video::error::Error;
use oxideav_mpeg12video::mpeg2_block_dc::{ColourComponent, DcPredictors};
use oxideav_mpeg12video::mpeg2_block_decoder::{BlockContext, decode_block, intra_dc_mult_local};
use oxideav_mpeg12video::mpeg2_dequantize::{
    BlockCoding, Component, DEFAULT_INTRA_WEIGHT, DEFAULT_NON_INTRA_WEIGHT,
    select_weighting_matrix_index,
};
use oxideav_mpeg12video::picture::ChromaFormat;

fn basis(k: usize, n: usize) -> f64 {
    let scale = if k == 0 { (0.125f64).sqrt() } else { 0.5 };
    scale * ((2 * n + 1) as f64 * k as f64 * std::f64::consts::PI / 16.0).cos()
}

fn idct(f: [[i32; 8]; 8]) -> [[i16; 8]; 8] {
    let mut out = [[0i16; 8]; 8];
    for y in 0..8 {
        for x in 0..8 {
            let mut sum = 0.0f64;
            for v in 0..8 {
                for u in 0..8 {
                    sum += f64::from(f[v][u]) * basis(v, y) * basis(u, x);
                }
            }
            out[y][x] = (sum + 0.5).floor().clamp(-256.0, 255.0) as i16;
        }
    }
    out
}

const EOB_B14_CODE: u32 = 0b10;
const EOB_B14_BITS: u32 = 2;

#[allow(dead_code)]
const EOB_B15_CODE: u32 = 0b0110;
#[allow(dead_code)]
const EOB_B15_BITS: u32 = 4;

fn write_b12_size(bw: &mut BitWriter, size: u8) {
    match size {
        0 => bw.write_u32(0b100, 3),
        1 => bw.write_u32(0b00, 2),
        _ => panic!("test helper covers sizes 0..=1 only; observed {size}"),
    }
}

fn write_b13_size(bw: &mut BitWriter, size: u8) {
    match size {
        0 => bw.write_u32(0b00, 2),
        _ => panic!("test helper covers size 0 only; observed {size}"),
    }
}

/// Tail-pad with a `0` and align to a byte so the BitReader has
/// at least one trailing byte to load past the payload (mirrors
/// the sibling-module test helpers).
fn pad(mut bw: BitWriter) -> Vec<u8> {
    bw.write_bit(false);
    bw.align_to_byte();
    bw.finish()
}

fn default_ctx() -> BlockContext {
    BlockContext {
        intra_vlc_format: false,
        alternate_scan: false,
        intra_dc_precision: 0,
        quantiser_scale_value: 8,
    }
}

#[test]
fn intra_block_with_size_zero_dc_and_immediate_eob_decodes_to_zero_residual() {
    let mut bw = BitWriter::new();
    write_b12_size(&mut bw, 0);
    bw.write_u32(EOB_B14_CODE, EOB_B14_BITS);
    let buf = pad(bw);
    let mut br = BitReader::new(&buf);
    let ctx = default_ctx();
    let mut dc = DcPredictors::new(0).unwrap();
    let weight = DEFAULT_INTRA_WEIGHT;

    let out =
        decode_block(&mut br, &ctx, &mut dc, ColourComponent::Y, true, &weight, &idct).expect("ok");

    assert_eq!(out.qfs[0], 128);
    // All other entries untouched.
    for &q in &out.qfs[1..] {
        assert_eq!(q, 0);
    }
    assert_eq!(out.qf[0][0], 128);
    assert_eq!(out.f_quant[0][0], 1024);
    let constant = out.f_pel[0][0];
    for v in 0..8 {
        for u in 0..8 {
            assert_eq!(out.f_pel[v][u], constant, "{v},{u}");
        }
    }
    assert_eq!(dc.get(ColourComponent::Y), 128);
}

#[test]
fn intra_block_with_size_one_positive_dc_updates_predictor() {
    let mut bw = BitWriter::new();
    // dct_dc_size_luminance = 1 → 2-bit code `00` per Table B-12.
    write_b12_size(&mut bw, 1);
    bw.write_bit(true); // dc_dct_differential = 1
    bw.write_u32(EOB_B14_CODE, EOB_B14_BITS);
    let buf = pad(bw);
    let mut br = BitReader::new(&buf);
    let mut dc = DcPredictors::new(0).unwrap();
    let out = decode_block(
        &mut br,
        &default_ctx(),
        &mut dc,
        ColourComponent::Y,
        true,
        &DEFAULT_INTRA_WEIGHT,
        &idct,
    )
    .expect("ok");
    assert_eq!(out.qfs[0], 129);
    assert_eq!(dc.get(ColourComponent::Y), 129);
}

#[test]
fn non_intra_block_with_immediate_eob_panics_at_first_position() {
    let mut bw = BitWriter::new();
    bw.write_u32(EOB_B14_CODE, EOB_B14_BITS);
    // The walker should fail before consuming any further bits;
    // tail-pad with a permissive byte either way.
    let buf = pad(bw);
    let mut br = BitReader::new(&buf);
    let mut dc = DcPredictors::new(0).unwrap();
    let result = decode_block(
        &mut br,
        &default_ctx(),
        &mut dc,
        ColourComponent::Y,
        false, // non-intra
        &DEFAULT_NON_INTRA_WEIGHT,
        &idct,
    );
    assert!(matches!(result, Err(Error::InvalidBitstream(_))));
}

#[test]
fn non_intra_block_with_first_one_then_eob_places_signed_level_at_index_zero() {
    let mut bw = BitWriter::new();
    // First coefficient: `1s` = `10` (level +1, run = 0).
    bw.write_bit(true); // codeword `1`
    bw.write_bit(false); // sign = positive
                         // EOB.
    bw.write_u32(EOB_B14_CODE, EOB_B14_BITS);
    let buf = pad(bw);
    let mut br = BitReader::new(&buf);
    let mut dc = DcPredictors::new(0).unwrap();
    let ctx = default_ctx();
    let out = decode_block(
        &mut br,
        &ctx,
        &mut dc,
        ColourComponent::Y,
        false,
        &DEFAULT_NON_INTRA_WEIGHT,
        &idct,
    )
    .expect("ok");
    assert_eq!(out.qfs[0], 1);
    for &q in &out.qfs[1..] {
        assert_eq!(q, 0);
    }
    assert_eq!(out.qf[0][0], 1);
    assert_eq!(out.f_quant[0][0], 12);
}

#[test]
fn cb_chroma_block_routes_to_b13_and_cb_predictor() {
    let mut bw = BitWriter::new();
    // dct_dc_size_chrominance = 0 → 2-bit Table B-13 code `00`.
    write_b13_size(&mut bw, 0);
    bw.write_u32(EOB_B14_CODE, EOB_B14_BITS);
    let buf = pad(bw);
    let mut br = BitReader::new(&buf);
    let mut dc = DcPredictors::new(0).unwrap();
    let out = decode_block(
        &mut br,
        &default_ctx(),
        &mut dc,
        ColourComponent::Cb,
        true,
        &DEFAULT_INTRA_WEIGHT,
        &idct,
    )
    .expect("ok");
    // Cb predictor reset value is 128 (Table 7-2 at
    // intra_dc_precision = 0), unchanged from Y.
    assert_eq!(out.qfs[0], 128);
    // Cb predictor is now 128 (= reset value); Y and Cr stay
    // at their independent reset values too.
    assert_eq!(dc.get(ColourComponent::Cb), 128);
    assert_eq!(dc.get(ColourComponent::Y), 128);
    assert_eq!(dc.get(ColourComponent::Cr), 128);
}

#[test]
fn mpeg2_block_decoder_quantiser_scale_value_zero_is_rejected() {
    let mut bw = BitWriter::new();
    write_b12_size(&mut bw, 0);
    bw.write_u32(EOB_B14_CODE, EOB_B14_BITS);
    let buf = pad(bw);
    let mut br = BitReader::new(&buf);
    let ctx = BlockContext {
        quantiser_scale_value: 0,
        ..default_ctx()
    };
    let mut dc = DcPredictors::new(0).unwrap();
    let result = decode_block(
        &mut br,
        &ctx,
        &mut dc,
        ColourComponent::Y,
        true,
        &DEFAULT_INTRA_WEIGHT,
        &idct,
    );
    assert!(matches!(result, Err(Error::InvalidBitstream(_))));
}

#[test]
fn mpeg2_block_decoder_intra_dc_precision_above_three_is_rejected() {
    let mut bw = BitWriter::new();
    write_b12_size(&mut bw, 0);
    bw.write_u32(EOB_B14_CODE, EOB_B14_BITS);
    let buf = pad(bw);
    let mut br = BitReader::new(&buf);
    let ctx = BlockContext {
        intra_dc_precision: 4,
        ..default_ctx()
    };
    // DcPredictors::new also rejects, so we must build it from
    // a valid precision and then mutate.
    let mut dc = DcPredictors::new(0).unwrap();
    dc.intra_dc_precision = 4;
    let result = decode_block(
        &mut br,
        &ctx,
        &mut dc,
        ColourComponent::Y,
        true,
        &DEFAULT_INTRA_WEIGHT,
        &idct,
    );
    assert!(matches!(result, Err(Error::InvalidBitstream(_))));
}

#[test]
fn predictor_intra_dc_precision_mismatch_is_rejected() {
    let mut bw = BitWriter::new();
    write_b12_size(&mut bw, 0);
    bw.write_u32(EOB_B14_CODE, EOB_B14_BITS);
    let buf = pad(bw);
    let mut br = BitReader::new(&buf);
    let ctx = BlockContext {
        intra_dc_precision: 1,
        ..default_ctx()
    };
    // dc_predictors at precision = 0 vs ctx at precision = 1.
    let mut dc = DcPredictors::new(0).unwrap();
    let result = decode_block(
        &mut br,
        &ctx,
        &mut dc,
        ColourComponent::Y,
        true,
        &DEFAULT_INTRA_WEIGHT,
        &idct,
    );
    assert!(matches!(result, Err(Error::InvalidBitstream(_))));
}

#[test]
fn intra_block_with_one_runlevel_after_dc_places_signed_level_at_index_one() {
    let mut bw = BitWriter::new();
    write_b12_size(&mut bw, 0); // intra DC: size = 0
                                // First residual: NEXT (0, +1) = `11` + sign `0`.
    bw.write_u32(0b11, 2);
    bw.write_bit(false); // positive
                         // EOB.
    bw.write_u32(EOB_B14_CODE, EOB_B14_BITS);
    let buf = pad(bw);
    let mut br = BitReader::new(&buf);
    let mut dc = DcPredictors::new(0).unwrap();
    let out = decode_block(
        &mut br,
        &default_ctx(),
        &mut dc,
        ColourComponent::Y,
        true,
        &DEFAULT_INTRA_WEIGHT,
        &idct,
    )
    .expect("ok");
    assert_eq!(out.qfs[0], 128); // DC = predictor reset = 128
    assert_eq!(out.qfs[1], 1); // first NEXT placed at zig-zag index 1
    for &q in &out.qfs[2..] {
        assert_eq!(q, 0);
    }
}

#[test]
fn intra_block_with_run_three_then_level_places_at_index_four() {
    let mut bw = BitWriter::new();
    write_b12_size(&mut bw, 0);
    // `(3, 1)` codeword + positive sign.
    bw.write_u32(0b0_0111, 5);
    bw.write_bit(false);
    // EOB.
    bw.write_u32(EOB_B14_CODE, EOB_B14_BITS);
    let buf = pad(bw);
    let mut br = BitReader::new(&buf);
    let mut dc = DcPredictors::new(0).unwrap();
    let out = decode_block(
        &mut br,
        &default_ctx(),
        &mut dc,
        ColourComponent::Y,
        true,
        &DEFAULT_INTRA_WEIGHT,
        &idct,
    )
    .expect("ok");
    assert_eq!(out.qfs[0], 128);
    assert_eq!(out.qfs[1], 0);
    assert_eq!(out.qfs[2], 0);
    assert_eq!(out.qfs[3], 0);
    assert_eq!(out.qfs[4], 1);
    for &q in &out.qfs[5..] {
        assert_eq!(q, 0);
    }
}

#[test]
fn alternate_scan_remaps_runlevel_placement_in_qf_matrix() {
    let mut bw = BitWriter::new();
    write_b12_size(&mut bw, 0);
    bw.write_u32(0b11, 2); // NEXT (0, 1)
    bw.write_bit(false); // positive
    bw.write_u32(EOB_B14_CODE, EOB_B14_BITS);
    let buf = pad(bw);
    let mut br = BitReader::new(&buf);
    let ctx = BlockContext {
        alternate_scan: true,
        ..default_ctx()
    };
    let mut dc = DcPredictors::new(0).unwrap();
    let out = decode_block(
        &mut br,
        &ctx,
        &mut dc,
        ColourComponent::Y,
        true,
        &DEFAULT_INTRA_WEIGHT,
        &idct,
    )
    .expect("ok");
    assert_eq!(out.qfs[0], 128);
    assert_eq!(out.qfs[1], 1);
    // QF[0][0] still gets the DC (zig-zag index 0 → (0, 0)
    // under both Figure 7-2 and Figure 7-3).
    assert_eq!(out.qf[0][0], 128);
    // Under Figure 7-3 (alternate), zig-zag index 1 maps to a
    // cell other than `(0, 1)`. The exact target is governed
    // by `mpeg2_inverse_scan::ALTERNATE_INVERSE_SCAN`; we
    // assert non-equality with the zig-zag mapping.
    assert_ne!(
        out.qf[0][1], 1,
        "alternate_scan should NOT place QFS[1] at (0, 1)"
    );
}

#[test]
fn end_of_block_bit_position_matches_buffer_position_after_walker() {
    // Round-trip the cursor accounting: after the walker has
    // consumed every codeword the driver reports the EOB bit
    // position, which must equal `br.bit_position()` once we
    // return.
    let mut bw = BitWriter::new();
    write_b12_size(&mut bw, 0); // 3 bits
                                // EOB.
    bw.write_u32(EOB_B14_CODE, EOB_B14_BITS); // 2 bits
    let buf = pad(bw);
    let mut br = BitReader::new(&buf);
    let mut dc = DcPredictors::new(0).unwrap();
    let out = decode_block(
        &mut br,
        &default_ctx(),
        &mut dc,
        ColourComponent::Y,
        true,
        &DEFAULT_INTRA_WEIGHT,
        &idct,
    )
    .expect("ok");
    // 3 (B-12 size = 0 codeword) + 2 (EOB) = 5 bits consumed.
    assert_eq!(out.end_of_block_bit_position, 5);
    assert_eq!(br.bit_position(), 5);
}

#[test]
fn block_context_is_constructible_alongside_weighting_matrix_resolver() {
    let idx = select_weighting_matrix_index(
        BlockCoding::Intra,
        Component::Luminance,
        ChromaFormat::Yuv420,
    );
    assert_eq!(idx, 0);
}

#[test]
fn intra_block_intra_dc_precision_one_uses_table_7_2_reset_256() {
    let mut bw = BitWriter::new();
    write_b12_size(&mut bw, 0);
    bw.write_u32(EOB_B14_CODE, EOB_B14_BITS);
    let buf = pad(bw);
    let mut br = BitReader::new(&buf);
    let ctx = BlockContext {
        intra_dc_precision: 1,
        ..default_ctx()
    };
    let mut dc = DcPredictors::new(1).unwrap();
    let out = decode_block(
        &mut br,
        &ctx,
        &mut dc,
        ColourComponent::Y,
        true,
        &DEFAULT_INTRA_WEIGHT,
        &idct,
    )
    .expect("ok");
    assert_eq!(out.qfs[0], 256);
    assert_eq!(out.qf[0][0], 256);
    assert_eq!(out.f_quant[0][0], 1024);
}

#[test]
fn intra_dc_mult_local_matches_table_7_4() {
    assert_eq!(intra_dc_mult_local(0).unwrap(), 8);
    assert_eq!(intra_dc_mult_local(1).unwrap(), 4);
    assert_eq!(intra_dc_mult_local(2).unwrap(), 2);
    assert_eq!(intra_dc_mult_local(3).unwrap(), 1);
    assert!(intra_dc_mult_local(4).is_err());
}

#[test]
fn run_plus_position_exceeding_63_is_rejected() {
    // Construct a non-intra block where the first RunLevel has
    // run = 63 (escape) and place it at walker_index = 1 to
    // overflow `QFS[]`. The driver must reject with
    // InvalidBitstream.
    //
    // Walker_index starts at 0 for non-intra; we want it at 1
    // before the offending codeword. Emit a leading FIRST
    // (0, +1) (the 1-bit `1` + sign `0`), then an escape with
    // run = 63, signed_level = +1.
    //
    // Table B-16 escape: `000001` prefix + 6-bit run + 12-bit
    // signed_level. signed_level +1 encodes as `0000 0000 0001`.
    let mut bw = BitWriter::new();
    bw.write_bit(true); // first FIRST codeword: `1` + sign
    bw.write_bit(false); // positive
                         // escape prefix
    bw.write_u32(0b000001, 6);
    bw.write_u32(63, 6); // run
    bw.write_u32(0b0000_0000_0001, 12); // signed_level = +1
    let buf = pad(bw);
    let mut br = BitReader::new(&buf);
    let mut dc = DcPredictors::new(0).unwrap();
    let result = decode_block(
        &mut br,
        &default_ctx(),
        &mut dc,
        ColourComponent::Y,
        false,
        &DEFAULT_NON_INTRA_WEIGHT,
        &idct,
    );
    // walker_index after the leading (0, +1) = 1.
    // Second symbol: run = 63, target = 1 + 63 = 64 → reject.
    assert!(matches!(result, Err(Error::InvalidBitstream(_))));
}

#[test]
fn a_block_needs_no_room_in_the_predictors_of_other_components() {
    let mut bw = BitWriter::new();
    write_b12_size(&mut bw, 1);
    bw.write_bit(true);
    bw.write_u32(EOB_B14_CODE, EOB_B14_BITS);
    let buf = pad(bw);
    let mut br = BitReader::new(&buf);
    let mut dc = DcPredictors::new(0).unwrap();
    dc.set(ColourComponent::Cb, i32::MAX);
    dc.set(ColourComponent::Cr, i32::MIN);
    let out = decode_block(
        &mut br,
        &default_ctx(),
        &mut dc,
        ColourComponent::Y,
        true,
        &DEFAULT_INTRA_WEIGHT,
        &idct,
    )
    .expect("ok");
    assert_eq!(out.qfs[0], 129);
    assert_eq!(dc.get(ColourComponent::Y), out.qfs[0]);
    assert_eq!(dc.get(ColourComponent::Cb), i32::MAX);
    assert_eq!(dc.get(ColourComponent::Cr), i32::MIN);
    assert_eq!(out.end_of_block_bit_position, br.bit_position());
    for row in out.f_pel {
        for sample in row {
            assert!((-256..=255).contains(&sample));
        }
    }
}
