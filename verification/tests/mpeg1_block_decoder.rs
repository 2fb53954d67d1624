use oxideav_core::bits::{BitReader, BitWriter};
use oxideav_mpeg12video::dequantize::{DEFAULT_INTRA_QUANT, IntraBlockKind, IntraDcPredictors};
use oxideav_mpeg12video::mpeg1_block_decoder::{
    decode_intra_block, decode_non_intra_block, intra_block_kind,
};

fn basis(k: usize, n: usize) -> f64 {
    let scale = if k == 0 { (0.125f64).sqrt() } else { 0.5 };
    scale * ((2 * n + 1) as f64 * k as f64 * std::f64::consts::PI / 16.0).cos()
}

fn idct(f: [[i32; 8]; 8]) -> [[i16; 8]; 8] {
    let mut out = [[0i16; 8]; 8];
    for y in 0..8 {
        for x in 0..8 {
            let mut sum = 0.0f64;
            for v in 0..8 {
                for u in 0..8 {
                    sum += f64::from(f[v][u]) * basis(v, y) * basis(u, x);
                }
            }
            out[y][x] = (sum + 0.5).floor().clamp(-256.0, 255.0) as i16;
        }
    }
    out
}

const FLAT_16: [[u8; 8]; 8] = [[16u8; 8]; 8];

#[test]
fn intra_dc_only_block_reconstructs_flat_plane() {
    // Luminance DC prelude: dct_dc_size_luminance = 3 ('101'),
    // differential '111' -> dct_zz[0] = 7; then EOB ('10').
    let mut bw = BitWriter::new();
    bw.write_u32(0b101, 3);
    bw.write_u32(0b111, 3);
    bw.write_u32(0b10, 2);
    bw.align_to_byte();
    let buf = bw.into_bytes();
    let mut br = BitReader::new(&buf);
    let mut pred = IntraDcPredictors::at_slice_start();

    let out = decode_intra_block(&mut br, 0, 8, &DEFAULT_INTRA_QUANT, &mut pred, 0, &idct).unwrap();
    // dct_recon[0][0] = 7*8 + 128*8 (slice-start reset) = 1080.
    assert_eq!(out.f_quant[0][0], 1080);
    // DC-only IDCT is flat: f = round(1080 / 8) = 135.
    assert!(out.f_pel.iter().all(|row| row.iter().all(|&v| v == 135)));
    assert_eq!(pred.y_past, 1080);
}

#[test]
fn non_intra_first_coefficient_walk() {
    // dct_coeff_first: run 0, level 1 -> code '1' + sign 0.
    // Then EOB.
    let mut bw = BitWriter::new();
    bw.write_u32(0b1, 1); // run 0 / level 1 (first form)
    bw.write_bit(false); // sign +
    bw.write_u32(0b10, 2); // end_of_block
    bw.align_to_byte();
    let buf = bw.into_bytes();
    let mut br = BitReader::new(&buf);

    let out = decode_non_intra_block(&mut br, 2, &FLAT_16, &idct).unwrap();
    assert_eq!(out.qfs[0], 1);
    assert_eq!(out.f_quant[0][0], 5);
}

#[test]
fn intra_block_kind_mapping() {
    assert_eq!(intra_block_kind(0).unwrap(), IntraBlockKind::LuminanceFirst);
    for i in 1..=3 {
        assert_eq!(
            intra_block_kind(i).unwrap(),
            IntraBlockKind::LuminanceSubsequent
        );
    }
    assert_eq!(intra_block_kind(4).unwrap(), IntraBlockKind::ChrominanceCb);
    assert_eq!(intra_block_kind(5).unwrap(), IntraBlockKind::ChrominanceCr);
    assert!(intra_block_kind(6).is_err());
}
