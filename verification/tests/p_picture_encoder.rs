use oxideav_core::bits::BitWriter;
use oxideav_mpeg12video::frame_assembly::{FrameBuffer, IntraPictureParams};
use oxideav_mpeg12video::p_picture_encoder::{
    InterBlock, encode_p_picture, quantise_inter_block, reconstruct_inter_mb,
};
use oxideav_mpeg12video::picture::ChromaFormat;

fn basis(k: usize, n: usize) -> f64 {
    let scale = if k == 0 { (0.125f64).sqrt() } else { 0.5 };
    scale * ((2 * n + 1) as f64 * k as f64 * std::f64::consts::PI / 16.0).cos()
}

fn idct(f: [[i32; 8]; 8]) -> [[i16; 8]; 8] {
    let mut out = [[0i16; 8]; 8];
    for y in 0..8 {
        for x in 0..8 {
            let mut sum = 0.0f64;
            for v in 0..8 {
                for u in 0..8 {
                    sum += f64::from(f[v][u]) * basis(v, y) * basis(u, x);
                }
            }
            out[y][x] = (sum + 0.5).floor().clamp(-256.0, 255.0) as i16;
        }
    }
    out
}

fn fdct(f: [[i16; 8]; 8]) -> [[i32; 8]; 8] {
    let mut out = [[0i32; 8]; 8];
    for v in 0..8 {
        for u in 0..8 {
            let mut sum = 0.0f64;
            for y in 0..8 {
                for x in 0..8 {
                    sum += f64::from(f[y][x]) * basis(v, y) * basis(u, x);
                }
            }
            out[v][u] = (sum + 0.5).floor() as i32;
        }
    }
    out
}

fn params(width: usize, height: usize) -> IntraPictureParams {
    IntraPictureParams {
        progressive_sequence: true,
        width,
        height,
        chroma_format: ChromaFormat::Yuv420,
        frame_pred_frame_dct: true,
        intra_dc_precision: 0,
        intra_vlc_format: false,
        alternate_scan: false,
        q_scale_type: false,
    }
}

#[test]
fn reconstruct_inter_mb_zero_residual_copies_prediction() {
    let mut recon = FrameBuffer::new(16, 16, ChromaFormat::Yuv420);
    let luma_pred = vec![77u8; 256];
    let cb_pred = vec![88u8; 64];
    let cr_pred = vec![99u8; 64];
    let blocks: Vec<InterBlock> = (0..6)
        .map(|_| InterBlock {
            qf: None,
            f_pel: [[0i16; 8]; 8],
        })
        .collect();
    reconstruct_inter_mb(&mut recon, 0, 0, &(luma_pred, cb_pred, cr_pred), &blocks);
    assert_eq!(recon.y.get(0, 0), Some(77));
    assert_eq!(recon.y.get(15, 15), Some(77));
    assert_eq!(recon.cb.get(3, 3), Some(88));
    assert_eq!(recon.cr.get(7, 7), Some(99));
}

#[test]
fn quantise_inter_block_flat_zero_residual_is_uncoded() {
    let b = quantise_inter_block(&[[0i16; 8]; 8], 8, &fdct, &idct);
    assert!(b.qf.is_none());
    assert_eq!(b.f_pel, [[0i16; 8]; 8]);
}

#[test]
fn quantise_inter_block_structured_residual_is_coded() {
    let mut residual = [[0i16; 8]; 8];
    for v in 0..8 {
        for u in 0..8 {
            residual[v][u] = (((v * 8 + u) as i16 * 7) % 100) - 50;
        }
    }
    let b = quantise_inter_block(&residual, 4, &fdct, &idct);
    assert!(b.qf.is_some(), "structured residual must be coded");
}

#[test]
fn p_picture_header_uses_predictive_coding_type() {
    // Smoke check: encoding a tiny P picture against a flat reference
    // appends a picture layer and returns a same-size reconstruction.
    let mut bw = BitWriter::new();
    let current = {
        let mut f = FrameBuffer::new(16, 16, ChromaFormat::Yuv420);
        for y in 0..16 {
            for x in 0..16 {
                f.y.put_sample(x, y, (x * 8) as u8);
            }
        }
        for y in 0..8 {
            for x in 0..8 {
                f.cb.put_sample(x, y, 128);
                f.cr.put_sample(x, y, 128);
            }
        }
        f
    };
    let reference = current.clone();
    let recon = encode_p_picture(&mut bw, &current, &reference, params(16, 16), 1, 8, 1, &fdct, &idct)
        .expect("encode P");
    assert_eq!((recon.width, recon.height), (16, 16));
    // A flat-vs-itself prediction yields a near-zero residual; the
    // reconstruction tracks the source closely.
    let mut max_err = 0i32;
    for y in 0..16 {
        for x in 0..16 {
            let e = (i32::from(recon.y.get(x, y).unwrap())
                - i32::from(current.y.get(x, y).unwrap()))
            .abs();
            max_err = max_err.max(e);
        }
    }
    assert!(max_err <= 8, "P reconstruction max err {max_err}");
}
