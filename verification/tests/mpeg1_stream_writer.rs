use oxideav_core::bits::BitWriter;
use oxideav_mpeg12video::gop_header::GROUP_START_CODE;
use oxideav_mpeg12video::mpeg1_stream_writer::{
    CPB_MAX_BIT_RATE_VALUE, CPB_MAX_VBV_BUFFER_SIZE_VALUE, Mpeg1SequenceParams,
    constrained_parameters_admissible, write_mpeg1_sequence_header,
};
use oxideav_mpeg12video::sequence_extension::Mpeg2Sequence;
use oxideav_mpeg12video::sequence_header::{AspectRatio, Mpeg2SequenceHeader};

fn sif_params() -> Mpeg1SequenceParams {
    Mpeg1SequenceParams {
        horizontal_size: 352,
        vertical_size: 240,
        picture_rate_code: 5, // 30 pictures/s
        constrained_parameters_flag: true,
        ..Default::default()
    }
}

#[test]
fn sequence_header_roundtrips_through_the_parser() {
    let p = sif_params();
    let mut bw = BitWriter::new();
    write_mpeg1_sequence_header(&mut bw, &p);
    let bytes = bw.finish();
    // 32+12+12+4+4+18+1+10+1+1+1 = 96 bits = 12 bytes exactly.
    assert_eq!(bytes.len(), 12);

    let h = Mpeg2SequenceHeader::parse(&bytes).expect("parse");
    assert_eq!(h.width, 352);
    assert_eq!(h.height, 240);
    assert_eq!(h.aspect_ratio, AspectRatio::Square);
    assert_eq!(h.frame_rate_code, 5);
    assert_eq!(h.bit_rate, 4640);
    assert_eq!(h.vbv_buffer_size, 20);
    assert!(h.constrained_parameters);
    assert!(h.intra_quant.is_none());
    assert!(h.non_intra_quant.is_none());
}

#[test]
fn no_sequence_extension_follows_the_header() {
    // The MPEG-1 classification hinges on the *absence* of an
    // extension start code after the header: the chained MPEG-2
    // parser must fail on the bare header while the bare parser
    // succeeds.
    let mut bw = BitWriter::new();
    write_mpeg1_sequence_header(&mut bw, &sif_params());
    // Follow with a GOP start code, as a real MPEG-1 stream does.
    bw.write_u32(GROUP_START_CODE, 32);
    let bytes = bw.finish();
    assert!(Mpeg2SequenceHeader::parse(&bytes).is_ok());
    assert!(Mpeg2Sequence::from_buf(&bytes).is_err());
}

#[test]
fn cpb_sif_rates_are_admissible() {
    // 352x240 @ 29,97 or 30 Hz and 352x288 @ 25 Hz are the classic
    // constrained-parameters operating points.
    for (w, h, rate) in [(352u16, 240u16, 4u8), (352, 240, 5), (352, 288, 3)] {
        let p = Mpeg1SequenceParams {
            horizontal_size: w,
            vertical_size: h,
            picture_rate_code: rate,
            ..Default::default()
        };
        assert!(
            constrained_parameters_admissible(&p, 4, 4),
            "{w}x{h} rate code {rate}"
        );
    }
}

#[test]
fn cpb_rejects_each_violated_bound() {
    let base = sif_params();
    // horizontal_size > 768.
    let p = Mpeg1SequenceParams {
        horizontal_size: 769,
        ..base
    };
    assert!(!constrained_parameters_admissible(&p, 1, 1));
    // vertical_size > 576.
    let p = Mpeg1SequenceParams {
        vertical_size: 577,
        ..base
    };
    assert!(!constrained_parameters_admissible(&p, 1, 1));
    // Macroblock count: 768x592 would pass the raw size bounds
    // only via the 396-MB cap (48*37 = 1776 > 396).
    let p = Mpeg1SequenceParams {
        horizontal_size: 768,
        vertical_size: 576,
        ..base
    };
    assert!(!constrained_parameters_admissible(&p, 1, 1));
    // MB*rate: 396 MBs at 30 Hz exceeds 396*25.
    let p = Mpeg1SequenceParams {
        horizontal_size: 352,
        vertical_size: 288, // 22*18 = 396 MBs
        picture_rate_code: 5,
        ..base
    };
    assert!(!constrained_parameters_admissible(&p, 1, 1));
    // …but the same geometry at 25 Hz is exactly on the bound.
    let p = Mpeg1SequenceParams {
        horizontal_size: 352,
        vertical_size: 288,
        picture_rate_code: 3,
        ..base
    };
    assert!(constrained_parameters_admissible(&p, 1, 1));
    // picture_rate > 30 (50 Hz).
    let p = Mpeg1SequenceParams {
        picture_rate_code: 6,
        ..base
    };
    assert!(!constrained_parameters_admissible(&p, 1, 1));
    // f_codes above 4.
    assert!(!constrained_parameters_admissible(&base, 5, 1));
    assert!(!constrained_parameters_admissible(&base, 1, 5));
    assert!(constrained_parameters_admissible(&base, 4, 4));
    // Bit rate above 1 856 000 bit/s, or VBR.
    let p = Mpeg1SequenceParams {
        bit_rate_value: CPB_MAX_BIT_RATE_VALUE + 1,
        ..base
    };
    assert!(!constrained_parameters_admissible(&p, 1, 1));
    let p = Mpeg1SequenceParams {
        bit_rate_value: 0x3_FFFF,
        ..base
    };
    assert!(!constrained_parameters_admissible(&p, 1, 1));
    // VBV buffer above 327 680 bits.
    let p = Mpeg1SequenceParams {
        vbv_buffer_size_value: CPB_MAX_VBV_BUFFER_SIZE_VALUE + 1,
        ..base
    };
    assert!(!constrained_parameters_admissible(&p, 1, 1));
    // Undefined picture-rate code.
    let p = Mpeg1SequenceParams {
        picture_rate_code: 9,
        ..base
    };
    assert!(!constrained_parameters_admissible(&p, 1, 1));
}

#[test]
fn default_params_are_admissible_at_16x16() {
    assert!(constrained_parameters_admissible(
        &Mpeg1SequenceParams::default(),
        4,
        4
    ));
}
