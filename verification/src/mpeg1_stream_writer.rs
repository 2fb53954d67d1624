//! The MPEG-1 sequence header, and the bounds of constrained parameters.

use crate::arith::blocks_of_16;
use crate::bits::{lemma_value_bits_len, value_bits, writer_bits, zero_padded};
use crate::gop_header::{nominal_pictures_per_second, nominal_rate};
use oxideav_core::bits::BitWriter;
use vstd::prelude::*;

verus! {

/// The start code of a sequence header.
pub const SEQUENCE_HEADER_CODE: u32 = 0x0000_01B3;

/// The fields of an MPEG-1 sequence header with the default matrices.
#[derive(Debug, Clone, Copy, PartialEq, Eq)]
pub struct Mpeg1SequenceParams {
    /// The width in samples, 12 bits.
    pub horizontal_size: u16,
    /// The height in lines, 12 bits.
    pub vertical_size: u16,
    /// The shape of a sample, 4 bits; 1 for square ones.
    pub pel_aspect_ratio_code: u8,
    /// The picture rate, 4 bits; from 1 to 8.
    pub picture_rate_code: u8,
    /// The bit rate in units of 400 bits a second, 18 bits; all ones for a
    /// variable rate.
    pub bit_rate_value: u32,
    /// The size of the VBV buffer in units of 16384 bits, 10 bits.
    pub vbv_buffer_size_value: u16,
    pub constrained_parameters_flag: bool,
}

impl Default for Mpeg1SequenceParams {
    /// One macroblock of square samples, 25 pictures a second, at the greatest
    /// constrained rate and buffer.
    fn default() -> (p: Self)
        ensures
            p == (Mpeg1SequenceParams {
                horizontal_size: 16,
                vertical_size: 16,
                pel_aspect_ratio_code: 1,
                picture_rate_code: 3,
                bit_rate_value: 4640,
                vbv_buffer_size_value: 20,
                constrained_parameters_flag: false,
            }),
    {
        Mpeg1SequenceParams {
            horizontal_size: 16,
            vertical_size: 16,
            pel_aspect_ratio_code: 1,
            picture_rate_code: 3,
            bit_rate_value: 4640,
            vbv_buffer_size_value: 20,
            constrained_parameters_flag: false,
        }
    }
}

/// The greatest constrained bit rate, 1856000 bits a second, in units of 400.
pub const CPB_MAX_BIT_RATE_VALUE: u32 = 4640;

/// The greatest constrained VBV buffer, 327680 bits, in units of 16384.
pub const CPB_MAX_VBV_BUFFER_SIZE_VALUE: u16 = 20;

/// How many macroblocks a picture has.
pub open spec fn macroblocks(p: Mpeg1SequenceParams) -> int {
    blocks_of_16(p.horizontal_size as int) * blocks_of_16(p.vertical_size as int)
}

/// Whether a sequence keeps every bound of constrained parameters.
pub open spec fn constrained(
    p: Mpeg1SequenceParams,
    max_forward_f_code: u8,
    max_backward_f_code: u8,
) -> bool {
    match nominal_rate(p.picture_rate_code) {
        None => false,
        Some(rate) => {
            &&& p.horizontal_size <= 768
            &&& p.vertical_size <= 576
            &&& macroblocks(p) <= 396
            &&& macroblocks(p) * rate <= 396 * 25
            &&& rate <= 30
            &&& max_forward_f_code <= 4
            &&& max_backward_f_code <= 4
            &&& p.bit_rate_value != 0x3_FFFF
            &&& p.bit_rate_value <= CPB_MAX_BIT_RATE_VALUE
            &&& p.vbv_buffer_size_value <= CPB_MAX_VBV_BUFFER_SIZE_VALUE
        },
    }
}

/// Whether a sequence whose greatest `f_code` values are as given may set its
/// `constrained_parameters_flag`.
pub fn constrained_parameters_admissible(
    p: &Mpeg1SequenceParams,
    max_forward_f_code: u8,
    max_backward_f_code: u8,
) -> (r: bool)
    ensures
        r == constrained(*p, max_forward_f_code, max_backward_f_code),
{
    let rate: u64 = match nominal_pictures_per_second(p.picture_rate_code) {
        Ok(rate) => rate as u64,
        Err(_) => {
            return false;
        },
    };
    let mb_w: u64 = (p.horizontal_size as u64 + 15) / 16;
    let mb_h: u64 = (p.vertical_size as u64 + 15) / 16;
    assert(0 <= mb_w * mb_h <= 4096 * 4096) by (nonlinear_arith)
        requires
            0 <= mb_w <= 4096,
            0 <= mb_h <= 4096,
    ;
    let mb_count: u64 = mb_w * mb_h;
    assert(0 <= mb_count * rate <= 4096 * 4096 * 60) by (nonlinear_arith)
        requires
            0 <= mb_count <= 4096 * 4096,
            0 <= rate <= 60,
    ;
    p.horizontal_size <= 768 && p.vertical_size <= 576 && mb_count <= 396 && mb_count * rate <= 396
        * 25 && rate <= 30 && max_forward_f_code <= 4 && max_backward_f_code <= 4
        && p.bit_rate_value != 0x3_FFFF && p.bit_rate_value <= CPB_MAX_BIT_RATE_VALUE
        && p.vbv_buffer_size_value <= CPB_MAX_VBV_BUFFER_SIZE_VALUE
}

/// The bits of a sequence header without downloaded matrices.
pub open spec fn sequence_header_bits(p: Mpeg1SequenceParams) -> Seq<bool> {
    (value_bits(SEQUENCE_HEADER_CODE as int, 32) + value_bits(p.horizontal_size as int, 12)
        + value_bits(p.vertical_size as int, 12) + value_bits(p.pel_aspect_ratio_code as int, 4)
        + value_bits(p.picture_rate_code as int, 4) + value_bits(p.bit_rate_value as int, 18)).push(
        true,
    ) + value_bits(p.vbv_buffer_size_value as int, 10).push(p.constrained_parameters_flag).push(
        false,
    ).push(false)
}

/// Writes a sequence header, padded to a byte boundary.
pub fn write_mpeg1_sequence_header(bw: &mut BitWriter, p: &Mpeg1SequenceParams)
    ensures
        writer_bits(*final(bw)) == zero_padded(writer_bits(*old(bw)) + sequence_header_bits(*p)),
{
    let ghost before = writer_bits(*bw);
    bw.write_u32(SEQUENCE_HEADER_CODE, 32);
    bw.write_u32(p.horizontal_size as u32, 12);
    bw.write_u32(p.vertical_size as u32, 12);
    bw.write_u32(p.pel_aspect_ratio_code as u32, 4);
    bw.write_u32(p.picture_rate_code as u32, 4);
    bw.write_u32(p.bit_rate_value, 18);
    bw.write_bit(true);
    bw.write_u32(p.vbv_buffer_size_value as u32, 10);
    bw.write_bit(p.constrained_parameters_flag);
    bw.write_bit(false);
    bw.write_bit(false);
    assert(writer_bits(*bw) =~= before + sequence_header_bits(*p));
    bw.align_to_byte_zero();
}

/// A sequence header takes 96 bits.
pub proof fn law_sequence_header_is_twelve_bytes(p: Mpeg1SequenceParams)
    ensures
        sequence_header_bits(p).len() == 96,
{
    lemma_value_bits_len(SEQUENCE_HEADER_CODE as int, 32);
    lemma_value_bits_len(p.horizontal_size as int, 12);
    lemma_value_bits_len(p.vertical_size as int, 12);
    lemma_value_bits_len(p.pel_aspect_ratio_code as int, 4);
    lemma_value_bits_len(p.picture_rate_code as int, 4);
    lemma_value_bits_len(p.bit_rate_value as int, 18);
    lemma_value_bits_len(p.vbv_buffer_size_value as int, 10);
}

/// A sequence stays constrained when its pictures or its vectors get smaller.
pub proof fn law_constrained_is_downward_closed(
    p: Mpeg1SequenceParams,
    q: Mpeg1SequenceParams,
    forward: u8,
    backward: u8,
    smaller_forward: u8,
    smaller_backward: u8,
)
    requires
        constrained(p, forward, backward),
        q.picture_rate_code == p.picture_rate_code,
        q.horizontal_size <= p.horizontal_size,
        q.vertical_size <= p.vertical_size,
        q.bit_rate_value <= p.bit_rate_value,
        q.vbv_buffer_size_value <= p.vbv_buffer_size_value,
        smaller_forward <= forward,
        smaller_backward <= backward,
    ensures
        constrained(q, smaller_forward, smaller_backward),
{
    let rate = nominal_rate(p.picture_rate_code)->0;
    let a = blocks_of_16(q.horizontal_size as int);
    let b = blocks_of_16(q.vertical_size as int);
    let c = blocks_of_16(p.horizontal_size as int);
    let d = blocks_of_16(p.vertical_size as int);
    assert(0 <= a * b <= c * d) by (nonlinear_arith)
        requires
            0 <= a <= c,
            0 <= b <= d,
    ;
    let m = a * b;
    let n = c * d;
    assert(m * rate <= n * rate) by (nonlinear_arith)
        requires
            m <= n,
            rate >= 0,
    ;
}

/// A sequence is constrained exactly where it keeps the bounds: 768 by 576 samples, 396
/// macroblocks a picture, as many a second as 25 such pictures have, 30 pictures a
/// second, vectors of `f_code` 4, 1856000 bits a second and a buffer of 327680 bits.
pub proof fn law_constrained_keeps_bounds(
    p: Mpeg1SequenceParams,
    forward: u8,
    backward: u8,
    mb_width: int,
    mb_height: int,
    rate: int,
)
    requires
        16 * (mb_width - 1) < p.horizontal_size <= 16 * mb_width,
        16 * (mb_height - 1) < p.vertical_size <= 16 * mb_height,
        nominal_rate(p.picture_rate_code) == Some(rate),
    ensures
        constrained(p, forward, backward) <==> {
            &&& p.horizontal_size <= 768
            &&& p.vertical_size <= 576
            &&& mb_width * mb_height <= 396
            &&& (mb_width * mb_height) * rate <= 9900
            &&& rate <= 30
            &&& forward <= 4
            &&& backward <= 4
            &&& 400 * p.bit_rate_value <= 1_856_000
            &&& 16384 * p.vbv_buffer_size_value <= 327_680
        },
{
    assert(blocks_of_16(p.horizontal_size as int) == mb_width);
    assert(blocks_of_16(p.vertical_size as int) == mb_height);
}

} // verus!
