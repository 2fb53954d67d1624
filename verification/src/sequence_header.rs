//! The `sequence_header()` of MPEG-1 and MPEG-2.

use crate::bits::{
    be_value, bits_of, holds_at, lemma_holds_field, lemma_holds_flag, read_field, read_flag,
    reader_bits, reader_pos, value_bits,
};
use crate::error::{Error, Result};
use crate::mpeg1_stream_writer::{
    sequence_header_bits, Mpeg1SequenceParams, SEQUENCE_HEADER_CODE,
};
use oxideav_core::bits::BitReader;
use vstd::arithmetic::power2::lemma2_to64;
use vstd::prelude::*;

verus! {

pub const ERR_SEQUENCE_HEADER_CODE: &'static str = "sequence_header_code: expected 0x000001B3";

pub const ERR_ASPECT_RATIO: &'static str = "aspect_ratio_information: code 0 is forbidden";

pub const ERR_FRAME_RATE: &'static str = "frame_rate_code: code 0 is forbidden";

pub const ERR_BIT_RATE_MARKER: &'static str = "sequence_header: marker_bit must be 1";

/// The shape of a sample or of the picture.
#[derive(Debug, Clone, Copy, PartialEq, Eq, Structural)]
pub enum AspectRatio {
    /// Square samples.
    Square,
    /// Any other code, from 2 to 15.
    Other(u8),
}

/// A decoded sequence header.
#[derive(Debug, Clone, Copy, PartialEq, Eq)]
pub struct Mpeg2SequenceHeader {
    /// The low 12 bits of the width.
    pub width: u16,
    /// The low 12 bits of the height.
    pub height: u16,
    pub aspect_ratio: AspectRatio,
    pub frame_rate_code: u8,
    /// In units of 400 bits a second, the low 18 bits.
    pub bit_rate: u32,
    /// In units of 16384 bits, the low 10 bits.
    pub vbv_buffer_size: u16,
    pub constrained_parameters: bool,
    /// The intra weights in zig-zag order, if they are in the header.
    pub intra_quant: Option<[u8; 64]>,
    /// The non-intra weights in zig-zag order, if they are in the header.
    pub non_intra_quant: Option<[u8; 64]>,
}

/// The fields of a sequence header, its weights as sequences.
pub struct SequenceFields {
    pub width: u16,
    pub height: u16,
    pub aspect_ratio: AspectRatio,
    pub frame_rate_code: u8,
    pub bit_rate: u32,
    pub vbv_buffer_size: u16,
    pub constrained_parameters: bool,
    pub intra_quant: Option<Seq<u8>>,
    pub non_intra_quant: Option<Seq<u8>>,
}

pub open spec fn weights_view(w: Option<[u8; 64]>) -> Option<Seq<u8>> {
    match w {
        None => None,
        Some(w) => Some(w@),
    }
}

impl View for Mpeg2SequenceHeader {
    type V = SequenceFields;

    open spec fn view(&self) -> SequenceFields {
        SequenceFields {
            width: self.width,
            height: self.height,
            aspect_ratio: self.aspect_ratio,
            frame_rate_code: self.frame_rate_code,
            bit_rate: self.bit_rate,
            vbv_buffer_size: self.vbv_buffer_size,
            constrained_parameters: self.constrained_parameters,
            intra_quant: weights_view(self.intra_quant),
            non_intra_quant: weights_view(self.non_intra_quant),
        }
    }
}

/// The aspect ratio of a four-bit code.
pub open spec fn aspect_ratio_of(code: int) -> AspectRatio {
    if code == 1 {
        AspectRatio::Square
    } else {
        AspectRatio::Other(code as u8)
    }
}

/// What the flag at `at` and the 64 weights after it, if it is set, give.
pub open spec fn weights_at(s: Seq<bool>, at: int) -> (Result<Option<Seq<u8>>>, int) {
    if at >= s.len() {
        (Err(Error::ShortHeader), at)
    } else if !s[at] {
        (Ok(None), at + 1)
    } else if at + 513 > s.len() {
        (Err(Error::ShortHeader), at + 1 + (s.len() - at - 1) / 8 * 8)
    } else {
        (Ok(Some(Seq::new(64, |k: int| be_value(s, at + 1 + 8 * k, 8) as u8))), at + 513)
    }
}

/// The sequence header that starts at `at`.
pub open spec fn sequence_header_at(s: Seq<bool>, at: int) -> (Result<SequenceFields>, int) {
    if at + 32 > s.len() {
        (Err(Error::ShortHeader), at)
    } else if be_value(s, at, 32) != SEQUENCE_HEADER_CODE {
        (Err(Error::InvalidBitstream(ERR_SEQUENCE_HEADER_CODE)), at + 32)
    } else if at + 44 > s.len() {
        (Err(Error::ShortHeader), at + 32)
    } else if at + 56 > s.len() {
        (Err(Error::ShortHeader), at + 44)
    } else if at + 60 > s.len() {
        (Err(Error::ShortHeader), at + 56)
    } else if be_value(s, at + 56, 4) == 0 {
        (Err(Error::InvalidBitstream(ERR_ASPECT_RATIO)), at + 60)
    } else if at + 64 > s.len() {
        (Err(Error::ShortHeader), at + 60)
    } else if be_value(s, at + 60, 4) == 0 {
        (Err(Error::InvalidBitstream(ERR_FRAME_RATE)), at + 64)
    } else if at + 82 > s.len() {
        (Err(Error::ShortHeader), at + 64)
    } else if at + 83 > s.len() {
        (Err(Error::ShortHeader), at + 82)
    } else if !s[at + 82] {
        (Err(Error::InvalidBitstream(ERR_BIT_RATE_MARKER)), at + 83)
    } else if at + 93 > s.len() {
        (Err(Error::ShortHeader), at + 83)
    } else if at + 94 > s.len() {
        (Err(Error::ShortHeader), at + 93)
    } else {
        let (intra, p1) = weights_at(s, at + 94);
        match intra {
            Err(e) => (Err(e), p1),
            Ok(intra_quant) => {
                let (non_intra, p2) = weights_at(s, p1);
                match non_intra {
                    Err(e) => (Err(e), p2),
                    Ok(non_intra_quant) => (
                        Ok(
                            (SequenceFields {
                                width: be_value(s, at + 32, 12) as u16,
                                height: be_value(s, at + 44, 12) as u16,
                                aspect_ratio: aspect_ratio_of(be_value(s, at + 56, 4)),
                                frame_rate_code: be_value(s, at + 60, 4) as u8,
                                bit_rate: be_value(s, at + 64, 18) as u32,
                                vbv_buffer_size: be_value(s, at + 83, 10) as u16,
                                constrained_parameters: s[at + 93],
                                intra_quant,
                                non_intra_quant,
                            }),
                        ),
                        p2,
                    ),
                }
            },
        }
    }
}

/// Reads a flag and, if it is set, 64 weights.
pub fn read_weights(br: &mut BitReader<'_>) -> (res: Result<Option<[u8; 64]>>)
    ensures
        reader_bits(*final(br)) == reader_bits(*old(br)),
        ({
            let (want, next) = weights_at(reader_bits(*old(br)), reader_pos(*old(br)) as int);
            &&& reader_pos(*final(br)) == next
            &&& match res {
                Ok(w) => want == Ok::<Option<Seq<u8>>, Error>(weights_view(w)),
                Err(e) => want == Err::<Option<Seq<u8>>, Error>(e),
            }
        }),
{
    let ghost s = reader_bits(*br);
    let ghost at = reader_pos(*br) as int;
    let loaded = read_flag(br)?;
    if !loaded {
        return Ok(None);
    }
    proof {
        lemma2_to64();
    }
    let mut weights: [u8; 64] = [0; 64];
    let mut k: usize = 0;
    while k < 64
        invariant
            k <= 64,
            0 <= at < s.len(),
            s[at],
            reader_bits(*br) == s,
            reader_pos(*br) == at + 1 + 8 * k,
            at + 1 + 8 * k <= s.len(),
            s == reader_bits(*old(br)),
            at == reader_pos(*old(br)),
            forall|j: int|
                0 <= j < k ==> #[trigger] weights@[j] == be_value(s, at + 1 + 8 * j, 8) as u8,
        decreases 64 - k,
    {
        proof {
            lemma2_to64();
        }
        let w = read_field(br, 8)?;
        weights[k] = w as u8;
        k += 1;
    }
    assert(weights@ =~= Seq::new(64, |j: int| be_value(s, at + 1 + 8 * j, 8) as u8));
    Ok(Some(weights))
}

impl Mpeg2SequenceHeader {
    /// Reads the sequence header that `buf` starts with.
    pub fn parse(buf: &[u8]) -> (res: Result<Self>)
        ensures
            match res {
                Ok(h) => sequence_header_at(bits_of(buf@), 0).0 == Ok::<SequenceFields, Error>(h@),
                Err(e) => sequence_header_at(bits_of(buf@), 0).0 == Err::<SequenceFields, Error>(e),
            },
    {
        let mut br = BitReader::new(buf);
        Self::parse_with_reader(&mut br)
    }

    /// Reads the sequence header at the cursor.
    pub fn parse_with_reader(br: &mut BitReader<'_>) -> (res: Result<Self>)
        ensures
            reader_bits(*final(br)) == reader_bits(*old(br)),
            ({
                let (want, next) = sequence_header_at(
                    reader_bits(*old(br)),
                    reader_pos(*old(br)) as int,
                );
                &&& reader_pos(*final(br)) == next
                &&& match res {
                    Ok(h) => want == Ok::<SequenceFields, Error>(h@),
                    Err(e) => want == Err::<SequenceFields, Error>(e),
                }
            }),
    {
        proof {
            lemma2_to64();
        }
        let code = read_field(br, 32)?;
        if code != SEQUENCE_HEADER_CODE {
            return Err(Error::InvalidBitstream(ERR_SEQUENCE_HEADER_CODE));
        }
        let width = read_field(br, 12)? as u16;
        let height = read_field(br, 12)? as u16;
        let aspect = read_field(br, 4)? as u8;
        if aspect == 0 {
            return Err(Error::InvalidBitstream(ERR_ASPECT_RATIO));
        }
        let frame_rate_code = read_field(br, 4)? as u8;
        if frame_rate_code == 0 {
            return Err(Error::InvalidBitstream(ERR_FRAME_RATE));
        }
        let bit_rate = read_field(br, 18)?;
        let marker = read_flag(br)?;
        if !marker {
            return Err(Error::InvalidBitstream(ERR_BIT_RATE_MARKER));
        }
        let vbv_buffer_size = read_field(br, 10)? as u16;
        let constrained_parameters = read_flag(br)?;
        let intra_quant = read_weights(br)?;
        let non_intra_quant = read_weights(br)?;
        Ok(
            Mpeg2SequenceHeader {
                width,
                height,
                aspect_ratio: if aspect == 1 {
                    AspectRatio::Square
                } else {
                    AspectRatio::Other(aspect)
                },
                frame_rate_code,
                bit_rate,
                vbv_buffer_size,
                constrained_parameters,
                intra_quant,
                non_intra_quant,
            },
        )
    }
}

/// An MPEG-1 sequence header that was written is read back field by field.
pub proof fn law_sequence_header_round_trip(s: Seq<bool>, at: int, p: Mpeg1SequenceParams)
    requires
        p.horizontal_size < 4096,
        p.vertical_size < 4096,
        1 <= p.pel_aspect_ratio_code < 16,
        1 <= p.picture_rate_code < 16,
        p.bit_rate_value < 0x4_0000,
        p.vbv_buffer_size_value < 1024,
        holds_at(s, at, sequence_header_bits(p)),
    ensures
        sequence_header_at(s, at) == (
            Ok::<SequenceFields, Error>(
                (SequenceFields {
                    width: p.horizontal_size,
                    height: p.vertical_size,
                    aspect_ratio: aspect_ratio_of(p.pel_aspect_ratio_code as int),
                    frame_rate_code: p.picture_rate_code,
                    bit_rate: p.bit_rate_value,
                    vbv_buffer_size: p.vbv_buffer_size_value,
                    constrained_parameters: p.constrained_parameters_flag,
                    intra_quant: None,
                    non_intra_quant: None,
                }),
            ),
            at + 96,
        ),
{
    lemma2_to64();
    assert(0x4_0000 == vstd::arithmetic::power2::pow2(18));
    let none = Seq::<bool>::empty();
    let t9 = seq![false] + none;
    let t8 = seq![false] + t9;
    let t7 = seq![p.constrained_parameters_flag] + t8;
    let t6 = value_bits(p.vbv_buffer_size_value as int, 10) + t7;
    let t5 = seq![true] + t6;
    let t4 = value_bits(p.bit_rate_value as int, 18) + t5;
    let t3 = value_bits(p.picture_rate_code as int, 4) + t4;
    let t2 = value_bits(p.pel_aspect_ratio_code as int, 4) + t3;
    let t1 = value_bits(p.vertical_size as int, 12) + t2;
    let t0 = value_bits(p.horizontal_size as int, 12) + t1;
    assert(sequence_header_bits(p) =~= value_bits(SEQUENCE_HEADER_CODE as int, 32) + t0);
    lemma_holds_field(s, at, SEQUENCE_HEADER_CODE as int, 32, t0);
    lemma_holds_field(s, at + 32, p.horizontal_size as int, 12, t1);
    lemma_holds_field(s, at + 44, p.vertical_size as int, 12, t2);
    lemma_holds_field(s, at + 56, p.pel_aspect_ratio_code as int, 4, t3);
    lemma_holds_field(s, at + 60, p.picture_rate_code as int, 4, t4);
    lemma_holds_field(s, at + 64, p.bit_rate_value as int, 18, t5);
    lemma_holds_flag(s, at + 82, true, t6);
    lemma_holds_field(s, at + 83, p.vbv_buffer_size_value as int, 10, t7);
    lemma_holds_flag(s, at + 93, p.constrained_parameters_flag, t8);
    lemma_holds_flag(s, at + 94, false, t9);
    lemma_holds_flag(s, at + 95, false, none);
}

} // verus!
