//! The MPEG-2 `sequence_extension()`, and the sequence header before it.

use crate::bits::{be_value, bits_of, read_field, read_flag};
use crate::error::{Error, Result};
use crate::picture::ChromaFormat;
use crate::picture_header::{bytes_for, first_nonzero, EXTENSION_START_CODE};
use crate::sequence_header::{
    sequence_header_at, weights_at, Mpeg2SequenceHeader, SequenceFields,
};
use oxideav_core::bits::BitReader;
use vstd::arithmetic::power2::lemma2_to64;
use vstd::prelude::*;
use vstd::slice::slice_subrange;

verus! {

/// The identifier of a sequence extension.
pub const SEQUENCE_EXTENSION_ID: u32 = 0b0001;

pub const ERR_SEQUENCE_EXTENSION_CODE: &'static str =
    "extension_start_code: expected 0x000001B5 after the sequence header";

pub const ERR_SEQUENCE_EXTENSION_ID: &'static str =
    "extension_start_code_identifier: expected the sequence extension";

pub const ERR_SEQUENCE_CHROMA: &'static str = "chroma_format: reserved value 00";

pub const ERR_SEQUENCE_MARKER: &'static str = "sequence_extension: marker_bit must be 1";

/// A decoded sequence extension.
#[derive(Debug, Clone, Copy, PartialEq, Eq)]
pub struct Mpeg2SequenceExtension {
    pub profile_and_level: u8,
    pub progressive_sequence: bool,
    pub chroma_format: ChromaFormat,
    /// The two high bits of the width.
    pub horizontal_size_extension: u8,
    /// The two high bits of the height.
    pub vertical_size_extension: u8,
    /// The 12 high bits of the bit rate.
    pub bit_rate_extension: u16,
    /// The 8 high bits of the VBV buffer size.
    pub vbv_buffer_size_extension: u8,
    pub low_delay: bool,
    pub frame_rate_extension_n: u8,
    pub frame_rate_extension_d: u8,
}

/// The chroma format of a two-bit code.
pub open spec fn chroma_of(code: int) -> Option<ChromaFormat> {
    if code == 1 {
        Some(ChromaFormat::Yuv420)
    } else if code == 2 {
        Some(ChromaFormat::Yuv422)
    } else if code == 3 {
        Some(ChromaFormat::Yuv444)
    } else {
        None
    }
}

/// The `sequence_extension()` that the bits start with.
pub open spec fn sequence_extension(s: Seq<bool>) -> Result<Mpeg2SequenceExtension> {
    if s.len() < 32 {
        Err(Error::ShortHeader)
    } else if be_value(s, 0, 32) != EXTENSION_START_CODE {
        Err(Error::InvalidBitstream(ERR_SEQUENCE_EXTENSION_CODE))
    } else if s.len() < 36 {
        Err(Error::ShortHeader)
    } else if be_value(s, 32, 4) != SEQUENCE_EXTENSION_ID {
        Err(Error::InvalidBitstream(ERR_SEQUENCE_EXTENSION_ID))
    } else if s.len() < 47 {
        Err(Error::ShortHeader)
    } else {
        match chroma_of(be_value(s, 45, 2)) {
            None => Err(Error::InvalidBitstream(ERR_SEQUENCE_CHROMA)),
            Some(chroma_format) => if s.len() < 64 {
                Err(Error::ShortHeader)
            } else if !s[63] {
                Err(Error::InvalidBitstream(ERR_SEQUENCE_MARKER))
            } else if s.len() < 80 {
                Err(Error::ShortHeader)
            } else {
                Ok(
                    (Mpeg2SequenceExtension {
                        profile_and_level: be_value(s, 36, 8) as u8,
                        progressive_sequence: s[44],
                        chroma_format,
                        horizontal_size_extension: be_value(s, 47, 2) as u8,
                        vertical_size_extension: be_value(s, 49, 2) as u8,
                        bit_rate_extension: be_value(s, 51, 12) as u16,
                        vbv_buffer_size_extension: be_value(s, 64, 8) as u8,
                        low_delay: s[72],
                        frame_rate_extension_n: be_value(s, 73, 2) as u8,
                        frame_rate_extension_d: be_value(s, 75, 5) as u8,
                    }),
                )
            },
        }
    }
}

impl Mpeg2SequenceExtension {
    /// Reads the sequence extension that `buf` starts with.
    pub fn parse(buf: &[u8]) -> (res: Result<Self>)
        ensures
            res == sequence_extension(bits_of(buf@)),
    {
        proof {
            lemma2_to64();
        }
        let mut br = BitReader::new(buf);
        let code = read_field(&mut br, 32)?;
        if code != EXTENSION_START_CODE {
            return Err(Error::InvalidBitstream(ERR_SEQUENCE_EXTENSION_CODE));
        }
        let id = read_field(&mut br, 4)?;
        if id != SEQUENCE_EXTENSION_ID {
            return Err(Error::InvalidBitstream(ERR_SEQUENCE_EXTENSION_ID));
        }
        let profile_and_level = read_field(&mut br, 8)? as u8;
        let progressive_sequence = read_flag(&mut br)?;
        let chroma_code = read_field(&mut br, 2)? as u8;
        proof {
            assert(ChromaFormat::Yuv420.spec_to_code() == 1);
            assert(ChromaFormat::Yuv422.spec_to_code() == 2);
            assert(ChromaFormat::Yuv444.spec_to_code() == 3);
        }
        let chroma_format = match ChromaFormat::from_code(chroma_code) {
            Some(c) => c,
            None => {
                return Err(Error::InvalidBitstream(ERR_SEQUENCE_CHROMA));
            },
        };
        let horizontal_size_extension = read_field(&mut br, 2)? as u8;
        let vertical_size_extension = read_field(&mut br, 2)? as u8;
        let bit_rate_extension = read_field(&mut br, 12)? as u16;
        let marker = read_flag(&mut br)?;
        if !marker {
            return Err(Error::InvalidBitstream(ERR_SEQUENCE_MARKER));
        }
        let vbv_buffer_size_extension = read_field(&mut br, 8)? as u8;
        let low_delay = read_flag(&mut br)?;
        let frame_rate_extension_n = read_field(&mut br, 2)? as u8;
        let frame_rate_extension_d = read_field(&mut br, 5)? as u8;
        Ok(
            Mpeg2SequenceExtension {
                profile_and_level,
                progressive_sequence,
                chroma_format,
                horizontal_size_extension,
                vertical_size_extension,
                bit_rate_extension,
                vbv_buffer_size_extension,
                low_delay,
                frame_rate_extension_n,
                frame_rate_extension_d,
            },
        )
    }
}

/// The sequence header and the sequence extension of an MPEG-2 sequence.
#[derive(Debug, Clone, Copy, PartialEq, Eq)]
pub struct Mpeg2Sequence {
    pub header: Mpeg2SequenceHeader,
    pub extension: Mpeg2SequenceExtension,
}

/// The sequence header that `buf` starts with, and the sequence extension found
/// after it and after any zero bytes. An MPEG-1 sequence has none.
pub open spec fn sequence_of(buf: Seq<u8>) -> Result<(SequenceFields, Mpeg2SequenceExtension)> {
    let (header, end) = sequence_header_at(bits_of(buf), 0);
    match header {
        Err(e) => Err(e),
        Ok(header) => {
            let cursor = first_nonzero(buf, bytes_for(end));
            if cursor >= buf.len() || buf[cursor] != 1 || cursor < 2 + bytes_for(end) {
                Err(Error::InvalidBitstream(ERR_SEQUENCE_EXTENSION_CODE))
            } else {
                match sequence_extension(bits_of(buf.subrange(cursor - 2, buf.len() as int))) {
                    Err(e) => Err(e),
                    Ok(extension) => Ok((header, extension)),
                }
            }
        },
    }
}

proof fn lemma_sequence_header_end(s: Seq<bool>, at: int)
    requires
        0 <= at,
        sequence_header_at(s, at).0 is Ok,
    ensures
        at + 96 <= sequence_header_at(s, at).1 <= s.len(),
{
    let p1 = weights_at(s, at + 94).1;
    assert(at + 95 <= p1 <= s.len());
}

impl Mpeg2Sequence {
    /// Reads the sequence header that `buf` starts with and the sequence extension
    /// after it.
    pub fn from_buf(buf: &[u8]) -> (res: Result<Self>)
        requires
            bits_of(buf@).len() <= u64::MAX,
        ensures
            match res {
                Ok(q) => sequence_of(buf@) == Ok::<(SequenceFields, Mpeg2SequenceExtension), Error>(
                    (q.header@, q.extension),
                ),
                Err(e) => sequence_of(buf@) == Err::<
                    (SequenceFields, Mpeg2SequenceExtension),
                    Error,
                >(e),
            },
    {
        let mut br = BitReader::new(buf);
        let header = Mpeg2SequenceHeader::parse_with_reader(&mut br)?;
        let len: usize = buf.len();
        proof {
            lemma_sequence_header_end(bits_of(buf@), 0);
            assert(bits_of(buf@).len() == 8 * len);
        }
        let bits: u64 = br.bit_position();
        let whole: usize = br.byte_position();
        let after_header: usize = if bits % 8 == 0 {
            whole
        } else {
            whole + 1
        };
        assert(after_header == bytes_for(bits as int));
        let mut cursor: usize = after_header;
        while cursor < buf.len() && buf[cursor] == 0
            invariant
                after_header <= cursor <= buf.len(),
                first_nonzero(buf@, after_header as int) == first_nonzero(buf@, cursor as int),
            decreases buf.len() - cursor,
        {
            cursor += 1;
        }
        if cursor >= buf.len() || buf[cursor] != 1 || cursor - after_header < 2 {
            return Err(Error::InvalidBitstream(ERR_SEQUENCE_EXTENSION_CODE));
        }
        let extension = Mpeg2SequenceExtension::parse(slice_subrange(buf, cursor - 2, buf.len()))?;
        Ok(Mpeg2Sequence { header, extension })
    }
}

} // verus!
