//! The `picture_header()` of MPEG-1 and MPEG-2 and the MPEG-2
//! `picture_coding_extension()` that follows it.

use crate::bits::{
    be_value, bits_of, lemma_be_value_same, read_field, read_flag, reader_bits, reader_pos,
};
use crate::error::{Error, Result};
use oxideav_core::bits::BitReader;
use vstd::arithmetic::power2::lemma2_to64;
use vstd::prelude::*;
use vstd::slice::slice_subrange;

verus! {

/// The start code of a picture header.
pub const PICTURE_START_CODE: u32 = 0x0000_0100;

/// The extension identifier of a picture coding extension.
pub const PICTURE_CODING_EXTENSION_ID: u32 = 0b1000;

/// The start code of every extension.
pub const EXTENSION_START_CODE: u32 = 0x0000_01B5;

pub const ERR_CODING_TYPE_FORBIDDEN: &'static str =
    "picture_coding_type: forbidden value 000 (Table 6-12)";

pub const ERR_CODING_TYPE_RESERVED: &'static str =
    "picture_coding_type: reserved value (Table 6-12)";

pub const ERR_CODING_TYPE_D: &'static str =
    "picture_coding_type: 100 (D-picture) shall not be used in MPEG-2 (Table 6-12)";

pub const ERR_PICTURE_START_CODE: &'static str =
    "picture_start_code: expected 0x00000100 (§6.3.10)";

pub const ERR_NEXT_START_CODE: &'static str =
    "next_start_code(): missing '00 00 01' prefix after picture_header() (§5.2.3)";

pub const ERR_NO_EXTENSION: &'static str =
    "picture_coding_extension(): expected start code 0x000001B5 after picture_header() (§6.2.3.1)";

pub const ERR_EXTENSION_START_CODE: &'static str =
    "extension_start_code: expected 0x000001B5 (§6.2.3.1)";

pub const ERR_CODING_EXTENSION_ID: &'static str =
    "extension_start_code_identifier: expected '1000' Picture Coding Extension ID (Table 6-2)";

pub const ERR_ZERO_F_CODE: &'static str = "f_code[s][t]: forbidden value 0 (§6.3.11)";

pub const ERR_PICTURE_STRUCTURE: &'static str = "picture_structure: reserved value 00 (Table 6-14)";

/// How a picture is coded.
#[derive(Debug, Clone, Copy, PartialEq, Eq, Structural)]
pub enum PictureCodingType {
    /// I: from itself alone.
    Intra,
    /// P: from the past reference.
    Predictive,
    /// B: from the past and the future reference.
    Bidirectional,
    /// D: from its DC coefficients alone; MPEG-1 only.
    DcIntra,
}

/// The coding type of a three-bit code.
pub open spec fn coding_type_of(code: int) -> Result<PictureCodingType> {
    if code == 0 {
        Err(Error::InvalidBitstream(ERR_CODING_TYPE_FORBIDDEN))
    } else if code == 1 {
        Ok(PictureCodingType::Intra)
    } else if code == 2 {
        Ok(PictureCodingType::Predictive)
    } else if code == 3 {
        Ok(PictureCodingType::Bidirectional)
    } else if code == 4 {
        Ok(PictureCodingType::DcIntra)
    } else {
        Err(Error::InvalidBitstream(ERR_CODING_TYPE_RESERVED))
    }
}

impl PictureCodingType {
    /// The coding type of a three-bit code.
    pub fn from_code(code: u32) -> (res: Result<Self>)
        requires
            code < 8,
        ensures
            res == coding_type_of(code as int),
    {
        match code {
            0 => Err(Error::InvalidBitstream(ERR_CODING_TYPE_FORBIDDEN)),
            1 => Ok(PictureCodingType::Intra),
            2 => Ok(PictureCodingType::Predictive),
            3 => Ok(PictureCodingType::Bidirectional),
            4 => Ok(PictureCodingType::DcIntra),
            _ => Err(Error::InvalidBitstream(ERR_CODING_TYPE_RESERVED)),
        }
    }

    pub open spec fn spec_uses_forward(self) -> bool {
        self == PictureCodingType::Predictive || self == PictureCodingType::Bidirectional
    }

    /// Whether the header carries a `forward_f_code`.
    pub fn uses_forward(self) -> (b: bool)
        ensures
            b == self.spec_uses_forward(),
    {
        match self {
            PictureCodingType::Predictive | PictureCodingType::Bidirectional => true,
            _ => false,
        }
    }

    pub open spec fn spec_uses_backward(self) -> bool {
        self == PictureCodingType::Bidirectional
    }

    /// Whether the header carries a `backward_f_code`.
    pub fn uses_backward(self) -> (b: bool)
        ensures
            b == self.spec_uses_backward(),
    {
        match self {
            PictureCodingType::Bidirectional => true,
            _ => false,
        }
    }
}

/// A decoded `picture_header()`.
#[derive(Debug, Clone, PartialEq, Eq)]
pub struct Mpeg2PictureHeader {
    /// The display order of the picture within its group, modulo 1024.
    pub temporal_reference: u16,
    pub picture_coding_type: PictureCodingType,
    /// The VBV delay in periods of the 90 kHz clock, or `0xFFFF`.
    pub vbv_delay: u16,
    /// Present in P- and B-pictures.
    pub full_pel_forward_vector: Option<bool>,
    /// Present in P- and B-pictures.
    pub fwd_f_code: Option<u8>,
    /// Present in B-pictures.
    pub full_pel_backward_vector: Option<bool>,
    /// Present in B-pictures.
    pub bwd_f_code: Option<u8>,
    /// The bytes of `extra_information_picture`.
    pub extra_information_picture: Vec<u8>,
}

/// What a `picture_header()` holds.
pub struct PictureHeaderFields {
    pub temporal_reference: u16,
    pub picture_coding_type: PictureCodingType,
    pub vbv_delay: u16,
    pub full_pel_forward_vector: Option<bool>,
    pub fwd_f_code: Option<u8>,
    pub full_pel_backward_vector: Option<bool>,
    pub bwd_f_code: Option<u8>,
    pub extra_information_picture: Seq<u8>,
}

impl View for Mpeg2PictureHeader {
    type V = PictureHeaderFields;

    open spec fn view(&self) -> PictureHeaderFields {
        PictureHeaderFields {
            temporal_reference: self.temporal_reference,
            picture_coding_type: self.picture_coding_type,
            vbv_delay: self.vbv_delay,
            full_pel_forward_vector: self.full_pel_forward_vector,
            fwd_f_code: self.fwd_f_code,
            full_pel_backward_vector: self.full_pel_backward_vector,
            bwd_f_code: self.bwd_f_code,
            extra_information_picture: self.extra_information_picture@,
        }
    }
}

/// The vector hint at `at`: a full-sample flag and a three-bit `f_code`, absent
/// unless `present`.
pub open spec fn vector_hint_at(s: Seq<bool>, at: int, present: bool) -> (
    Result<(Option<bool>, Option<u8>)>,
    int,
) {
    if !present {
        (Ok((None, None)), at)
    } else if at + 1 > s.len() {
        (Err(Error::ShortHeader), at)
    } else if at + 4 > s.len() {
        (Err(Error::ShortHeader), at + 1)
    } else {
        (Ok((Some(s[at]), Some(be_value(s, at + 1, 3) as u8))), at + 4)
    }
}

/// The extra information at `at`: bytes, each after a one bit, up to a zero bit.
pub open spec fn extra_information_at(s: Seq<bool>, at: int) -> (Result<Seq<u8>>, int)
    decreases s.len() - at,
{
    if at + 1 > s.len() {
        (Err(Error::ShortHeader), at)
    } else if !s[at] {
        (Ok(Seq::empty()), at + 1)
    } else if at + 9 > s.len() {
        (Err(Error::ShortHeader), at + 1)
    } else {
        let (rest, next) = extra_information_at(s, at + 9);
        match rest {
            Ok(rest) => (Ok(seq![be_value(s, at + 1, 8) as u8] + rest), next),
            Err(e) => (Err(e), next),
        }
    }
}

/// The `picture_header()` at `at`, and the position after it.
pub open spec fn picture_header_at(s: Seq<bool>, at: int) -> (Result<PictureHeaderFields>, int) {
    if at + 32 > s.len() {
        (Err(Error::ShortHeader), at)
    } else if be_value(s, at, 32) != PICTURE_START_CODE {
        (Err(Error::InvalidBitstream(ERR_PICTURE_START_CODE)), at + 32)
    } else if at + 42 > s.len() {
        (Err(Error::ShortHeader), at + 32)
    } else if at + 45 > s.len() {
        (Err(Error::ShortHeader), at + 42)
    } else {
        match coding_type_of(be_value(s, at + 42, 3)) {
            Err(e) => (Err(e), at + 45),
            Ok(t) => if at + 61 > s.len() {
                (Err(Error::ShortHeader), at + 45)
            } else {
                let (fwd, p1) = vector_hint_at(s, at + 61, t.spec_uses_forward());
                match fwd {
                    Err(e) => (Err(e), p1),
                    Ok(fwd) => {
                        let (bwd, p2) = vector_hint_at(s, p1, t.spec_uses_backward());
                        match bwd {
                            Err(e) => (Err(e), p2),
                            Ok(bwd) => {
                                let (extra, p3) = extra_information_at(s, p2);
                                match extra {
                                    Err(e) => (Err(e), p3),
                                    Ok(extra) => (
                                        Ok(
                                            (PictureHeaderFields {
                                                temporal_reference: be_value(
                                                    s,
                                                    at + 32,
                                                    10,
                                                ) as u16,
                                                picture_coding_type: t,
                                                vbv_delay: be_value(s, at + 45, 16) as u16,
                                                full_pel_forward_vector: fwd.0,
                                                fwd_f_code: fwd.1,
                                                full_pel_backward_vector: bwd.0,
                                                bwd_f_code: bwd.1,
                                                extra_information_picture: extra,
                                            }),
                                        ),
                                        p3,
                                    ),
                                }
                            },
                        }
                    },
                }
            },
        }
    }
}

/// Where the header at `at` ends, it ends within the bits.
pub proof fn lemma_extra_information_end(s: Seq<bool>, at: int)
    requires
        at <= s.len(),
    ensures
        at <= extra_information_at(s, at).1 <= s.len(),
        extra_information_at(s, at).0 is Ok ==> at < extra_information_at(s, at).1,
    decreases s.len() - at,
{
    if at + 9 <= s.len() && s[at] {
        lemma_extra_information_end(s, at + 9);
    }
}

/// The index of the first byte of `buf` from `from` on that is not zero, or the
/// length of `buf`.
pub open spec fn first_nonzero(buf: Seq<u8>, from: int) -> int
    decreases buf.len() - from,
{
    if from >= buf.len() || buf[from] != 0 {
        from
    } else {
        first_nonzero(buf, from + 1)
    }
}

/// The number of bytes that hold `n` bits.
pub open spec fn bytes_for(n: int) -> int {
    (n + 7) / 8
}

/// What `parse_with_extension` returns for `buf`: the header, and the extension
/// found after it and after any zero bytes.
pub open spec fn header_with_extension(buf: Seq<u8>) -> Result<
    (PictureHeaderFields, PictureCodingExtension),
> {
    let (header, end) = picture_header_at(bits_of(buf), 0);
    match header {
        Err(e) => Err(e),
        Ok(header) => if header.picture_coding_type == PictureCodingType::DcIntra {
            Err(Error::InvalidBitstream(ERR_CODING_TYPE_D))
        } else {
            let cursor = first_nonzero(buf, bytes_for(end));
            if cursor >= buf.len() || buf[cursor] != 1 || buf[cursor - 1] != 0 || buf[cursor - 2]
                != 0 {
                Err(Error::InvalidBitstream(ERR_NEXT_START_CODE))
            } else if cursor + 2 > buf.len() {
                Err(Error::ShortHeader)
            } else if buf[cursor + 1] != 0xB5 {
                Err(Error::InvalidBitstream(ERR_NO_EXTENSION))
            } else {
                match coding_extension(bits_of(buf.subrange(cursor - 2, buf.len() as int))) {
                    Err(e) => Err(e),
                    Ok(extension) => Ok((header, extension)),
                }
            }
        },
    }
}

impl Mpeg2PictureHeader {
    /// Reads the picture header that `buf` starts with.
    pub fn parse(buf: &[u8]) -> (res: Result<Self>)
        ensures
            match res {
                Ok(h) => picture_header_at(bits_of(buf@), 0).0 == Ok::<PictureHeaderFields, Error>(
                    h@,
                ),
                Err(e) => picture_header_at(bits_of(buf@), 0).0 == Err::<
                    PictureHeaderFields,
                    Error,
                >(e),
            },
    {
        let mut br = BitReader::new(buf);
        Self::parse_with_reader(&mut br)
    }

    /// Reads the picture header at the cursor.
    pub fn parse_with_reader(br: &mut BitReader<'_>) -> (res: Result<Self>)
        ensures
            reader_bits(*final(br)) == reader_bits(*old(br)),
            ({
                let (want, next) = picture_header_at(
                    reader_bits(*old(br)),
                    reader_pos(*old(br)) as int,
                );
                &&& reader_pos(*final(br)) == next
                &&& match res {
                    Ok(h) => want == Ok::<PictureHeaderFields, Error>(h@),
                    Err(e) => want == Err::<PictureHeaderFields, Error>(e),
                }
            }),
    {
        proof {
            lemma2_to64();
        }
        let ghost s = reader_bits(*br);
        let ghost at = reader_pos(*br) as int;
        let code = read_field(br, 32)?;
        if code != PICTURE_START_CODE {
            return Err(Error::InvalidBitstream(ERR_PICTURE_START_CODE));
        }
        let temporal_reference = read_field(br, 10)? as u16;
        let coding_code = read_field(br, 3)?;
        let picture_coding_type = PictureCodingType::from_code(coding_code)?;
        let vbv_delay = read_field(br, 16)? as u16;
        let (full_pel_forward_vector, fwd_f_code) = Self::parse_vector_hint(
            br,
            picture_coding_type.uses_forward(),
        )?;
        let (full_pel_backward_vector, bwd_f_code) = Self::parse_vector_hint(
            br,
            picture_coding_type.uses_backward(),
        )?;
        let ghost p2 = reader_pos(*br) as int;
        let mut extra_information_picture: Vec<u8> = Vec::new();
        let ghost whole = extra_information_at(s, p2);
        loop
            invariant_except_break
                reader_bits(*br) == s,
                match extra_information_at(s, reader_pos(*br) as int).0 {
                    Ok(rest) => whole.0 == Ok::<Seq<u8>, Error>(
                        extra_information_picture@ + rest,
                    ),
                    Err(e) => whole.0 == Err::<Seq<u8>, Error>(e),
                },
                extra_information_at(s, reader_pos(*br) as int).1 == whole.1,
            invariant
                whole == extra_information_at(s, p2),
                picture_header_at(s, at) == (match whole.0 {
                    Ok(extra) => (
                        Ok::<PictureHeaderFields, Error>(
                            (PictureHeaderFields {
                                temporal_reference,
                                picture_coding_type,
                                vbv_delay,
                                full_pel_forward_vector,
                                fwd_f_code,
                                full_pel_backward_vector,
                                bwd_f_code,
                                extra_information_picture: extra,
                            }),
                        ),
                        whole.1,
                    ),
                    Err(e) => (Err::<PictureHeaderFields, Error>(e), whole.1),
                }),
                s == reader_bits(*old(br)),
                at == reader_pos(*old(br)),
            ensures
                reader_bits(*br) == s,
                reader_pos(*br) == whole.1,
                whole.0 == Ok::<Seq<u8>, Error>(extra_information_picture@),
            decreases s.len() - reader_pos(*br),
        {
            proof {
                lemma2_to64();
            }
            let ghost before = extra_information_picture@;
            let more = read_flag(br)?;
            if !more {
                assert(before + Seq::<u8>::empty() =~= before);
                break;
            }
            let ghost p = reader_pos(*br) as int;
            let extra = read_field(br, 8)? as u8;
            extra_information_picture.push(extra);
            proof {
                let rest = extra_information_at(s, p + 8).0;
                if rest is Ok {
                    assert(before + (seq![extra] + rest->Ok_0) =~= extra_information_picture@
                        + rest->Ok_0);
                }
            }
        }
        Ok(
            Mpeg2PictureHeader {
                temporal_reference,
                picture_coding_type,
                vbv_delay,
                full_pel_forward_vector,
                fwd_f_code,
                full_pel_backward_vector,
                bwd_f_code,
                extra_information_picture,
            },
        )
    }

    fn parse_vector_hint(br: &mut BitReader<'_>, present: bool) -> (res: Result<
        (Option<bool>, Option<u8>),
    >)
        ensures
            crate::bits::reads_as(
                *old(br),
                *final(br),
                res,
                vector_hint_at(reader_bits(*old(br)), reader_pos(*old(br)) as int, present),
            ),
    {
        if !present {
            return Ok((None, None));
        }
        proof {
            lemma2_to64();
        }
        let full_pel = read_flag(br)?;
        let f_code = read_field(br, 3)? as u8;
        Ok((Some(full_pel), Some(f_code)))
    }

    /// Reads the picture header that `buf` starts with and the picture coding
    /// extension after it.
    pub fn parse_with_extension(buf: &[u8]) -> (res: Result<(Self, PictureCodingExtension)>)
        requires
            bits_of(buf@).len() <= u64::MAX,
        ensures
            match res {
                Ok((h, x)) => header_with_extension(buf@) == Ok::<
                    (PictureHeaderFields, PictureCodingExtension),
                    Error,
                >((h@, x)),
                Err(e) => header_with_extension(buf@) == Err::<
                    (PictureHeaderFields, PictureCodingExtension),
                    Error,
                >(e),
            },
    {
        let header = Self::parse(buf)?;
        if header.picture_coding_type == PictureCodingType::DcIntra {
            return Err(Error::InvalidBitstream(ERR_CODING_TYPE_D));
        }
        let after_header = picture_header_byte_length(buf)?;
        let mut cursor: usize = after_header;
        while cursor < buf.len() && buf[cursor] == 0
            invariant
                after_header <= cursor <= buf.len(),
                first_nonzero(buf@, after_header as int) == first_nonzero(buf@, cursor as int),
            decreases buf.len() - cursor,
        {
            cursor += 1;
        }
        if cursor >= buf.len() || buf[cursor] != 1 || buf[cursor - 1] != 0 || buf[cursor - 2] != 0 {
            return Err(Error::InvalidBitstream(ERR_NEXT_START_CODE));
        }
        let start_of_extension: usize = cursor - 2;
        if buf.len() - start_of_extension < 4 {
            return Err(Error::ShortHeader);
        }
        if buf[start_of_extension + 3] != 0xB5 {
            return Err(Error::InvalidBitstream(ERR_NO_EXTENSION));
        }
        let extension = PictureCodingExtension::parse(
            slice_subrange(buf, start_of_extension, buf.len()),
        )?;
        Ok((header, extension))
    }
}

/// The number of bytes that the picture header at the start of `buf` takes up,
/// the last one filled.
pub fn picture_header_byte_length(buf: &[u8]) -> (res: Result<usize>)
    requires
        bits_of(buf@).len() <= u64::MAX,
    ensures
        ({
            let (header, end) = picture_header_at(bits_of(buf@), 0);
            match res {
                Ok(n) => header is Ok && n == bytes_for(end) && 8 <= n <= buf@.len(),
                Err(e) => header == Err::<PictureHeaderFields, Error>(e),
            }
        }),
{
    let mut br = BitReader::new(buf);
    let _ = Mpeg2PictureHeader::parse_with_reader(&mut br)?;
    let len: usize = buf.len();
    proof {
        lemma_header_end(bits_of(buf@), 0);
        assert(bits_of(buf@).len() == 8 * len);
    }
    let bits: u64 = br.bit_position();
    let whole: usize = br.byte_position();
    Ok(
        if bits % 8 == 0 {
            whole
        } else {
            whole + 1
        },
    )
}

proof fn lemma_header_end(s: Seq<bool>, at: int)
    requires
        0 <= at,
        picture_header_at(s, at).0 is Ok,
    ensures
        at + 62 <= picture_header_at(s, at).1 <= s.len(),
{
    let t = coding_type_of(be_value(s, at + 42, 3))->Ok_0;
    let p1 = vector_hint_at(s, at + 61, t.spec_uses_forward()).1;
    let p2 = vector_hint_at(s, p1, t.spec_uses_backward()).1;
    lemma_extra_information_end(s, p2);
}

/// A decoded `picture_coding_extension()`, up to its `composite_display_flag`.
#[derive(Debug, Clone, Copy, PartialEq, Eq)]
pub struct PictureCodingExtension {
    pub f_code_fwd_horiz: u8,
    pub f_code_fwd_vert: u8,
    pub f_code_bwd_horiz: u8,
    pub f_code_bwd_vert: u8,
    /// 0 to 3 for DC coefficients of 8 to 11 bits.
    pub intra_dc_precision: u8,
    pub picture_structure: PictureStructure,
    pub top_field_first: bool,
    pub frame_pred_frame_dct: bool,
    pub concealment_motion_vectors: bool,
    pub q_scale_type: bool,
    pub intra_vlc_format: bool,
    pub alternate_scan: bool,
    pub repeat_first_field: bool,
    pub chroma_420_type: bool,
    pub progressive_frame: bool,
    pub composite_display_flag: bool,
}

/// Which fields a picture codes.
#[derive(Debug, Clone, Copy, PartialEq, Eq, Structural)]
pub enum PictureStructure {
    TopField,
    BottomField,
    Frame,
}

/// The picture structure of a two-bit code.
pub open spec fn structure_of(code: int) -> Result<PictureStructure> {
    if code == 0 {
        Err(Error::InvalidBitstream(ERR_PICTURE_STRUCTURE))
    } else if code == 1 {
        Ok(PictureStructure::TopField)
    } else if code == 2 {
        Ok(PictureStructure::BottomField)
    } else {
        Ok(PictureStructure::Frame)
    }
}

impl PictureStructure {
    /// The picture structure of a two-bit code.
    pub fn from_code(code: u32) -> (res: Result<Self>)
        requires
            code < 4,
        ensures
            res == structure_of(code as int),
    {
        match code {
            0 => Err(Error::InvalidBitstream(ERR_PICTURE_STRUCTURE)),
            1 => Ok(PictureStructure::TopField),
            2 => Ok(PictureStructure::BottomField),
            _ => Ok(PictureStructure::Frame),
        }
    }
}

/// The `picture_coding_extension()` that the bits start with.
pub open spec fn coding_extension(s: Seq<bool>) -> Result<PictureCodingExtension> {
    if s.len() < 32 {
        Err(Error::ShortHeader)
    } else if be_value(s, 0, 32) != EXTENSION_START_CODE {
        Err(Error::InvalidBitstream(ERR_EXTENSION_START_CODE))
    } else if s.len() < 36 {
        Err(Error::ShortHeader)
    } else if be_value(s, 32, 4) != PICTURE_CODING_EXTENSION_ID {
        Err(Error::InvalidBitstream(ERR_CODING_EXTENSION_ID))
    } else if s.len() < 52 {
        Err(Error::ShortHeader)
    } else if be_value(s, 36, 4) == 0 || be_value(s, 40, 4) == 0 || be_value(s, 44, 4) == 0
        || be_value(s, 48, 4) == 0 {
        Err(Error::InvalidBitstream(ERR_ZERO_F_CODE))
    } else if s.len() < 56 {
        Err(Error::ShortHeader)
    } else {
        match structure_of(be_value(s, 54, 2)) {
            Err(e) => Err(e),
            Ok(picture_structure) => if s.len() < 66 {
                Err(Error::ShortHeader)
            } else {
                Ok(
                    (PictureCodingExtension {
                        f_code_fwd_horiz: be_value(s, 36, 4) as u8,
                        f_code_fwd_vert: be_value(s, 40, 4) as u8,
                        f_code_bwd_horiz: be_value(s, 44, 4) as u8,
                        f_code_bwd_vert: be_value(s, 48, 4) as u8,
                        intra_dc_precision: be_value(s, 52, 2) as u8,
                        picture_structure,
                        top_field_first: s[56],
                        frame_pred_frame_dct: s[57],
                        concealment_motion_vectors: s[58],
                        q_scale_type: s[59],
                        intra_vlc_format: s[60],
                        alternate_scan: s[61],
                        repeat_first_field: s[62],
                        chroma_420_type: s[63],
                        progressive_frame: s[64],
                        composite_display_flag: s[65],
                    }),
                )
            },
        }
    }
}

impl PictureCodingExtension {
    /// Reads the picture coding extension that `buf` starts with.
    pub fn parse(buf: &[u8]) -> (res: Result<Self>)
        ensures
            res == coding_extension(bits_of(buf@)),
    {
        proof {
            lemma2_to64();
        }
        let mut br = BitReader::new(buf);
        let code = read_field(&mut br, 32)?;
        if code != EXTENSION_START_CODE {
            return Err(Error::InvalidBitstream(ERR_EXTENSION_START_CODE));
        }
        let id = read_field(&mut br, 4)?;
        if id != PICTURE_CODING_EXTENSION_ID {
            return Err(Error::InvalidBitstream(ERR_CODING_EXTENSION_ID));
        }
        let f_code_fwd_horiz = read_field(&mut br, 4)? as u8;
        let f_code_fwd_vert = read_field(&mut br, 4)? as u8;
        let f_code_bwd_horiz = read_field(&mut br, 4)? as u8;
        let f_code_bwd_vert = read_field(&mut br, 4)? as u8;
        if f_code_fwd_horiz == 0 || f_code_fwd_vert == 0 || f_code_bwd_horiz == 0 || f_code_bwd_vert
            == 0 {
            return Err(Error::InvalidBitstream(ERR_ZERO_F_CODE));
        }
        let intra_dc_precision = read_field(&mut br, 2)? as u8;
        let picture_structure = PictureStructure::from_code(read_field(&mut br, 2)?)?;
        let top_field_first = read_flag(&mut br)?;
        let frame_pred_frame_dct = read_flag(&mut br)?;
        let concealment_motion_vectors = read_flag(&mut br)?;
        let q_scale_type = read_flag(&mut br)?;
        let intra_vlc_format = read_flag(&mut br)?;
        let alternate_scan = read_flag(&mut br)?;
        let repeat_first_field = read_flag(&mut br)?;
        let chroma_420_type = read_flag(&mut br)?;
        let progressive_frame = read_flag(&mut br)?;
        let composite_display_flag = read_flag(&mut br)?;
        Ok(
            PictureCodingExtension {
                f_code_fwd_horiz,
                f_code_fwd_vert,
                f_code_bwd_horiz,
                f_code_bwd_vert,
                intra_dc_precision,
                picture_structure,
                top_field_first,
                frame_pred_frame_dct,
                concealment_motion_vectors,
                q_scale_type,
                intra_vlc_format,
                alternate_scan,
                repeat_first_field,
                chroma_420_type,
                progressive_frame,
                composite_display_flag,
            },
        )
    }
}

// ---------------------------------------------------------------------------
// Stuffing
// ---------------------------------------------------------------------------

proof fn lemma_prefix_bits(s: Seq<bool>, t: Seq<bool>, at: int, n: int)
    requires
        s.is_prefix_of(t),
        0 <= at,
        0 <= n,
        at + n <= s.len(),
    ensures
        be_value(s, at, n) == be_value(t, at, n),
        forall|k: int| at <= k < at + n ==> #[trigger] s[k] == t[k],
{
    assert forall|k: int| 0 <= k < s.len() implies #[trigger] s[k] == t[k] by {
        assert(t.subrange(0, s.len() as int)[k] == t[k]);
    }
    lemma_be_value_same(s, at, t, at, n);
}

proof fn lemma_prefix_information(s: Seq<bool>, t: Seq<bool>, at: int)
    requires
        s.is_prefix_of(t),
        0 <= at,
        extra_information_at(s, at).0 is Ok,
    ensures
        extra_information_at(t, at) == extra_information_at(s, at),
    decreases s.len() - at,
{
    lemma_prefix_bits(s, t, at, 1);
    if s[at] {
        lemma_prefix_bits(s, t, at + 1, 8);
        lemma_prefix_information(s, t, at + 9);
    }
}

/// Extra information is read, or breaks off.
proof fn lemma_information_error(s: Seq<bool>, at: int)
    ensures
        extra_information_at(s, at).0 matches Err(e) ==> e == Error::ShortHeader,
    decreases s.len() - at,
{
    if at + 9 <= s.len() && s[at] {
        lemma_information_error(s, at + 9);
    }
}

proof fn lemma_prefix_hint(s: Seq<bool>, t: Seq<bool>, at: int, present: bool)
    requires
        s.is_prefix_of(t),
        0 <= at,
        vector_hint_at(s, at, present).0 is Ok,
    ensures
        vector_hint_at(t, at, present) == vector_hint_at(s, at, present),
        at <= vector_hint_at(s, at, present).1,
{
    if present {
        lemma_prefix_bits(s, t, at, 1);
        lemma_prefix_bits(s, t, at + 1, 3);
    }
}

/// What follows a picture header that does not break off changes nothing of it.
pub proof fn law_header_ends_where_it_ends(s: Seq<bool>, t: Seq<bool>)
    requires
        s.is_prefix_of(t),
        picture_header_at(s, 0).0 != Err::<PictureHeaderFields, Error>(Error::ShortHeader),
    ensures
        picture_header_at(t, 0) == picture_header_at(s, 0),
{
    lemma_prefix_bits(s, t, 0, 32);
    if be_value(s, 0, 32) == PICTURE_START_CODE {
        lemma_prefix_bits(s, t, 32, 10);
        lemma_prefix_bits(s, t, 42, 3);
        if let Ok(c) = coding_type_of(be_value(s, 42, 3)) {
            lemma_prefix_bits(s, t, 45, 16);
            lemma_prefix_hint(s, t, 61, c.spec_uses_forward());
            let p1 = vector_hint_at(s, 61, c.spec_uses_forward()).1;
            lemma_prefix_hint(s, t, p1, c.spec_uses_backward());
            let p2 = vector_hint_at(s, p1, c.spec_uses_backward()).1;
            lemma_information_error(s, p2);
            lemma_prefix_information(s, t, p2);
        }
    }
}

pub proof fn lemma_zeros_passed(buf: Seq<u8>, from: int, to: int)
    requires
        from <= to < buf.len(),
        forall|i: int| from <= i < to ==> #[trigger] buf[i] == 0,
        buf[to] != 0,
    ensures
        first_nonzero(buf, from) == to,
    decreases to - from,
{
    if from < to {
        assert(buf[from] == 0);
        lemma_zeros_passed(buf, from + 1, to);
    }
}

/// `stuffing` zero bytes.
pub open spec fn zero_bytes(stuffing: nat) -> Seq<u8> {
    Seq::new(stuffing, |i: int| 0u8)
}

/// Any number of zero bytes may stand between a picture header, filled to a byte, and
/// the extension after it: the header and the extension are what each is on its own.
pub proof fn law_stuffing_changes_nothing(header: Seq<u8>, stuffing: nat, extension: Seq<u8>)
    requires
        match picture_header_at(bits_of(header), 0) {
            (Ok(_), end) => bytes_for(end) == header.len(),
            (Err(e), _) => e != Error::ShortHeader,
        },
        4 <= extension.len(),
        extension[0] == 0,
        extension[1] == 0,
        extension[2] == 1,
        extension[3] == 0xB5,
    ensures
        header_with_extension(header + zero_bytes(stuffing) + extension) == (
        match picture_header_at(bits_of(header), 0).0 {
            Err(e) => Err::<(PictureHeaderFields, PictureCodingExtension), Error>(e),
            Ok(h) => if h.picture_coding_type == PictureCodingType::DcIntra {
                Err(Error::InvalidBitstream(ERR_CODING_TYPE_D))
            } else {
                match coding_extension(bits_of(extension)) {
                    Err(e) => Err(e),
                    Ok(x) => Ok((h, x)),
                }
            },
        }),
{
    let buf = header + zero_bytes(stuffing) + extension;
    let s = bits_of(header);
    let t = bits_of(buf);
    assert(s.is_prefix_of(t)) by {
        assert forall|k: int| 0 <= k < s.len() implies #[trigger] s[k] == t[k] by {
            assert(buf[k / 8] == header[k / 8]);
        }
        assert(t.subrange(0, s.len() as int) =~= s);
    }
    law_header_ends_where_it_ends(s, t);
    if picture_header_at(s, 0).0 is Ok {
        let from = header.len() as int;
        let start = from + stuffing;
        assert forall|i: int| from <= i < start + 2 implies #[trigger] buf[i] == 0 by {
            if i >= start {
                assert(buf[i] == extension[i - start]);
            } else {
                assert(buf[i] == zero_bytes(stuffing)[i - from]);
            }
        }
        assert(buf[start + 2] == extension[2]);
        assert(buf[start + 3] == extension[3]);
        lemma_zeros_passed(buf, from, start + 2);
        assert(buf.subrange(start, buf.len() as int) =~= extension);
    }
}

} // verus!
