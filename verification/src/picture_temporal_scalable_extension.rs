//! The `picture_temporal_scalable_extension()` and the references it selects.

use crate::bits::{be_value, bits_of, read_field, reader_bits, reader_pos, reads_as};
use crate::error::{Error, Result};
use crate::picture_display_extension::{expect_marker_bit, ERR_EXTENSION_CODE};
use crate::picture_header::{PictureCodingType, ERR_CODING_TYPE_D, EXTENSION_START_CODE};
use oxideav_core::bits::BitReader;
use vstd::arithmetic::power2::lemma2_to64;
use vstd::prelude::*;

verus! {

/// The extension identifier of a picture temporal scalable extension.
pub const PICTURE_TEMPORAL_SCALABLE_EXTENSION_ID: u32 = 0b1010;

pub const ERR_TEMPORAL_ID: &'static str =
    "extension_start_code_identifier: expected '1010' Picture Temporal Scalable Extension ID (Table 6-2)";

pub const ERR_TEMPORAL_MARKER: &'static str =
    "marker_bit in picture_temporal_scalable_extension() (§6.2.3.4)";

pub const ERR_SELECT_I: &'static str =
    "reference_select_code: shall be '11' for I-pictures (§7.9)";

pub const ERR_SELECT_P: &'static str =
    "reference_select_code: '11' is forbidden in P-pictures (Table 7-28)";

pub const ERR_SELECT_B: &'static str =
    "reference_select_code: '00' is forbidden in B-pictures (Table 7-29)";

/// Which frames an enhancement picture is predicted from.
#[derive(Debug, Clone, Copy, PartialEq, Eq)]
pub struct PictureTemporalScalableExtension {
    /// The two-bit selection code.
    pub reference_select_code: u8,
    /// The temporal reference of the lower layer frame for forward prediction.
    pub forward_temporal_reference: u16,
    /// The temporal reference of the lower layer frame for backward prediction.
    pub backward_temporal_reference: u16,
}

/// The `picture_temporal_scalable_extension()` at `at`.
pub open spec fn temporal_extension_at(s: Seq<bool>, at: int) -> (
    Result<PictureTemporalScalableExtension>,
    int,
) {
    if at + 32 > s.len() {
        (Err(Error::ShortHeader), at)
    } else if be_value(s, at, 32) != EXTENSION_START_CODE {
        (Err(Error::InvalidBitstream(ERR_EXTENSION_CODE)), at + 32)
    } else if at + 36 > s.len() {
        (Err(Error::ShortHeader), at + 32)
    } else if be_value(s, at + 32, 4) != PICTURE_TEMPORAL_SCALABLE_EXTENSION_ID {
        (Err(Error::InvalidBitstream(ERR_TEMPORAL_ID)), at + 36)
    } else if at + 38 > s.len() {
        (Err(Error::ShortHeader), at + 36)
    } else if at + 48 > s.len() {
        (Err(Error::ShortHeader), at + 38)
    } else if at + 49 > s.len() {
        (Err(Error::ShortHeader), at + 48)
    } else if !s[at + 48] {
        (Err(Error::InvalidBitstream(ERR_TEMPORAL_MARKER)), at + 49)
    } else if at + 59 > s.len() {
        (Err(Error::ShortHeader), at + 49)
    } else {
        (
            Ok(
                (PictureTemporalScalableExtension {
                    reference_select_code: be_value(s, at + 36, 2) as u8,
                    forward_temporal_reference: be_value(s, at + 38, 10) as u16,
                    backward_temporal_reference: be_value(s, at + 49, 10) as u16,
                }),
            ),
            at + 59,
        )
    }
}

/// What a picture of the given type may not select, if it does. D-pictures have
/// no place in a scalable stream.
pub open spec fn selection_error(code: u8, picture_coding_type: PictureCodingType) -> Option<Error> {
    match picture_coding_type {
        PictureCodingType::Intra => if code != 0b11 {
            Some(Error::InvalidBitstream(ERR_SELECT_I))
        } else {
            None
        },
        PictureCodingType::Predictive => if code == 0b11 {
            Some(Error::InvalidBitstream(ERR_SELECT_P))
        } else {
            None
        },
        PictureCodingType::Bidirectional => if code == 0b00 {
            Some(Error::InvalidBitstream(ERR_SELECT_B))
        } else {
            None
        },
        PictureCodingType::DcIntra => Some(Error::InvalidBitstream(ERR_CODING_TYPE_D)),
    }
}

/// The forward source of a P-picture.
pub open spec fn p_source(code: u8) -> ReferenceSource {
    if code == 0b00 {
        ReferenceSource::MostRecentEnhancement
    } else if code == 0b01 {
        ReferenceSource::MostRecentLowerLayer
    } else {
        ReferenceSource::NextLowerLayer
    }
}

/// The forward source of a B-picture.
pub open spec fn b_forward_source(code: u8) -> ReferenceSource {
    if code == 0b11 {
        ReferenceSource::MostRecentLowerLayer
    } else {
        ReferenceSource::MostRecentEnhancement
    }
}

/// The backward source of a B-picture.
pub open spec fn b_backward_source(code: u8) -> ReferenceSource {
    if code == 0b01 {
        ReferenceSource::MostRecentLowerLayer
    } else {
        ReferenceSource::NextLowerLayer
    }
}

/// The references that a code selects for a picture of the given type.
pub open spec fn selected_references(code: u8, picture_coding_type: PictureCodingType) -> Result<
    PictureReferences,
> {
    match picture_coding_type {
        PictureCodingType::Intra => Ok(PictureReferences::Intra),
        PictureCodingType::Predictive => if code > 0b10 {
            Err(Error::InvalidBitstream(ERR_SELECT_P))
        } else {
            Ok(PictureReferences::Predictive { forward: p_source(code) })
        },
        PictureCodingType::Bidirectional => if code == 0b00 || code > 0b11 {
            Err(Error::InvalidBitstream(ERR_SELECT_B))
        } else {
            Ok(
                PictureReferences::Bidirectional {
                    forward: b_forward_source(code),
                    backward: b_backward_source(code),
                },
            )
        },
        PictureCodingType::DcIntra => Err(Error::InvalidBitstream(ERR_CODING_TYPE_D)),
    }
}

impl PictureTemporalScalableExtension {
    /// Reads the extension that `buf` starts with.
    pub fn parse(buf: &[u8]) -> (res: Result<Self>)
        ensures
            res == temporal_extension_at(bits_of(buf@), 0).0,
    {
        let mut br = BitReader::new(buf);
        Self::parse_with_reader(&mut br)
    }

    /// Reads the extension at the cursor.
    pub fn parse_with_reader(br: &mut BitReader<'_>) -> (res: Result<Self>)
        ensures
            reads_as(
                *old(br),
                *final(br),
                res,
                temporal_extension_at(reader_bits(*old(br)), reader_pos(*old(br)) as int),
            ),
    {
        proof {
            lemma2_to64();
        }
        let code = read_field(br, 32)?;
        if code != EXTENSION_START_CODE {
            return Err(Error::InvalidBitstream(ERR_EXTENSION_CODE));
        }
        let id = read_field(br, 4)?;
        if id != PICTURE_TEMPORAL_SCALABLE_EXTENSION_ID {
            return Err(Error::InvalidBitstream(ERR_TEMPORAL_ID));
        }
        let reference_select_code = read_field(br, 2)? as u8;
        let forward_temporal_reference = read_field(br, 10)? as u16;
        expect_marker_bit(br, ERR_TEMPORAL_MARKER)?;
        let backward_temporal_reference = read_field(br, 10)? as u16;
        Ok(
            PictureTemporalScalableExtension {
                reference_select_code,
                forward_temporal_reference,
                backward_temporal_reference,
            },
        )
    }

    /// Whether the selection is one that a picture of the given type may make.
    pub fn validate(&self, picture_coding_type: PictureCodingType) -> (res: Result<()>)
        ensures
            match selection_error(self.reference_select_code, picture_coding_type) {
                Some(e) => res == Err::<(), Error>(e),
                None => res == Ok::<(), Error>(()),
            },
    {
        match picture_coding_type {
            PictureCodingType::Intra => {
                if self.reference_select_code != 0b11 {
                    return Err(Error::InvalidBitstream(ERR_SELECT_I));
                }
            },
            PictureCodingType::Predictive => {
                if self.reference_select_code == 0b11 {
                    return Err(Error::InvalidBitstream(ERR_SELECT_P));
                }
            },
            PictureCodingType::Bidirectional => {
                if self.reference_select_code == 0b00 {
                    return Err(Error::InvalidBitstream(ERR_SELECT_B));
                }
            },
            PictureCodingType::DcIntra => {
                return Err(Error::InvalidBitstream(ERR_CODING_TYPE_D));
            },
        }
        Ok(())
    }

    /// The references that a picture of the given type is predicted from.
    pub fn resolve_references(&self, picture_coding_type: PictureCodingType) -> (res: Result<
        PictureReferences,
    >)
        ensures
            res == selected_references(self.reference_select_code, picture_coding_type),
    {
        match picture_coding_type {
            PictureCodingType::Intra => Ok(PictureReferences::Intra),
            PictureCodingType::Predictive => {
                let forward = match self.reference_select_code {
                    0b00 => ReferenceSource::MostRecentEnhancement,
                    0b01 => ReferenceSource::MostRecentLowerLayer,
                    0b10 => ReferenceSource::NextLowerLayer,
                    _ => {
                        return Err(Error::InvalidBitstream(ERR_SELECT_P));
                    },
                };
                Ok(PictureReferences::Predictive { forward })
            },
            PictureCodingType::Bidirectional => {
                let (forward, backward) = match self.reference_select_code {
                    0b01 => (
                        ReferenceSource::MostRecentEnhancement,
                        ReferenceSource::MostRecentLowerLayer,
                    ),
                    0b10 => (
                        ReferenceSource::MostRecentEnhancement,
                        ReferenceSource::NextLowerLayer,
                    ),
                    0b11 => (
                        ReferenceSource::MostRecentLowerLayer,
                        ReferenceSource::NextLowerLayer,
                    ),
                    _ => {
                        return Err(Error::InvalidBitstream(ERR_SELECT_B));
                    },
                };
                Ok(PictureReferences::Bidirectional { forward, backward })
            },
            PictureCodingType::DcIntra => Err(Error::InvalidBitstream(ERR_CODING_TYPE_D)),
        }
    }
}

/// A frame that prediction draws from.
#[derive(Debug, Clone, Copy, PartialEq, Eq, Structural)]
pub enum ReferenceSource {
    /// The most recently decoded picture of the enhancement layer.
    MostRecentEnhancement,
    /// The lower layer frame last displayed, the coincident one at the latest.
    MostRecentLowerLayer,
    /// The lower layer frame displayed next.
    NextLowerLayer,
}

/// The references of an enhancement picture.
#[derive(Debug, Clone, Copy, PartialEq, Eq, Structural)]
pub enum PictureReferences {
    /// An I-picture has none.
    Intra,
    /// A P-picture has a forward reference.
    Predictive { forward: ReferenceSource },
    /// A B-picture has both.
    Bidirectional { forward: ReferenceSource, backward: ReferenceSource },
}

/// Backward prediction never draws from the enhancement layer.
pub proof fn law_backward_is_lower_layer(code: u8, picture_coding_type: PictureCodingType)
    ensures
        selected_references(code, picture_coding_type) matches Ok(
            PictureReferences::Bidirectional { backward, .. },
        ) ==> backward != ReferenceSource::MostRecentEnhancement,
{
}

/// A two-bit code that a picture of the given type may not use resolves to
/// nothing, and one that it may use resolves.
pub proof fn law_validation_admits_resolution(code: u8, picture_coding_type: PictureCodingType)
    requires
        code <= 0b11,
        picture_coding_type != PictureCodingType::Intra,
    ensures
        selection_error(code, picture_coding_type) is None <==> selected_references(
            code,
            picture_coding_type,
        ) is Ok,
        selection_error(code, picture_coding_type) matches Some(e) ==> selected_references(
            code,
            picture_coding_type,
        ) == Err::<PictureReferences, Error>(e),
{
}

/// The codes 1 and 2 name the same frame of the lower layer for a P-picture and for the
/// backward prediction of a B-picture: the most recent one and the next. With code 0 a
/// P-picture stays in its own layer, and with code 3 a B-picture lies between the two
/// frames of the lower layer.
pub proof fn law_codes_name_lower_layer_frames(code: u8)
    requires
        1 <= code <= 2,
    ensures
        ({
            let p = selected_references(code, PictureCodingType::Predictive);
            let b = selected_references(code, PictureCodingType::Bidirectional);
            let own = ReferenceSource::MostRecentEnhancement;
            let lower = if code == 1 {
                ReferenceSource::MostRecentLowerLayer
            } else {
                ReferenceSource::NextLowerLayer
            };
            &&& p == Ok::<PictureReferences, Error>(
                (PictureReferences::Predictive { forward: lower }),
            )
            &&& b == Ok::<PictureReferences, Error>(
                (PictureReferences::Bidirectional { forward: own, backward: lower }),
            )
            &&& selected_references(0, PictureCodingType::Predictive) == Ok::<
                PictureReferences,
                Error,
            >((PictureReferences::Predictive { forward: own }))
            &&& selected_references(3, PictureCodingType::Bidirectional) == Ok::<
                PictureReferences,
                Error,
            >(
                (PictureReferences::Bidirectional {
                    forward: ReferenceSource::MostRecentLowerLayer,
                    backward: ReferenceSource::NextLowerLayer,
                }),
            )
        }),
{
}

} // verus!
