//! The `picture_spatial_scalable_extension()`.

use crate::arith::is_odd_i32;
use crate::bits::{
    be_value, bits_of, read_field, read_flag, reader_bits, reader_pos, reads_as, sign_extended,
};
use crate::error::{Error, Result};
use crate::picture::ChromaFormat;
use crate::picture_display_extension::{expect_marker_bit, read_signed, ERR_EXTENSION_CODE};
use crate::picture_header::EXTENSION_START_CODE;
use oxideav_core::bits::BitReader;
use vstd::arithmetic::power2::lemma2_to64;
use vstd::prelude::*;

verus! {

/// The extension identifier of a picture spatial scalable extension.
pub const PICTURE_SPATIAL_SCALABLE_EXTENSION_ID: u32 = 0b1001;

pub const ERR_SPATIAL_ID: &'static str =
    "extension_start_code_identifier: expected '1001' Picture Spatial Scalable Extension ID (Table 6-2)";

pub const ERR_SPATIAL_MARKER: &'static str =
    "marker_bit in picture_spatial_scalable_extension() (§6.2.3.5)";

pub const ERR_ODD_HORIZONTAL: &'static str =
    "lower_layer_horizontal_offset: shall be even for 4:2:0 / 4:2:2 (§6.3.14)";

pub const ERR_ODD_VERTICAL: &'static str =
    "lower_layer_vertical_offset: shall be even for 4:2:0 (§6.3.14)";

/// Where the upsampled lower layer lies in the enhancement picture.
#[derive(Debug, Clone, Copy, PartialEq, Eq)]
pub struct PictureSpatialScalableExtension {
    /// The temporal reference of the lower layer frame.
    pub lower_layer_temporal_reference: u16,
    /// The left edge of the lower layer, from -16384 to 16383.
    pub lower_layer_horizontal_offset: i32,
    /// The top edge of the lower layer, from -16384 to 16383.
    pub lower_layer_vertical_offset: i32,
    pub spatial_temporal_weight_code_table_index: u8,
    pub lower_layer_progressive_frame: bool,
    pub lower_layer_deinterlaced_field_select: bool,
}

/// The `picture_spatial_scalable_extension()` at `at`.
pub open spec fn spatial_extension_at(s: Seq<bool>, at: int) -> (
    Result<PictureSpatialScalableExtension>,
    int,
) {
    if at + 32 > s.len() {
        (Err(Error::ShortHeader), at)
    } else if be_value(s, at, 32) != EXTENSION_START_CODE {
        (Err(Error::InvalidBitstream(ERR_EXTENSION_CODE)), at + 32)
    } else if at + 36 > s.len() {
        (Err(Error::ShortHeader), at + 32)
    } else if be_value(s, at + 32, 4) != PICTURE_SPATIAL_SCALABLE_EXTENSION_ID {
        (Err(Error::InvalidBitstream(ERR_SPATIAL_ID)), at + 36)
    } else if at + 46 > s.len() {
        (Err(Error::ShortHeader), at + 36)
    } else if at + 47 > s.len() {
        (Err(Error::ShortHeader), at + 46)
    } else if !s[at + 46] {
        (Err(Error::InvalidBitstream(ERR_SPATIAL_MARKER)), at + 47)
    } else if at + 62 > s.len() {
        (Err(Error::ShortHeader), at + 47)
    } else if at + 63 > s.len() {
        (Err(Error::ShortHeader), at + 62)
    } else if !s[at + 62] {
        (Err(Error::InvalidBitstream(ERR_SPATIAL_MARKER)), at + 63)
    } else if at + 78 > s.len() {
        (Err(Error::ShortHeader), at + 63)
    } else if at + 80 > s.len() {
        (Err(Error::ShortHeader), at + 78)
    } else if at + 82 > s.len() {
        (Err(Error::ShortHeader), s.len() as int)
    } else {
        (
            Ok(
                (PictureSpatialScalableExtension {
                    lower_layer_temporal_reference: be_value(s, at + 36, 10) as u16,
                    lower_layer_horizontal_offset: sign_extended(
                        be_value(s, at + 47, 15),
                        15,
                    ) as i32,
                    lower_layer_vertical_offset: sign_extended(be_value(s, at + 63, 15), 15) as i32,
                    spatial_temporal_weight_code_table_index: be_value(s, at + 78, 2) as u8,
                    lower_layer_progressive_frame: s[at + 80],
                    lower_layer_deinterlaced_field_select: s[at + 81],
                }),
            ),
            at + 82,
        )
    }
}

impl PictureSpatialScalableExtension {
    /// Reads the extension that `buf` starts with.
    pub fn parse(buf: &[u8]) -> (res: Result<Self>)
        ensures
            res == spatial_extension_at(bits_of(buf@), 0).0,
    {
        let mut br = BitReader::new(buf);
        Self::parse_with_reader(&mut br)
    }

    /// Reads the extension at the cursor.
    pub fn parse_with_reader(br: &mut BitReader<'_>) -> (res: Result<Self>)
        ensures
            reads_as(
                *old(br),
                *final(br),
                res,
                spatial_extension_at(reader_bits(*old(br)), reader_pos(*old(br)) as int),
            ),
    {
        proof {
            lemma2_to64();
        }
        let code = read_field(br, 32)?;
        if code != EXTENSION_START_CODE {
            return Err(Error::InvalidBitstream(ERR_EXTENSION_CODE));
        }
        let id = read_field(br, 4)?;
        if id != PICTURE_SPATIAL_SCALABLE_EXTENSION_ID {
            return Err(Error::InvalidBitstream(ERR_SPATIAL_ID));
        }
        let lower_layer_temporal_reference = read_field(br, 10)? as u16;
        expect_marker_bit(br, ERR_SPATIAL_MARKER)?;
        let lower_layer_horizontal_offset = read_signed(br, 15)?;
        expect_marker_bit(br, ERR_SPATIAL_MARKER)?;
        let lower_layer_vertical_offset = read_signed(br, 15)?;
        let spatial_temporal_weight_code_table_index = read_field(br, 2)? as u8;
        let lower_layer_progressive_frame = read_flag(br)?;
        let lower_layer_deinterlaced_field_select = read_flag(br)?;
        Ok(
            PictureSpatialScalableExtension {
                lower_layer_temporal_reference,
                lower_layer_horizontal_offset,
                lower_layer_vertical_offset,
                spatial_temporal_weight_code_table_index,
                lower_layer_progressive_frame,
                lower_layer_deinterlaced_field_select,
            },
        )
    }

    /// Whether the offsets fall on chrominance samples: the horizontal one shall
    /// be even unless the chrominance is full width, the vertical one unless it
    /// is full height.
    pub fn validate(&self, chroma_format: ChromaFormat) -> (res: Result<()>)
        ensures
            res == (if chroma_format != ChromaFormat::Yuv444
                && self.lower_layer_horizontal_offset as int % 2 != 0 {
                Err::<(), Error>(Error::InvalidBitstream(ERR_ODD_HORIZONTAL))
            } else if chroma_format == ChromaFormat::Yuv420
                && self.lower_layer_vertical_offset as int % 2 != 0 {
                Err::<(), Error>(Error::InvalidBitstream(ERR_ODD_VERTICAL))
            } else {
                Ok::<(), Error>(())
            }),
    {
        let (horizontal_must_be_even, vertical_must_be_even) = match chroma_format {
            ChromaFormat::Yuv420 => (true, true),
            ChromaFormat::Yuv422 => (true, false),
            ChromaFormat::Yuv444 => (false, false),
        };
        if horizontal_must_be_even && is_odd_i32(self.lower_layer_horizontal_offset) {
            return Err(Error::InvalidBitstream(ERR_ODD_HORIZONTAL));
        }
        if vertical_must_be_even && is_odd_i32(self.lower_layer_vertical_offset) {
            return Err(Error::InvalidBitstream(ERR_ODD_VERTICAL));
        }
        Ok(())
    }
}

} // verus!
