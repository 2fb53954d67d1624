//! Which blocks of a macroblock are coded.

use crate::bits::{
    addressable, be_value, codeword_at, lemma_value_bits_len, read_field, reader_bits, reader_pos,
    reads_as, value_bits, writer_bits,
};
use crate::error::{Error, Result};
use crate::picture::ChromaFormat;
use crate::vlc::{at_codeword, fits_length, lemma_prefix_free, lemma_written_codeword, prefix_free};
use oxideav_core::bits::{BitReader, BitWriter};
use vstd::arithmetic::power2::lemma2_to64;
use vstd::prelude::*;

verus! {

pub const ERR_PATTERN_LENGTH: &'static str =
    "coded_block_pattern: one flag per block of the chroma format is required (§6.3.17.4)";

pub const ERR_PATTERN: &'static str =
    "coded_block_pattern: no Table B-9 codeword matches the bit prefix (§6.2.5.3)";

/// Table B-9, in the order of the patterns: the codeword and its length in bits.
pub const TABLE_B9: [(u16, u8); 64] = [
    (0b000000001, 9),
    (0b01011, 5),
    (0b01001, 5),
    (0b001101, 6),
    (0b1101, 4),
    (0b0010111, 7),
    (0b0010011, 7),
    (0b00011111, 8),
    (0b1100, 4),
    (0b0010110, 7),
    (0b0010010, 7),
    (0b00011110, 8),
    (0b10011, 5),
    (0b00011011, 8),
    (0b00010111, 8),
    (0b00010011, 8),
    (0b1011, 4),
    (0b0010101, 7),
    (0b0010001, 7),
    (0b00011101, 8),
    (0b10001, 5),
    (0b00011001, 8),
    (0b00010101, 8),
    (0b00010001, 8),
    (0b001111, 6),
    (0b00001111, 8),
    (0b00001101, 8),
    (0b000000011, 9),
    (0b01111, 5),
    (0b00001011, 8),
    (0b00000111, 8),
    (0b000000111, 9),
    (0b1010, 4),
    (0b0010100, 7),
    (0b0010000, 7),
    (0b00011100, 8),
    (0b001110, 6),
    (0b00001110, 8),
    (0b00001100, 8),
    (0b000000010, 9),
    (0b10000, 5),
    (0b00011000, 8),
    (0b00010100, 8),
    (0b00010000, 8),
    (0b01110, 5),
    (0b00001010, 8),
    (0b00000110, 8),
    (0b000000110, 9),
    (0b10010, 5),
    (0b00011010, 8),
    (0b00010110, 8),
    (0b00010010, 8),
    (0b01101, 5),
    (0b00001001, 8),
    (0b00000101, 8),
    (0b000000101, 9),
    (0b01100, 5),
    (0b00001000, 8),
    (0b00000100, 8),
    (0b000000100, 9),
    (0b111, 3),
    (0b01010, 5),
    (0b01000, 5),
    (0b001100, 6),
];

/// A decoded `coded_block_pattern()`.
#[derive(Debug, Clone, Copy, PartialEq, Eq)]
pub struct CodedBlockPattern {
    /// The pattern of the first six blocks, block 0 in the highest of six bits.
    pub cbp: u8,
    /// In 4:2:2, the pattern of blocks 6 and 7.
    pub coded_block_pattern_1: Option<u8>,
    /// In 4:4:4, the pattern of blocks 6 to 11.
    pub coded_block_pattern_2: Option<u8>,
    /// The bit position after the element.
    pub bit_position_after: u64,
}

/// Bit `k` of `x`, counted from the lowest.
pub open spec fn bit_of(x: u8, k: int) -> bool {
    (if k == 0 {
        x as int
    } else if k == 1 {
        x as int / 2
    } else if k == 2 {
        x as int / 4
    } else if k == 3 {
        x as int / 8
    } else if k == 4 {
        x as int / 16
    } else {
        x as int / 32
    }) % 2 == 1
}

fn test_bit(x: u8, k: usize) -> (b: bool)
    requires
        k < 6,
    ensures
        b == bit_of(x, k as int),
{
    let shifted: u8 = match k {
        0 => x,
        1 => x / 2,
        2 => x / 4,
        3 => x / 8,
        4 => x / 16,
        _ => x / 32,
    };
    shifted % 2 == 1
}

impl CodedBlockPattern {
    /// Whether block `i` is coded: every block of an intra macroblock, none of a
    /// macroblock without a pattern, else as the pattern says.
    pub open spec fn codes_block(self, intra: bool, macroblock_pattern: bool, i: int) -> bool {
        if intra {
            true
        } else if !macroblock_pattern {
            false
        } else if i < 6 {
            bit_of(self.cbp, 5 - i)
        } else {
            match self.coded_block_pattern_1 {
                Some(p) if i < 8 => bit_of(p, 7 - i),
                _ => match self.coded_block_pattern_2 {
                    Some(p) => bit_of(p, 11 - i),
                    None => false,
                },
            }
        }
    }

    /// Which of up to twelve blocks are coded.
    pub fn pattern_code(&self, intra: bool, macroblock_pattern: bool) -> (r: [bool; 12])
        ensures
            forall|i: int|
                0 <= i < 12 ==> #[trigger] r[i] == self.codes_block(intra, macroblock_pattern, i),
    {
        let mut out = [intra; 12];
        if intra || !macroblock_pattern {
            return out;
        }
        let mut i: usize = 0;
        while i < 12
            invariant
                i <= 12,
                !intra,
                macroblock_pattern,
                forall|j: int|
                    0 <= j < i ==> #[trigger] out[j] == self.codes_block(
                        intra,
                        macroblock_pattern,
                        j,
                    ),
            decreases 12 - i,
        {
            out[i] = if i < 6 {
                test_bit(self.cbp, 5 - i)
            } else {
                match (self.coded_block_pattern_1, self.coded_block_pattern_2) {
                    (Some(p), _) if i < 8 => test_bit(p, 7 - i),
                    (_, Some(p)) => test_bit(p, 11 - i),
                    (_, None) => false,
                }
            };
            i += 1;
        }
        out
    }
}

#[verifier::rlimit(60)]
proof fn lemma_b9_pairs(i: int, j: int)
    requires
        0 <= i < j < 64,
    ensures
        prefix_free(
            TABLE_B9[i].0 as int,
            TABLE_B9[i].1 as int,
            TABLE_B9[j].0 as int,
            TABLE_B9[j].1 as int,
        ),
{
}

/// The codewords of Table B-9 are prefix-free and fit their lengths.
pub proof fn lemma_b9_prefix_free(i: int, j: int)
    requires
        0 <= i < 64,
        0 <= j < 64,
    ensures
        fits_length(TABLE_B9[i].0 as int, TABLE_B9[i].1 as int),
        3 <= TABLE_B9[i].1 <= 9,
        i != j ==> prefix_free(
            TABLE_B9[i].0 as int,
            TABLE_B9[i].1 as int,
            TABLE_B9[j].0 as int,
            TABLE_B9[j].1 as int,
        ),
{
    if i < j {
        lemma_b9_pairs(i, j);
    } else if j < i {
        lemma_b9_pairs(j, i);
    }
    assert(fits_length(TABLE_B9[i].0 as int, TABLE_B9[i].1 as int));
}

/// Whether the codeword of pattern `i` stands at `at`.
pub open spec fn b9_row_at(s: Seq<bool>, at: int, i: int) -> bool {
    0 <= i < 64 && codeword_at(s, at, TABLE_B9[i].0 as int, TABLE_B9[i].1 as int)
}

proof fn lemma_b9_row_unique(s: Seq<bool>, at: int, i: int)
    requires
        b9_row_at(s, at, i),
    ensures
        forall|j: int| #[trigger] b9_row_at(s, at, j) ==> j == i,
{
    assert forall|j: int| #[trigger] b9_row_at(s, at, j) implies j == i by {
        lemma_b9_prefix_free(i, j);
        lemma_b9_prefix_free(j, i);
        if i != j {
            lemma_prefix_free(
                s,
                at,
                TABLE_B9[i].0 as int,
                TABLE_B9[i].1 as int,
                TABLE_B9[j].0 as int,
                TABLE_B9[j].1 as int,
            );
        }
    }
}

/// The pattern of the first six blocks at `at`, and the position after it.
pub open spec fn cbp_at(s: Seq<bool>, at: int) -> (Result<u8>, int) {
    if exists|i: int| b9_row_at(s, at, i) {
        let i = choose|i: int| b9_row_at(s, at, i);
        (Ok(i as u8), at + TABLE_B9[i].1)
    } else {
        (Err(Error::InvalidBitstream(ERR_PATTERN)), at)
    }
}

/// How many bits stand for the blocks beyond the first six.
pub open spec fn extra_pattern_bits(chroma_format: ChromaFormat) -> int {
    chroma_format.spec_blocks_per_mb() - 6
}

/// The pattern at `at`, and the position after it.
pub open spec fn pattern_at(s: Seq<bool>, at: int, chroma_format: ChromaFormat) -> (
    Result<CodedBlockPattern>,
    int,
) {
    let (cbp, p) = cbp_at(s, at);
    let n = extra_pattern_bits(chroma_format);
    match cbp {
        Err(e) => (Err(e), p),
        Ok(cbp) => if n > 0 && p + n > s.len() {
            (Err(Error::ShortHeader), p)
        } else {
            (
                Ok(
                    (CodedBlockPattern {
                        cbp,
                        coded_block_pattern_1: if n == 2 {
                            Some(be_value(s, p, 2) as u8)
                        } else {
                            None
                        },
                        coded_block_pattern_2: if n == 6 {
                            Some(be_value(s, p, 6) as u8)
                        } else {
                            None
                        },
                        bit_position_after: (p + n) as u64,
                    }),
                ),
                p + n,
            )
        },
    }
}

/// Reads the pattern of the first six blocks.
fn match_b9(br: &mut BitReader<'_>) -> (res: Result<u8>)
    ensures
        reads_as(
            *old(br),
            *final(br),
            res,
            cbp_at(reader_bits(*old(br)), reader_pos(*old(br)) as int),
        ),
{
    let ghost s = reader_bits(*br);
    let ghost at = reader_pos(*br) as int;
    let mut i: usize = 0;
    while i < 64
        invariant
            i <= 64,
            reader_bits(*br) == s,
            reader_pos(*br) == at,
            s == reader_bits(*old(br)),
            at == reader_pos(*old(br)),
            forall|j: int| 0 <= j < i ==> !b9_row_at(s, at, j),
        decreases 64 - i,
    {
        let row = TABLE_B9[i];
        proof {
            lemma_b9_prefix_free(i as int, i as int);
        }
        if at_codeword(br, row.0 as u32, row.1 as u32) {
            proof {
                assert(b9_row_at(s, at, i as int));
                lemma_b9_row_unique(s, at, i as int);
            }
            let _ = br.skip(row.1 as u32);
            return Ok(i as u8);
        }
        i += 1;
    }
    Err(Error::InvalidBitstream(ERR_PATTERN))
}

impl CodedBlockPattern {
    /// Reads which blocks of a macroblock are coded.
    pub fn parse(br: &mut BitReader<'_>, chroma_format: ChromaFormat) -> (res: Result<Self>)
        requires
            addressable(*old(br)),
        ensures
            reads_as(
                *old(br),
                *final(br),
                res,
                pattern_at(reader_bits(*old(br)), reader_pos(*old(br)) as int, chroma_format),
            ),
    {
        proof {
            lemma2_to64();
        }
        let cbp = match_b9(br)?;
        let mut coded_block_pattern_1: Option<u8> = None;
        let mut coded_block_pattern_2: Option<u8> = None;
        match chroma_format {
            ChromaFormat::Yuv420 => {},
            ChromaFormat::Yuv422 => {
                coded_block_pattern_1 = Some(read_field(br, 2)? as u8);
            },
            ChromaFormat::Yuv444 => {
                coded_block_pattern_2 = Some(read_field(br, 6)? as u8);
            },
        }
        Ok(
            CodedBlockPattern {
                cbp,
                coded_block_pattern_1,
                coded_block_pattern_2,
                bit_position_after: br.bit_position(),
            },
        )
    }
}

/// The bits of the pattern of the first six blocks.
pub open spec fn cbp_bits(cbp: int) -> Seq<bool> {
    value_bits(TABLE_B9[cbp].0 as int, TABLE_B9[cbp].1 as int)
}

/// Writes the pattern of the first six blocks.
pub fn encode_cbp420(bw: &mut BitWriter, cbp: u8)
    requires
        cbp < 64,
    ensures
        writer_bits(*final(bw)) == writer_bits(*old(bw)) + cbp_bits(cbp as int),
{
    proof {
        lemma_b9_prefix_free(cbp as int, cbp as int);
    }
    let row = TABLE_B9[cbp as usize];
    bw.write_u32(row.0 as u32, row.1 as u32);
}

/// A pattern of the first six blocks that was written is read back.
pub proof fn law_cbp_round_trip(s: Seq<bool>, at: int, cbp: int)
    requires
        0 <= cbp < 64,
        crate::bits::holds_at(s, at, cbp_bits(cbp)),
    ensures
        cbp_at(s, at) == (Ok::<u8, Error>(cbp as u8), at + cbp_bits(cbp).len()),
{
    lemma_b9_prefix_free(cbp, cbp);
    let row = TABLE_B9[cbp];
    lemma_value_bits_len(row.0 as int, row.1 as int);
    lemma_written_codeword(s, at, row.0 as int, row.1 as int);
    assert(b9_row_at(s, at, cbp));
    lemma_b9_row_unique(s, at, cbp);
}

pub open spec fn flag_value(b: bool) -> int {
    if b {
        1
    } else {
        0
    }
}

/// The six-bit pattern of six flags, the first in the highest bit.
pub open spec fn flags_value(flags: Seq<bool>, from: int) -> int {
    32 * flag_value(flags[from]) + 16 * flag_value(flags[from + 1]) + 8 * flag_value(
        flags[from + 2],
    ) + 4 * flag_value(flags[from + 3]) + 2 * flag_value(flags[from + 4]) + flag_value(
        flags[from + 5],
    )
}

/// The bits of a pattern: Table B-9 for the first six blocks, one bit for each
/// block beyond them.
pub open spec fn pattern_bits(flags: Seq<bool>) -> Seq<bool> {
    cbp_bits(flags_value(flags, 0)) + flags.subrange(6, flags.len() as int)
}

/// Writes which blocks of a macroblock are coded.
pub fn encode_coded_block_pattern(
    bw: &mut BitWriter,
    flags: &[bool],
    chroma_format: ChromaFormat,
) -> (res: Result<()>)
    ensures
        flags@.len() != chroma_format.spec_blocks_per_mb() ==> res == Err::<(), Error>(
            Error::InvalidBitstream(ERR_PATTERN_LENGTH),
        ) && writer_bits(*final(bw)) == writer_bits(*old(bw)),
        flags@.len() == chroma_format.spec_blocks_per_mb() ==> res == Ok::<(), Error>(())
            && writer_bits(*final(bw)) == writer_bits(*old(bw)) + pattern_bits(flags@),
{
    if flags.len() != chroma_format.blocks_per_mb() {
        return Err(Error::InvalidBitstream(ERR_PATTERN_LENGTH));
    }
    let ghost before = writer_bits(*bw);
    let mut cbp: u8 = 0;
    if flags[0] {
        cbp += 32;
    }
    if flags[1] {
        cbp += 16;
    }
    if flags[2] {
        cbp += 8;
    }
    if flags[3] {
        cbp += 4;
    }
    if flags[4] {
        cbp += 2;
    }
    if flags[5] {
        cbp += 1;
    }
    encode_cbp420(bw, cbp);
    let mut i: usize = 6;
    assert(writer_bits(*bw) =~= before + cbp_bits(flags_value(flags@, 0)) + flags@.subrange(6, 6));
    while i < flags.len()
        invariant
            6 <= i <= flags@.len(),
            writer_bits(*bw) == before + cbp_bits(flags_value(flags@, 0)) + flags@.subrange(
                6,
                i as int,
            ),
        decreases flags@.len() - i,
    {
        bw.write_bit(flags[i]);
        assert(flags@.subrange(6, i + 1) =~= flags@.subrange(6, i as int).push(flags@[i as int]));
        assert(writer_bits(*bw) =~= before + cbp_bits(flags_value(flags@, 0)) + flags@.subrange(
            6,
            i + 1,
        ));
        i += 1;
    }
    assert(writer_bits(*bw) =~= before + pattern_bits(flags@));
    Ok(())
}

/// The pattern names the blocks from its highest bit down: the first six blocks in the
/// pattern proper, the next two or six in its extension. Every block of an intra
/// macroblock is coded, and none of a macroblock without a pattern.
pub proof fn law_pattern_names_blocks(p: CodedBlockPattern, i: int)
    requires
        p.cbp < 64,
        p.coded_block_pattern_1 matches Some(x) ==> x < 4,
        p.coded_block_pattern_2 matches Some(x) ==> x < 64,
        p.coded_block_pattern_1 is None || p.coded_block_pattern_2 is None,
    ensures
        p.codes_block(true, false, i),
        !p.codes_block(false, false, i),
        p.cbp == 32 * one(p, 0) + 16 * one(p, 1) + 8 * one(p, 2) + 4 * one(p, 3) + 2 * one(p, 4)
            + one(p, 5),
        p.coded_block_pattern_1 matches Some(x) ==> x == 2 * one(p, 6) + one(p, 7),
        p.coded_block_pattern_2 matches Some(x) ==> x == 32 * one(p, 6) + 16 * one(p, 7) + 8 * one(
            p,
            8,
        ) + 4 * one(p, 9) + 2 * one(p, 10) + one(p, 11),
{
    lemma_six_bits(p.cbp);
    match p.coded_block_pattern_1 {
        Some(x) => {
            lemma_six_bits(x);
        },
        None => {},
    }
    match p.coded_block_pattern_2 {
        Some(x) => {
            lemma_six_bits(x);
        },
        None => {},
    }
}

/// 1 where a pattern names block `i`, else 0.
pub open spec fn one(p: CodedBlockPattern, i: int) -> int {
    if p.codes_block(false, true, i) {
        1
    } else {
        0
    }
}

proof fn lemma_six_bits(x: u8)
    requires
        x < 64,
    ensures
        x == (if bit_of(x, 5) {
            32int
        } else {
            0int
        }) + (if bit_of(x, 4) {
            16int
        } else {
            0int
        }) + (if bit_of(x, 3) {
            8int
        } else {
            0int
        }) + (if bit_of(x, 2) {
            4int
        } else {
            0int
        }) + (if bit_of(x, 1) {
            2int
        } else {
            0int
        }) + (if bit_of(x, 0) {
            1int
        } else {
            0int
        }),
{
}

} // verus!
