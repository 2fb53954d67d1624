//! The DC coefficient of intra blocks: its size codeword, its differential and
//! the predictors that the differentials accumulate in.

use crate::bits::{
    addressable, be_value, codeword_at, lemma_value_bits_len, lemma_value_bits_read, read_field,
    reader_bits, reader_pos, reads_as, value_bits, writer_bits,
};
use crate::error::{Error, Result};
use crate::vlc::{at_codeword, fits_length, lemma_prefix_free, lemma_written_codeword, prefix_free};
use oxideav_core::bits::{BitReader, BitWriter};
use vstd::arithmetic::power2::{lemma2_to64, pow2};
use vstd::prelude::*;

verus! {

pub const ERR_DC_SIZE: &'static str =
    "dct_dc_size: no Table B-12 / B-13 codeword matches the bit prefix (§7.2.1)";

pub const ERR_DC_PRECISION: &'static str =
    "intra_dc_precision: only the 2-bit values 0..=3 are defined (Table 6-13)";

pub const ERR_DC_RANGE: &'static str =
    "QFS[0] outside the §7.2.1 [0, 2^(8 + intra_dc_precision) - 1] range";

/// Which table the size codeword is taken from.
#[derive(Debug, Clone, Copy, PartialEq, Eq, Structural)]
pub enum DcComponent {
    /// Table B-12.
    Luminance,
    /// Table B-13.
    Chrominance,
}

/// Table B-12, in the order of the sizes: the codeword, its length in bits and
/// the size it stands for.
pub const TABLE_B12: [(u16, u8, u8); 12] = [
    (0b100, 3, 0),
    (0b00, 2, 1),
    (0b01, 2, 2),
    (0b101, 3, 3),
    (0b110, 3, 4),
    (0b1110, 4, 5),
    (0b1_1110, 5, 6),
    (0b11_1110, 6, 7),
    (0b111_1110, 7, 8),
    (0b1111_1110, 8, 9),
    (0b1_1111_1110, 9, 10),
    (0b1_1111_1111, 9, 11),
];

/// Table B-13.
pub const TABLE_B13: [(u16, u8, u8); 12] = [
    (0b00, 2, 0),
    (0b01, 2, 1),
    (0b10, 2, 2),
    (0b110, 3, 3),
    (0b1110, 4, 4),
    (0b1_1110, 5, 5),
    (0b11_1110, 6, 6),
    (0b111_1110, 7, 7),
    (0b1111_1110, 8, 8),
    (0b1_1111_1110, 9, 9),
    (0b11_1111_1110, 10, 10),
    (0b11_1111_1111, 10, 11),
];

/// The greatest size of a differential.
pub const MAX_DC_SIZE: u8 = 11;

pub open spec fn dc_row(component: DcComponent, i: int) -> (u16, u8, u8) {
    match component {
        DcComponent::Luminance => TABLE_B12[i],
        DcComponent::Chrominance => TABLE_B13[i],
    }
}

/// Whether the codeword of size `i` stands at `at`.
pub open spec fn dc_row_at(
    s: Seq<bool>,
    at: int,
    component: DcComponent,
    limit: int,
    i: int,
) -> bool {
    0 <= i < limit && codeword_at(s, at, dc_row(component, i).0 as int, dc_row(
        component,
        i,
    ).1 as int)
}

/// The size codeword at `at`, among those of sizes below `limit`.
pub open spec fn dc_size_at(
    s: Seq<bool>,
    at: int,
    component: DcComponent,
    limit: int,
    err: &'static str,
) -> (Result<u8>, int) {
    if exists|i: int| dc_row_at(s, at, component, limit, i) {
        let i = choose|i: int| dc_row_at(s, at, component, limit, i);
        (Ok(i as u8), at + dc_row(component, i).1)
    } else {
        (Err(Error::InvalidBitstream(err)), at)
    }
}

/// The codewords of each table are prefix-free, fit their lengths, and come in
/// the order of the sizes.
pub proof fn lemma_dc_tables(component: DcComponent, i: int, j: int)
    requires
        0 <= i < 12,
        0 <= j < 12,
    ensures
        i != j ==> prefix_free(
            dc_row(component, i).0 as int,
            dc_row(component, i).1 as int,
            dc_row(component, j).0 as int,
            dc_row(component, j).1 as int,
        ),
        2 <= dc_row(component, i).1 <= 10,
        fits_length(dc_row(component, i).0 as int, dc_row(component, i).1 as int),
        dc_row(component, i).2 == i,
{
}

pub proof fn lemma_dc_row_unique(
    s: Seq<bool>,
    at: int,
    component: DcComponent,
    limit: int,
    err: &'static str,
    i: int,
)
    requires
        limit <= 12,
        dc_row_at(s, at, component, limit, i),
    ensures
        dc_size_at(s, at, component, limit, err) == (Ok::<u8, Error>(i as u8), at + dc_row(
            component,
            i,
        ).1),
{
    let j = choose|j: int| dc_row_at(s, at, component, limit, j);
    lemma_dc_tables(component, i, j);
    if i != j {
        lemma_prefix_free(
            s,
            at,
            dc_row(component, i).0 as int,
            dc_row(component, i).1 as int,
            dc_row(component, j).0 as int,
            dc_row(component, j).1 as int,
        );
    }
}

/// Reads the size codeword at the cursor, among those of sizes below `limit`.
/// Nothing is consumed where none matches.
pub fn match_dc_size(
    br: &mut BitReader<'_>,
    component: DcComponent,
    limit: usize,
    err: &'static str,
) -> (res: Result<u8>)
    requires
        limit <= 12,
    ensures
        reads_as(
            *old(br),
            *final(br),
            res,
            dc_size_at(
                reader_bits(*old(br)),
                reader_pos(*old(br)) as int,
                component,
                limit as int,
                err,
            ),
        ),
        res matches Ok(size) ==> size < limit,
{
    let ghost s = reader_bits(*br);
    let ghost at = reader_pos(*br) as int;
    let mut i: usize = 0;
    while i < limit
        invariant
            i <= limit <= 12,
            reader_bits(*br) == s,
            reader_pos(*br) == at,
            s == reader_bits(*old(br)),
            at == reader_pos(*old(br)),
            forall|j: int| 0 <= j < i ==> !dc_row_at(s, at, component, limit as int, j),
        decreases limit - i,
    {
        let row = match component {
            DcComponent::Luminance => TABLE_B12[i],
            DcComponent::Chrominance => TABLE_B13[i],
        };
        proof {
            lemma_dc_tables(component, i as int, i as int);
        }
        if at_codeword(br, row.0 as u32, row.1 as u32) {
            proof {
                assert(dc_row_at(s, at, component, limit as int, i as int));
                lemma_dc_row_unique(s, at, component, limit as int, err, i as int);
            }
            let _ = br.skip(row.1 as u32);
            return Ok(row.2);
        }
        i += 1;
    }
    Err(Error::InvalidBitstream(err))
}

/// Reads a `dct_dc_size`.
pub fn read_dc_size(br: &mut BitReader<'_>, component: DcComponent) -> (res: Result<u8>)
    ensures
        reads_as(
            *old(br),
            *final(br),
            res,
            dc_size_at(
                reader_bits(*old(br)),
                reader_pos(*old(br)) as int,
                component,
                12,
                ERR_DC_SIZE,
            ),
        ),
        res matches Ok(size) ==> size <= MAX_DC_SIZE,
{
    match_dc_size(br, component, 12, ERR_DC_SIZE)
}

/// The signed difference that a differential of `size` bits stands for: itself
/// where its top bit is set, else what it is short of the greatest value.
pub open spec fn dc_diff(size: u8, differential: int) -> int {
    if size == 0 {
        0
    } else if differential >= pow2((size - 1) as nat) {
        differential
    } else {
        differential + 1 - pow2(size as nat)
    }
}

/// The signed difference that a differential of `dct_dc_size` bits stands for. A
/// differential of more bits is taken modulo the range of the result.
pub fn reconstruct_dc_diff(dct_dc_size: u8, dc_dct_differential: u32) -> (r: i32)
    requires
        dct_dc_size <= MAX_DC_SIZE,
    ensures
        r == dc_diff(dct_dc_size, dc_dct_differential as int) as i32,
        dc_dct_differential < pow2(dct_dc_size as nat) ==> r == dc_diff(
            dct_dc_size,
            dc_dct_differential as int,
        ) && -(pow2(dct_dc_size as nat) - 1) <= r <= pow2(dct_dc_size as nat) - 1 && -2047 <= r
            <= 2047,
{
    proof {
        lemma2_to64();
    }
    if dct_dc_size == 0 {
        return 0;
    }
    let half_range: u32 = match dct_dc_size {
        1 => 1,
        2 => 2,
        3 => 4,
        4 => 8,
        5 => 16,
        6 => 32,
        7 => 64,
        8 => 128,
        9 => 256,
        10 => 512,
        _ => 1024,
    };
    if dc_dct_differential >= half_range {
        dc_dct_differential as i32
    } else {
        dc_dct_differential as i32 + 1 - 2 * half_range as i32
    }
}

/// The differential of `size` bits at `at`, as it stands in the bitstream.
pub open spec fn differential_at(s: Seq<bool>, at: int, size: u8) -> (Result<u32>, int) {
    if size == 0 {
        (Ok(0u32), at)
    } else if at + size > s.len() {
        (Err(Error::ShortHeader), at)
    } else {
        (Ok(be_value(s, at, size as int) as u32), at + size)
    }
}

/// Reads a differential of `dct_dc_size` bits.
pub fn read_dc_differential(br: &mut BitReader<'_>, dct_dc_size: u8) -> (res: Result<u32>)
    requires
        dct_dc_size <= MAX_DC_SIZE,
    ensures
        reads_as(
            *old(br),
            *final(br),
            res,
            differential_at(reader_bits(*old(br)), reader_pos(*old(br)) as int, dct_dc_size),
        ),
        res matches Ok(d) ==> d < pow2(dct_dc_size as nat),
{
    if dct_dc_size == 0 {
        proof {
            lemma2_to64();
        }
        return Ok(0);
    }
    read_field(br, dct_dc_size as u32)
}

/// The value that the predictors return to: half of the range of the DC
/// coefficient.
pub open spec fn dc_reset_of(intra_dc_precision: u8) -> Option<int> {
    if intra_dc_precision <= 3 {
        Some(pow2((7 + intra_dc_precision) as nat) as int)
    } else {
        None
    }
}

/// The greatest DC coefficient: `2^(8 + intra_dc_precision) - 1`.
pub open spec fn dc_max_of(intra_dc_precision: u8) -> Option<int> {
    if intra_dc_precision <= 3 {
        Some(pow2((8 + intra_dc_precision) as nat) - 1)
    } else {
        None
    }
}

/// The value that the predictors return to.
pub fn dc_pred_reset_value(intra_dc_precision: u8) -> (res: Result<i32>)
    ensures
        match dc_reset_of(intra_dc_precision) {
            Some(v) => res == Ok::<i32, Error>(v as i32) && 128 <= v <= 1024,
            None => res == Err::<i32, Error>(Error::InvalidBitstream(ERR_DC_PRECISION)),
        },
{
    proof {
        lemma2_to64();
    }
    match intra_dc_precision {
        0 => Ok(128),
        1 => Ok(256),
        2 => Ok(512),
        3 => Ok(1024),
        _ => Err(Error::InvalidBitstream(ERR_DC_PRECISION)),
    }
}

/// The greatest DC coefficient.
pub fn qfs_zero_max(intra_dc_precision: u8) -> (res: Result<i32>)
    ensures
        match dc_max_of(intra_dc_precision) {
            Some(v) => res == Ok::<i32, Error>(v as i32) && 255 <= v <= 2047,
            None => res == Err::<i32, Error>(Error::InvalidBitstream(ERR_DC_PRECISION)),
        },
{
    proof {
        lemma2_to64();
    }
    match intra_dc_precision {
        0 => Ok(255),
        1 => Ok(511),
        2 => Ok(1023),
        3 => Ok(2047),
        _ => Err(Error::InvalidBitstream(ERR_DC_PRECISION)),
    }
}

/// A colour component.
#[derive(Debug, Clone, Copy, PartialEq, Eq, Structural)]
pub enum ColourComponent {
    Y,
    Cb,
    Cr,
}

impl ColourComponent {
    pub open spec fn spec_dc_component(self) -> DcComponent {
        match self {
            ColourComponent::Y => DcComponent::Luminance,
            _ => DcComponent::Chrominance,
        }
    }

    /// The table that the component's size codewords are taken from.
    pub fn dc_component(self) -> (r: DcComponent)
        ensures
            r == self.spec_dc_component(),
    {
        match self {
            ColourComponent::Y => DcComponent::Luminance,
            ColourComponent::Cb | ColourComponent::Cr => DcComponent::Chrominance,
        }
    }
}

/// The DC predictor of each component.
#[derive(Debug, Clone, Copy, PartialEq, Eq)]
pub struct DcPredictors {
    pub luma: i32,
    pub cb: i32,
    pub cr: i32,
    /// The precision that the predictors were made for.
    pub intra_dc_precision: u8,
}

impl DcPredictors {
    pub open spec fn spec_get(self, component: ColourComponent) -> i32 {
        match component {
            ColourComponent::Y => self.luma,
            ColourComponent::Cb => self.cb,
            ColourComponent::Cr => self.cr,
        }
    }

    pub open spec fn spec_set(self, component: ColourComponent, value: i32) -> DcPredictors {
        match component {
            ColourComponent::Y => DcPredictors { luma: value, ..self },
            ColourComponent::Cb => DcPredictors { cb: value, ..self },
            ColourComponent::Cr => DcPredictors { cr: value, ..self },
        }
    }

    /// The predictors of a precision after a reset.
    pub open spec fn at_reset(intra_dc_precision: u8) -> DcPredictors {
        let v = dc_reset_of(intra_dc_precision)->0 as i32;
        DcPredictors { luma: v, cb: v, cr: v, intra_dc_precision }
    }

    /// The predictors of a precision, reset.
    pub fn new(intra_dc_precision: u8) -> (res: Result<Self>)
        ensures
            res == (if intra_dc_precision <= 3 {
                Ok::<Self, Error>(DcPredictors::at_reset(intra_dc_precision))
            } else {
                Err::<Self, Error>(Error::InvalidBitstream(ERR_DC_PRECISION))
            }),
    {
        let reset = dc_pred_reset_value(intra_dc_precision)?;
        Ok(DcPredictors { luma: reset, cb: reset, cr: reset, intra_dc_precision })
    }

    /// Resets the three predictors.
    pub fn reset(&mut self)
        requires
            old(self).intra_dc_precision <= 3,
        ensures
            *final(self) == DcPredictors::at_reset(old(self).intra_dc_precision),
    {
        match dc_pred_reset_value(self.intra_dc_precision) {
            Ok(reset) => {
                self.luma = reset;
                self.cb = reset;
                self.cr = reset;
            },
            Err(_) => {},
        }
    }

    /// The predictor of a component.
    pub fn get(&self, component: ColourComponent) -> (r: i32)
        ensures
            r == self.spec_get(component),
    {
        match component {
            ColourComponent::Y => self.luma,
            ColourComponent::Cb => self.cb,
            ColourComponent::Cr => self.cr,
        }
    }

    /// Replaces the predictor of a component.
    pub fn set(&mut self, component: ColourComponent, value: i32)
        ensures
            *final(self) == old(self).spec_set(component, value),
    {
        match component {
            ColourComponent::Y => {
                self.luma = value;
            },
            ColourComponent::Cb => {
                self.cb = value;
            },
            ColourComponent::Cr => {
                self.cr = value;
            },
        }
    }

    /// Whether any difference can be added to the predictor of a component without
    /// leaving 32 bits.
    pub open spec fn roomy_for(self, component: ColourComponent) -> bool {
        i32::MIN + 2047 <= self.spec_get(component) <= i32::MAX - 2047
    }

    /// Whether that holds of every component.
    pub open spec fn roomy(self) -> bool {
        &&& self.roomy_for(ColourComponent::Y)
        &&& self.roomy_for(ColourComponent::Cb)
        &&& self.roomy_for(ColourComponent::Cr)
    }
}

/// A decoded DC coefficient.
#[derive(Debug, Clone, Copy, PartialEq, Eq)]
pub struct DcCoefficient {
    pub component: ColourComponent,
    /// The size of the differential, from 0 to 11.
    pub dct_dc_size: u8,
    /// The differential as it stands in the bitstream.
    pub dc_dct_differential: u32,
    /// The signed difference.
    pub dct_diff: i32,
    /// The coefficient: the predictor plus the difference.
    pub qfs_zero: i32,
    /// The bit position after the differential.
    pub bit_position_after: u64,
}

/// The DC coefficient at `at`, the position after it, and the predictors that it
/// leaves.
pub open spec fn dc_block_at(
    s: Seq<bool>,
    at: int,
    predictors: DcPredictors,
    component: ColourComponent,
) -> (Result<DcCoefficient>, int, DcPredictors) {
    let (size, p1) = dc_size_at(s, at, component.spec_dc_component(), 12, ERR_DC_SIZE);
    match size {
        Err(e) => (Err(e), p1, predictors),
        Ok(size) => {
            let (raw, p2) = differential_at(s, p1, size);
            match raw {
                Err(e) => (Err(e), p2, predictors),
                Ok(raw) => {
                    let diff = dc_diff(size, raw as int);
                    let value = predictors.spec_get(component) + diff;
                    match dc_max_of(predictors.intra_dc_precision) {
                        None => (Err(Error::InvalidBitstream(ERR_DC_PRECISION)), p2, predictors),
                        Some(max) => if !(0 <= value <= max) {
                            (Err(Error::InvalidBitstream(ERR_DC_RANGE)), p2, predictors)
                        } else {
                            (
                                Ok(
                                    (DcCoefficient {
                                        component,
                                        dct_dc_size: size,
                                        dc_dct_differential: raw,
                                        dct_diff: diff as i32,
                                        qfs_zero: value as i32,
                                        bit_position_after: p2 as u64,
                                    }),
                                ),
                                p2,
                                predictors.spec_set(component, value as i32),
                            )
                        },
                    }
                },
            }
        },
    }
}

/// Reads the DC coefficient of an intra block and makes it the predictor of its
/// component.
pub fn decode_dc_block(
    br: &mut BitReader<'_>,
    predictors: &mut DcPredictors,
    component: ColourComponent,
) -> (res: Result<DcCoefficient>)
    requires
        addressable(*old(br)),
        old(predictors).roomy_for(component),
    ensures
        reader_bits(*final(br)) == reader_bits(*old(br)),
        (res, reader_pos(*final(br)) as int, *final(predictors)) == dc_block_at(
            reader_bits(*old(br)),
            reader_pos(*old(br)) as int,
            *old(predictors),
            component,
        ),
        old(predictors).roomy() ==> final(predictors).roomy(),
        res matches Ok(dc) ==> 0 <= dc.qfs_zero <= 2047,
{
    let dct_dc_size = read_dc_size(br, component.dc_component())?;
    let raw_diff = read_dc_differential(br, dct_dc_size)?;
    let dct_diff = reconstruct_dc_diff(dct_dc_size, raw_diff);
    let qfs_zero: i32 = predictors.get(component) + dct_diff;
    let max = qfs_zero_max(predictors.intra_dc_precision)?;
    if qfs_zero < 0 || qfs_zero > max {
        return Err(Error::InvalidBitstream(ERR_DC_RANGE));
    }
    predictors.set(component, qfs_zero);
    Ok(
        DcCoefficient {
            component,
            dct_dc_size,
            dc_dct_differential: raw_diff,
            dct_diff,
            qfs_zero,
            bit_position_after: br.bit_position(),
        },
    )
}

// ---------------------------------------------------------------------------
// Writing a difference
// ---------------------------------------------------------------------------

/// The number of bits of `m`.
pub open spec fn bit_length(m: int) -> int
    decreases m,
{
    if m <= 0 {
        0
    } else {
        1 + bit_length(m / 2)
    }
}

pub open spec fn magnitude(x: int) -> int {
    if x < 0 {
        -x
    } else {
        x
    }
}

/// The size that a difference is written with.
pub open spec fn diff_size(diff: int) -> int {
    bit_length(magnitude(diff))
}

/// The differential that a difference is written with.
pub open spec fn diff_field(diff: int) -> int {
    if diff >= 0 {
        diff
    } else {
        diff + pow2(diff_size(diff) as nat) - 1
    }
}

/// The bits of a difference: the codeword of its size, then the differential.
pub open spec fn dc_bits(component: DcComponent, diff: int) -> Seq<bool> {
    let row = dc_row(component, diff_size(diff));
    value_bits(row.0 as int, row.1 as int) + value_bits(diff_field(diff), diff_size(diff))
}

pub proof fn lemma_bit_length(m: int)
    requires
        0 <= m,
    ensures
        0 <= bit_length(m),
        m < pow2(bit_length(m) as nat),
        m > 0 ==> pow2((bit_length(m) - 1) as nat) <= m,
    decreases m,
{
    lemma2_to64();
    if m > 0 {
        lemma_bit_length(m / 2);
        vstd::arithmetic::power2::lemma_pow2_unfold(bit_length(m) as nat);
        if m / 2 > 0 {
            vstd::arithmetic::power2::lemma_pow2_unfold((bit_length(m) - 1) as nat);
        }
    }
}

proof fn lemma_bit_length_bound(m: int, n: nat)
    requires
        0 <= m < pow2(n),
    ensures
        bit_length(m) <= n,
{
    lemma_bit_length(m);
    if bit_length(m) > n {
        if bit_length(m) - 1 > n {
            vstd::arithmetic::power2::lemma_pow2_strictly_increases(
                n,
                (bit_length(m) - 1) as nat,
            );
        }
    }
}

pub proof fn lemma_diff_field(diff: int)
    requires
        -2047 <= diff <= 2047,
    ensures
        0 <= diff_size(diff) <= 11,
        magnitude(diff) < 256 ==> diff_size(diff) <= 8,
        diff_size(diff) == 0 <==> diff == 0,
        0 <= diff_field(diff) < pow2(diff_size(diff) as nat),
        dc_diff(diff_size(diff) as u8, diff_field(diff)) == diff,
{
    lemma2_to64();
    let m = magnitude(diff);
    lemma_bit_length(m);
    lemma_bit_length_bound(m, 11);
    if m < 256 {
        lemma_bit_length_bound(m, 8);
    }
    if m > 0 {
        vstd::arithmetic::power2::lemma_pow2_unfold(bit_length(m) as nat);
    }
}

/// Writes a DC difference.
pub fn encode_intra_dc(bw: &mut BitWriter, component: DcComponent, diff: i32)
    requires
        -2047 <= diff <= 2047,
    ensures
        writer_bits(*final(bw)) == writer_bits(*old(bw)) + dc_bits(component, diff as int),
{
    proof {
        lemma_diff_field(diff as int);
        lemma2_to64();
    }
    let mut m: i32 = if diff < 0 {
        -diff
    } else {
        diff
    };
    let mut size: u8 = 0;
    let mut power: i32 = 1;
    while m > 0
        invariant
            0 <= m <= 2047,
            size + bit_length(m as int) == diff_size(diff as int) <= 11,
            power == pow2(size as nat),
            power <= 2048,
        decreases m,
    {
        proof {
            lemma2_to64();
            lemma_bit_length(m as int / 2);
        }
        m = m / 2;
        size += 1;
        power = power * 2;
    }
    let field: i32 = if diff < 0 {
        diff + power - 1
    } else {
        diff
    };
    let row = match component {
        DcComponent::Luminance => TABLE_B12[size as usize],
        DcComponent::Chrominance => TABLE_B13[size as usize],
    };
    proof {
        lemma_dc_tables(component, size as int, size as int);
    }
    let ghost before = writer_bits(*bw);
    bw.write_u32(row.0 as u32, row.1 as u32);
    bw.write_u32(field as u32, size as u32);
    assert(writer_bits(*bw) =~= before + dc_bits(component, diff as int));
}

/// A difference that was written is read back, and the reader ends where the
/// writer did.
pub proof fn lemma_dc_round_trip(
    s: Seq<bool>,
    at: int,
    component: DcComponent,
    limit: int,
    err: &'static str,
    diff: int,
)
    requires
        -2047 <= diff <= 2047,
        diff_size(diff) < limit <= 12,
        0 <= at,
        at + dc_bits(component, diff).len() <= s.len(),
        s.subrange(at, at + dc_bits(component, diff).len()) == dc_bits(component, diff),
    ensures
        ({
            let size = diff_size(diff) as u8;
            let (read, p) = dc_size_at(s, at, component, limit, err);
            let (raw, q) = differential_at(s, p, size);
            &&& read == Ok::<u8, Error>(size)
            &&& raw is Ok
            &&& dc_diff(size, raw->Ok_0 as int) == diff
            &&& q == at + dc_bits(component, diff).len()
        }),
{
    lemma_diff_field(diff);
    lemma2_to64();
    let size = diff_size(diff);
    let row = dc_row(component, size);
    lemma_dc_tables(component, size, size);
    let n = row.1 as int;
    let all = dc_bits(component, diff);
    lemma_value_bits_len(row.0 as int, n);
    lemma_value_bits_len(diff_field(diff), size);
    let w = s.subrange(at, at + all.len());
    assert(s.subrange(at, at + n) =~= w.subrange(0, n));
    assert(all.subrange(0, n) =~= value_bits(row.0 as int, n));
    lemma_written_codeword(s, at, row.0 as int, n);
    assert(dc_row_at(s, at, component, limit, size));
    lemma_dc_row_unique(s, at, component, limit, err, size);
    assert(s.subrange(at + n, at + n + size) =~= w.subrange(n, n + size));
    assert(all.subrange(n, n + size) =~= value_bits(diff_field(diff), size));
    lemma_value_bits_read(s, at + n, diff_field(diff), size);
}

/// A DC difference that was written for a block decodes to the coefficient that
/// it was taken from, provided that the coefficient is one of the precision.
pub proof fn law_dc_round_trip(
    s: Seq<bool>,
    at: int,
    predictors: DcPredictors,
    component: ColourComponent,
    value: int,
)
    requires
        predictors.intra_dc_precision <= 3,
        0 <= value <= dc_max_of(predictors.intra_dc_precision)->0,
        0 <= predictors.spec_get(component) <= dc_max_of(predictors.intra_dc_precision)->0,
        0 <= at,
        ({
            let bits = dc_bits(
                component.spec_dc_component(),
                value - predictors.spec_get(component),
            );
            at + bits.len() <= s.len() && s.subrange(at, at + bits.len()) == bits
        }),
    ensures
        ({
            let bits = dc_bits(
                component.spec_dc_component(),
                value - predictors.spec_get(component),
            );
            let (read, next, after) = dc_block_at(s, at, predictors, component);
            &&& read is Ok
            &&& read->Ok_0.qfs_zero == value
            &&& next == at + bits.len()
            &&& after == predictors.spec_set(component, value as i32)
        }),
{
    lemma2_to64();
    let diff = value - predictors.spec_get(component);
    lemma_diff_field(diff);
    lemma_dc_round_trip(s, at, component.spec_dc_component(), 12, ERR_DC_SIZE, diff);
}

/// A component's predictor changes no other component's.
pub proof fn law_predictors_are_independent(
    p: DcPredictors,
    a: ColourComponent,
    b: ColourComponent,
    value: i32,
)
    ensures
        p.spec_set(a, value).spec_get(b) == (if a == b {
            value
        } else {
            p.spec_get(b)
        }),
        p.spec_set(a, value).intra_dc_precision == p.intra_dc_precision,
{
}

/// Distinct differentials of one size stand for distinct differences, and none of
/// them for one that a smaller size could carry.
pub proof fn law_differentials_are_distinct(size: u8, a: int, b: int)
    requires
        1 <= size <= 11,
        0 <= a < pow2(size as nat),
        0 <= b < pow2(size as nat),
    ensures
        dc_diff(size, a) == dc_diff(size, b) ==> a == b,
        magnitude(dc_diff(size, a)) >= pow2((size - 1) as nat),
        magnitude(dc_diff(size, a)) < pow2(size as nat),
{
    lemma2_to64();
}

/// The differentials of one size stand for differences in the same order: the lower half
/// for the negative ones, the upper half for the positive ones.
pub proof fn law_differences_keep_order(size: u8, a: int, b: int)
    requires
        1 <= size <= 11,
        0 <= a < b < pow2(size as nat),
    ensures
        dc_diff(size, a) < dc_diff(size, b),
        dc_diff(size, a) < 0 <==> a < pow2((size - 1) as nat),
        dc_diff(size, 0) == -dc_diff(size, pow2(size as nat) - 1),
        dc_diff(size, pow2(size as nat) - 1) == pow2(size as nat) - 1,
{
    lemma2_to64();
}

/// A predictor is reset to the middle of its range, and what the middle stands for after
/// inverse quantisation is the coefficient of a block of samples of 128, in every
/// precision.
pub proof fn law_reset_is_the_middle(intra_dc_precision: u8)
    requires
        intra_dc_precision <= 3,
    ensures
        dc_reset_of(intra_dc_precision) is Some,
        2 * dc_reset_of(intra_dc_precision)->0 == dc_max_of(intra_dc_precision)->0 + 1,
        crate::mpeg2_dequantize::dc_mult_of(intra_dc_precision) is Some,
        dc_reset_of(intra_dc_precision)->0 * crate::mpeg2_dequantize::dc_mult_of(
            intra_dc_precision,
        )->0 == 8 * 128,
        intra_dc_precision > 0 ==> dc_reset_of(intra_dc_precision)->0 == 2 * dc_reset_of(
            (intra_dc_precision - 1) as u8,
        )->0,
{
    lemma2_to64();
    let reset = dc_reset_of(intra_dc_precision)->0;
    let factor = crate::mpeg2_dequantize::dc_mult_of(intra_dc_precision)->0;
    assert(reset * factor == 1024) by (nonlinear_arith)
        requires
            (reset == 128 && factor == 8) || (reset == 256 && factor == 4) || (reset == 512
                && factor == 2) || (reset == 1024 && factor == 1),
    ;
}

} // verus!
