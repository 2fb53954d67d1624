//! MPEG-2 P-pictures: motion-compensated prediction, residuals and the intra
//! fallback.

use crate::arith::{blocks_of_16, clamp_i32, clamp_int};
use crate::bits::{value_bits, writer_bits, zero_padded};
use crate::block::{is_function, value_of};
use crate::coded_block_pattern::{encode_coded_block_pattern, pattern_bits};
use crate::error::{Error, Result};
use crate::forward_quant::{forward_quantise_block, quantised_block};
use crate::frame_assembly::{
    block_placement, component_extent, frame_fits, frame_with_block, macroblock_addressable,
    macroblock_rows, place_intra_block, placement_of, saturated_samples, zero_frame,
    BlockPlacement, FrameBuffer, FrameContents, IntraPictureParams,
};
use crate::inter_reconstruction::{
    component_slice, extent, frame_with_blocks, lemma_zero_residual, plane_of_component,
    planes_view, predict_frame_macroblock_planes, predicted_planes, write_inter_block,
    zero_residual, FrameMotion, MacroblockPlanes, MotionVectorPel, ReferenceFrames,
};
use crate::macroblock_source::{
    activity, gather_block, gather_residual, intra_activity, raw_block, residual_block,
};
use crate::motion_estimation::{
    best_vector, estimate_forward_mv, forward_motion, forward_only, law_search_stays_in_range,
    max_search_range, search_range_of, vector_cost,
};
use crate::motion_vector::{component_bits, encode_motion_component};
use crate::mpeg1_reconstruct::in_vector_range;
use crate::mpeg2_block_dc::{
    dc_bits, dc_reset_of, encode_intra_dc, ColourComponent, DcComponent,
};
use crate::mpeg2_dct_coeff::{
    coeff_bits, encode_dct_coeff, encode_end_of_block, eob_symbol_bits, CoefficientPosition,
    TableSelection,
};
use crate::mpeg2_dequantize::{
    dc_mult_of, intra_dc_mult, inverse_quantise_block, lemma_small_levels_fit, quantiser_scale,
    reconstructed_block, scale_of, BlockCoding, DEFAULT_INTRA_WEIGHT, DEFAULT_NON_INTRA_WEIGHT,
    ERR_DC_PRECISION_MULT,
};
use crate::mpeg2_inverse_scan::{inverse_scan, inverse_scan_table};
use crate::mpeg2_macroblock_blocks::block_count;
use crate::picture::ChromaFormat;
use crate::picture_header::PictureCodingType;
use crate::pmv::{vector_range, ERR_VECTOR_RANGE};
use crate::slice_motion::wrapped;
use crate::stream_writer::{
    extension_bits, picture_header_bits, slice_header_bits, write_picture_coding_extension,
    write_picture_header, write_slice_header, PictureCodingExtensionParams,
};
use oxideav_core::bits::BitWriter;
use vstd::arithmetic::power2::lemma2_to64;
use vstd::prelude::*;

verus! {

/// The difference of two components, brought into the range of an `f_code` by one
/// turn where it is outside.
pub fn wrap_delta(delta: i32, f_code: u8) -> (res: Result<i32>)
    ensures
        res == (if 1 <= f_code <= 9 {
            Ok::<i32, Error>(wrapped(delta as int, f_code) as i32)
        } else {
            Err::<i32, Error>(Error::InvalidBitstream(ERR_VECTOR_RANGE))
        }),
{
    proof {
        lemma2_to64();
    }
    let (low, high, range) = vector_range(f_code)?;
    if delta < low {
        Ok(delta + range)
    } else if delta > high {
        Ok(delta - range)
    } else {
        Ok(delta)
    }
}

// ---------------------------------------------------------------------------
// Levels
// ---------------------------------------------------------------------------

/// The bits of the levels from coded index `j` on, with the end of block: `run`
/// zero entries precede it, and `first` says whether no level did.
pub open spec fn scan_bits(
    qf: [[i32; 8]; 8],
    alternate_scan: bool,
    table: TableSelection,
    first: bool,
    run: int,
    j: int,
) -> Seq<bool>
    decreases 64 - j,
{
    if j >= 64 {
        eob_symbol_bits(table)
    } else {
        let (v, u) = inverse_scan(alternate_scan)[j];
        let level = qf[v as int][u as int];
        if level == 0 {
            scan_bits(qf, alternate_scan, table, first, run + 1, j + 1)
        } else {
            coeff_bits(
                table,
                if first {
                    CoefficientPosition::First
                } else {
                    CoefficientPosition::Next
                },
                run,
                clamp_int(level as int, -2047, 2047),
            ) + scan_bits(qf, alternate_scan, table, false, 0, j + 1)
        }
    }
}

fn write_scan(
    bw: &mut BitWriter,
    qf: &[[i32; 8]; 8],
    alternate_scan: bool,
    table: TableSelection,
    starts_block: bool,
    from: usize,
)
    requires
        from <= 64,
    ensures
        writer_bits(*final(bw)) == writer_bits(*old(bw)) + scan_bits(
            *qf,
            alternate_scan,
            table,
            starts_block,
            0,
            from as int,
        ),
{
    let scan = inverse_scan_table(alternate_scan);
    let ghost whole = writer_bits(*bw) + scan_bits(
        *qf,
        alternate_scan,
        table,
        starts_block,
        0,
        from as int,
    );
    let mut first = starts_block;
    let mut run: u8 = 0;
    let mut j: usize = from;
    while j < 64
        invariant
            from <= j <= 64,
            run <= j - from,
            *scan == inverse_scan(alternate_scan),
            writer_bits(*bw) + scan_bits(
                *qf,
                alternate_scan,
                table,
                first,
                run as int,
                j as int,
            ) == whole,
        decreases 64 - j,
    {
        let (v, u) = scan[j];
        assert(v < 8 && u < 8);
        let level = qf[v as usize][u as usize];
        if level == 0 {
            run += 1;
        } else {
            let ghost before = writer_bits(*bw);
            let position = if first {
                CoefficientPosition::First
            } else {
                CoefficientPosition::Next
            };
            let shown = clamp_i32(level, -2047, 2047) as i16;
            encode_dct_coeff(bw, table, position, run, shown);
            proof {
                let head = coeff_bits(table, position, run as int, shown as int);
                let tail = scan_bits(*qf, alternate_scan, table, false, 0, j + 1);
                assert(before + (head + tail) =~= (before + head) + tail);
            }
            run = 0;
            first = false;
        }
        j += 1;
    }
    encode_end_of_block(bw, table);
}

/// Writes the levels of a non-intra block.
pub fn write_inter_block_coeffs(bw: &mut BitWriter, qf: &[[i32; 8]; 8], alternate_scan: bool)
    ensures
        writer_bits(*final(bw)) == writer_bits(*old(bw)) + scan_bits(
            *qf,
            alternate_scan,
            TableSelection::TableZero,
            true,
            0,
            0,
        ),
{
    write_scan(bw, qf, alternate_scan, TableSelection::TableZero, true, 0);
}

/// The levels of a residual, where it has any, and the residual that a decoder makes
/// of them.
#[derive(Clone, Copy)]
pub struct InterBlock {
    pub qf: Option<[[i32; 8]; 8]>,
    pub f_pel: [[i16; 8]; 8],
}

impl InterBlock {
    /// Whether there is a level.
    pub fn is_coded(&self) -> (b: bool)
        ensures
            b == (self.qf is Some),
    {
        self.qf.is_some()
    }

    /// The levels, where there are any.
    pub fn qf_ref(&self) -> (r: Option<&[[i32; 8]; 8]>)
        ensures
            match r {
                Some(qf) => self.qf == Some(*qf),
                None => self.qf is None,
            },
    {
        match &self.qf {
            Some(qf) => Some(qf),
            None => None,
        }
    }

    /// The residual.
    pub fn f_pel_ref(&self) -> (r: &[[i16; 8]; 8])
        ensures
            *r == self.f_pel,
    {
        &self.f_pel
    }
}

/// Whether a block has a level.
pub open spec fn any_level(qf: [[i32; 8]; 8]) -> bool {
    exists|v: int, u: int| 0 <= v < 8 && 0 <= u < 8 && #[trigger] qf[v][u] != 0
}

fn has_any_level(qf: &[[i32; 8]; 8]) -> (b: bool)
    ensures
        b == any_level(*qf),
{
    let mut v: usize = 0;
    while v < 8
        invariant
            v <= 8,
            forall|a: int, b: int| 0 <= a < v && 0 <= b < 8 ==> #[trigger] qf[a][b] == 0,
        decreases 8 - v,
    {
        let mut u: usize = 0;
        while u < 8
            invariant
                u <= 8,
                v < 8,
                forall|a: int, b: int| 0 <= a < v && 0 <= b < 8 ==> #[trigger] qf[a][b] == 0,
                forall|b: int| 0 <= b < u ==> #[trigger] qf[v as int][b] == 0,
            decreases 8 - u,
        {
            if qf[v][u] != 0 {
                assert(qf[v as int][u as int] != 0);
                return true;
            }
            u += 1;
        }
        v += 1;
    }
    false
}

/// The levels of a residual.
pub open spec fn inter_levels<D: Fn([[i16; 8]; 8]) -> [[i32; 8]; 8]>(
    residual: [[i16; 8]; 8],
    qscale: u8,
    fdct: D,
) -> [[i32; 8]; 8] {
    quantised_block(
        value_of(fdct, residual),
        BlockCoding::NonIntra,
        DEFAULT_NON_INTRA_WEIGHT,
        qscale,
        1,
    )
}

/// The quantised residual.
pub open spec fn inter_block_of<
    D: Fn([[i16; 8]; 8]) -> [[i32; 8]; 8],
    F: Fn([[i32; 8]; 8]) -> [[i16; 8]; 8],
>(residual: [[i16; 8]; 8], qscale: u8, fdct: D, idct: F) -> InterBlock {
    let qf = inter_levels(residual, qscale, fdct);
    if any_level(qf) {
        InterBlock {
            qf: Some(qf),
            f_pel: value_of(
                idct,
                reconstructed_block(
                    qf,
                    BlockCoding::NonIntra,
                    DEFAULT_NON_INTRA_WEIGHT,
                    qscale,
                    1,
                ),
            ),
        }
    } else {
        InterBlock { qf: None, f_pel: zero_residual() }
    }
}

/// Quantises a residual. `fdct` and `idct` are the transform and its inverse.
pub fn quantise_inter_block<
    D: Fn([[i16; 8]; 8]) -> [[i32; 8]; 8],
    F: Fn([[i32; 8]; 8]) -> [[i16; 8]; 8],
>(residual: &[[i16; 8]; 8], qscale: u8, fdct: &D, idct: &F) -> (block: InterBlock)
    requires
        is_function(*fdct),
        is_function(*idct),
    ensures
        block == inter_block_of(*residual, qscale, *fdct, *idct),
{
    let f = fdct(*residual);
    assert(call_ensures(*fdct, (*residual,), f));
    let qf = forward_quantise_block(
        &f,
        BlockCoding::NonIntra,
        &DEFAULT_NON_INTRA_WEIGHT,
        qscale,
        1,
    );
    if !has_any_level(&qf) {
        let f_pel = [[0i16; 8]; 8];
        proof {
            lemma_zero_residual(f_pel);
        }
        return InterBlock { qf: None, f_pel };
    }
    proof {
        assert forall|v: int, u: int| 0 <= v < 8 && 0 <= u < 8 implies -2048 <= #[trigger] qf[v][u]
            <= 2047 by {
            assert(-2047 <= qf[v][u] <= 2047);
        }
        lemma_small_levels_fit(
            qf,
            BlockCoding::NonIntra,
            DEFAULT_NON_INTRA_WEIGHT,
            qscale,
            1,
        );
    }
    let dequant = inverse_quantise_block(
        &qf,
        BlockCoding::NonIntra,
        &DEFAULT_NON_INTRA_WEIGHT,
        qscale,
        1,
    );
    let f_pel = idct(dequant);
    assert(call_ensures(*idct, (dequant,), f_pel));
    InterBlock { qf: Some(qf), f_pel }
}

/// Puts prediction plus residual of a macroblock into `recon`.
pub fn reconstruct_inter_mb(
    recon: &mut FrameBuffer,
    mb_col: usize,
    mb_row: usize,
    preds: &(Vec<u8>, Vec<u8>, Vec<u8>),
    blocks: &Vec<InterBlock>,
)
    requires
        macroblock_addressable(mb_col as int, mb_row as int),
        planes_view(*preds).wf(old(recon)@.chroma_format),
        blocks@.len() == old(recon)@.chroma_format.spec_blocks_per_mb(),
    ensures
        final(recon)@ == frame_with_blocks(
            old(recon)@,
            planes_view(*preds),
            old(recon)@.chroma_format,
            mb_col as int,
            mb_row as int,
            f_pels_of(blocks@),
            blocks@.len() as int,
        ),
        final(recon)@.chroma_format == old(recon)@.chroma_format,
{
    let chroma = recon.chroma_format;
    let n = block_count(chroma);
    let ghost start = recon@;
    let mut i: usize = 0;
    while i < n
        invariant
            i <= n,
            n == chroma.spec_blocks_per_mb(),
            n == blocks@.len(),
            chroma == start.chroma_format,
            recon@.chroma_format == chroma,
            macroblock_addressable(mb_col as int, mb_row as int),
            planes_view(*preds).wf(chroma),
            recon@ == frame_with_blocks(
                start,
                planes_view(*preds),
                chroma,
                mb_col as int,
                mb_row as int,
                f_pels_of(blocks@),
                i as int,
            ),
        decreases n - i,
    {
        match block_placement(i, chroma, mb_col, mb_row, false) {
            Some(p) => {
                let f_pel = blocks[i].f_pel;
                write_inter_block(recon, preds, chroma, p, mb_col, mb_row, &f_pel);
            },
            None => {},
        }
        i += 1;
    }
}

pub open spec fn f_pels_of(blocks: Seq<InterBlock>) -> Seq<[[i16; 8]; 8]> {
    Seq::new(blocks.len(), |i: int| blocks[i].f_pel)
}

// ---------------------------------------------------------------------------
// Intra macroblocks
// ---------------------------------------------------------------------------

/// The last DC level of each component.
#[derive(Debug, Clone, Copy, PartialEq, Eq)]
pub struct IntraDcPred {
    pub luma: i32,
    pub cb: i32,
    pub cr: i32,
}

impl IntraDcPred {
    pub open spec fn at_reset(intra_dc_precision: u8) -> IntraDcPred {
        let v = dc_reset_of(intra_dc_precision)->0 as i32;
        IntraDcPred { luma: v, cb: v, cr: v }
    }

    pub open spec fn spec_get(self, c: ColourComponent) -> i32 {
        match c {
            ColourComponent::Y => self.luma,
            ColourComponent::Cb => self.cb,
            ColourComponent::Cr => self.cr,
        }
    }

    pub open spec fn spec_set(self, c: ColourComponent, value: i32) -> IntraDcPred {
        match c {
            ColourComponent::Y => IntraDcPred { luma: value, ..self },
            ColourComponent::Cb => IntraDcPred { cb: value, ..self },
            ColourComponent::Cr => IntraDcPred { cr: value, ..self },
        }
    }

    /// Whether each is a DC level.
    pub open spec fn ok(self) -> bool {
        0 <= self.luma <= 2047 && 0 <= self.cb <= 2047 && 0 <= self.cr <= 2047
    }

    /// Half of the range of each.
    pub fn reset(intra_dc_precision: u8) -> (p: Self)
        requires
            intra_dc_precision <= 3,
        ensures
            p == IntraDcPred::at_reset(intra_dc_precision),
            p.ok(),
    {
        proof {
            lemma2_to64();
        }
        let v: i32 = match intra_dc_precision {
            0 => 128,
            1 => 256,
            2 => 512,
            _ => 1024,
        };
        IntraDcPred { luma: v, cb: v, cr: v }
    }

    pub fn get(&self, c: ColourComponent) -> (r: i32)
        ensures
            r == self.spec_get(c),
    {
        match c {
            ColourComponent::Y => self.luma,
            ColourComponent::Cb => self.cb,
            ColourComponent::Cr => self.cr,
        }
    }

    pub fn set(&mut self, c: ColourComponent, value: i32)
        ensures
            *final(self) == old(self).spec_set(c, value),
    {
        match c {
            ColourComponent::Y => {
                self.luma = value;
            },
            ColourComponent::Cb => {
                self.cb = value;
            },
            ColourComponent::Cr => {
                self.cr = value;
            },
        }
    }
}

/// What the encoding of blocks works on: the bits written, the frame that a decoder
/// has, and its DC predictions.
pub struct BlockEncoding {
    pub bits: Seq<bool>,
    pub recon: FrameContents,
    pub dc: IntraDcPred,
}

/// What the encoding of a macroblock depends on.
pub struct PSource {
    pub current: FrameContents,
    pub params: IntraPictureParams,
    pub qscale: u8,
    pub dc_mult: i32,
    pub mb_col: int,
    pub mb_row: int,
}

impl PSource {
    pub open spec fn placement(self, i: int) -> BlockPlacement {
        placement_of(i, self.params.chroma_format, self.mb_col, self.mb_row, false)
    }

    pub open spec fn address(self) -> int {
        self.mb_row * blocks_of_16(self.params.width as int) + self.mb_col
    }

    pub open spec fn table(self) -> TableSelection {
        TableSelection::spec_from_context(self.params.intra_vlc_format, true)
    }
}

/// The levels of block `i` of an intra macroblock.
pub open spec fn intra_levels<D: Fn([[i16; 8]; 8]) -> [[i32; 8]; 8]>(
    src: PSource,
    i: int,
    fdct: D,
) -> [[i32; 8]; 8] {
    let p = src.placement(i);
    quantised_block(
        value_of(
            fdct,
            raw_block(src.current.plane(p.component), p.base_x as int, p.base_y as int),
        ),
        BlockCoding::Intra,
        DEFAULT_INTRA_WEIGHT,
        src.qscale,
        src.dc_mult,
    )
}

/// The encoding after block `i` of an intra macroblock.
#[verifier::opaque]
pub open spec fn intra_block_encoded<
    D: Fn([[i16; 8]; 8]) -> [[i32; 8]; 8],
    F: Fn([[i32; 8]; 8]) -> [[i16; 8]; 8],
>(src: PSource, i: int, st: BlockEncoding, fdct: D, idct: F) -> BlockEncoding {
    let p = src.placement(i);
    let qf = intra_levels(src, i, fdct);
    BlockEncoding {
        bits: st.bits + dc_bits(
            p.component.spec_dc_component(),
            qf[0][0] - st.dc.spec_get(p.component),
        ) + scan_bits(qf, src.params.alternate_scan, src.table(), false, 0, 1),
        recon: frame_with_block(
            st.recon,
            p,
            saturated_samples(
                value_of(
                    idct,
                    reconstructed_block(
                        qf,
                        BlockCoding::Intra,
                        DEFAULT_INTRA_WEIGHT,
                        src.qscale,
                        src.dc_mult,
                    ),
                ),
            ),
        ),
        dc: st.dc.spec_set(p.component, qf[0][0]),
    }
}

/// The encoding after the first `n` blocks of an intra macroblock.
pub open spec fn intra_blocks_encoded<
    D: Fn([[i16; 8]; 8]) -> [[i32; 8]; 8],
    F: Fn([[i32; 8]; 8]) -> [[i16; 8]; 8],
>(src: PSource, n: int, st: BlockEncoding, fdct: D, idct: F) -> BlockEncoding
    decreases n,
{
    if n <= 0 {
        st
    } else {
        intra_block_encoded(
            src,
            n - 1,
            intra_blocks_encoded(src, n - 1, st, fdct, idct),
            fdct,
            idct,
        )
    }
}

fn dc_table_component(c: ColourComponent) -> (r: DcComponent)
    ensures
        r == c.spec_dc_component(),
{
    match c {
        ColourComponent::Y => DcComponent::Luminance,
        ColourComponent::Cb | ColourComponent::Cr => DcComponent::Chrominance,
    }
}

fn encode_intra_block<
    D: Fn([[i16; 8]; 8]) -> [[i32; 8]; 8],
    F: Fn([[i32; 8]; 8]) -> [[i16; 8]; 8],
>(
    bw: &mut BitWriter,
    current: &FrameBuffer,
    recon: &mut FrameBuffer,
    i: usize,
    mb_col: usize,
    mb_row: usize,
    qscale: u8,
    dc_mult: i32,
    pred: &mut IntraDcPred,
    params: &IntraPictureParams,
    fdct: &D,
    idct: &F,
)
    requires
        is_function(*fdct),
        is_function(*idct),
        macroblock_addressable(mb_col as int, mb_row as int),
        i < params.chroma_format.spec_blocks_per_mb(),
        1 <= dc_mult <= 8,
        old(pred).ok(),
    ensures
        ({
            let src = (PSource {
                current: current@,
                params: *params,
                qscale,
                dc_mult,
                mb_col: mb_col as int,
                mb_row: mb_row as int,
            });
            let st = (BlockEncoding {
                bits: writer_bits(*old(bw)),
                recon: old(recon)@,
                dc: *old(pred),
            });
            (BlockEncoding {
                bits: writer_bits(*final(bw)),
                recon: final(recon)@,
                dc: *final(pred),
            }) == intra_block_encoded(src, i as int, st, *fdct, *idct)
        }),
        final(pred).ok(),
        final(recon)@.chroma_format == old(recon)@.chroma_format,
{
    proof {
        reveal(intra_block_encoded);
    }
    let placement = match block_placement(i, params.chroma_format, mb_col, mb_row, false) {
        Some(p) => p,
        None => {
            return ;
        },
    };
    let c = placement.component;
    let raw = gather_block(plane_of_component(current, c), placement.base_x, placement.base_y);
    let f = fdct(raw);
    assert(call_ensures(*fdct, (raw,), f));
    let qf = forward_quantise_block(
        &f,
        BlockCoding::Intra,
        &DEFAULT_INTRA_WEIGHT,
        qscale,
        dc_mult,
    );
    let qfs0 = qf[0][0];
    assert(0 <= qfs0 <= 2047) by {
        assert(-2047 <= qf[0][0] <= 2047);
    }
    let diff: i32 = qfs0 - pred.get(c);
    let table = TableSelection::from_context(params.intra_vlc_format, true);
    encode_intra_dc(bw, dc_table_component(c), diff);
    pred.set(c, qfs0);
    write_scan(bw, &qf, params.alternate_scan, table, false, 1);
    proof {
        assert forall|v: int, u: int| 0 <= v < 8 && 0 <= u < 8 implies -2048 <= #[trigger] qf[v][u]
            <= 2047 by {
            assert(-2047 <= qf[v][u] <= 2047);
        }
        lemma_small_levels_fit(qf, BlockCoding::Intra, DEFAULT_INTRA_WEIGHT, qscale, dc_mult);
    }
    let dequant = inverse_quantise_block(
        &qf,
        BlockCoding::Intra,
        &DEFAULT_INTRA_WEIGHT,
        qscale,
        dc_mult,
    );
    let f_pel = idct(dequant);
    assert(call_ensures(*idct, (dequant,), f_pel));
    place_intra_block(recon, placement, &f_pel);
}

/// Writes the blocks of an intra macroblock, and puts what a decoder makes of them
/// into `recon`. `fdct` and `idct` are the transform and its inverse.
pub fn encode_intra_mb<
    D: Fn([[i16; 8]; 8]) -> [[i32; 8]; 8],
    F: Fn([[i32; 8]; 8]) -> [[i16; 8]; 8],
>(
    bw: &mut BitWriter,
    current: &FrameBuffer,
    recon: &mut FrameBuffer,
    mb_col: usize,
    mb_row: usize,
    qscale: u8,
    dc_mult: i32,
    pred: &mut IntraDcPred,
    params: &IntraPictureParams,
    fdct: &D,
    idct: &F,
)
    requires
        is_function(*fdct),
        is_function(*idct),
        macroblock_addressable(mb_col as int, mb_row as int),
        1 <= dc_mult <= 8,
        old(pred).ok(),
    ensures
        ({
            let src = (PSource {
                current: current@,
                params: *params,
                qscale,
                dc_mult,
                mb_col: mb_col as int,
                mb_row: mb_row as int,
            });
            let st = (BlockEncoding {
                bits: writer_bits(*old(bw)),
                recon: old(recon)@,
                dc: *old(pred),
            });
            (BlockEncoding {
                bits: writer_bits(*final(bw)),
                recon: final(recon)@,
                dc: *final(pred),
            }) == intra_blocks_encoded(
                src,
                params.chroma_format.spec_blocks_per_mb(),
                st,
                *fdct,
                *idct,
            )
        }),
        final(pred).ok(),
        final(recon)@.chroma_format == old(recon)@.chroma_format,
{
    let ghost src = PSource {
        current: current@,
        params: *params,
        qscale,
        dc_mult,
        mb_col: mb_col as int,
        mb_row: mb_row as int,
    };
    let ghost st = BlockEncoding { bits: writer_bits(*bw), recon: recon@, dc: *pred };
    let n = block_count(params.chroma_format);
    let mut i: usize = 0;
    while i < n
        invariant
            i <= n,
            n == params.chroma_format.spec_blocks_per_mb(),
            is_function(*fdct),
            is_function(*idct),
            macroblock_addressable(mb_col as int, mb_row as int),
            1 <= dc_mult <= 8,
            pred.ok(),
            recon@.chroma_format == old(recon)@.chroma_format,
            src == (PSource {
                current: current@,
                params: *params,
                qscale,
                dc_mult,
                mb_col: mb_col as int,
                mb_row: mb_row as int,
            }),
            (BlockEncoding { bits: writer_bits(*bw), recon: recon@, dc: *pred })
                == intra_blocks_encoded(src, i as int, st, *fdct, *idct),
        decreases n - i,
    {
        encode_intra_block(
            bw,
            current,
            recon,
            i,
            mb_col,
            mb_row,
            qscale,
            dc_mult,
            pred,
            params,
            fdct,
            idct,
        );
        i += 1;
    }
}

// ---------------------------------------------------------------------------
// Predicted macroblocks
// ---------------------------------------------------------------------------

/// The residual of block `i` of a macroblock.
pub open spec fn source_residual(src: PSource, preds: MacroblockPlanes, i: int) -> [[i16; 8]; 8] {
    let p = src.placement(i);
    let (w, h) = component_extent(p.component, src.params.chroma_format);
    residual_block(
        src.current.plane(p.component),
        preds.plane(p.component),
        w,
        p.base_x as int,
        p.base_y as int,
        p.base_x - src.mb_col * w,
        p.base_y - src.mb_row * h,
    )
}

/// The quantised blocks of a macroblock.
pub open spec fn macroblock_blocks<
    D: Fn([[i16; 8]; 8]) -> [[i32; 8]; 8],
    F: Fn([[i32; 8]; 8]) -> [[i16; 8]; 8],
>(src: PSource, preds: MacroblockPlanes, fdct: D, idct: F) -> Seq<InterBlock> {
    Seq::new(
        src.params.chroma_format.spec_blocks_per_mb() as nat,
        |i: int| inter_block_of(source_residual(src, preds, i), src.qscale, fdct, idct),
    )
}

pub open spec fn flags_of(blocks: Seq<InterBlock>) -> Seq<bool> {
    Seq::new(blocks.len(), |i: int| blocks[i].qf is Some)
}

pub open spec fn any_coded(blocks: Seq<InterBlock>) -> bool {
    exists|i: int| 0 <= i < blocks.len() && (#[trigger] blocks[i]).qf is Some
}

/// The bits of the coded ones among the first `n` blocks.
pub open spec fn coded_blocks_bits(
    blocks: Seq<InterBlock>,
    alternate_scan: bool,
    n: int,
) -> Seq<bool>
    decreases n,
{
    if n <= 0 {
        Seq::empty()
    } else {
        coded_blocks_bits(blocks, alternate_scan, n - 1) + (match blocks[n - 1].qf {
            Some(qf) => scan_bits(qf, alternate_scan, TableSelection::TableZero, true, 0, 0),
            None => Seq::empty(),
        })
    }
}

/// The bits of the residuals of a macroblock: none where no block has a level, else
/// the pattern and the blocks.
pub open spec fn residual_bits(blocks: Seq<InterBlock>, alternate_scan: bool) -> Seq<bool> {
    if any_coded(blocks) {
        pattern_bits(flags_of(blocks)) + coded_blocks_bits(
            blocks,
            alternate_scan,
            blocks.len() as int,
        )
    } else {
        Seq::empty()
    }
}

/// Quantises the residuals of a macroblock.
fn quantise_macroblock<
    D: Fn([[i16; 8]; 8]) -> [[i32; 8]; 8],
    F: Fn([[i32; 8]; 8]) -> [[i16; 8]; 8],
>(
    current: &FrameBuffer,
    preds: &(Vec<u8>, Vec<u8>, Vec<u8>),
    mb_col: usize,
    mb_row: usize,
    qscale: u8,
    params: &IntraPictureParams,
    fdct: &D,
    idct: &F,
    Ghost(src): Ghost<PSource>,
) -> (blocks: Vec<InterBlock>)
    requires
        is_function(*fdct),
        is_function(*idct),
        macroblock_addressable(mb_col as int, mb_row as int),
        planes_view(*preds).wf(params.chroma_format),
        src.current == current@,
        src.params == *params,
        src.qscale == qscale,
        src.mb_col == mb_col,
        src.mb_row == mb_row,
    ensures
        blocks@ == macroblock_blocks(src, planes_view(*preds), *fdct, *idct),
{
    let chroma = params.chroma_format;
    let n = block_count(chroma);
    let ghost want = macroblock_blocks(src, planes_view(*preds), *fdct, *idct);
    let mut blocks: Vec<InterBlock> = Vec::new();
    let mut i: usize = 0;
    while i < n
        invariant
            i <= n,
            n == chroma.spec_blocks_per_mb(),
            chroma == params.chroma_format,
            is_function(*fdct),
            is_function(*idct),
            macroblock_addressable(mb_col as int, mb_row as int),
            planes_view(*preds).wf(chroma),
            src.current == current@,
            src.params == *params,
            src.qscale == qscale,
            src.mb_col == mb_col,
            src.mb_row == mb_row,
            want == macroblock_blocks(src, planes_view(*preds), *fdct, *idct),
            blocks@.len() == i,
            forall|k: int| 0 <= k < i ==> #[trigger] blocks@[k] == want[k],
        decreases n - i,
    {
        let placement = match block_placement(i, chroma, mb_col, mb_row, false) {
            Some(p) => p,
            None => {
                return blocks;
            },
        };
        let c = placement.component;
        let (w, h) = extent(c, chroma);
        let pred = component_slice(preds, c);
        assert(mb_col * w <= mb_col * 16 && mb_row * h <= mb_row * 16) by (nonlinear_arith)
            requires
                0 <= mb_col,
                0 <= mb_row,
                w <= 16,
                h <= 16,
        ;
        assert(0 <= mb_col * w && 0 <= mb_row * h) by (nonlinear_arith);
        let local_x: usize = placement.base_x - mb_col * w;
        let local_y: usize = placement.base_y - mb_row * h;
        assert((local_y + 8) * w <= w * h) by (nonlinear_arith)
            requires
                local_y + 8 <= h,
                0 <= w,
        ;
        let residual = gather_residual(
            plane_of_component(current, c),
            pred,
            w,
            placement.base_x,
            placement.base_y,
            local_x,
            local_y,
        );
        assert(residual == source_residual(src, planes_view(*preds), i as int));
        blocks.push(quantise_inter_block(&residual, qscale, fdct, idct));
        i += 1;
    }
    assert(blocks@ =~= want);
    blocks
}

/// Writes the pattern and the coded blocks of a macroblock.
fn write_residuals(
    bw: &mut BitWriter,
    blocks: &Vec<InterBlock>,
    chroma: ChromaFormat,
    alternate_scan: bool,
) -> (res: Result<()>)
    requires
        blocks@.len() == chroma.spec_blocks_per_mb(),
        any_coded(blocks@),
    ensures
        res == Ok::<(), Error>(()),
        writer_bits(*final(bw)) == writer_bits(*old(bw)) + residual_bits(blocks@, alternate_scan),
{
    let ghost start = writer_bits(*bw);
    let n = blocks.len();
    let mut flags: Vec<bool> = Vec::new();
    let mut i: usize = 0;
    while i < n
        invariant
            i <= n,
            n == blocks@.len(),
            flags@ == flags_of(blocks@).subrange(0, i as int),
        decreases n - i,
    {
        flags.push(blocks[i].is_coded());
        assert(flags@ =~= flags_of(blocks@).subrange(0, i + 1));
        i += 1;
    }
    assert(flags@ =~= flags_of(blocks@));
    encode_coded_block_pattern(bw, flags.as_slice(), chroma)?;
    let ghost head = writer_bits(*bw);
    let mut k: usize = 0;
    assert(head + coded_blocks_bits(blocks@, alternate_scan, 0) =~= head);
    while k < n
        invariant
            k <= n,
            n == blocks@.len(),
            writer_bits(*bw) == head + coded_blocks_bits(blocks@, alternate_scan, k as int),
        decreases n - k,
    {
        match &blocks[k].qf {
            Some(qf) => {
                write_inter_block_coeffs(bw, qf, alternate_scan);
            },
            None => {},
        }
        assert(writer_bits(*bw) =~= head + coded_blocks_bits(blocks@, alternate_scan, k + 1));
        k += 1;
    }
    assert(writer_bits(*bw) =~= start + residual_bits(blocks@, alternate_scan));
    Ok(())
}

fn any_block_coded(blocks: &Vec<InterBlock>) -> (any: bool)
    ensures
        any == any_coded(blocks@),
{
    let mut i: usize = 0;
    while i < blocks.len()
        invariant
            i <= blocks@.len(),
            forall|k: int| 0 <= k < i ==> (#[trigger] blocks@[k]).qf is None,
        decreases blocks@.len() - i,
    {
        if blocks[i].is_coded() {
            assert(blocks@[i as int].qf is Some);
            return true;
        }
        i += 1;
    }
    false
}

/// What the encoding of a P-picture works on: besides the bits, the frame and the DC
/// predictions, the address of the last intra macroblock and the last vector.
pub struct PEncoding {
    pub blocks: BlockEncoding,
    pub past_intra_address: int,
    pub last: (i32, i32),
}

/// How far the vectors of an `f_code` are searched.
pub open spec fn search_distance(f_code: u8) -> int {
    if search_range_of(f_code) < 16 {
        search_range_of(f_code)
    } else {
        16
    }
}

/// Whether a macroblock is better coded by itself: its prediction leaves much more
/// than its own mean does.
pub open spec fn prefers_intra(src: PSource, reference: FrameContents, v: MotionVectorPel) -> bool {
    vector_cost(src.current, reference, src.mb_col, src.mb_row, v) > 2 * activity(
        src.current.y,
        src.mb_col,
        src.mb_row,
    ) + 512
}

/// The bits of a vector: each component as its difference from the last vector,
/// wrapped into the range.
pub open spec fn vector_bits(v: MotionVectorPel, last: (i32, i32), f_code: u8) -> Seq<bool> {
    component_bits(wrapped(v.horizontal - last.0, f_code), f_code) + component_bits(
        wrapped(v.vertical - last.1, f_code),
        f_code,
    )
}

/// The bits of the increment and the type of a predicted macroblock.
pub open spec fn predicted_type_bits(coded: bool) -> Seq<bool> {
    if coded {
        seq![true, true]
    } else {
        seq![true] + value_bits(0b001, 3)
    }
}

/// The encoding after a macroblock that is coded by itself. The DC predictions are
/// reset first unless the macroblock before was coded so too.
pub open spec fn intra_encoded<
    D: Fn([[i16; 8]; 8]) -> [[i32; 8]; 8],
    F: Fn([[i32; 8]; 8]) -> [[i16; 8]; 8],
>(src: PSource, st: PEncoding, fdct: D, idct: F) -> PEncoding {
    let dc = if src.address() - st.past_intra_address > 1 {
        IntraDcPred::at_reset(src.params.intra_dc_precision)
    } else {
        st.blocks.dc
    };
    PEncoding {
        blocks: intra_blocks_encoded(
            src,
            src.params.chroma_format.spec_blocks_per_mb(),
            (BlockEncoding {
                bits: st.blocks.bits.push(true) + value_bits(0b0001_1, 5),
                recon: st.blocks.recon,
                dc,
            }),
            fdct,
            idct,
        ),
        past_intra_address: src.address(),
        last: (0i32, 0i32),
    }
}

/// The encoding after a macroblock of a P-picture. A vector of an `f_code` without a
/// range cannot be written.
#[verifier::opaque]
pub open spec fn macroblock_encoded<
    D: Fn([[i16; 8]; 8]) -> [[i32; 8]; 8],
    F: Fn([[i32; 8]; 8]) -> [[i16; 8]; 8],
>(src: PSource, reference: FrameContents, f_code: u8, st: PEncoding, fdct: D, idct: F) -> (
    Result<()>,
    PEncoding,
) {
    let v = best_vector(
        src.current,
        reference,
        src.mb_col,
        src.mb_row,
        search_distance(f_code),
    );
    if prefers_intra(src, reference, v) {
        (Ok(()), intra_encoded(src, st, fdct, idct))
    } else {
        let chroma = src.params.chroma_format;
        let preds = predicted_planes(
            forward_only(reference),
            forward_motion(v),
            chroma,
            src.mb_col,
            src.mb_row,
        );
        let blocks = macroblock_blocks(src, preds, fdct, idct);
        let typed = st.blocks.bits + predicted_type_bits(any_coded(blocks));
        if !(1 <= f_code <= 9) {
            (
                Err(Error::InvalidBitstream(ERR_VECTOR_RANGE)),
                (PEncoding { blocks: BlockEncoding { bits: typed, ..st.blocks }, ..st }),
            )
        } else {
            (
                Ok(()),
                (PEncoding {
                    blocks: BlockEncoding {
                        bits: typed + vector_bits(v, st.last, f_code) + residual_bits(
                            blocks,
                            src.params.alternate_scan,
                        ),
                        recon: frame_with_blocks(
                            st.blocks.recon,
                            preds,
                            chroma,
                            src.mb_col,
                            src.mb_row,
                            f_pels_of(blocks),
                            blocks.len() as int,
                        ),
                        dc: st.blocks.dc,
                    },
                    past_intra_address: st.past_intra_address,
                    last: (v.horizontal, v.vertical),
                }),
            )
        }
    }
}

/// Whether a vector is one that a search finds, in the range of its `f_code`.
pub open spec fn vector_ok(v: (i32, i32), f_code: u8) -> bool {
    &&& -33 <= v.0 <= 33
    &&& -33 <= v.1 <= 33
    &&& 1 <= f_code <= 9 ==> in_vector_range(v.0 as int, f_code) && in_vector_range(
        v.1 as int,
        f_code,
    )
}

/// The zero vector lies in the range of every `f_code`.
pub proof fn lemma_zero_ok(f_code: u8)
    ensures
        vector_ok((0, 0), f_code),
{
    vstd::arithmetic::power2::lemma_pow2_pos((f_code - 1) as nat);
}

fn encode_macroblock<
    D: Fn([[i16; 8]; 8]) -> [[i32; 8]; 8],
    F: Fn([[i32; 8]; 8]) -> [[i16; 8]; 8],
>(
    bw: &mut BitWriter,
    current: &FrameBuffer,
    reference: &FrameBuffer,
    recon: &mut FrameBuffer,
    params: &IntraPictureParams,
    qscale: u8,
    dc_mult: i32,
    f_code: u8,
    mb_col: usize,
    mb_row: usize,
    address: i64,
    pred: &mut IntraDcPred,
    past_intra_address: &mut i64,
    last: &mut (i32, i32),
    fdct: &D,
    idct: &F,
) -> (res: Result<()>)
    requires
        is_function(*fdct),
        is_function(*idct),
        macroblock_addressable(mb_col as int, mb_row as int),
        params.intra_dc_precision <= 3,
        1 <= dc_mult <= 8,
        old(pred).ok(),
        vector_ok(*old(last), f_code),
        old(recon)@.chroma_format == params.chroma_format,
        address == mb_row * blocks_of_16(params.width as int) + mb_col,
        0 <= address <= i32::MAX,
        -2 <= *old(past_intra_address) <= i32::MAX,
    ensures
        ({
            let src = (PSource {
                current: current@,
                params: *params,
                qscale,
                dc_mult,
                mb_col: mb_col as int,
                mb_row: mb_row as int,
            });
            let st = (PEncoding {
                blocks: BlockEncoding {
                    bits: writer_bits(*old(bw)),
                    recon: old(recon)@,
                    dc: *old(pred),
                },
                past_intra_address: *old(past_intra_address) as int,
                last: *old(last),
            });
            let (want, after) = macroblock_encoded(src, reference@, f_code, st, *fdct, *idct);
            &&& res == want
            &&& writer_bits(*final(bw)) == after.blocks.bits
            &&& want is Ok ==> after == (PEncoding {
                blocks: BlockEncoding {
                    bits: writer_bits(*final(bw)),
                    recon: final(recon)@,
                    dc: *final(pred),
                },
                past_intra_address: *final(past_intra_address) as int,
                last: *final(last),
            })
        }),
        final(pred).ok(),
        vector_ok(*final(last), f_code),
        final(recon)@.chroma_format == params.chroma_format,
        -2 <= *final(past_intra_address) <= i32::MAX,
{
    proof {
        reveal(macroblock_encoded);
        lemma_zero_ok(f_code);
        lemma2_to64();
    }
    let ghost src = PSource {
        current: current@,
        params: *params,
        qscale,
        dc_mult,
        mb_col: mb_col as int,
        mb_row: mb_row as int,
    };
    let reach = max_search_range(f_code);
    let range: i32 = if reach < 16 {
        reach
    } else {
        16
    };
    let search = estimate_forward_mv(current, reference, mb_col, mb_row, range);
    let mv = search.vector;
    proof {
        if 1 <= f_code <= 9 {
            law_search_stays_in_range(mv, f_code, range as int);
        }
    }
    let intra_cost = intra_activity(current, mb_col, mb_row);
    if search.sad > 2 * intra_cost + 512 {
        if address - *past_intra_address > 1 {
            *pred = IntraDcPred::reset(params.intra_dc_precision);
        }
        bw.write_bit(true);
        bw.write_u32(0b0001_1, 5);
        encode_intra_mb(
            bw,
            current,
            recon,
            mb_col,
            mb_row,
            qscale,
            dc_mult,
            pred,
            params,
            fdct,
            idct,
        );
        *last = (0, 0);
        *past_intra_address = address;
        return Ok(());
    }
    let preds = predict_frame_macroblock_planes(
        params.chroma_format,
        ReferenceFrames::forward_only(reference),
        mb_col,
        mb_row,
        FrameMotion::forward(mv),
    )?;
    let blocks = quantise_macroblock(
        current,
        &preds,
        mb_col,
        mb_row,
        qscale,
        params,
        fdct,
        idct,
        Ghost(src),
    );
    write_predicted(bw, &blocks, params, mv, last, f_code)?;
    reconstruct_inter_mb(recon, mb_col, mb_row, &preds, &blocks);
    Ok(())
}

/// Writes a predicted macroblock, and makes its vector the last.
fn write_predicted(
    bw: &mut BitWriter,
    blocks: &Vec<InterBlock>,
    params: &IntraPictureParams,
    mv: MotionVectorPel,
    last: &mut (i32, i32),
    f_code: u8,
) -> (res: Result<()>)
    requires
        blocks@.len() == params.chroma_format.spec_blocks_per_mb(),
        vector_ok(*old(last), f_code),
        vector_ok((mv.horizontal, mv.vertical), f_code),
    ensures
        ({
            let typed = writer_bits(*old(bw)) + predicted_type_bits(any_coded(blocks@));
            if 1 <= f_code <= 9 {
                &&& res == Ok::<(), Error>(())
                &&& writer_bits(*final(bw)) == typed + vector_bits(mv, *old(last), f_code)
                    + residual_bits(blocks@, params.alternate_scan)
                &&& *final(last) == (mv.horizontal, mv.vertical)
            } else {
                &&& res == Err::<(), Error>(Error::InvalidBitstream(ERR_VECTOR_RANGE))
                &&& writer_bits(*final(bw)) == typed
                &&& *final(last) == *old(last)
            }
        }),
{
    proof {
        lemma2_to64();
    }
    let ghost before = writer_bits(*bw);
    let coded = any_block_coded(blocks);
    bw.write_bit(true);
    if coded {
        bw.write_bit(true);
    } else {
        bw.write_u32(0b001, 3);
    }
    assert(writer_bits(*bw) =~= before + predicted_type_bits(coded));
    let ghost typed = writer_bits(*bw);
    let dx = wrap_delta(mv.horizontal - last.0, f_code)?;
    let dy = wrap_delta(mv.vertical - last.1, f_code)?;
    encode_motion_component(bw, dx, f_code);
    encode_motion_component(bw, dy, f_code);
    assert(writer_bits(*bw) =~= typed + vector_bits(mv, *last, f_code));
    *last = (mv.horizontal, mv.vertical);
    if coded {
        write_residuals(bw, blocks, params.chroma_format, params.alternate_scan)?;
    } else {
        assert(writer_bits(*bw) + Seq::<bool>::empty() =~= writer_bits(*bw));
    }
    Ok(())
}

// ---------------------------------------------------------------------------
// Pictures
// ---------------------------------------------------------------------------

pub open spec fn source_of(
    current: FrameContents,
    params: IntraPictureParams,
    qscale: u8,
    mb_col: int,
    mb_row: int,
) -> PSource {
    PSource {
        current,
        params,
        qscale,
        dc_mult: dc_mult_of(params.intra_dc_precision)->0 as i32,
        mb_col,
        mb_row,
    }
}

/// The encoding after the first `n` macroblocks of a row.
pub open spec fn row_encoded<
    D: Fn([[i16; 8]; 8]) -> [[i32; 8]; 8],
    F: Fn([[i32; 8]; 8]) -> [[i16; 8]; 8],
>(
    current: FrameContents,
    reference: FrameContents,
    params: IntraPictureParams,
    qscale: u8,
    f_code: u8,
    mb_row: int,
    n: int,
    st: PEncoding,
    fdct: D,
    idct: F,
) -> (Result<()>, PEncoding)
    decreases n,
{
    if n <= 0 {
        (Ok(()), st)
    } else {
        let (res, before) = row_encoded(
            current,
            reference,
            params,
            qscale,
            f_code,
            mb_row,
            n - 1,
            st,
            fdct,
            idct,
        );
        match res {
            Err(e) => (Err(e), before),
            Ok(_) => macroblock_encoded(
                source_of(current, params, qscale, n - 1, mb_row),
                reference,
                f_code,
                before,
                fdct,
                idct,
            ),
        }
    }
}

/// The encoding at the start of a row: the DC predictions are reset, no macroblock
/// was intra, and the last vector is zero.
pub open spec fn row_start(
    params: IntraPictureParams,
    mb_row: int,
    bits: Seq<bool>,
    recon: FrameContents,
) -> PEncoding {
    PEncoding {
        blocks: BlockEncoding {
            bits,
            recon,
            dc: IntraDcPred::at_reset(params.intra_dc_precision),
        },
        past_intra_address: mb_row * blocks_of_16(params.width as int) - 2,
        last: (0i32, 0i32),
    }
}

/// The bits and the frame after the first `n` slices, one for each row.
pub open spec fn rows_encoded<
    D: Fn([[i16; 8]; 8]) -> [[i32; 8]; 8],
    F: Fn([[i32; 8]; 8]) -> [[i16; 8]; 8],
>(
    current: FrameContents,
    reference: FrameContents,
    params: IntraPictureParams,
    scale_code: u8,
    qscale: u8,
    f_code: u8,
    n: int,
    bits: Seq<bool>,
    recon: FrameContents,
    fdct: D,
    idct: F,
) -> (Result<()>, Seq<bool>, FrameContents)
    decreases n,
{
    if n <= 0 {
        (Ok(()), bits, recon)
    } else {
        let (res, b, r) = rows_encoded(
            current,
            reference,
            params,
            scale_code,
            qscale,
            f_code,
            n - 1,
            bits,
            recon,
            fdct,
            idct,
        );
        match res {
            Err(e) => (Err(e), b, r),
            Ok(_) => {
                let (row, after) = row_encoded(
                    current,
                    reference,
                    params,
                    qscale,
                    f_code,
                    n - 1,
                    blocks_of_16(params.width as int),
                    row_start(params, n - 1, b + slice_header_bits(n - 1, scale_code), r),
                    fdct,
                    idct,
                );
                match row {
                    Err(e) => (Err(e), after.blocks.bits, after.blocks.recon),
                    Ok(_) => (Ok(()), zero_padded(after.blocks.bits), after.blocks.recon),
                }
            },
        }
    }
}

/// The coding extension of a P-picture.
pub open spec fn extension_of(params: IntraPictureParams, f_code: u8) -> PictureCodingExtensionParams {
    PictureCodingExtensionParams {
        forward_f_code: f_code,
        backward_f_code: 15,
        intra_dc_precision: params.intra_dc_precision,
        top_field_first: false,
        frame_pred_frame_dct: params.frame_pred_frame_dct,
        q_scale_type: params.q_scale_type,
        intra_vlc_format: params.intra_vlc_format,
        alternate_scan: params.alternate_scan,
        repeat_first_field: false,
        progressive_frame: params.progressive_sequence,
    }
}

/// The bits of the headers of a P-picture.
pub open spec fn headed(
    bits: Seq<bool>,
    params: IntraPictureParams,
    temporal_reference: u16,
    f_code: u8,
) -> Seq<bool> {
    zero_padded(
        zero_padded(
            bits + picture_header_bits(temporal_reference, PictureCodingType::Predictive, 7, 7),
        ) + extension_bits(extension_of(params, f_code)),
    )
}

/// What encoding a P-picture gives: the bits, and the frame that a decoder has.
pub open spec fn picture_encoded<
    D: Fn([[i16; 8]; 8]) -> [[i32; 8]; 8],
    F: Fn([[i32; 8]; 8]) -> [[i16; 8]; 8],
>(
    bits: Seq<bool>,
    current: FrameContents,
    reference: FrameContents,
    params: IntraPictureParams,
    temporal_reference: u16,
    scale_code: u8,
    f_code: u8,
    fdct: D,
    idct: F,
) -> (Result<FrameContents>, Seq<bool>) {
    match scale_of(scale_code, params.q_scale_type) {
        Err(e) => (Err(e), bits),
        Ok(qscale) => {
            let start = headed(bits, params, temporal_reference, f_code);
            if dc_mult_of(params.intra_dc_precision) is None {
                (Err(Error::InvalidBitstream(ERR_DC_PRECISION_MULT)), start)
            } else {
                let (res, b, r) = rows_encoded(
                    current,
                    reference,
                    params,
                    scale_code,
                    qscale,
                    f_code,
                    macroblock_rows(params.height as int, params.progressive_sequence),
                    start,
                    zero_frame(
                        params.width as int,
                        params.height as int,
                        params.chroma_format,
                    ),
                    fdct,
                    idct,
                );
                match res {
                    Err(e) => (Err(e), b),
                    Ok(_) => (Ok(r), b),
                }
            }
        },
    }
}

/// Whether the macroblocks of a picture can be located and addressed, and its rows
/// numbered.
pub open spec fn encodable(params: IntraPictureParams) -> bool {
    let w = blocks_of_16(params.width as int);
    let h = macroblock_rows(params.height as int, params.progressive_sequence);
    &&& frame_fits(params.width as int, params.height as int)
    &&& w * 16 + 16 <= usize::MAX
    &&& h * 16 + 16 <= usize::MAX
    &&& h <= 0xFFFF_0000
    &&& w * h <= i32::MAX
}

fn encode_row<
    D: Fn([[i16; 8]; 8]) -> [[i32; 8]; 8],
    F: Fn([[i32; 8]; 8]) -> [[i16; 8]; 8],
>(
    bw: &mut BitWriter,
    current: &FrameBuffer,
    reference: &FrameBuffer,
    recon: &mut FrameBuffer,
    params: &IntraPictureParams,
    qscale: u8,
    dc_mult: i32,
    f_code: u8,
    mb_row: usize,
    fdct: &D,
    idct: &F,
) -> (res: Result<()>)
    requires
        is_function(*fdct),
        is_function(*idct),
        encodable(*params),
        mb_row < macroblock_rows(params.height as int, params.progressive_sequence),
        dc_mult_of(params.intra_dc_precision) == Some(dc_mult as int),
        old(recon)@.chroma_format == params.chroma_format,
    ensures
        ({
            let (want, after) = row_encoded(
                current@,
                reference@,
                *params,
                qscale,
                f_code,
                mb_row as int,
                blocks_of_16(params.width as int),
                row_start(*params, mb_row as int, writer_bits(*old(bw)), old(recon)@),
                *fdct,
                *idct,
            );
            &&& res == want
            &&& writer_bits(*final(bw)) == after.blocks.bits
            &&& want is Ok ==> final(recon)@ == after.blocks.recon
        }),
        final(recon)@.chroma_format == params.chroma_format,
{
    let mb_width = params.mb_width();
    proof {
        lemma_zero_ok(f_code);
        lemma_row_fits(*params, mb_row as int, 0);
    }
    let first_address: i64 = (mb_row * mb_width) as i64;
    let mut pred = IntraDcPred::reset(params.intra_dc_precision);
    let mut past_intra_address: i64 = first_address - 2;
    let mut last: (i32, i32) = (0, 0);
    let ghost st = row_start(*params, mb_row as int, writer_bits(*bw), recon@);
    let mut mb_col: usize = 0;
    while mb_col < mb_width
        invariant
            mb_col <= mb_width,
            mb_width == blocks_of_16(params.width as int),
            is_function(*fdct),
            is_function(*idct),
            encodable(*params),
            mb_row < macroblock_rows(params.height as int, params.progressive_sequence),
            dc_mult_of(params.intra_dc_precision) == Some(dc_mult as int),
            recon@.chroma_format == params.chroma_format,
            first_address == mb_row * mb_width,
            0 <= first_address <= i32::MAX,
            -2 <= past_intra_address <= i32::MAX,
            pred.ok(),
            vector_ok(last, f_code),
            st == row_start(*params, mb_row as int, writer_bits(*old(bw)), old(recon)@),
            row_encoded(
                current@,
                reference@,
                *params,
                qscale,
                f_code,
                mb_row as int,
                mb_col as int,
                st,
                *fdct,
                *idct,
            ) == (
                Ok::<(), Error>(()),
                (PEncoding {
                    blocks: BlockEncoding {
                        bits: writer_bits(*bw),
                        recon: recon@,
                        dc: pred,
                    },
                    past_intra_address: past_intra_address as int,
                    last,
                }),
            ),
        decreases mb_width - mb_col,
    {
        proof {
            lemma_row_fits(*params, mb_row as int, mb_col as int);
        }
        let done = encode_macroblock(
            bw,
            current,
            reference,
            recon,
            params,
            qscale,
            dc_mult,
            f_code,
            mb_col,
            mb_row,
            first_address + mb_col as i64,
            &mut pred,
            &mut past_intra_address,
            &mut last,
            fdct,
            idct,
        );
        proof {
            lemma_row_stops(
                current@,
                reference@,
                *params,
                qscale,
                f_code,
                mb_row as int,
                mb_col + 1,
                mb_width as int,
                st,
                *fdct,
                *idct,
            );
        }
        done?;
        mb_col += 1;
    }
    Ok(())
}

proof fn lemma_row_fits(params: IntraPictureParams, mb_row: int, mb_col: int)
    requires
        encodable(params),
        0 <= mb_row < macroblock_rows(params.height as int, params.progressive_sequence),
        0 <= mb_col <= blocks_of_16(params.width as int),
    ensures
        0 <= mb_row * blocks_of_16(params.width as int),
        mb_row * blocks_of_16(params.width as int) + mb_col <= i32::MAX,
        macroblock_addressable(0, mb_row),
        mb_col < blocks_of_16(params.width as int) ==> macroblock_addressable(mb_col, mb_row),
{
    let w = blocks_of_16(params.width as int);
    let h = macroblock_rows(params.height as int, params.progressive_sequence);
    assert(0 <= mb_row * w && mb_row * w + mb_col <= w * h) by (nonlinear_arith)
        requires
            0 <= mb_col <= w,
            0 <= mb_row < h,
    ;
}

proof fn lemma_row_stops<
    D: Fn([[i16; 8]; 8]) -> [[i32; 8]; 8],
    F: Fn([[i32; 8]; 8]) -> [[i16; 8]; 8],
>(
    current: FrameContents,
    reference: FrameContents,
    params: IntraPictureParams,
    qscale: u8,
    f_code: u8,
    mb_row: int,
    k: int,
    n: int,
    st: PEncoding,
    fdct: D,
    idct: F,
)
    requires
        0 <= k <= n,
    ensures
        ({
            let at_k = row_encoded(
                current,
                reference,
                params,
                qscale,
                f_code,
                mb_row,
                k,
                st,
                fdct,
                idct,
            );
            at_k.0 is Err ==> row_encoded(
                current,
                reference,
                params,
                qscale,
                f_code,
                mb_row,
                n,
                st,
                fdct,
                idct,
            ) == at_k
        }),
    decreases n - k,
{
    if k < n {
        lemma_row_stops(
            current,
            reference,
            params,
            qscale,
            f_code,
            mb_row,
            k,
            n - 1,
            st,
            fdct,
            idct,
        );
    }
}

proof fn lemma_rows_stop<
    D: Fn([[i16; 8]; 8]) -> [[i32; 8]; 8],
    F: Fn([[i32; 8]; 8]) -> [[i16; 8]; 8],
>(
    current: FrameContents,
    reference: FrameContents,
    params: IntraPictureParams,
    scale_code: u8,
    qscale: u8,
    f_code: u8,
    k: int,
    n: int,
    bits: Seq<bool>,
    recon: FrameContents,
    fdct: D,
    idct: F,
)
    requires
        0 <= k <= n,
    ensures
        ({
            let at_k = rows_encoded(
                current,
                reference,
                params,
                scale_code,
                qscale,
                f_code,
                k,
                bits,
                recon,
                fdct,
                idct,
            );
            at_k.0 is Err ==> rows_encoded(
                current,
                reference,
                params,
                scale_code,
                qscale,
                f_code,
                n,
                bits,
                recon,
                fdct,
                idct,
            ) == at_k
        }),
    decreases n - k,
{
    if k < n {
        lemma_rows_stop(
            current,
            reference,
            params,
            scale_code,
            qscale,
            f_code,
            k,
            n - 1,
            bits,
            recon,
            fdct,
            idct,
        );
    }
}

/// Writes a P-picture, and returns the frame that a decoder makes of it. `fdct` and
/// `idct` are the transform and its inverse.
pub fn encode_p_picture<
    D: Fn([[i16; 8]; 8]) -> [[i32; 8]; 8],
    F: Fn([[i32; 8]; 8]) -> [[i16; 8]; 8],
>(
    bw: &mut BitWriter,
    current: &FrameBuffer,
    reference: &FrameBuffer,
    params: IntraPictureParams,
    temporal_reference: u16,
    quantiser_scale_code: u8,
    forward_f_code: u8,
    fdct: &D,
    idct: &F,
) -> (res: Result<FrameBuffer>)
    requires
        is_function(*fdct),
        is_function(*idct),
        encodable(params),
    ensures
        ({
            let (want, bits) = picture_encoded(
                writer_bits(*old(bw)),
                current@,
                reference@,
                params,
                temporal_reference,
                quantiser_scale_code,
                forward_f_code,
                *fdct,
                *idct,
            );
            &&& writer_bits(*final(bw)) == bits
            &&& match res {
                Ok(recon) => want == Ok::<FrameContents, Error>(recon@),
                Err(e) => want == Err::<FrameContents, Error>(e),
            }
        }),
{
    let qscale = quantiser_scale(quantiser_scale_code, params.q_scale_type)?;
    write_picture_header(bw, temporal_reference, PictureCodingType::Predictive, 7, 7);
    write_picture_coding_extension(
        bw,
        &PictureCodingExtensionParams {
            forward_f_code,
            backward_f_code: 15,
            intra_dc_precision: params.intra_dc_precision,
            top_field_first: false,
            frame_pred_frame_dct: params.frame_pred_frame_dct,
            q_scale_type: params.q_scale_type,
            intra_vlc_format: params.intra_vlc_format,
            alternate_scan: params.alternate_scan,
            repeat_first_field: false,
            progressive_frame: params.progressive_sequence,
        },
    );
    let mut recon = FrameBuffer::new(params.width, params.height, params.chroma_format);
    let mb_height = params.mb_height();
    let dc_mult = intra_dc_mult(params.intra_dc_precision)?;
    let ghost bits = writer_bits(*bw);
    let ghost start = recon@;
    let mut mb_row: usize = 0;
    while mb_row < mb_height
        invariant
            mb_row <= mb_height,
            mb_height == macroblock_rows(params.height as int, params.progressive_sequence),
            is_function(*fdct),
            is_function(*idct),
            encodable(params),
            dc_mult_of(params.intra_dc_precision) == Some(dc_mult as int),
            recon@.chroma_format == params.chroma_format,
            scale_of(quantiser_scale_code, params.q_scale_type) == Ok::<u8, Error>(qscale),
            bits == headed(writer_bits(*old(bw)), params, temporal_reference, forward_f_code),
            start == zero_frame(params.width as int, params.height as int, params.chroma_format),
            rows_encoded(
                current@,
                reference@,
                params,
                quantiser_scale_code,
                qscale,
                forward_f_code,
                mb_row as int,
                bits,
                start,
                *fdct,
                *idct,
            ) == (Ok::<(), Error>(()), writer_bits(*bw), recon@),
        decreases mb_height - mb_row,
    {
        write_slice_header(bw, mb_row as u32, quantiser_scale_code);
        let done = encode_row(
            bw,
            current,
            reference,
            &mut recon,
            &params,
            qscale,
            dc_mult,
            forward_f_code,
            mb_row,
            fdct,
            idct,
        );
        proof {
            lemma_rows_stop(
                current@,
                reference@,
                params,
                quantiser_scale_code,
                qscale,
                forward_f_code,
                mb_row + 1,
                mb_height as int,
                bits,
                start,
                *fdct,
                *idct,
            );
        }
        done?;
        bw.align_to_byte_zero();
        mb_row += 1;
    }
    Ok(recon)
}

} // verus!
