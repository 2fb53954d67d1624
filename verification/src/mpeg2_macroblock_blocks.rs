//! The blocks of an MPEG-2 macroblock.

use crate::bits::{addressable, reader_bits, reader_pos};
use crate::block::is_function;
use crate::coded_block_pattern::CodedBlockPattern;
use crate::error::{Error, Result};
use crate::macroblock_type::MacroblockType;
use crate::mpeg2_block_dc::{ColourComponent, DcPredictors};
use crate::mpeg2_block_decoder::{
    block_at, coding_of, decode_block as decode_block_inner, lemma_block_advances, BlockContext,
    DecodedBlock as InnerDecodedBlock, ERR_BLOCK_DC_PRECISION, ERR_BLOCK_SCALE,
};
use crate::mpeg2_dequantize::{
    select_weighting_matrix_index, weight_index, BlockCoding, Component as DequantComponent,
    DEFAULT_INTRA_WEIGHT, DEFAULT_NON_INTRA_WEIGHT,
};
use crate::picture::ChromaFormat;
use oxideav_core::bits::BitReader;
use vstd::prelude::*;

verus! {

pub const ERR_MACROBLOCK_PREDICTORS: &'static str =
    "DcPredictors.intra_dc_precision must match MacroblockBlockContext.intra_dc_precision (§7.2.1)";

/// How many blocks a macroblock has.
pub fn block_count(chroma: ChromaFormat) -> (n: usize)
    ensures
        n == chroma.spec_blocks_per_mb(),
{
    match chroma {
        ChromaFormat::Yuv420 => 6,
        ChromaFormat::Yuv422 => 8,
        ChromaFormat::Yuv444 => 12,
    }
}

/// The component of block `i`: four luminance blocks, then equally many of each
/// chrominance.
pub open spec fn component_of(i: int, chroma: ChromaFormat) -> Option<ColourComponent> {
    if i >= chroma.spec_blocks_per_mb() {
        None
    } else if i < 4 {
        Some(ColourComponent::Y)
    } else if i < 4 + (chroma.spec_blocks_per_mb() - 4) / 2 {
        Some(ColourComponent::Cb)
    } else {
        Some(ColourComponent::Cr)
    }
}

/// The component of block `i`, or none where the format has no such block.
pub fn block_component(i: usize, chroma: ChromaFormat) -> (r: Option<ColourComponent>)
    ensures
        r == component_of(i as int, chroma),
{
    if i >= block_count(chroma) {
        return None;
    }
    if i < 4 {
        return Some(ColourComponent::Y);
    }
    let chroma_pair_count: usize = match chroma {
        ChromaFormat::Yuv420 => 1,
        ChromaFormat::Yuv422 => 2,
        ChromaFormat::Yuv444 => 4,
    };
    if i < 4 + chroma_pair_count {
        Some(ColourComponent::Cb)
    } else {
        Some(ColourComponent::Cr)
    }
}

/// What the blocks of a macroblock are decoded with.
#[derive(Debug, Clone, Copy)]
pub struct MacroblockBlockContext<'w> {
    pub intra_vlc_format: bool,
    pub alternate_scan: bool,
    /// From 0 to 3.
    pub intra_dc_precision: u8,
    /// The quantiser scale itself, not its code.
    pub quantiser_scale_value: u8,
    pub chroma_format: ChromaFormat,
    /// The weights of intra and non-intra luminance, then of intra and non-intra
    /// chrominance.
    pub weight_matrices: &'w [[[u8; 8]; 8]; 4],
}

/// The default weights.
pub const DEFAULT_WEIGHT_MATRICES: [[[u8; 8]; 8]; 4] = [
    DEFAULT_INTRA_WEIGHT,
    DEFAULT_NON_INTRA_WEIGHT,
    DEFAULT_INTRA_WEIGHT,
    DEFAULT_NON_INTRA_WEIGHT,
];

impl<'w> MacroblockBlockContext<'w> {
    /// A context with the default weights.
    pub fn with_default_weight_matrices(
        intra_vlc_format: bool,
        alternate_scan: bool,
        intra_dc_precision: u8,
        quantiser_scale_value: u8,
        chroma_format: ChromaFormat,
    ) -> (ctx: MacroblockBlockContext<'static>)
        ensures
            ctx.intra_vlc_format == intra_vlc_format,
            ctx.alternate_scan == alternate_scan,
            ctx.intra_dc_precision == intra_dc_precision,
            ctx.quantiser_scale_value == quantiser_scale_value,
            ctx.chroma_format == chroma_format,
            *ctx.weight_matrices == DEFAULT_WEIGHT_MATRICES,
    {
        MacroblockBlockContext {
            intra_vlc_format,
            alternate_scan,
            intra_dc_precision,
            quantiser_scale_value,
            chroma_format,
            weight_matrices: &DEFAULT_WEIGHT_MATRICES,
        }
    }

    /// What a single block of the macroblock is decoded with.
    pub open spec fn inner(self) -> BlockContext {
        BlockContext {
            intra_vlc_format: self.intra_vlc_format,
            alternate_scan: self.alternate_scan,
            intra_dc_precision: self.intra_dc_precision,
            quantiser_scale_value: self.quantiser_scale_value,
        }
    }
}

/// A decoded block and its place in the macroblock.
#[derive(Debug, Clone, Copy)]
pub struct DecodedBlock {
    pub block_index: u8,
    pub component: ColourComponent,
    pub decoded: InnerDecodedBlock,
}

pub open spec fn dequant_component(component: ColourComponent) -> DequantComponent {
    if component == ColourComponent::Y {
        DequantComponent::Luminance
    } else {
        DequantComponent::Chrominance
    }
}

/// The coded blocks from block `i` on, the position after them, and the
/// predictors that they leave. Uncoded blocks take no bits.
pub open spec fn blocks_from<F: Fn([[i32; 8]; 8]) -> [[i16; 8]; 8]>(
    s: Seq<bool>,
    at: int,
    i: int,
    ctx: MacroblockBlockContext<'_>,
    predictors: DcPredictors,
    mt: MacroblockType,
    cbp: CodedBlockPattern,
    idct: F,
) -> (Result<Seq<DecodedBlock>>, int, DcPredictors)
    decreases ctx.chroma_format.spec_blocks_per_mb() - i,
{
    if i >= ctx.chroma_format.spec_blocks_per_mb() {
        (Ok(Seq::empty()), at, predictors)
    } else if !cbp.codes_block(mt.macroblock_intra, mt.macroblock_pattern, i) {
        blocks_from(s, at, i + 1, ctx, predictors, mt, cbp, idct)
    } else {
        let component = component_of(i, ctx.chroma_format)->0;
        let w = weight_index(
            coding_of(mt.macroblock_intra),
            dequant_component(component),
            ctx.chroma_format,
        );
        let (block, p1, after) = block_at(
            s,
            at,
            ctx.inner(),
            predictors,
            component,
            mt.macroblock_intra,
            ctx.weight_matrices[w],
            idct,
        );
        match block {
            Err(e) => (Err(e), p1, after),
            Ok(block) => {
                let (rest, p2, last) = blocks_from(s, p1, i + 1, ctx, after, mt, cbp, idct);
                match rest {
                    Err(e) => (Err(e), p2, last),
                    Ok(rest) => (
                        Ok(
                            seq![
                                (DecodedBlock {
                                    block_index: i as u8,
                                    component,
                                    decoded: block,
                                }),
                            ] + rest,
                        ),
                        p2,
                        last,
                    ),
                }
            },
        }
    }
}

/// What is wrong with the context of a macroblock, if anything.
pub open spec fn macroblock_context_error(
    ctx: MacroblockBlockContext<'_>,
    predictors: DcPredictors,
) -> Option<Error> {
    if ctx.intra_dc_precision > 3 {
        Some(Error::InvalidBitstream(ERR_BLOCK_DC_PRECISION))
    } else if ctx.quantiser_scale_value == 0 {
        Some(Error::InvalidBitstream(ERR_BLOCK_SCALE))
    } else if predictors.intra_dc_precision != ctx.intra_dc_precision {
        Some(Error::InvalidBitstream(ERR_MACROBLOCK_PREDICTORS))
    } else {
        None
    }
}

/// The blocks of the macroblock at `at`. A non-intra macroblock first resets the
/// predictors.
pub open spec fn macroblock_blocks_at<F: Fn([[i32; 8]; 8]) -> [[i16; 8]; 8]>(
    s: Seq<bool>,
    at: int,
    ctx: MacroblockBlockContext<'_>,
    predictors: DcPredictors,
    mt: MacroblockType,
    cbp: CodedBlockPattern,
    idct: F,
) -> (Result<Seq<DecodedBlock>>, int, DcPredictors) {
    match macroblock_context_error(ctx, predictors) {
        Some(e) => (Err(e), at, predictors),
        None => {
            let start = if mt.macroblock_intra {
                predictors
            } else {
                DcPredictors::at_reset(predictors.intra_dc_precision)
            };
            blocks_from(s, at, 0, ctx, start, mt, cbp, idct)
        },
    }
}

/// Decodes the coded blocks of a macroblock. `idct` is the inverse transform.
pub fn decode_macroblock_blocks<F: Fn([[i32; 8]; 8]) -> [[i16; 8]; 8]>(
    br: &mut BitReader<'_>,
    ctx: &MacroblockBlockContext<'_>,
    dc_predictors: &mut DcPredictors,
    mt: &MacroblockType,
    cbp: &CodedBlockPattern,
    idct: &F,
) -> (res: Result<Vec<DecodedBlock>>)
    requires
        addressable(*old(br)),
        mt.macroblock_intra ==> old(dc_predictors).roomy(),
        is_function(*idct),
    ensures
        reader_bits(*final(br)) == reader_bits(*old(br)),
        ({
            let (want, next, after) = macroblock_blocks_at(
                reader_bits(*old(br)),
                reader_pos(*old(br)) as int,
                *ctx,
                *old(dc_predictors),
                *mt,
                *cbp,
                *idct,
            );
            &&& reader_pos(*final(br)) == next
            &&& *final(dc_predictors) == after
            &&& match res {
                Ok(blocks) => want == Ok::<Seq<DecodedBlock>, Error>(blocks@),
                Err(e) => want == Err::<Seq<DecodedBlock>, Error>(e),
            }
        }),
{
    if ctx.intra_dc_precision > 3 {
        return Err(Error::InvalidBitstream(ERR_BLOCK_DC_PRECISION));
    }
    if ctx.quantiser_scale_value == 0 {
        return Err(Error::InvalidBitstream(ERR_BLOCK_SCALE));
    }
    if dc_predictors.intra_dc_precision != ctx.intra_dc_precision {
        return Err(Error::InvalidBitstream(ERR_MACROBLOCK_PREDICTORS));
    }
    if !mt.macroblock_intra {
        dc_predictors.reset();
    }
    let pattern_code = cbp.pattern_code(mt.macroblock_intra, mt.macroblock_pattern);
    let blocks = block_count(ctx.chroma_format);
    let inner_ctx = BlockContext {
        intra_vlc_format: ctx.intra_vlc_format,
        alternate_scan: ctx.alternate_scan,
        intra_dc_precision: ctx.intra_dc_precision,
        quantiser_scale_value: ctx.quantiser_scale_value,
    };
    let coding = if mt.macroblock_intra {
        BlockCoding::Intra
    } else {
        BlockCoding::NonIntra
    };
    let ghost s = reader_bits(*br);
    let ghost whole = blocks_from(
        s,
        reader_pos(*br) as int,
        0,
        *ctx,
        *dc_predictors,
        *mt,
        *cbp,
        *idct,
    );
    let mut out: Vec<DecodedBlock> = Vec::new();
    let mut i: usize = 0;
    proof {
        if whole.0 is Ok {
            assert(Seq::<DecodedBlock>::empty() + whole.0->Ok_0 =~= whole.0->Ok_0);
        }
    }
    while i < blocks
        invariant
            i <= blocks,
            blocks == ctx.chroma_format.spec_blocks_per_mb(),
            is_function(*idct),
            inner_ctx == ctx.inner(),
            coding == coding_of(mt.macroblock_intra),
            s == reader_bits(*old(br)),
            reader_bits(*br) == s,
            addressable(*br),
            mt.macroblock_intra ==> dc_predictors.roomy(),
            forall|k: int|
                0 <= k < 12 ==> #[trigger] pattern_code[k] == cbp.codes_block(
                    mt.macroblock_intra,
                    mt.macroblock_pattern,
                    k,
                ),
            macroblock_blocks_at(
                s,
                reader_pos(*old(br)) as int,
                *ctx,
                *old(dc_predictors),
                *mt,
                *cbp,
                *idct,
            ) == whole,
            ({
                let (rest, next, after) = blocks_from(
                    s,
                    reader_pos(*br) as int,
                    i as int,
                    *ctx,
                    *dc_predictors,
                    *mt,
                    *cbp,
                    *idct,
                );
                &&& next == whole.1
                &&& after == whole.2
                &&& match rest {
                    Ok(rest) => whole.0 == Ok::<Seq<DecodedBlock>, Error>(out@ + rest),
                    Err(e) => whole.0 == Err::<Seq<DecodedBlock>, Error>(e),
                }
            }),
        decreases blocks - i,
    {
        if pattern_code[i] {
            let component = match block_component(i, ctx.chroma_format) {
                Some(c) => c,
                None => ColourComponent::Y,
            };
            let dequant = match component {
                ColourComponent::Y => DequantComponent::Luminance,
                ColourComponent::Cb | ColourComponent::Cr => DequantComponent::Chrominance,
            };
            let w = select_weighting_matrix_index(coding, dequant, ctx.chroma_format);
            let weight = ctx.weight_matrices[w as usize];
            let decoded = decode_block_inner(
                br,
                &inner_ctx,
                dc_predictors,
                component,
                mt.macroblock_intra,
                &weight,
                idct,
            )?;
            let ghost before = out@;
            let block = DecodedBlock { block_index: i as u8, component, decoded };
            out.push(block);
            proof {
                let rest = blocks_from(
                    s,
                    reader_pos(*br) as int,
                    i + 1,
                    *ctx,
                    *dc_predictors,
                    *mt,
                    *cbp,
                    *idct,
                ).0;
                if rest is Ok {
                    assert(before + (seq![block] + rest->Ok_0) =~= out@ + rest->Ok_0);
                }
            }
        }
        i += 1;
    }
    assert(out@ + Seq::<DecodedBlock>::empty() =~= out@);
    Ok(out)
}

/// Whether block `j` is among some blocks.
pub open spec fn lists_block(blocks: Seq<DecodedBlock>, j: int) -> bool {
    exists|k: int| 0 <= k < blocks.len() && (#[trigger] blocks[k]).block_index == j
}

/// The decoded blocks stand in the order of the macroblock and are those that the
/// pattern codes: each of them is coded, and each coded block is one of them.
pub proof fn law_blocks_follow_pattern<F: Fn([[i32; 8]; 8]) -> [[i16; 8]; 8]>(
    s: Seq<bool>,
    at: int,
    i: int,
    ctx: MacroblockBlockContext<'_>,
    predictors: DcPredictors,
    mt: MacroblockType,
    cbp: CodedBlockPattern,
    idct: F,
)
    requires
        0 <= i,
        blocks_from(s, at, i, ctx, predictors, mt, cbp, idct).0 is Ok,
    ensures
        ({
            let blocks = blocks_from(s, at, i, ctx, predictors, mt, cbp, idct).0->Ok_0;
            &&& forall|k: int|
                0 <= k < blocks.len() ==> {
                    &&& i <= (#[trigger] blocks[k]).block_index
                    &&& blocks[k].block_index < ctx.chroma_format.spec_blocks_per_mb()
                    &&& cbp.codes_block(
                        mt.macroblock_intra,
                        mt.macroblock_pattern,
                        blocks[k].block_index as int,
                    )
                    &&& component_of(blocks[k].block_index as int, ctx.chroma_format) == Some(
                        blocks[k].component,
                    )
                }
            &&& forall|k: int, l: int|
                0 <= k < l < blocks.len() ==> (#[trigger] blocks[k]).block_index < (
                #[trigger] blocks[l]).block_index
            &&& forall|j: int|
                i <= j < ctx.chroma_format.spec_blocks_per_mb() ==> (#[trigger] lists_block(
                    blocks,
                    j,
                ) <==> cbp.codes_block(mt.macroblock_intra, mt.macroblock_pattern, j))
        }),
    decreases ctx.chroma_format.spec_blocks_per_mb() - i,
{
    if i < ctx.chroma_format.spec_blocks_per_mb() {
        if !cbp.codes_block(mt.macroblock_intra, mt.macroblock_pattern, i) {
            law_blocks_follow_pattern(s, at, i + 1, ctx, predictors, mt, cbp, idct);
        } else {
            let component = component_of(i, ctx.chroma_format)->0;
            let w = weight_index(
                coding_of(mt.macroblock_intra),
                dequant_component(component),
                ctx.chroma_format,
            );
            let (block, p1, after) = block_at(
                s,
                at,
                ctx.inner(),
                predictors,
                component,
                mt.macroblock_intra,
                ctx.weight_matrices[w],
                idct,
            );
            law_blocks_follow_pattern(s, p1, i + 1, ctx, after, mt, cbp, idct);
            let rest = blocks_from(s, p1, i + 1, ctx, after, mt, cbp, idct).0->Ok_0;
            let blocks = blocks_from(s, at, i, ctx, predictors, mt, cbp, idct).0->Ok_0;
            assert(blocks[0].block_index == i);
            assert forall|j: int| i <= j < ctx.chroma_format.spec_blocks_per_mb() implies (
            #[trigger] lists_block(blocks, j) <==> cbp.codes_block(
                mt.macroblock_intra,
                mt.macroblock_pattern,
                j,
            )) by {
                if j > i {
                    if lists_block(rest, j) {
                        let k = choose|k: int|
                            0 <= k < rest.len() && (#[trigger] rest[k]).block_index == j;
                        assert(blocks[k + 1] == rest[k]);
                    }
                    if lists_block(blocks, j) {
                        let k = choose|k: int|
                            0 <= k < blocks.len() && (#[trigger] blocks[k]).block_index == j;
                        assert(blocks[k] == rest[k - 1]);
                    }
                }
            }
        }
    }
}

/// Reading blocks does not move back, and leaves room in the predictors.
pub proof fn lemma_blocks_advance<F: Fn([[i32; 8]; 8]) -> [[i16; 8]; 8]>(
    s: Seq<bool>,
    at: int,
    i: int,
    ctx: MacroblockBlockContext<'_>,
    predictors: DcPredictors,
    mt: MacroblockType,
    cbp: CodedBlockPattern,
    idct: F,
)
    requires
        predictors.roomy(),
    ensures
        ({
            let (_, next, after) = blocks_from(s, at, i, ctx, predictors, mt, cbp, idct);
            &&& next >= at
            &&& after.roomy()
            &&& after.intra_dc_precision == predictors.intra_dc_precision
        }),
    decreases ctx.chroma_format.spec_blocks_per_mb() - i,
{
    if i < ctx.chroma_format.spec_blocks_per_mb() {
        if !cbp.codes_block(mt.macroblock_intra, mt.macroblock_pattern, i) {
            lemma_blocks_advance(s, at, i + 1, ctx, predictors, mt, cbp, idct);
        } else {
            let component = component_of(i, ctx.chroma_format)->0;
            let w = weight_index(
                coding_of(mt.macroblock_intra),
                dequant_component(component),
                ctx.chroma_format,
            );
            let weight = ctx.weight_matrices[w];
            lemma_block_advances(
                s,
                at,
                ctx.inner(),
                predictors,
                component,
                mt.macroblock_intra,
                weight,
                idct,
            );
            let (_, p1, after) = block_at(
                s,
                at,
                ctx.inner(),
                predictors,
                component,
                mt.macroblock_intra,
                weight,
                idct,
            );
            lemma_blocks_advance(s, p1, i + 1, ctx, after, mt, cbp, idct);
        }
    }
}

} // verus!
