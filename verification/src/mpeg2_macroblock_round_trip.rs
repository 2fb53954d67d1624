//! What a decoder makes of the macroblocks that an MPEG-2 encoder of P-pictures
//! writes.

use crate::bits::{be_value, holds_at, lemma_holds_at_split};
use crate::block::{lemma_block_entries, value_of};
use crate::block_writes::lemma_block_written;
use crate::block_zero_runs::{lemma_dc_then_broken_up, lemma_order_broken_up};
use crate::coded_block_pattern::{
    bit_of, cbp_bits, flags_value, law_cbp_round_trip, pattern_at, pattern_bits, CodedBlockPattern,
};
use crate::encoded_bits::{
    added, lemma_added, lemma_added_twice, lemma_stands_prefix, lemma_stands_split, stands,
};
use crate::error::Error;
use crate::forward_quant::{
    level_block_in_range, quantised_block, quantised_levels,
};
use crate::frame_assembly::{frame_with_block, frame_with_intra, saturated_samples};
use crate::inter_reconstruction::{zero_residual, MacroblockPlanes};
use crate::macroblock_type::MacroblockType;
use crate::mpeg1_intra_round_trip::lemma_frame_with_intra_head;
use crate::mpeg2_block_dc::{dc_bits, dc_max_of, DcPredictors};
use crate::mpeg2_block_decoder::{block_at, coding_of};
use crate::mpeg2_block_round_trip::{
    coded_order, law_intra_block_round_trip, law_non_intra_block_round_trip, lemma_order_fits,
    lemma_scan_is_order,
};
use crate::mpeg2_dct_coeff::TableSelection;
use crate::mpeg2_dequantize::{
    dc_mult_of, reconstructed_block, weight_index, BlockCoding, DEFAULT_INTRA_WEIGHT,
    DEFAULT_NON_INTRA_WEIGHT,
};
use crate::mpeg2_macroblock_blocks::{
    blocks_from, component_of, dequant_component, DecodedBlock, MacroblockBlockContext,
};
use crate::p_picture_encoder::{
    any_coded, any_level, coded_blocks_bits, flags_of, inter_block_of, intra_block_encoded,
    intra_blocks_encoded, intra_levels, macroblock_blocks, residual_bits, scan_bits,
    source_residual, BlockEncoding, InterBlock, IntraDcPred, PSource,
};
use crate::picture::ChromaFormat;
use crate::slice_macroblock_walk::{no_pattern, optional_pattern_at};
use crate::zero_runs::{broken_up, lemma_joined};
use vstd::arithmetic::power2::{lemma2_to64, pow2};
use vstd::prelude::*;

verus! {

/// The levels of a block are ones that a block can hold, and its DC level is one of
/// the precision.
pub proof fn lemma_quantised_fits(
    f: [[i32; 8]; 8],
    coding: BlockCoding,
    weight: [[u8; 8]; 8],
    scale: u8,
    dc_mult: i32,
)
    requires
        1 <= dc_mult <= 8,
    ensures
        level_block_in_range(quantised_block(f, coding, weight, scale, dc_mult)),
        coding == BlockCoding::Intra ==> 0 <= quantised_block(
            f,
            coding,
            weight,
            scale,
            dc_mult,
        )[0][0] <= 2048int / dc_mult as int - 1,
{
    lemma_block_entries(quantised_levels(f, coding, weight, scale, dc_mult));
    assert(2048int / dc_mult as int <= 2048 && 2048int / dc_mult as int >= 256)
        by (nonlinear_arith)
        requires
            1 <= dc_mult <= 8,
    ;
    let qf = quantised_block(f, coding, weight, scale, dc_mult);
    let g = quantised_levels(f, coding, weight, scale, dc_mult);
    assert forall|v: int, u: int| 0 <= v < 8 && 0 <= u < 8 implies -2047 <= #[trigger] qf[v][u]
        <= 2047 by {
        assert(qf[v][u] == g(v, u));
    }
    assert(qf[0][0] == g(0, 0));
}

/// Whether weights are the default ones.
#[verifier::opaque]
pub open spec fn default_weights(weights: [[[u8; 8]; 8]; 4]) -> bool {
    &&& weights[0] == DEFAULT_INTRA_WEIGHT
    &&& weights[1] == DEFAULT_NON_INTRA_WEIGHT
    &&& weights[2] == DEFAULT_INTRA_WEIGHT
    &&& weights[3] == DEFAULT_NON_INTRA_WEIGHT
}

/// What the blocks of a picture are read with.
pub open spec fn reads_blocks(bctx: MacroblockBlockContext<'_>, src: PSource) -> bool {
    &&& bctx.intra_vlc_format == src.params.intra_vlc_format
    &&& bctx.alternate_scan == src.params.alternate_scan
    &&& bctx.intra_dc_precision == src.params.intra_dc_precision
    &&& bctx.intra_dc_precision <= 3
    &&& bctx.quantiser_scale_value == src.qscale
    &&& src.qscale != 0
    &&& bctx.chroma_format == src.params.chroma_format
    &&& src.dc_mult == dc_mult_of(src.params.intra_dc_precision)->0
    &&& default_weights(*bctx.weight_matrices)
}

/// Whether a decoder holds the DC predictions of the encoder.
pub open spec fn dc_matches(d: DcPredictors, e: IntraDcPred, precision: u8) -> bool {
    let max = dc_max_of(precision)->0;
    &&& d.intra_dc_precision == precision
    &&& d.luma == e.luma
    &&& d.cb == e.cb
    &&& d.cr == e.cr
    &&& 0 <= e.luma <= max
    &&& 0 <= e.cb <= max
    &&& 0 <= e.cr <= max
}

pub proof fn lemma_dc_reset_matches(precision: u8)
    requires
        precision <= 3,
    ensures
        dc_matches(DcPredictors::at_reset(precision), IntraDcPred::at_reset(precision), precision),
{
    lemma2_to64();
}

/// The weights of a block are the default ones.
proof fn lemma_weights(bctx: MacroblockBlockContext<'_>, src: PSource, i: int, intra: bool)
    requires
        reads_blocks(bctx, src),
    ensures
        ({
            let component = component_of(i, bctx.chroma_format)->0;
            let w = weight_index(
                coding_of(intra),
                dequant_component(component),
                bctx.chroma_format,
            );
            bctx.weight_matrices[w] == (if intra {
                DEFAULT_INTRA_WEIGHT
            } else {
                DEFAULT_NON_INTRA_WEIGHT
            })
        }),
{
    reveal(default_weights);
}

// ---------------------------------------------------------------------------
// Intra macroblocks
// ---------------------------------------------------------------------------

/// The bits of block `i` of an intra macroblock.
pub open spec fn intra_block_bits<D: Fn([[i16; 8]; 8]) -> [[i32; 8]; 8]>(
    src: PSource,
    i: int,
    dc: IntraDcPred,
    fdct: D,
) -> Seq<bool> {
    let c = src.placement(i).component;
    let qf = intra_levels(src, i, fdct);
    dc_bits(c.spec_dc_component(), qf[0][0] - dc.spec_get(c)) + scan_bits(
        qf,
        src.params.alternate_scan,
        src.table(),
        false,
        0,
        1,
    )
}

/// What is known of the levels of an intra block.
proof fn lemma_intra_levels_known<D: Fn([[i16; 8]; 8]) -> [[i32; 8]; 8]>(
    src: PSource,
    i: int,
    fdct: D,
)
    requires
        src.params.intra_dc_precision <= 3,
        src.dc_mult == dc_mult_of(src.params.intra_dc_precision)->0,
    ensures
        level_block_in_range(intra_levels(src, i, fdct)),
        0 <= intra_levels(src, i, fdct)[0][0] <= dc_max_of(src.params.intra_dc_precision)->0,
        dc_max_of(src.params.intra_dc_precision)->0 <= 2047,
{
    lemma2_to64();
    let p = src.placement(i);
    let precision = src.params.intra_dc_precision;
    assert(precision == 0 || precision == 1 || precision == 2 || precision == 3);
    assert(pow2(8) == 256 && pow2(9) == 512 && pow2(10) == 1024 && pow2(11) == 2048);
    assert(2048int / src.dc_mult as int - 1 == dc_max_of(precision)->0) by {
        assert(2048int / 8 == 256 && 2048int / 4 == 512 && 2048int / 2 == 1024 && 2048int / 1
            == 2048);
    }
    lemma_quantised_fits(
        value_of(
            fdct,
            crate::macroblock_source::raw_block(
                src.current.plane(p.component),
                p.base_x as int,
                p.base_y as int,
            ),
        ),
        BlockCoding::Intra,
        DEFAULT_INTRA_WEIGHT,
        src.qscale,
        src.dc_mult,
    );
}

/// Whether an intra macroblock can be written and read.
pub open spec fn intra_source_ok(src: PSource, dc: IntraDcPred) -> bool {
    let max = dc_max_of(src.params.intra_dc_precision)->0;
    &&& src.params.intra_dc_precision <= 3
    &&& src.dc_mult == dc_mult_of(src.params.intra_dc_precision)->0
    &&& 0 <= dc.luma <= max
    &&& 0 <= dc.cb <= max
    &&& 0 <= dc.cr <= max
}

/// What holds after the first `n` blocks of an intra macroblock.
pub proof fn lemma_intra_blocks_keep<
    D: Fn([[i16; 8]; 8]) -> [[i32; 8]; 8],
    F: Fn([[i32; 8]; 8]) -> [[i16; 8]; 8],
>(src: PSource, n: int, st: BlockEncoding, fdct: D, idct: F)
    requires
        0 <= n,
        intra_source_ok(src, st.dc),
        st.recon.wf(),
    ensures
        ({
            let after = intra_blocks_encoded(src, n, st, fdct, idct);
            &&& intra_source_ok(src, after.dc)
            &&& after.recon.wf()
            &&& after.recon.chroma_format == st.recon.chroma_format
            &&& st.bits.is_prefix_of(after.bits)
            &&& n > 0 ==> broken_up(added(st.bits, after.bits), 19, 1)
        }),
    decreases n,
{
    if n > 0 {
        lemma_intra_blocks_keep(src, n - 1, st, fdct, idct);
        let before = intra_blocks_encoded(src, n - 1, st, fdct, idct);
        let after = intra_blocks_encoded(src, n, st, fdct, idct);
        let bits = intra_block_bits(src, n - 1, before.dc, fdct);
        lemma_intra_block_step(src, n - 1, before, fdct, idct);
        lemma_intra_block_broken_up(src, n - 1, before.dc, fdct);
        lemma_added(before.bits, bits);
        lemma_added_twice(st.bits, before.bits, after.bits);
        if n > 1 {
            lemma_joined(
                added(st.bits, before.bits),
                19,
                1,
                added(before.bits, after.bits),
                19,
                1,
            );
        }
    } else {
        assert(st.bits.is_prefix_of(st.bits));
    }
}

/// What one block of an intra macroblock changes.
proof fn lemma_intra_block_step<
    D: Fn([[i16; 8]; 8]) -> [[i32; 8]; 8],
    F: Fn([[i32; 8]; 8]) -> [[i16; 8]; 8],
>(src: PSource, i: int, st: BlockEncoding, fdct: D, idct: F)
    requires
        intra_source_ok(src, st.dc),
        st.recon.wf(),
    ensures
        ({
            let after = intra_block_encoded(src, i, st, fdct, idct);
            let c = src.placement(i).component;
            let qf = intra_levels(src, i, fdct);
            &&& after.bits == st.bits + intra_block_bits(src, i, st.dc, fdct)
            &&& after.dc == st.dc.spec_set(c, qf[0][0])
            &&& intra_source_ok(src, after.dc)
            &&& after.recon.wf()
            &&& after.recon.chroma_format == st.recon.chroma_format
            &&& after.recon == frame_with_block(
                st.recon,
                src.placement(i),
                saturated_samples(
                    value_of(
                        idct,
                        reconstructed_block(
                            qf,
                            BlockCoding::Intra,
                            DEFAULT_INTRA_WEIGHT,
                            src.qscale,
                            src.dc_mult,
                        ),
                    ),
                ),
            )
        }),
{
    reveal(intra_block_encoded);
    lemma_intra_levels_known(src, i, fdct);
    let after = intra_block_encoded(src, i, st, fdct, idct);
    let qf = intra_levels(src, i, fdct);
    assert(after.bits =~= st.bits + intra_block_bits(src, i, st.dc, fdct));
    lemma_block_written(
        st.recon,
        src.placement(i),
        saturated_samples(
            value_of(
                idct,
                reconstructed_block(
                    qf,
                    BlockCoding::Intra,
                    DEFAULT_INTRA_WEIGHT,
                    src.qscale,
                    src.dc_mult,
                ),
            ),
        ),
    );
}

/// The bits of a block of an intra macroblock.
proof fn lemma_intra_block_broken_up<D: Fn([[i16; 8]; 8]) -> [[i32; 8]; 8]>(
    src: PSource,
    i: int,
    dc: IntraDcPred,
    fdct: D,
)
    requires
        intra_source_ok(src, dc),
    ensures
        broken_up(intra_block_bits(src, i, dc, fdct), 19, 1),
{
    let c = src.placement(i).component;
    let qf = intra_levels(src, i, fdct);
    let alt = src.params.alternate_scan;
    lemma_intra_levels_known(src, i, fdct);
    lemma_order_fits(qf, alt);
    lemma_scan_is_order(qf, alt, src.table(), false, 0, 1);
    lemma_order_broken_up(coded_order(qf, alt), src.table(), false, 0, 1);
    lemma_dc_then_broken_up(
        c.spec_dc_component(),
        qf[0][0] - dc.spec_get(c),
        scan_bits(qf, alt, src.table(), false, 0, 1),
    );
}

/// What was written for the blocks from `k` to `n` was added.
proof fn lemma_intra_blocks_grow<
    D: Fn([[i16; 8]; 8]) -> [[i32; 8]; 8],
    F: Fn([[i32; 8]; 8]) -> [[i16; 8]; 8],
>(src: PSource, k: int, n: int, st: BlockEncoding, fdct: D, idct: F)
    requires
        0 <= k <= n,
        intra_source_ok(src, st.dc),
        st.recon.wf(),
    ensures
        intra_blocks_encoded(src, k, st, fdct, idct).bits.is_prefix_of(
            intra_blocks_encoded(src, n, st, fdct, idct).bits,
        ),
    decreases n - k,
{
    let at_k = intra_blocks_encoded(src, k, st, fdct, idct).bits;
    if k < n {
        lemma_intra_blocks_grow(src, k, n - 1, st, fdct, idct);
        lemma_intra_blocks_keep(src, n - 1, st, fdct, idct);
        let before = intra_blocks_encoded(src, n - 1, st, fdct, idct);
        let after = intra_blocks_encoded(src, n, st, fdct, idct);
        lemma_intra_block_step(src, n - 1, before, fdct, idct);
        lemma_added(before.bits, intra_block_bits(src, n - 1, before.dc, fdct));
        lemma_added_twice(at_k, before.bits, after.bits);
    } else {
        assert(at_k.is_prefix_of(at_k));
    }
}

/// One block of an intra macroblock is decoded to what its encoder reconstructed.
proof fn lemma_intra_block_read<
    D: Fn([[i16; 8]; 8]) -> [[i32; 8]; 8],
    F: Fn([[i32; 8]; 8]) -> [[i16; 8]; 8],
>(
    s: Seq<bool>,
    at: int,
    src: PSource,
    i: int,
    e: IntraDcPred,
    bctx: MacroblockBlockContext<'_>,
    dc: DcPredictors,
    fdct: D,
    idct: F,
)
    requires
        0 <= i < src.params.chroma_format.spec_blocks_per_mb(),
        reads_blocks(bctx, src),
        intra_source_ok(src, e),
        dc_matches(dc, e, src.params.intra_dc_precision),
        holds_at(s, at, intra_block_bits(src, i, e, fdct)),
    ensures
        ({
            let component = component_of(i, src.params.chroma_format)->0;
            let (block, p, after) = block_at(
                s,
                at,
                bctx.inner(),
                dc,
                component,
                true,
                DEFAULT_INTRA_WEIGHT,
                idct,
            );
            let qf = intra_levels(src, i, fdct);
            &&& block is Ok
            &&& p == at + intra_block_bits(src, i, e, fdct).len()
            &&& dc_matches(
                after,
                e.spec_set(src.placement(i).component, qf[0][0]),
                src.params.intra_dc_precision,
            )
            &&& block->Ok_0.f_pel == value_of(
                idct,
                reconstructed_block(
                    qf,
                    BlockCoding::Intra,
                    DEFAULT_INTRA_WEIGHT,
                    src.qscale,
                    src.dc_mult,
                ),
            )
        }),
{
    let component = component_of(i, src.params.chroma_format)->0;
    let c = src.placement(i).component;
    assert(component.spec_dc_component() == c.spec_dc_component());
    assert(dc.spec_get(component) == e.spec_get(c));
    lemma_intra_levels_known(src, i, fdct);
    law_intra_block_round_trip(
        s,
        at,
        intra_levels(src, i, fdct),
        bctx.inner(),
        dc,
        component,
        DEFAULT_INTRA_WEIGHT,
        idct,
    );
}

/// How a block that was read goes before the rest.
proof fn lemma_blocks_from_step<F: Fn([[i32; 8]; 8]) -> [[i16; 8]; 8]>(
    s: Seq<bool>,
    at: int,
    i: int,
    bctx: MacroblockBlockContext<'_>,
    dc: DcPredictors,
    mt: MacroblockType,
    cbp: CodedBlockPattern,
    weight: [[u8; 8]; 8],
    idct: F,
)
    requires
        0 <= i < bctx.chroma_format.spec_blocks_per_mb(),
        cbp.codes_block(mt.macroblock_intra, mt.macroblock_pattern, i),
        bctx.weight_matrices[weight_index(
            coding_of(mt.macroblock_intra),
            dequant_component(component_of(i, bctx.chroma_format)->0),
            bctx.chroma_format,
        )] == weight,
        ({
            let (block, p, after) = block_at(
                s,
                at,
                bctx.inner(),
                dc,
                component_of(i, bctx.chroma_format)->0,
                mt.macroblock_intra,
                weight,
                idct,
            );
            block is Ok && blocks_from(s, p, i + 1, bctx, after, mt, cbp, idct).0 is Ok
        }),
    ensures
        ({
            let component = component_of(i, bctx.chroma_format)->0;
            let (block, p, after) = block_at(
                s,
                at,
                bctx.inner(),
                dc,
                component,
                mt.macroblock_intra,
                weight,
                idct,
            );
            let (rest, p2, last) = blocks_from(s, p, i + 1, bctx, after, mt, cbp, idct);
            blocks_from(s, at, i, bctx, dc, mt, cbp, idct) == (
                Ok::<Seq<DecodedBlock>, Error>(
                    seq![
                        (DecodedBlock {
                            block_index: i as u8,
                            component,
                            decoded: block->Ok_0,
                        }),
                    ] + rest->Ok_0,
                ),
                p2,
                last,
            )
        }),
{
}

/// The blocks of an intra macroblock from block `i` on are decoded to what their
/// encoder reconstructed.
pub proof fn lemma_intra_blocks_read<
    D: Fn([[i16; 8]; 8]) -> [[i32; 8]; 8],
    F: Fn([[i32; 8]; 8]) -> [[i16; 8]; 8],
>(
    s: Seq<bool>,
    base: int,
    src: PSource,
    i: int,
    st: BlockEncoding,
    bctx: MacroblockBlockContext<'_>,
    dc: DcPredictors,
    mt: MacroblockType,
    cbp: CodedBlockPattern,
    fdct: D,
    idct: F,
)
    requires
        0 <= i <= src.params.chroma_format.spec_blocks_per_mb(),
        0 <= base <= st.bits.len(),
        mt.macroblock_intra,
        reads_blocks(bctx, src),
        intra_source_ok(src, st.dc),
        st.recon.wf(),
        dc_matches(
            dc,
            intra_blocks_encoded(src, i, st, fdct, idct).dc,
            src.params.intra_dc_precision,
        ),
        stands(
            s,
            base,
            intra_blocks_encoded(
                src,
                src.params.chroma_format.spec_blocks_per_mb(),
                st,
                fdct,
                idct,
            ).bits,
        ),
    ensures
        ({
            let n = src.params.chroma_format.spec_blocks_per_mb();
            let now = intra_blocks_encoded(src, i, st, fdct, idct);
            let end = intra_blocks_encoded(src, n, st, fdct, idct);
            let (blocks, p, after) = blocks_from(
                s,
                now.bits.len() - base,
                i,
                bctx,
                dc,
                mt,
                cbp,
                idct,
            );
            &&& blocks is Ok
            &&& blocks->Ok_0.len() == n - i
            &&& p == end.bits.len() - base
            &&& dc_matches(after, end.dc, src.params.intra_dc_precision)
            &&& frame_with_intra(
                now.recon,
                blocks->Ok_0,
                src.params.chroma_format,
                src.mb_col,
                src.mb_row,
                false,
                n - i,
            ) == end.recon
        }),
    decreases src.params.chroma_format.spec_blocks_per_mb() - i,
{
    let n = src.params.chroma_format.spec_blocks_per_mb();
    if i < n {
        let now = intra_blocks_encoded(src, i, st, fdct, idct);
        let next = intra_blocks_encoded(src, i + 1, st, fdct, idct);
        let end = intra_blocks_encoded(src, n, st, fdct, idct);
        let at = now.bits.len() - base;
        let component = component_of(i, src.params.chroma_format)->0;
        let qf = intra_levels(src, i, fdct);
        lemma_intra_blocks_keep(src, i, st, fdct, idct);
        lemma_intra_blocks_grow(src, i + 1, n, st, fdct, idct);
        lemma_intra_blocks_grow(src, i, i + 1, st, fdct, idct);
        lemma_intra_block_step(src, i, now, fdct, idct);
        lemma_stands_prefix(s, base, next.bits, end.bits);
        lemma_stands_split(s, base, now.bits, intra_block_bits(src, i, now.dc, fdct));
        lemma_weights(bctx, src, i, true);
        lemma_intra_block_read(s, at, src, i, now.dc, bctx, dc, fdct, idct);
        let (block, p1, after) = block_at(
            s,
            at,
            bctx.inner(),
            dc,
            component,
            true,
            DEFAULT_INTRA_WEIGHT,
            idct,
        );
        lemma_intra_blocks_read(
            s,
            base,
            src,
            i + 1,
            st,
            bctx,
            after,
            mt,
            cbp,
            fdct,
            idct,
        );
        lemma_blocks_from_step(s, at, i, bctx, dc, mt, cbp, DEFAULT_INTRA_WEIGHT, idct);
        let rest = blocks_from(s, p1, i + 1, bctx, after, mt, cbp, idct).0->Ok_0;
        let b = DecodedBlock { block_index: i as u8, component, decoded: block->Ok_0 };
        lemma_frame_with_intra_head(
            now.recon,
            b,
            rest,
            src.params.chroma_format,
            src.mb_col,
            src.mb_row,
            n - i - 1,
        );
    }
}

// ---------------------------------------------------------------------------
// Residuals
// ---------------------------------------------------------------------------

/// Whether a quantised block can be written, and is reconstructed as a decoder does.
#[verifier::opaque]
pub open spec fn block_quantised<F: Fn([[i32; 8]; 8]) -> [[i16; 8]; 8]>(
    b: InterBlock,
    qscale: u8,
    idct: F,
) -> bool {
    match b.qf {
        Some(qf) => level_block_in_range(qf) && any_level(qf) && b.f_pel == value_of(
            idct,
            reconstructed_block(
                qf,
                BlockCoding::NonIntra,
                DEFAULT_NON_INTRA_WEIGHT,
                qscale,
                1,
            ),
        ),
        None => b.f_pel == zero_residual(),
    }
}

/// Whether the quantised blocks of a macroblock can be written.
pub open spec fn quantised_ok<F: Fn([[i32; 8]; 8]) -> [[i16; 8]; 8]>(
    q: Seq<InterBlock>,
    qscale: u8,
    idct: F,
) -> bool {
    forall|k: int| 0 <= k < q.len() ==> block_quantised(#[trigger] q[k], qscale, idct)
}

/// The blocks of a macroblock can be written.
pub proof fn lemma_macroblock_blocks_ok<
    D: Fn([[i16; 8]; 8]) -> [[i32; 8]; 8],
    F: Fn([[i32; 8]; 8]) -> [[i16; 8]; 8],
>(src: PSource, preds: MacroblockPlanes, fdct: D, idct: F)
    ensures
        quantised_ok(macroblock_blocks(src, preds, fdct, idct), src.qscale, idct),
        macroblock_blocks(src, preds, fdct, idct).len()
            == src.params.chroma_format.spec_blocks_per_mb(),
{
    let q = macroblock_blocks(src, preds, fdct, idct);
    assert forall|k: int| 0 <= k < q.len() implies block_quantised(
        #[trigger] q[k],
        src.qscale,
        idct,
    ) by {
        reveal(block_quantised);
        let residual = source_residual(src, preds, k);
        assert(q[k] == inter_block_of(residual, src.qscale, fdct, idct));
        lemma_quantised_fits(
            value_of(fdct, residual),
            BlockCoding::NonIntra,
            DEFAULT_NON_INTRA_WEIGHT,
            src.qscale,
            1,
        );
    }
}

/// The blocks that were read are the coded ones, from block `i` on.
#[verifier::opaque]
pub open spec fn blocks_came_back(blocks: Seq<DecodedBlock>, i: int, q: Seq<InterBlock>) -> bool {
    &&& forall|a: int, b: int|
        0 <= a < b < blocks.len() ==> (#[trigger] blocks[a]).block_index < (
        #[trigger] blocks[b]).block_index
    &&& forall|a: int|
        0 <= a < blocks.len() ==> {
            let k = (#[trigger] blocks[a]).block_index as int;
            &&& i <= k < q.len()
            &&& blocks[a].decoded.f_pel == q[k].f_pel
        }
    &&& forall|k: int|
        i <= k < q.len() && (#[trigger] q[k]).qf is Some ==> exists|a: int|
            0 <= a < blocks.len() && (#[trigger] blocks[a]).block_index == k
}

/// A block in front of those that were read.
proof fn lemma_block_in_front(
    b: DecodedBlock,
    rest: Seq<DecodedBlock>,
    i: int,
    q: Seq<InterBlock>,
)
    requires
        0 <= i < q.len(),
        b.block_index == i,
        b.decoded.f_pel == q[i].f_pel,
        blocks_came_back(rest, i + 1, q),
    ensures
        blocks_came_back(seq![b] + rest, i, q),
{
    reveal(blocks_came_back);
    let blocks = seq![b] + rest;
    assert(blocks[0] == b);
    assert forall|a: int, c: int| 0 <= a < c < blocks.len() implies (
    #[trigger] blocks[a]).block_index < (#[trigger] blocks[c]).block_index by {
        assert(blocks[c] == rest[c - 1]);
        if a > 0 {
            assert(blocks[a] == rest[a - 1]);
        }
    }
    assert forall|a: int| 0 <= a < blocks.len() implies {
        let k = (#[trigger] blocks[a]).block_index as int;
        &&& i <= k < q.len()
        &&& blocks[a].decoded.f_pel == q[k].f_pel
    } by {
        if a > 0 {
            assert(blocks[a] == rest[a - 1]);
        }
    }
    assert forall|k: int| i <= k < q.len() && (#[trigger] q[k]).qf is Some implies exists|a: int|
        0 <= a < blocks.len() && (#[trigger] blocks[a]).block_index == k by {
        if k > i {
            let a = choose|a: int| 0 <= a < rest.len() && (#[trigger] rest[a]).block_index == k;
            assert(blocks[a + 1] == rest[a]);
        }
    }
}

/// A block that is not coded is not read.
proof fn lemma_block_passed(blocks: Seq<DecodedBlock>, i: int, q: Seq<InterBlock>)
    requires
        0 <= i < q.len(),
        q[i].qf is None,
        blocks_came_back(blocks, i + 1, q),
    ensures
        blocks_came_back(blocks, i, q),
{
    reveal(blocks_came_back);
}

/// No block comes back where none is left, or none is coded.
proof fn lemma_no_blocks(i: int, q: Seq<InterBlock>)
    requires
        i >= q.len() || !any_coded(q),
        0 <= i,
    ensures
        blocks_came_back(Seq::empty(), i, q),
{
    reveal(blocks_came_back);
}

/// The bits of a block, if it is coded.
pub open spec fn one_block_bits(b: InterBlock, alternate_scan: bool) -> Seq<bool> {
    match b.qf {
        Some(qf) => scan_bits(qf, alternate_scan, TableSelection::TableZero, true, 0, 0),
        None => Seq::empty(),
    }
}

/// Bits of all blocks hold those of the first `i`.
proof fn lemma_first_blocks_hold(
    s: Seq<bool>,
    at: int,
    q: Seq<InterBlock>,
    alternate_scan: bool,
    i: int,
    n: int,
)
    requires
        0 <= i <= n,
        holds_at(s, at, coded_blocks_bits(q, alternate_scan, n)),
    ensures
        holds_at(s, at, coded_blocks_bits(q, alternate_scan, i)),
    decreases n - i,
{
    if i < n {
        lemma_holds_at_split(
            s,
            at,
            coded_blocks_bits(q, alternate_scan, n - 1),
            one_block_bits(q[n - 1], alternate_scan),
        );
        lemma_first_blocks_hold(s, at, q, alternate_scan, i, n - 1);
    }
}

/// A coded block is read back.
proof fn lemma_coded_block_read<F: Fn([[i32; 8]; 8]) -> [[i16; 8]; 8]>(
    s: Seq<bool>,
    at: int,
    i: int,
    b: InterBlock,
    src: PSource,
    bctx: MacroblockBlockContext<'_>,
    dc: DcPredictors,
    mt: MacroblockType,
    cbp: CodedBlockPattern,
    idct: F,
)
    requires
        0 <= i < src.params.chroma_format.spec_blocks_per_mb(),
        reads_blocks(bctx, src),
        b.qf is Some,
        block_quantised(b, src.qscale, idct),
        dc.intra_dc_precision == bctx.intra_dc_precision,
        !mt.macroblock_intra,
        cbp.codes_block(false, mt.macroblock_pattern, i),
        holds_at(s, at, one_block_bits(b, src.params.alternate_scan)),
        blocks_from(
            s,
            at + one_block_bits(b, src.params.alternate_scan).len(),
            i + 1,
            bctx,
            dc,
            mt,
            cbp,
            idct,
        ).0 is Ok,
    ensures
        ({
            let all = blocks_from(s, at, i, bctx, dc, mt, cbp, idct);
            let rest = blocks_from(
                s,
                at + one_block_bits(b, src.params.alternate_scan).len(),
                i + 1,
                bctx,
                dc,
                mt,
                cbp,
                idct,
            );
            &&& all.0 is Ok
            &&& all.0->Ok_0.len() > 0
            &&& all.0->Ok_0[0].block_index == i
            &&& all.0->Ok_0[0].decoded.f_pel == b.f_pel
            &&& all.0->Ok_0 == seq![all.0->Ok_0[0]] + rest.0->Ok_0
            &&& all.1 == rest.1
            &&& all.2 == rest.2
        }),
{
    let component = component_of(i, bctx.chroma_format)->0;
    let qf = b.qf->0;
    reveal(block_quantised);
    lemma_weights(bctx, src, i, false);
    law_non_intra_block_round_trip(
        s,
        at,
        qf,
        bctx.inner(),
        dc,
        component,
        DEFAULT_NON_INTRA_WEIGHT,
        idct,
    );
    lemma_blocks_from_step(s, at, i, bctx, dc, mt, cbp, DEFAULT_NON_INTRA_WEIGHT, idct);
}

/// Whether a pattern codes the blocks that have levels.
#[verifier::opaque]
pub open spec fn pattern_follows(cbp: CodedBlockPattern, present: bool, q: Seq<InterBlock>) -> bool {
    forall|k: int|
        0 <= k < q.len() ==> cbp.codes_block(false, present, k) == (#[trigger] q[k]).qf is Some
}

/// The coded blocks from block `i` on are read back.
#[verifier::spinoff_prover]
proof fn lemma_coded_blocks_read<F: Fn([[i32; 8]; 8]) -> [[i16; 8]; 8]>(
    s: Seq<bool>,
    at: int,
    i: int,
    q: Seq<InterBlock>,
    src: PSource,
    bctx: MacroblockBlockContext<'_>,
    dc: DcPredictors,
    mt: MacroblockType,
    cbp: CodedBlockPattern,
    idct: F,
)
    requires
        q.len() == src.params.chroma_format.spec_blocks_per_mb(),
        0 <= i <= q.len(),
        reads_blocks(bctx, src),
        quantised_ok(q, src.qscale, idct),
        dc.intra_dc_precision == bctx.intra_dc_precision,
        !mt.macroblock_intra,
        pattern_follows(cbp, mt.macroblock_pattern, q),
        holds_at(s, at, coded_blocks_bits(q, src.params.alternate_scan, q.len() as int)),
    ensures
        ({
            let alt = src.params.alternate_scan;
            let (blocks, p, after) = blocks_from(
                s,
                at + coded_blocks_bits(q, alt, i).len(),
                i,
                bctx,
                dc,
                mt,
                cbp,
                idct,
            );
            &&& blocks is Ok
            &&& p == at + coded_blocks_bits(q, alt, q.len() as int).len()
            &&& after == dc
            &&& blocks_came_back(blocks->Ok_0, i, q)
        }),
    decreases q.len() - i,
{
    let alt = src.params.alternate_scan;
    if i < q.len() {
        lemma_coded_blocks_read(s, at, i + 1, q, src, bctx, dc, mt, cbp, idct);
        let here = at + coded_blocks_bits(q, alt, i).len();
        let there = at + coded_blocks_bits(q, alt, i + 1).len();
        assert(cbp.codes_block(false, mt.macroblock_pattern, i) == q[i].qf is Some) by {
            reveal(pattern_follows);
        }
        match q[i].qf {
            Some(_) => {
                lemma_first_blocks_hold(s, at, q, alt, i + 1, q.len() as int);
                lemma_holds_at_split(
                    s,
                    at,
                    coded_blocks_bits(q, alt, i),
                    one_block_bits(q[i], alt),
                );
                lemma_coded_block_read(s, here, i, q[i], src, bctx, dc, mt, cbp, idct);
                let b = blocks_from(s, here, i, bctx, dc, mt, cbp, idct).0->Ok_0[0];
                let rest = blocks_from(s, there, i + 1, bctx, dc, mt, cbp, idct).0->Ok_0;
                lemma_block_in_front(b, rest, i, q);
            },
            None => {
                lemma_block_passed(
                    blocks_from(s, there, i + 1, bctx, dc, mt, cbp, idct).0->Ok_0,
                    i,
                    q,
                );
                assert(coded_blocks_bits(q, alt, i + 1) =~= coded_blocks_bits(q, alt, i));
            },
        }
    } else {
        lemma_no_blocks(i, q);
    }
}

/// The flags at `p` read as a number.
proof fn lemma_flags_value(s: Seq<bool>, p: int, flags: Seq<bool>, i: int)
    requires
        0 <= i < 6,
        flags.len() == 6,
        holds_at(s, p, flags),
    ensures
        0 <= be_value(s, p, 6) < 64,
        bit_of(be_value(s, p, 6) as u8, 5 - i) == flags[i],
{
    reveal_with_fuel(be_value, 7);
    assert forall|k: int| 0 <= k < 6 implies s[p + k] == #[trigger] flags[k] by {
        assert(s.subrange(p, p + 6)[k] == flags[k]);
    }
    assert(flags[0] == s[p] && flags[1] == s[p + 1] && flags[2] == s[p + 2] && flags[3] == s[p
        + 3] && flags[4] == s[p + 4] && flags[5] == s[p + 5]);
}

proof fn lemma_two_flags_value(s: Seq<bool>, p: int, flags: Seq<bool>, i: int)
    requires
        0 <= i < 2,
        flags.len() == 2,
        holds_at(s, p, flags),
    ensures
        0 <= be_value(s, p, 2) < 4,
        bit_of(be_value(s, p, 2) as u8, 1 - i) == flags[i],
{
    reveal_with_fuel(be_value, 3);
    assert forall|k: int| 0 <= k < 2 implies s[p + k] == #[trigger] flags[k] by {
        assert(s.subrange(p, p + 2)[k] == flags[k]);
    }
    assert(flags[0] == s[p] && flags[1] == s[p + 1]);
}

proof fn lemma_flags_number(flags: Seq<bool>, i: int)
    requires
        0 <= i < 6,
        flags.len() >= 6,
    ensures
        0 <= flags_value(flags, 0) < 64,
        bit_of(flags_value(flags, 0) as u8, 5 - i) == flags[i],
{
}

/// A pattern that was written is read back.
pub proof fn lemma_pattern_read(s: Seq<bool>, at: int, flags: Seq<bool>, chroma: ChromaFormat)
    requires
        flags.len() == chroma.spec_blocks_per_mb(),
        holds_at(s, at, pattern_bits(flags)),
    ensures
        ({
            let (pattern, p) = pattern_at(s, at, chroma);
            &&& pattern is Ok
            &&& p == at + pattern_bits(flags).len()
            &&& forall|k: int|
                0 <= k < flags.len() ==> pattern->Ok_0.codes_block(false, true, k)
                    == #[trigger] flags[k]
        }),
{
    let n = flags.len() as int;
    let cbp = flags_value(flags, 0);
    let extra = flags.subrange(6, n);
    lemma_flags_number(flags, 0);
    lemma_holds_at_split(s, at, cbp_bits(cbp), extra);
    law_cbp_round_trip(s, at, cbp);
    let p = at + cbp_bits(cbp).len();
    let pattern = pattern_at(s, at, chroma).0->Ok_0;
    assert forall|k: int| 0 <= k < n implies pattern.codes_block(false, true, k)
        == #[trigger] flags[k] by {
        if k < 6 {
            lemma_flags_number(flags, k);
        } else if n == 8 {
            lemma_two_flags_value(s, p, extra, k - 6);
            assert(extra[k - 6] == flags[k]);
        } else {
            lemma_flags_value(s, p, extra, k - 6);
            assert(extra[k - 6] == flags[k]);
        }
    }
}

/// A macroblock without a pattern has no block.
proof fn lemma_empty_blocks<F: Fn([[i32; 8]; 8]) -> [[i16; 8]; 8]>(
    s: Seq<bool>,
    at: int,
    i: int,
    bctx: MacroblockBlockContext<'_>,
    dc: DcPredictors,
    mt: MacroblockType,
    cbp: CodedBlockPattern,
    idct: F,
)
    requires
        !mt.macroblock_intra,
        !mt.macroblock_pattern,
    ensures
        blocks_from(s, at, i, bctx, dc, mt, cbp, idct) == (
            Ok::<Seq<DecodedBlock>, Error>(Seq::empty()),
            at,
            dc,
        ),
    decreases bctx.chroma_format.spec_blocks_per_mb() - i,
{
    if i < bctx.chroma_format.spec_blocks_per_mb() {
        lemma_empty_blocks(s, at, i + 1, bctx, dc, mt, cbp, idct);
    }
}

/// The residuals of a macroblock are read back.
pub proof fn lemma_residual_bits_read<F: Fn([[i32; 8]; 8]) -> [[i16; 8]; 8]>(
    s: Seq<bool>,
    at: int,
    q: Seq<InterBlock>,
    src: PSource,
    bctx: MacroblockBlockContext<'_>,
    dc: DcPredictors,
    mt: MacroblockType,
    idct: F,
)
    requires
        q.len() == src.params.chroma_format.spec_blocks_per_mb(),
        reads_blocks(bctx, src),
        quantised_ok(q, src.qscale, idct),
        dc.intra_dc_precision == bctx.intra_dc_precision,
        !mt.macroblock_intra,
        mt.macroblock_pattern == any_coded(q),
        holds_at(s, at, residual_bits(q, src.params.alternate_scan)),
    ensures
        ({
            let (pattern, p) = optional_pattern_at(
                s,
                at,
                mt.macroblock_pattern,
                src.params.chroma_format,
            );
            let (blocks, next, after) = blocks_from(
                s,
                p,
                0,
                bctx,
                dc,
                mt,
                pattern->Ok_0,
                idct,
            );
            &&& pattern is Ok
            &&& blocks is Ok
            &&& next == at + residual_bits(q, src.params.alternate_scan).len()
            &&& after == dc
            &&& blocks_came_back(blocks->Ok_0, 0, q)
        }),
{
    reveal(optional_pattern_at);
    let alt = src.params.alternate_scan;
    let n = q.len() as int;
    if any_coded(q) {
        let flags = flags_of(q);
        lemma_holds_at_split(s, at, pattern_bits(flags), coded_blocks_bits(q, alt, n));
        lemma_pattern_read(s, at, flags, src.params.chroma_format);
        let (pattern, p) = pattern_at(s, at, src.params.chroma_format);
        assert(pattern_follows(pattern->Ok_0, true, q)) by {
            reveal(pattern_follows);
            assert forall|k: int| 0 <= k < n implies pattern->Ok_0.codes_block(false, true, k) == (
            #[trigger] q[k]).qf is Some by {
                assert(flags[k] == q[k].qf is Some);
            }
        }
        assert(coded_blocks_bits(q, alt, 0).len() == 0);
        lemma_coded_blocks_read(s, p, 0, q, src, bctx, dc, mt, pattern->Ok_0, idct);
    } else {
        lemma_empty_blocks(s, at, 0, bctx, dc, mt, no_pattern(at), idct);
        lemma_no_blocks(0, q);
    }
}

} // verus!
