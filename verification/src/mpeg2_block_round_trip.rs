//! What a decoder reads of MPEG-2 blocks.

use crate::bits::{holds_at, lemma_holds_at_split, lemma_value_bits_len};
use crate::block::{block_of, lemma_block_entries, lemma_block_of, value_of};
use crate::error::Error;
use crate::forward_quant::level_block_in_range;
use crate::mpeg2_block_dc::{
    dc_bits, dc_max_of, law_dc_round_trip, ColourComponent, DcPredictors,
};
use crate::mpeg2_block_decoder::{
    block_at, context_error, level_block, no_levels, placed_levels, walk_at, BlockContext,
};
use crate::mpeg2_dct_coeff::{
    coeff_bits, eob_bits, eob_code, eob_symbol_bits, law_coeff_round_trip,
    law_end_of_block_round_trip,
    CoefficientPosition, TableSelection,
};
use crate::mpeg2_dequantize::{
    dc_mult_of, dequantised, dequantised_block, intra_dc_entry, reconstructed_block, BlockCoding,
};
use crate::mpeg2_inverse_scan::{inverse_scan, law_inverse_then_scan, law_scan_then_inverse, scan};
use crate::p_picture_encoder::{any_level, scan_bits};
use vstd::prelude::*;

verus! {

/// The levels of a block in coded order.
pub open spec fn coded_order(qf: [[i32; 8]; 8], alternate_scan: bool) -> Seq<i32> {
    Seq::new(
        64,
        |j: int|
            {
                let (v, u) = inverse_scan(alternate_scan)[j];
                qf[v as int][u as int]
            },
    )
}

/// The levels with those from entry `j` on left out.
pub open spec fn order_before(qfs: Seq<i32>, j: int) -> Seq<i32> {
    Seq::new(64, |i: int| if i < j { qfs[i] } else { 0i32 })
}

/// The bits of levels in coded order from entry `j` on, with the end of block: `run`
/// zero entries precede it, and `first` says whether no level did.
pub open spec fn order_bits(
    qfs: Seq<i32>,
    table: TableSelection,
    first: bool,
    run: int,
    j: int,
) -> Seq<bool>
    decreases 64 - j,
{
    if j >= 64 {
        eob_symbol_bits(table)
    } else if qfs[j] == 0 {
        order_bits(qfs, table, first, run + 1, j + 1)
    } else {
        coeff_bits(table, position_of(first), run, qfs[j] as int) + order_bits(
            qfs,
            table,
            false,
            0,
            j + 1,
        )
    }
}

pub open spec fn position_of(first: bool) -> CoefficientPosition {
    if first {
        CoefficientPosition::First
    } else {
        CoefficientPosition::Next
    }
}

/// The bits of a block are those of its levels in coded order.
pub proof fn lemma_scan_is_order(
    qf: [[i32; 8]; 8],
    alternate_scan: bool,
    table: TableSelection,
    first: bool,
    run: int,
    j: int,
)
    requires
        level_block_in_range(qf),
        0 <= j <= 64,
    ensures
        scan_bits(qf, alternate_scan, table, first, run, j) == order_bits(
            coded_order(qf, alternate_scan),
            table,
            first,
            run,
            j,
        ),
    decreases 64 - j,
{
    if j < 64 {
        lemma_order_entry(qf, alternate_scan, j);
        if coded_order(qf, alternate_scan)[j] == 0 {
            lemma_scan_is_order(qf, alternate_scan, table, first, run + 1, j + 1);
        } else {
            lemma_scan_is_order(qf, alternate_scan, table, false, 0, j + 1);
        }
    }
}

/// An entry of the coded order.
proof fn lemma_order_entry(qf: [[i32; 8]; 8], alternate_scan: bool, j: int)
    requires
        level_block_in_range(qf),
        0 <= j < 64,
    ensures
        -2047 <= coded_order(qf, alternate_scan)[j] <= 2047,
        ({
            let (v, u) = inverse_scan(alternate_scan)[j];
            coded_order(qf, alternate_scan)[j] == qf[v as int][u as int]
        }),
{
    law_inverse_then_scan(alternate_scan, j);
    let (v, u) = inverse_scan(alternate_scan)[j];
    assert(-2047 <= qf[v as int][u as int] <= 2047);
}

/// Whether the levels are ones that a block can hold.
pub open spec fn order_fits(qfs: Seq<i32>) -> bool {
    qfs.len() == 64 && forall|i: int| 0 <= i < 64 ==> -2047 <= #[trigger] qfs[i] <= 2047
}

pub proof fn lemma_order_fits(qf: [[i32; 8]; 8], alternate_scan: bool)
    requires
        level_block_in_range(qf),
    ensures
        order_fits(coded_order(qf, alternate_scan)),
{
    assert forall|i: int| 0 <= i < 64 implies -2047 <= #[trigger] coded_order(
        qf,
        alternate_scan,
    )[i] <= 2047 by {
        lemma_order_entry(qf, alternate_scan, i);
    }
}

/// Levels that were written are read back.
#[verifier::rlimit(40)]
pub proof fn lemma_order_read(
    s: Seq<bool>,
    at: int,
    qfs: Seq<i32>,
    table: TableSelection,
    first: bool,
    run: int,
    j: int,
)
    requires
        order_fits(qfs),
        0 <= run <= j <= 64,
        first ==> exists|i: int| j <= i < 64 && #[trigger] qfs[i] != 0,
        holds_at(s, at, order_bits(qfs, table, first, run, j)),
    ensures
        walk_at(s, at, table, position_of(first), j - run, order_before(qfs, j)) == (
            Ok::<Seq<i32>, Error>(qfs),
            at + order_bits(qfs, table, first, run, j).len(),
        ),
    decreases 64 - j,
{
    if j >= 64 {
        lemma_value_bits_len(eob_code(table), eob_bits(table));
        law_end_of_block_round_trip(s, at, table);
        assert(order_before(qfs, j) =~= qfs);
    } else if qfs[j] == 0 {
        assert(order_before(qfs, j) =~= order_before(qfs, j + 1));
        lemma_order_read(s, at, qfs, table, first, run + 1, j + 1);
    } else {
        let head = coeff_bits(table, position_of(first), run, qfs[j] as int);
        let tail = order_bits(qfs, table, false, 0, j + 1);
        lemma_holds_at_split(s, at, head, tail);
        law_coeff_round_trip(s, at, table, position_of(first), run, qfs[j] as int);
        assert(order_before(qfs, j).update(j, qfs[j]) =~= order_before(qfs, j + 1));
        lemma_order_read(s, at + head.len(), qfs, table, false, 0, j + 1);
    }
}

/// Levels in coded order, put back into their places.
pub proof fn lemma_order_undone(qf: [[i32; 8]; 8], alternate_scan: bool)
    ensures
        level_block(coded_order(qf, alternate_scan), alternate_scan) == qf,
{
    let f = placed_levels(coded_order(qf, alternate_scan), alternate_scan);
    assert forall|v: int, u: int| 0 <= v < 8 && 0 <= u < 8 implies #[trigger] qf[v][u] == f(
        v,
        u,
    ) by {
        law_scan_then_inverse(alternate_scan, v, u);
    }
    lemma_block_of(qf, f);
}

/// A level somewhere in a block is one somewhere in the coded order.
pub proof fn lemma_any_level_coded(qf: [[i32; 8]; 8], alternate_scan: bool)
    requires
        any_level(qf),
    ensures
        exists|i: int| 0 <= i < 64 && #[trigger] coded_order(qf, alternate_scan)[i] != 0,
{
    let (v, u) = choose|v: int, u: int| 0 <= v < 8 && 0 <= u < 8 && #[trigger] qf[v][u] != 0;
    law_scan_then_inverse(alternate_scan, v, u);
    let i = scan(alternate_scan)[v][u] as int;
    assert(coded_order(qf, alternate_scan)[i] == qf[v][u]);
}

/// The factor of the DC coefficient does not matter to a non-intra block.
proof fn lemma_factor_unused(
    qf: [[i32; 8]; 8],
    weight: [[u8; 8]; 8],
    scale: u8,
    a: i32,
    b: i32,
)
    ensures
        reconstructed_block(qf, BlockCoding::NonIntra, weight, scale, a) == reconstructed_block(
            qf,
            BlockCoding::NonIntra,
            weight,
            scale,
            b,
        ),
{
    let coding = BlockCoding::NonIntra;
    let f = |v: int, u: int|
        dequantised(
            qf[v][u] as int,
            intra_dc_entry(v, u, coding),
            coding,
            weight[v][u] as int,
            scale as int,
            a as int,
        ) as i32;
    let g = |v: int, u: int|
        dequantised(
            qf[v][u] as int,
            intra_dc_entry(v, u, coding),
            coding,
            weight[v][u] as int,
            scale as int,
            b as int,
        ) as i32;
    lemma_block_entries(f);
    lemma_block_of(block_of(f), g);
    assert(dequantised_block(qf, coding, weight, scale, a) == block_of(f));
    assert(dequantised_block(qf, coding, weight, scale, b) == block_of(g));
}

/// A non-intra block that was written is decoded to what its encoder reconstructed.
pub proof fn law_non_intra_block_round_trip<F: Fn([[i32; 8]; 8]) -> [[i16; 8]; 8]>(
    s: Seq<bool>,
    at: int,
    qf: [[i32; 8]; 8],
    ctx: BlockContext,
    predictors: DcPredictors,
    component: ColourComponent,
    weight: [[u8; 8]; 8],
    idct: F,
)
    requires
        level_block_in_range(qf),
        any_level(qf),
        context_error(ctx, predictors) is None,
        holds_at(
            s,
            at,
            scan_bits(qf, ctx.alternate_scan, TableSelection::TableZero, true, 0, 0),
        ),
    ensures
        ({
            let (block, p, after) = block_at(
                s,
                at,
                ctx,
                predictors,
                component,
                false,
                weight,
                idct,
            );
            &&& block is Ok
            &&& p == at + scan_bits(
                qf,
                ctx.alternate_scan,
                TableSelection::TableZero,
                true,
                0,
                0,
            ).len()
            &&& after == predictors
            &&& block->Ok_0.f_pel == value_of(
                idct,
                reconstructed_block(
                    qf,
                    BlockCoding::NonIntra,
                    weight,
                    ctx.quantiser_scale_value,
                    1,
                ),
            )
        }),
{
    reveal(block_at);
    let alt = ctx.alternate_scan;
    lemma_any_level_coded(qf, alt);
    lemma_order_fits(qf, alt);
    lemma_scan_is_order(qf, alt, TableSelection::TableZero, true, 0, 0);
    lemma_order_read(s, at, coded_order(qf, alt), TableSelection::TableZero, true, 0, 0);
    assert(order_before(coded_order(qf, alt), 0) =~= no_levels());
    lemma_order_undone(qf, alt);
    lemma_factor_unused(
        qf,
        weight,
        ctx.quantiser_scale_value,
        1,
        dc_mult_of(ctx.intra_dc_precision)->0 as i32,
    );
}

/// An intra block that was written is decoded to what its encoder reconstructed.
pub proof fn law_intra_block_round_trip<F: Fn([[i32; 8]; 8]) -> [[i16; 8]; 8]>(
    s: Seq<bool>,
    at: int,
    qf: [[i32; 8]; 8],
    ctx: BlockContext,
    predictors: DcPredictors,
    component: ColourComponent,
    weight: [[u8; 8]; 8],
    idct: F,
)
    requires
        level_block_in_range(qf),
        context_error(ctx, predictors) is None,
        0 <= qf[0][0] <= dc_max_of(ctx.intra_dc_precision)->0,
        0 <= predictors.spec_get(component) <= dc_max_of(ctx.intra_dc_precision)->0,
        holds_at(
            s,
            at,
            dc_bits(
                component.spec_dc_component(),
                qf[0][0] - predictors.spec_get(component),
            ) + scan_bits(
                qf,
                ctx.alternate_scan,
                TableSelection::spec_from_context(ctx.intra_vlc_format, true),
                false,
                0,
                1,
            ),
        ),
    ensures
        ({
            let table = TableSelection::spec_from_context(ctx.intra_vlc_format, true);
            let (block, p, after) = block_at(
                s,
                at,
                ctx,
                predictors,
                component,
                true,
                weight,
                idct,
            );
            &&& block is Ok
            &&& p == at + dc_bits(
                component.spec_dc_component(),
                qf[0][0] - predictors.spec_get(component),
            ).len() + scan_bits(qf, ctx.alternate_scan, table, false, 0, 1).len()
            &&& after == predictors.spec_set(component, qf[0][0])
            &&& block->Ok_0.f_pel == value_of(
                idct,
                reconstructed_block(
                    qf,
                    BlockCoding::Intra,
                    weight,
                    ctx.quantiser_scale_value,
                    dc_mult_of(ctx.intra_dc_precision)->0 as i32,
                ),
            )
        }),
{
    reveal(block_at);
    let alt = ctx.alternate_scan;
    let table = TableSelection::spec_from_context(ctx.intra_vlc_format, true);
    let diff = qf[0][0] - predictors.spec_get(component);
    let head = dc_bits(component.spec_dc_component(), diff);
    lemma_holds_at_split(s, at, head, scan_bits(qf, alt, table, false, 0, 1));
    law_dc_round_trip(s, at, predictors, component, qf[0][0] as int);
    let qfs = coded_order(qf, alt);
    lemma_order_fits(qf, alt);
    lemma_order_entry(qf, alt, 0);
    lemma_scan_is_order(qf, alt, table, false, 0, 1);
    lemma_order_read(s, at + head.len(), qfs, table, false, 0, 1);
    assert(order_before(qfs, 1) =~= no_levels().update(0, qf[0][0]));
    lemma_order_undone(qf, alt);
}

} // verus!
