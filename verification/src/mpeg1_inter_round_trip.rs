//! What a decoder reads of the vectors and the residuals of MPEG-1 macroblocks.

use crate::bits::{
    holds_at, lemma_holds_at_split, lemma_holds_flag, lemma_value_bits_len, value_bits,
};
use crate::block_writes::residuals_are;
use crate::block_zero_runs::{lemma_component_broken_up, lemma_residual_bits_broken_up};
use crate::coded_block_pattern::{
    bit_of, cbp_bits, law_cbp_round_trip, pattern_at, CodedBlockPattern,
};
use crate::dequantize::{scale_valid, IntraDcPredictors};
use crate::error::Error;
use crate::inter_reconstruction::{zero_residual, MotionVectorPel};
use crate::macroblock_modes::frame_based;
use crate::macroblock_type::{
    law_type_round_trip, macroblock_type_at, type_rows, MacroblockType,
};
use crate::mb_address_increment::law_increment_round_trip;
use crate::motion_vector::{
    code_step, component_bits, law_component_round_trip, motion_vectors_at, MotionVectorEntry,
    MotionVectorsKind,
};
use crate::mpeg1_block_decoder::{
    law_non_intra_levels_round_trip, lemma_first_level, mpeg1_levels, mpeg1_non_intra_at,
    non_intra_bits,
};
use crate::mpeg1_encoder::{
    coded_blocks_bits, decoded_residual, decoded_residuals, has_level, pattern_of, residual_bits,
    vector_bits, vector_ok,
};
use crate::mpeg1_intra_round_trip::reads_mpeg1;
use crate::mpeg1_motion_vector::Mpeg1MotionDirection;
use crate::mpeg1_picture::{
    carried_vector, residuals_of, Mpeg1PictureParams, ERR_NO_BACKWARD_VECTOR,
    ERR_NO_FORWARD_VECTOR,
};
use crate::mpeg1_reconstruct::{
    law_wrapped_difference_reconstructs, split_vector, Mpeg1FrameMvContext, Mpeg1Predictor,
    Mpeg1ReconstructedMv,
};
use crate::mpeg2_block_dc::bit_length;
use crate::mpeg2_macroblock_blocks::DecodedBlock;
use crate::picture::ChromaFormat;
use crate::picture_header::PictureCodingType;
use crate::slice_macroblock_walk::{
    blocks_of, macroblock_at, modes_at, mpeg1_blocks_from, no_pattern, optional_pattern_at,
    optional_vectors_at, prediction_at, MacroblockFields, QuantiserMatrixState, SliceWalkContext,
    WalkState, MAX_ADDRESS,
};
use crate::slice_motion::wrapped;
use crate::zero_runs::{
    broken_up, lemma_field_broken_up, lemma_flag_broken_up, lemma_joined, lemma_loosened,
};
use vstd::arithmetic::power2::{lemma2_to64, pow2};
use vstd::prelude::*;

verus! {

/// Whether a decoder accepts the differences of a vector: neither component's lies
/// on the seam of its range.
pub open spec fn off_seam(v: MotionVectorPel, last: (i32, i32), f_code: u8) -> bool {
    &&& wrapped(v.horizontal - last.0, f_code) != -16 * code_step(f_code)
    &&& wrapped(v.vertical - last.1, f_code) != -16 * code_step(f_code)
}

/// The last vector, as a decoder holds it.
pub open spec fn predictor_of(last: (i32, i32)) -> Mpeg1Predictor {
    Mpeg1Predictor { recon_right_prev: last.0, recon_down_prev: last.1 }
}

/// A vector that was written is read back, and becomes the last.
pub proof fn lemma_vector_read(
    s: Seq<bool>,
    at: int,
    v: MotionVectorPel,
    last: (i32, i32),
    f_code: u8,
    direction: Mpeg1MotionDirection,
    err: &'static str,
)
    requires
        1 <= f_code <= 7,
        vector_ok(last, f_code),
        vector_ok((v.horizontal, v.vertical), f_code),
        off_seam(v, last, f_code),
        holds_at(s, at, vector_bits(v, last, f_code)),
    ensures
        ({
            let (entries, next) = motion_vectors_at(s, at, frame_based(), (f_code, f_code));
            &&& entries is Ok
            &&& next == at + vector_bits(v, last, f_code).len()
            &&& carried_vector(
                Some(entries->Ok_0),
                direction,
                err,
                (Mpeg1FrameMvContext { f_code, full_pel: false }),
                predictor_of(last),
            ) == (
                Ok::<Mpeg1ReconstructedMv, Error>(
                    split_vector(v.horizontal as int, v.vertical as int),
                ),
                predictor_of((v.horizontal, v.vertical)),
            )
        }),
{
    lemma2_to64();
    let f = code_step(f_code);
    let dx = wrapped(v.horizontal - last.0, f_code);
    let dy = wrapped(v.vertical - last.1, f_code);
    let a = component_bits(dx, f_code);
    let b = component_bits(dy, f_code);
    lemma_holds_at_split(s, at, a, b);
    law_component_round_trip(s, at, dx, f_code);
    law_component_round_trip(s, at + a.len(), dy, f_code);
    law_wrapped_difference_reconstructs(v.horizontal as int, last.0 as int, dx, f_code);
    law_wrapped_difference_reconstructs(v.vertical as int, last.1 as int, dy, f_code);
    crate::motion_vector::lemma_delta_code(dx, f_code);
    crate::motion_vector::lemma_delta_code(dy, f_code);
    let entries = motion_vectors_at(s, at, frame_based(), (f_code, f_code)).0->Ok_0;
    assert(entries[0].motion_vector.motion_code_horiz
        == crate::motion_vector::delta_code(dx, f_code) as i8);
}

/// A block is coded where the pattern has its bit.
pub proof fn lemma_pattern_bits(levels: Seq<Seq<i32>>, i: int)
    requires
        0 <= i < 6,
    ensures
        0 <= pattern_of(levels, 6) < 64,
        bit_of(pattern_of(levels, 6) as u8, 5 - i) == has_level(levels[i]),
{
    reveal_with_fuel(pattern_of, 7);
}

/// A pattern without a bit has no block.
pub proof fn lemma_no_pattern(levels: Seq<Seq<i32>>)
    requires
        pattern_of(levels, 6) == 0,
    ensures
        forall|i: int| 0 <= i < 6 ==> !has_level(#[trigger] levels[i]),
{
    reveal_with_fuel(pattern_of, 7);
}

/// The blocks are ones that were written with levels of a macroblock, from block
/// `i` on.
pub open spec fn blocks_from_levels<F: Fn([[i32; 8]; 8]) -> [[i16; 8]; 8]>(
    blocks: Seq<DecodedBlock>,
    i: int,
    levels: Seq<Seq<i32>>,
    scale: u8,
    quant: [[u8; 8]; 8],
    idct: F,
) -> bool {
    &&& forall|a: int, b: int|
        0 <= a < b < blocks.len() ==> (#[trigger] blocks[a]).block_index < (
        #[trigger] blocks[b]).block_index
    &&& forall|a: int|
        0 <= a < blocks.len() ==> {
            let k = (#[trigger] blocks[a]).block_index as int;
            &&& i <= k < 6
            &&& blocks[a].decoded.f_pel == decoded_residual(levels[k], scale, quant, idct)
        }
    &&& forall|k: int|
        i <= k < 6 && has_level(#[trigger] levels[k]) ==> exists|a: int|
            0 <= a < blocks.len() && (#[trigger] blocks[a]).block_index == k
}

/// The coded blocks from block `i` on that were written are read back.
pub proof fn lemma_coded_blocks_read<F: Fn([[i32; 8]; 8]) -> [[i16; 8]; 8]>(
    s: Seq<bool>,
    at: int,
    i: int,
    levels: Seq<Seq<i32>>,
    matrices: QuantiserMatrixState,
    scale: u8,
    dc: IntraDcPredictors,
    address: i32,
    mt: MacroblockType,
    pattern: CodedBlockPattern,
    idct: F,
)
    requires
        0 <= i <= 6,
        scale_valid(scale),
        levels.len() == 6,
        forall|k: int| 0 <= k < 6 ==> mpeg1_levels(#[trigger] levels[k]),
        !mt.macroblock_intra,
        forall|k: int|
            0 <= k < 6 ==> pattern.codes_block(false, mt.macroblock_pattern, k) == has_level(
                #[trigger] levels[k],
            ),
        holds_at(s, at, coded_blocks_bits(levels, 6)),
    ensures
        ({
            let (blocks, p, after) = mpeg1_blocks_from(
                s,
                at + coded_blocks_bits(levels, i).len(),
                i,
                matrices,
                scale,
                dc,
                address,
                mt,
                pattern,
                idct,
            );
            &&& blocks is Ok
            &&& p == at + coded_blocks_bits(levels, 6).len()
            &&& after == dc
            &&& blocks_from_levels(
                blocks->Ok_0,
                i,
                levels,
                scale,
                matrices.non_intra_luma,
                idct,
            )
        }),
    decreases 6 - i,
{
    if i < 6 {
        lemma_coded_blocks_read(
            s,
            at,
            i + 1,
            levels,
            matrices,
            scale,
            dc,
            address,
            mt,
            pattern,
            idct,
        );
        let here = at + coded_blocks_bits(levels, i).len();
        let quant = matrices.non_intra_luma;
        let there = at + coded_blocks_bits(levels, i + 1).len();
        let rest = mpeg1_blocks_from(
            s,
            there,
            i + 1,
            matrices,
            scale,
            dc,
            address,
            mt,
            pattern,
            idct,
        ).0->Ok_0;
        assert(mpeg1_levels(levels[i]));
        if has_level(levels[i]) {
            lemma_coded_block_holds(s, at, levels, i);
            reveal(mpeg1_non_intra_at);
            lemma_first_level(levels[i], 0);
            law_non_intra_levels_round_trip(s, here, levels[i]);
            let (all, _, _) = mpeg1_blocks_from(
                s,
                here,
                i,
                matrices,
                scale,
                dc,
                address,
                mt,
                pattern,
                idct,
            );
            let blocks = all->Ok_0;
            let b = blocks[0];
            assert(blocks =~= seq![b] + rest);
            assert forall|a: int, c: int| 0 <= a < c < blocks.len() implies (
            #[trigger] blocks[a]).block_index < (#[trigger] blocks[c]).block_index by {
                assert(blocks[c] == rest[c - 1]);
                if a > 0 {
                    assert(blocks[a] == rest[a - 1]);
                }
            }
            assert forall|a: int| 0 <= a < blocks.len() implies {
                let k = (#[trigger] blocks[a]).block_index as int;
                &&& i <= k < 6
                &&& blocks[a].decoded.f_pel == decoded_residual(levels[k], scale, quant, idct)
            } by {
                if a > 0 {
                    assert(blocks[a] == rest[a - 1]);
                }
            }
            assert forall|k: int|
                i <= k < 6 && has_level(#[trigger] levels[k]) implies exists|a: int|
                0 <= a < blocks.len() && (#[trigger] blocks[a]).block_index == k by {
                if k == i {
                    assert(blocks[0].block_index == k);
                } else {
                    let a = choose|a: int|
                        0 <= a < rest.len() && (#[trigger] rest[a]).block_index == k;
                    assert(blocks[a + 1] == rest[a]);
                }
            }
        } else {
            assert(coded_blocks_bits(levels, i + 1) =~= coded_blocks_bits(levels, i));
        }
    }
}

/// A coded block stands after those before it.
proof fn lemma_coded_block_holds(s: Seq<bool>, at: int, levels: Seq<Seq<i32>>, i: int)
    requires
        0 <= i < 6,
        has_level(levels[i]),
        holds_at(s, at, coded_blocks_bits(levels, 6)),
    ensures
        holds_at(s, at + coded_blocks_bits(levels, i).len(), non_intra_bits(levels[i])),
{
    lemma_coded_prefix_holds(s, at, levels, i + 1, 6);
    lemma_holds_at_split(s, at, coded_blocks_bits(levels, i), non_intra_bits(levels[i]));
}

proof fn lemma_coded_prefix_holds(s: Seq<bool>, at: int, levels: Seq<Seq<i32>>, i: int, n: int)
    requires
        0 <= i <= n,
        holds_at(s, at, coded_blocks_bits(levels, n)),
    ensures
        holds_at(s, at, coded_blocks_bits(levels, i)),
    decreases n - i,
{
    if i < n {
        let last = if has_level(levels[n - 1]) {
            non_intra_bits(levels[n - 1])
        } else {
            Seq::empty()
        };
        lemma_holds_at_split(s, at, coded_blocks_bits(levels, n - 1), last);
        lemma_coded_prefix_holds(s, at, levels, i, n - 1);
    }
}

/// The residuals of the blocks that were read are those of the levels.
pub proof fn lemma_residuals_read<F: Fn([[i32; 8]; 8]) -> [[i16; 8]; 8]>(
    blocks: Seq<DecodedBlock>,
    levels: Seq<Seq<i32>>,
    scale: u8,
    quant: [[u8; 8]; 8],
    idct: F,
)
    requires
        levels.len() == 6,
        blocks_from_levels(blocks, 0, levels, scale, quant, idct),
    ensures
        residuals_are(
            residuals_of(blocks),
            decoded_residuals(levels, scale, quant, idct),
            6,
        ),
{
    let residuals = residuals_of(blocks);
    let f_pels = decoded_residuals(levels, scale, quant, idct);
    assert forall|a: int, b: int| 0 <= a < b < residuals.len() implies (
    #[trigger] residuals[a]).block_index < (#[trigger] residuals[b]).block_index by {
        assert(blocks[a].block_index < blocks[b].block_index);
    }
    assert forall|a: int| 0 <= a < residuals.len() implies (
    #[trigger] residuals[a]).block_index < 6 && f_pels[residuals[a].block_index as int]
        == residuals[a].f_pel by {
        assert(blocks[a].block_index < 6);
    }
    assert forall|i: int|
        0 <= i < 6 && (forall|a: int|
            0 <= a < residuals.len() ==> (#[trigger] residuals[a]).block_index
                != i) implies #[trigger] f_pels[i] == zero_residual() by {
        if has_level(levels[i]) {
            let a = choose|a: int| 0 <= a < blocks.len() && (#[trigger] blocks[a]).block_index == i;
            assert(residuals[a].block_index == i);
        }
    }
}

/// A vector and the last vector of its direction.
pub struct CodedVector {
    pub v: MotionVectorPel,
    pub last: (i32, i32),
    pub f_code: u8,
}

impl CodedVector {
    /// Whether a decoder reads the vector back.
    pub open spec fn readable(self) -> bool {
        &&& 1 <= self.f_code <= 7
        &&& vector_ok(self.last, self.f_code)
        &&& vector_ok((self.v.horizontal, self.v.vertical), self.f_code)
        &&& off_seam(self.v, self.last, self.f_code)
    }

    pub open spec fn bits(self) -> Seq<bool> {
        vector_bits(self.v, self.last, self.f_code)
    }

    /// The `f_code` and the unit of the vector.
    pub open spec fn context(self) -> Mpeg1FrameMvContext {
        Mpeg1FrameMvContext { f_code: self.f_code, full_pel: false }
    }
}

/// The bits of a vector, if there is one.
pub open spec fn optional_bits(c: Option<CodedVector>) -> Seq<bool> {
    match c {
        Some(c) => c.bits(),
        None => Seq::empty(),
    }
}

/// A macroblock that is predicted: its type, its vectors and its levels.
pub struct CodedInter {
    pub coding: PictureCodingType,
    pub row: int,
    pub forward: Option<CodedVector>,
    pub backward: Option<CodedVector>,
    pub levels: Seq<Seq<i32>>,
}

impl CodedInter {
    /// Its bits.
    pub open spec fn bits(self) -> Seq<bool> {
        let entry = type_rows(self.coding)[self.row];
        seq![true] + (value_bits(entry.0 as int, entry.1 as int) + (optional_bits(self.forward) + (
        optional_bits(self.backward) + residual_bits(self.levels))))
    }

    /// Whether its type says what follows, and a decoder reads its vectors back.
    pub open spec fn readable(self) -> bool {
        let entry = type_rows(self.coding)[self.row];
        &&& 0 <= self.row < type_rows(self.coding).len()
        &&& !entry.2
        &&& entry.3 == self.forward is Some
        &&& entry.4 == self.backward is Some
        &&& entry.5 == (pattern_of(self.levels, 6) != 0)
        &&& !entry.6
        &&& self.forward matches Some(c) ==> c.readable()
        &&& self.backward matches Some(c) ==> c.readable()
        &&& self.levels.len() == 6
        &&& forall|k: int| 0 <= k < 6 ==> mpeg1_levels(#[trigger] self.levels[k])
    }
}

/// Whether the vectors that were read are those that were written.
pub open spec fn vector_came_back(
    entries: Option<Seq<MotionVectorEntry>>,
    c: Option<CodedVector>,
    direction: Mpeg1MotionDirection,
    err: &'static str,
) -> bool {
    match c {
        None => entries is None,
        Some(c) => entries is Some && carried_vector(
            entries,
            direction,
            err,
            c.context(),
            predictor_of(c.last),
        ) == (
            Ok::<Mpeg1ReconstructedMv, Error>(
                split_vector(c.v.horizontal as int, c.v.vertical as int),
            ),
            predictor_of((c.v.horizontal, c.v.vertical)),
        ),
    }
}

/// What a decoder makes of a predicted macroblock, and the state that it goes on
/// with.
pub open spec fn inter_read<F: Fn([[i32; 8]; 8]) -> [[i16; 8]; 8]>(
    m: MacroblockFields,
    wst: WalkState,
    next: WalkState,
    c: CodedInter,
    quant: [[u8; 8]; 8],
    idct: F,
) -> bool {
    &&& m.address == wst.address + 1
    &&& m.skipped == 0
    &&& !m.macroblock_type.macroblock_intra
    &&& m.macroblock_type.macroblock_motion_forward == c.forward is Some
    &&& m.macroblock_type.macroblock_motion_backward == c.backward is Some
    &&& m.dct_type is None
    &&& vector_came_back(
        m.forward,
        c.forward,
        Mpeg1MotionDirection::Forward,
        ERR_NO_FORWARD_VECTOR,
    )
    &&& vector_came_back(
        m.backward,
        c.backward,
        Mpeg1MotionDirection::Backward,
        ERR_NO_BACKWARD_VECTOR,
    )
    &&& blocks_from_levels(m.blocks, 0, c.levels, wst.scale, quant, idct)
    &&& next == (WalkState { address: wst.address + 1, first: false, ..wst })
}

/// Vectors that may be there are read back.
proof fn lemma_optional_vector_read(
    s: Seq<bool>,
    at: int,
    c: Option<CodedVector>,
    f_code: u8,
    direction: Mpeg1MotionDirection,
    err: &'static str,
)
    requires
        c matches Some(c) ==> c.readable() && c.f_code == f_code,
        holds_at(s, at, optional_bits(c)),
    ensures
        ({
            let (entries, next) = optional_vectors_at(
                s,
                at,
                c is Some,
                frame_based(),
                (f_code, f_code),
            );
            &&& entries is Ok
            &&& next == at + optional_bits(c).len()
            &&& vector_came_back(entries->Ok_0, c, direction, err)
        }),
{
    reveal(optional_vectors_at);
    if let Some(c) = c {
        lemma_vector_read(s, at, c.v, c.last, f_code, direction, err);
    }
}

/// The residuals of a macroblock are read back.
proof fn lemma_residual_bits_read<F: Fn([[i32; 8]; 8]) -> [[i16; 8]; 8]>(
    s: Seq<bool>,
    at: int,
    levels: Seq<Seq<i32>>,
    matrices: QuantiserMatrixState,
    scale: u8,
    dc: IntraDcPredictors,
    address: i32,
    mt: MacroblockType,
    idct: F,
)
    requires
        scale_valid(scale),
        levels.len() == 6,
        forall|k: int| 0 <= k < 6 ==> mpeg1_levels(#[trigger] levels[k]),
        !mt.macroblock_intra,
        mt.macroblock_pattern == (pattern_of(levels, 6) != 0),
        holds_at(s, at, residual_bits(levels)),
    ensures
        ({
            let (pattern, p) = optional_pattern_at(
                s,
                at,
                mt.macroblock_pattern,
                ChromaFormat::Yuv420,
            );
            let (blocks, next, after) = mpeg1_blocks_from(
                s,
                p,
                0,
                matrices,
                scale,
                dc,
                address,
                mt,
                pattern->Ok_0,
                idct,
            );
            &&& pattern is Ok
            &&& blocks is Ok
            &&& next == at + residual_bits(levels).len()
            &&& after == dc
            &&& blocks_from_levels(
                blocks->Ok_0,
                0,
                levels,
                scale,
                matrices.non_intra_luma,
                idct,
            )
        }),
{
    reveal(optional_pattern_at);
    let cbp = pattern_of(levels, 6);
    lemma_pattern_bits(levels, 0);
    if cbp == 0 {
        lemma_no_pattern(levels);
        lemma_empty_blocks(s, at, 0, matrices, scale, dc, address, mt, no_pattern(at), idct);
        let (blocks, _, _) = mpeg1_blocks_from(
            s,
            at,
            0,
            matrices,
            scale,
            dc,
            address,
            mt,
            no_pattern(at),
            idct,
        );
        assert(blocks->Ok_0.len() == 0);
    } else {
        lemma_holds_at_split(s, at, cbp_bits(cbp), coded_blocks_bits(levels, 6));
        law_cbp_round_trip(s, at, cbp);
        let (pattern, p) = pattern_at(s, at, ChromaFormat::Yuv420);
        assert forall|k: int| 0 <= k < 6 implies pattern->Ok_0.codes_block(
            false,
            mt.macroblock_pattern,
            k,
        ) == has_level(#[trigger] levels[k]) by {
            lemma_pattern_bits(levels, k);
        }
        lemma_coded_blocks_read(
            s,
            p,
            0,
            levels,
            matrices,
            scale,
            dc,
            address,
            mt,
            pattern->Ok_0,
            idct,
        );
    }
}

/// A macroblock without a pattern has no block.
proof fn lemma_empty_blocks<F: Fn([[i32; 8]; 8]) -> [[i16; 8]; 8]>(
    s: Seq<bool>,
    at: int,
    i: int,
    matrices: QuantiserMatrixState,
    scale: u8,
    dc: IntraDcPredictors,
    address: i32,
    mt: MacroblockType,
    pattern: CodedBlockPattern,
    idct: F,
)
    requires
        !mt.macroblock_intra,
        !mt.macroblock_pattern,
    ensures
        mpeg1_blocks_from(s, at, i, matrices, scale, dc, address, mt, pattern, idct) == (
            Ok::<Seq<DecodedBlock>, Error>(Seq::empty()),
            at,
            dc,
        ),
    decreases 6 - i,
{
    if i < 6 {
        lemma_empty_blocks(s, at, i + 1, matrices, scale, dc, address, mt, pattern, idct);
    }
}

/// A predicted macroblock that was written is read back.
pub proof fn lemma_inter_macroblock_read<F: Fn([[i32; 8]; 8]) -> [[i16; 8]; 8]>(
    s: Seq<bool>,
    at: int,
    c: CodedInter,
    params: Mpeg1PictureParams,
    ctx: SliceWalkContext,
    wst: WalkState,
    idct: F,
)
    requires
        c.readable(),
        scale_valid(wst.scale),
        reads_mpeg1(ctx, params, c.coding),
        c.forward matches Some(v) ==> ctx.f_codes.spec_for_kind(MotionVectorsKind::Forward) == (
            v.f_code,
            v.f_code,
        ),
        c.backward matches Some(v) ==> ctx.f_codes.spec_for_kind(MotionVectorsKind::Backward) == (
            v.f_code,
            v.f_code,
        ),
        -1 <= wst.address < MAX_ADDRESS,
        holds_at(s, at, c.bits()),
    ensures
        ({
            let (read, p) = macroblock_at(s, at, ctx, wst, idct);
            &&& read is Ok
            &&& p == at + c.bits().len()
            &&& inter_read(
                read->Ok_0.0,
                wst,
                read->Ok_0.1,
                c,
                params.non_intra_quant,
                idct,
            )
            &&& at < s.len()
            &&& s[at]
        }),
{
    reveal(macroblock_at);
    reveal(blocks_of);
    let entry = type_rows(c.coding)[c.row];
    let code = value_bits(entry.0 as int, entry.1 as int);
    let fwd = optional_bits(c.forward);
    let bwd = optional_bits(c.backward);
    let rest = residual_bits(c.levels);
    lemma_holds_flag(s, at, true, code + (fwd + (bwd + rest)));
    lemma_holds_at_split(s, at, seq![true], code + (fwd + (bwd + rest)));
    assert(value_bits(1, 1) =~= seq![true]) by {
        reveal_with_fuel(value_bits, 2);
    }
    law_increment_round_trip(s, at, true, 1);
    lemma_value_bits_len(entry.0 as int, entry.1 as int);
    lemma_holds_at_split(s, at + 1, code, fwd + (bwd + rest));
    law_type_round_trip(s, at + 1, c.coding, c.row);
    let mt = macroblock_type_at(s, at + 1, c.coding).0->Ok_0;
    let p2 = at + 1 + entry.1;
    lemma_holds_at_split(s, p2, fwd, bwd + rest);
    let p3 = p2 + fwd.len();
    lemma_holds_at_split(s, p3, bwd, rest);
    let p4 = p3 + bwd.len();
    let f = ctx.f_codes.spec_for_kind(MotionVectorsKind::Forward);
    let g = ctx.f_codes.spec_for_kind(MotionVectorsKind::Backward);
    lemma_optional_vector_read(
        s,
        p2,
        c.forward,
        f.0,
        Mpeg1MotionDirection::Forward,
        ERR_NO_FORWARD_VECTOR,
    );
    lemma_optional_vector_read(
        s,
        p3,
        c.backward,
        g.0,
        Mpeg1MotionDirection::Backward,
        ERR_NO_BACKWARD_VECTOR,
    );
    if c.forward is None {
        reveal(optional_vectors_at);
    }
    if c.backward is None {
        reveal(optional_vectors_at);
    }
    lemma_residual_bits_read(
        s,
        p4,
        c.levels,
        ctx.quantiser_matrices,
        wst.scale,
        wst.dc1,
        (wst.address + 1) as i32,
        mt,
        idct,
    );
    let modes = modes_at(s, at + 1, ctx, wst.scale);
    assert(modes.0 is Ok && modes.1 == p2);
    let prediction = prediction_at(s, p2, ctx, modes.0->Ok_0);
    assert(prediction.0 is Ok);
    assert(c.bits().len() == 1 + entry.1 + fwd.len() + bwd.len() + rest.len());
}

/// The codewords of types without a quantiser scale.
proof fn lemma_type_code_small(coding: PictureCodingType, row: int)
    requires
        0 <= row < type_rows(coding).len(),
    ensures
        ({
            let entry = type_rows(coding)[row];
            &&& 1 <= entry.0 <= 3
            &&& 1 <= entry.1 <= 6
            &&& entry.0 < pow2(entry.1 as nat)
        }),
{
    lemma2_to64();
}

/// The codeword of a type.
pub proof fn lemma_type_broken_up(coding: PictureCodingType, row: int)
    requires
        0 <= row < type_rows(coding).len(),
    ensures
        ({
            let entry = type_rows(coding)[row];
            broken_up(value_bits(entry.0 as int, entry.1 as int), 5, 1)
        }),
{
    let entry = type_rows(coding)[row];
    let v = entry.0 as int;
    let n = entry.1 as int;
    lemma_type_code_small(coding, row);
    assert(1 <= bit_length(v) <= 2) by {
        reveal_with_fuel(bit_length, 4);
    }
    lemma_field_broken_up(v, n);
    lemma_loosened(value_bits(v, n), n - bit_length(v), bit_length(v) - 1, 5, 1);
}

/// Bits and a vector after them, if there is one.
proof fn lemma_vector_broken_up(head: Seq<bool>, c: Option<CodedVector>)
    requires
        broken_up(head, 0, 13),
        c matches Some(c) ==> c.readable(),
    ensures
        broken_up(head + optional_bits(c), 0, 13),
{
    match c {
        None => {
            assert(head + optional_bits(c) =~= head);
        },
        Some(c) => {
            lemma2_to64();
            let dx = wrapped(c.v.horizontal - c.last.0, c.f_code);
            let dy = wrapped(c.v.vertical - c.last.1, c.f_code);
            let a = component_bits(dx, c.f_code);
            let b = component_bits(dy, c.f_code);
            lemma_component_broken_up(dx, c.f_code);
            lemma_component_broken_up(dy, c.f_code);
            lemma_loosened(a, 6, 4 + c.f_code, 6, 11);
            lemma_loosened(b, 6, 4 + c.f_code, 6, 11);
            lemma_joined(a, 6, 11, b, 6, 11);
            lemma_joined(head, 0, 13, a + b, 6, 11);
            lemma_loosened(head + (a + b), 0, 11, 0, 13);
        },
    }
}

/// The bits of a predicted macroblock.
pub proof fn lemma_inter_broken_up(c: CodedInter)
    requires
        c.readable(),
    ensures
        broken_up(c.bits(), 0, 13),
{
    let entry = type_rows(c.coding)[c.row];
    let code = value_bits(entry.0 as int, entry.1 as int);
    lemma_flag_broken_up();
    lemma_type_broken_up(c.coding, c.row);
    lemma_joined(seq![true], 0, 0, code, 5, 1);
    let typed = seq![true] + code;
    lemma_loosened(typed, 0, 1, 0, 13);
    lemma_vector_broken_up(typed, c.forward);
    let forwarded = typed + optional_bits(c.forward);
    lemma_vector_broken_up(forwarded, c.backward);
    let both = forwarded + optional_bits(c.backward);
    lemma_residual_bits_broken_up(both, 0, c.levels);
    assert(c.bits() =~= both + residual_bits(c.levels));
}

} // verus!
