//! Which predictions a macroblock is formed from: the vectors, the references
//! they point into and the parts of the macroblock they cover.

use crate::error::{Error, Result};
use crate::macroblock_modes::PredictionType;
use crate::picture_header::PictureStructure;
use crate::pmv::{BlockSize, Direction, FieldParity, VectorIndex};
use vstd::prelude::*;

verus! {

/// An intra macroblock forms a prediction only to conceal errors.
pub const ERR_INTRA_WITHOUT_CONCEALMENT: &'static str =
    "§7.6.5: intra macroblock without concealment_motion_vectors forms no prediction";

/// Dual-prime prediction is forward only.
pub const ERR_DUAL_PRIME_NOT_FORWARD_ONLY: &'static str =
    "§7.6.5: dual-prime prediction requires forward-only motion (forward=1, backward=0)";

/// A macroblock without vectors is a skipped one.
pub const ERR_NO_MOTION_FLAGS: &'static str =
    "§7.6.5: non-intra macroblock with no motion flags is the skipped/implicit-zero case";

/// What a prediction is formed from.
#[derive(Debug, Clone, Copy, PartialEq, Eq, Structural)]
pub enum ReferenceTarget {
    /// The reference frame.
    Frame,
    /// The reference field of a parity.
    WholeField(FieldParity),
    /// The field of a parity, with the vector of the bitstream.
    DualPrimeSameParity(FieldParity),
    /// The field of a parity, with a vector derived from that of the bitstream.
    DualPrimeOppositeParity(FieldParity),
}

/// Which part of a macroblock a prediction covers.
#[derive(Debug, Clone, Copy, PartialEq, Eq, Structural)]
pub enum PredictionRegion {
    Whole,
    Upper16x8,
    Lower16x8,
}

impl PredictionRegion {
    pub open spec fn spec_size(self) -> BlockSize {
        match self {
            PredictionRegion::Whole => BlockSize { width: 16, height: 16 },
            _ => BlockSize { width: 16, height: 8 },
        }
    }

    /// The size of the region in luminance samples.
    pub fn luma_block_size(self) -> (r: BlockSize)
        ensures
            r == self.spec_size(),
    {
        match self {
            PredictionRegion::Whole => BlockSize { width: 16, height: 16 },
            PredictionRegion::Upper16x8 | PredictionRegion::Lower16x8 => BlockSize {
                width: 16,
                height: 8,
            },
        }
    }

    pub open spec fn spec_top(self) -> int {
        match self {
            PredictionRegion::Lower16x8 => 8,
            _ => 0,
        }
    }

    /// The first luminance line of the region.
    pub fn luma_top_offset(self) -> (r: i32)
        ensures
            r == self.spec_top(),
    {
        match self {
            PredictionRegion::Whole | PredictionRegion::Upper16x8 => 0,
            PredictionRegion::Lower16x8 => 8,
        }
    }
}

/// One prediction.
#[derive(Debug, Clone, Copy, PartialEq, Eq, Structural)]
pub struct PredictionOp {
    pub vector_index: VectorIndex,
    pub direction: Direction,
    pub reference: ReferenceTarget,
    pub region: PredictionRegion,
}

/// What the predictions of a macroblock depend on.
#[derive(Debug, Clone, Copy, PartialEq, Eq, Structural)]
pub struct MacroblockPrediction {
    pub picture_structure: PictureStructure,
    pub prediction_type: PredictionType,
    pub macroblock_motion_forward: bool,
    pub macroblock_motion_backward: bool,
    pub macroblock_intra: bool,
    pub concealment_present: bool,
    /// The field that the first vector of a field picture selects.
    pub field_select: FieldParity,
    /// The field that its second vector selects.
    pub field_select_lower: FieldParity,
}

pub open spec fn op(
    vector_index: VectorIndex,
    direction: Direction,
    reference: ReferenceTarget,
    region: PredictionRegion,
) -> PredictionOp {
    PredictionOp { vector_index, direction, reference, region }
}

/// What a single vector of a picture refers to.
pub open spec fn single_target(mb: MacroblockPrediction) -> ReferenceTarget {
    if mb.picture_structure == PictureStructure::Frame {
        ReferenceTarget::Frame
    } else {
        ReferenceTarget::WholeField(mb.field_select)
    }
}

/// The predictions of one direction: a frame picture takes its two field vectors
/// from the top and the bottom field, a field picture takes the two vectors of
/// 16x8 prediction for the upper and the lower half, and everything else is one
/// vector for the whole macroblock.
pub open spec fn directional_ops(mb: MacroblockPrediction, direction: Direction) -> Seq<
    PredictionOp,
> {
    let frame = mb.picture_structure == PictureStructure::Frame;
    if frame && mb.prediction_type == PredictionType::FieldBased {
        seq![
            op(
                VectorIndex::First,
                direction,
                ReferenceTarget::WholeField(FieldParity::Top),
                PredictionRegion::Whole,
            ),
            op(
                VectorIndex::Second,
                direction,
                ReferenceTarget::WholeField(FieldParity::Bottom),
                PredictionRegion::Whole,
            ),
        ]
    } else if !frame && mb.prediction_type == PredictionType::SixteenByEight {
        seq![
            op(
                VectorIndex::First,
                direction,
                ReferenceTarget::WholeField(mb.field_select),
                PredictionRegion::Upper16x8,
            ),
            op(
                VectorIndex::Second,
                direction,
                ReferenceTarget::WholeField(mb.field_select_lower),
                PredictionRegion::Lower16x8,
            ),
        ]
    } else {
        seq![op(VectorIndex::First, direction, single_target(mb), PredictionRegion::Whole)]
    }
}

pub open spec fn same_parity(parity: FieldParity) -> PredictionOp {
    op(
        VectorIndex::First,
        Direction::Forward,
        ReferenceTarget::DualPrimeSameParity(parity),
        PredictionRegion::Whole,
    )
}

pub open spec fn opposite_parity(parity: FieldParity) -> PredictionOp {
    op(
        VectorIndex::Second,
        Direction::Forward,
        ReferenceTarget::DualPrimeOppositeParity(parity),
        PredictionRegion::Whole,
    )
}

/// The dual-prime predictions: per predicted field one from the field of its own
/// parity and one from the field of the other.
pub open spec fn dual_prime_list(picture_structure: PictureStructure) -> Seq<PredictionOp> {
    match picture_structure {
        PictureStructure::TopField => seq![
            same_parity(FieldParity::Top),
            opposite_parity(FieldParity::Bottom),
        ],
        PictureStructure::BottomField => seq![
            same_parity(FieldParity::Bottom),
            opposite_parity(FieldParity::Top),
        ],
        PictureStructure::Frame => seq![
            same_parity(FieldParity::Top),
            same_parity(FieldParity::Bottom),
            opposite_parity(FieldParity::Top),
            opposite_parity(FieldParity::Bottom),
        ],
    }
}

/// The predictions of a macroblock, in the order of their vectors.
pub open spec fn selected_predictions(mb: MacroblockPrediction) -> Result<Seq<PredictionOp>> {
    let fwd = mb.macroblock_motion_forward;
    let bwd = mb.macroblock_motion_backward;
    if mb.macroblock_intra {
        if !mb.concealment_present {
            Err(Error::InvalidBitstream(ERR_INTRA_WITHOUT_CONCEALMENT))
        } else {
            Ok(
                seq![
                    op(
                        VectorIndex::First,
                        Direction::Forward,
                        single_target(mb),
                        PredictionRegion::Whole,
                    ),
                ],
            )
        }
    } else if mb.prediction_type == PredictionType::DualPrime {
        if fwd && !bwd {
            Ok(dual_prime_list(mb.picture_structure))
        } else {
            Err(Error::InvalidBitstream(ERR_DUAL_PRIME_NOT_FORWARD_ONLY))
        }
    } else if !fwd && !bwd {
        Err(Error::InvalidBitstream(ERR_NO_MOTION_FLAGS))
    } else {
        Ok(
            (if fwd {
                directional_ops(mb, Direction::Forward)
            } else {
                Seq::empty()
            }) + (if bwd {
                directional_ops(mb, Direction::Backward)
            } else {
                Seq::empty()
            }),
        )
    }
}

/// Selects the predictions of a macroblock.
pub fn select_predictions(mb: &MacroblockPrediction) -> (res: Result<Vec<PredictionOp>>)
    ensures
        match res {
            Ok(ops) => selected_predictions(*mb) == Ok::<Seq<PredictionOp>, Error>(ops@),
            Err(e) => selected_predictions(*mb) == Err::<Seq<PredictionOp>, Error>(e),
        },
{
    let mut ops: Vec<PredictionOp> = Vec::new();
    if mb.macroblock_intra {
        if !mb.concealment_present {
            return Err(Error::InvalidBitstream(ERR_INTRA_WITHOUT_CONCEALMENT));
        }
        let reference = match mb.picture_structure {
            PictureStructure::Frame => ReferenceTarget::Frame,
            PictureStructure::TopField | PictureStructure::BottomField => {
                ReferenceTarget::WholeField(mb.field_select)
            },
        };
        ops.push(
            PredictionOp {
                vector_index: VectorIndex::First,
                direction: Direction::Forward,
                reference,
                region: PredictionRegion::Whole,
            },
        );
        assert(ops@ =~= selected_predictions(*mb)->Ok_0);
        return Ok(ops);
    }
    let fwd = mb.macroblock_motion_forward;
    let bwd = mb.macroblock_motion_backward;
    if mb.prediction_type == PredictionType::DualPrime {
        if !fwd || bwd {
            return Err(Error::InvalidBitstream(ERR_DUAL_PRIME_NOT_FORWARD_ONLY));
        }
        return Ok(dual_prime_ops(mb.picture_structure));
    }
    if !fwd && !bwd {
        return Err(Error::InvalidBitstream(ERR_NO_MOTION_FLAGS));
    }
    if fwd {
        push_directional_ops(&mut ops, mb, Direction::Forward);
    }
    if bwd {
        push_directional_ops(&mut ops, mb, Direction::Backward);
    }
    assert(ops@ =~= selected_predictions(*mb)->Ok_0);
    Ok(ops)
}

/// Appends the predictions of one direction.
pub fn push_directional_ops(
    ops: &mut Vec<PredictionOp>,
    mb: &MacroblockPrediction,
    direction: Direction,
)
    ensures
        final(ops)@ == old(ops)@ + directional_ops(*mb, direction),
{
    let ghost before = ops@;
    match (mb.picture_structure, mb.prediction_type) {
        (PictureStructure::Frame, PredictionType::FieldBased) => {
            ops.push(
                PredictionOp {
                    vector_index: VectorIndex::First,
                    direction,
                    reference: ReferenceTarget::WholeField(FieldParity::Top),
                    region: PredictionRegion::Whole,
                },
            );
            ops.push(
                PredictionOp {
                    vector_index: VectorIndex::Second,
                    direction,
                    reference: ReferenceTarget::WholeField(FieldParity::Bottom),
                    region: PredictionRegion::Whole,
                },
            );
        },
        (
            PictureStructure::TopField | PictureStructure::BottomField,
            PredictionType::SixteenByEight,
        ) => {
            ops.push(
                PredictionOp {
                    vector_index: VectorIndex::First,
                    direction,
                    reference: ReferenceTarget::WholeField(mb.field_select),
                    region: PredictionRegion::Upper16x8,
                },
            );
            ops.push(
                PredictionOp {
                    vector_index: VectorIndex::Second,
                    direction,
                    reference: ReferenceTarget::WholeField(mb.field_select_lower),
                    region: PredictionRegion::Lower16x8,
                },
            );
        },
        _ => {
            let reference = match mb.picture_structure {
                PictureStructure::Frame => ReferenceTarget::Frame,
                _ => ReferenceTarget::WholeField(mb.field_select),
            };
            ops.push(
                PredictionOp {
                    vector_index: VectorIndex::First,
                    direction,
                    reference,
                    region: PredictionRegion::Whole,
                },
            );
        },
    }
    assert(ops@ =~= before + directional_ops(*mb, direction));
}

fn push_dual_prime(ops: &mut Vec<PredictionOp>, same: bool, parity: FieldParity)
    ensures
        final(ops)@ == old(ops)@.push(
            if same {
                same_parity(parity)
            } else {
                opposite_parity(parity)
            },
        ),
{
    ops.push(
        PredictionOp {
            vector_index: if same {
                VectorIndex::First
            } else {
                VectorIndex::Second
            },
            direction: Direction::Forward,
            reference: if same {
                ReferenceTarget::DualPrimeSameParity(parity)
            } else {
                ReferenceTarget::DualPrimeOppositeParity(parity)
            },
            region: PredictionRegion::Whole,
        },
    );
}

/// The dual-prime predictions of a picture.
pub fn dual_prime_ops(picture_structure: PictureStructure) -> (ops: Vec<PredictionOp>)
    ensures
        ops@ == dual_prime_list(picture_structure),
{
    let mut ops: Vec<PredictionOp> = Vec::new();
    match picture_structure {
        PictureStructure::TopField => {
            push_dual_prime(&mut ops, true, FieldParity::Top);
            push_dual_prime(&mut ops, false, FieldParity::Bottom);
        },
        PictureStructure::BottomField => {
            push_dual_prime(&mut ops, true, FieldParity::Bottom);
            push_dual_prime(&mut ops, false, FieldParity::Top);
        },
        PictureStructure::Frame => {
            push_dual_prime(&mut ops, true, FieldParity::Top);
            push_dual_prime(&mut ops, true, FieldParity::Bottom);
            push_dual_prime(&mut ops, false, FieldParity::Top);
            push_dual_prime(&mut ops, false, FieldParity::Bottom);
        },
    }
    assert(ops@ =~= dual_prime_list(picture_structure));
    ops
}

/// Forward predictions precede backward ones, and within a direction the first
/// vector precedes the second.
pub proof fn law_bitstream_order(mb: MacroblockPrediction, i: int, j: int)
    requires
        selected_predictions(mb) is Ok,
        0 <= i < j < selected_predictions(mb)->Ok_0.len(),
    ensures
        ({
            let ops = selected_predictions(mb)->Ok_0;
            &&& ops[i].direction == Direction::Backward ==> ops[j].direction == Direction::Backward
            &&& ops[i].direction == ops[j].direction && ops[i].vector_index == VectorIndex::Second
                ==> ops[j].vector_index == VectorIndex::Second
        }),
{
}

/// A direction is predicted from exactly when the macroblock carries vectors for
/// it.
pub proof fn law_directions_used(mb: MacroblockPrediction)
    requires
        selected_predictions(mb) is Ok,
        !mb.macroblock_intra,
    ensures
        ({
            let ops = selected_predictions(mb)->Ok_0;
            &&& mb.macroblock_motion_forward <==> exists|i: int|
                0 <= i < ops.len() && (#[trigger] ops[i]).direction == Direction::Forward
            &&& mb.macroblock_motion_backward <==> exists|i: int|
                0 <= i < ops.len() && (#[trigger] ops[i]).direction == Direction::Backward
        }),
{
    let ops = selected_predictions(mb)->Ok_0;
    if mb.prediction_type == PredictionType::DualPrime {
        assert(ops[0].direction == Direction::Forward);
    } else {
        if mb.macroblock_motion_forward {
            assert(ops[0].direction == Direction::Forward);
        }
        if mb.macroblock_motion_backward {
            assert(ops[ops.len() - 1].direction == Direction::Backward);
        }
    }
}

/// The predictions of a direction cover the macroblock: either one of them is for
/// the whole of it, or one is for each half.
pub proof fn law_regions_cover(mb: MacroblockPrediction, direction: Direction)
    ensures
        ({
            let ops = directional_ops(mb, direction);
            ||| forall|i: int|
                0 <= i < ops.len() ==> (#[trigger] ops[i]).region == PredictionRegion::Whole
            ||| ops.len() == 2 && ops[0].region == PredictionRegion::Upper16x8 && ops[1].region
                == PredictionRegion::Lower16x8 && ops[0].region.spec_top()
                + ops[0].region.spec_size().height == ops[1].region.spec_top()
        }),
        directional_ops(mb, direction).len() > 0,
{
}

/// Dual-prime prediction of a field picture draws on the field of its own parity with
/// the first vector and on the other field with the second. That of a frame picture draws
/// on each of the two fields with both.
pub proof fn law_dual_prime_draws_on_both_fields(
    picture_structure: PictureStructure,
    parity: FieldParity,
)
    ensures
        ({
            let ops = dual_prime_list(picture_structure);
            let same = ReferenceTarget::DualPrimeSameParity(parity);
            let opposite = ReferenceTarget::DualPrimeOppositeParity(parity);
            let own = picture_structure == (if parity == FieldParity::Top {
                PictureStructure::TopField
            } else {
                PictureStructure::BottomField
            });
            let frame = picture_structure == PictureStructure::Frame;
            &&& ops.len() == (if frame {
                4int
            } else {
                2int
            })
            &&& own || frame <==> exists|i: int|
                0 <= i < ops.len() && (#[trigger] ops[i]).reference == same
            &&& !own || frame <==> exists|i: int|
                0 <= i < ops.len() && (#[trigger] ops[i]).reference == opposite
            &&& forall|i: int|
                0 <= i < ops.len() ==> {
                    &&& (#[trigger] ops[i]).direction == Direction::Forward
                    &&& ops[i].region == PredictionRegion::Whole
                    &&& ops[i].reference == same ==> ops[i].vector_index == VectorIndex::First
                    &&& ops[i].reference == opposite ==> ops[i].vector_index
                        == VectorIndex::Second
                }
        }),
{
    let ops = dual_prime_list(picture_structure);
    if picture_structure == PictureStructure::Frame {
        assert(ops[0] == same_parity(FieldParity::Top));
        assert(ops[1] == same_parity(FieldParity::Bottom));
        assert(ops[2] == opposite_parity(FieldParity::Top));
        assert(ops[3] == opposite_parity(FieldParity::Bottom));
    } else {
        assert(ops[0].vector_index == VectorIndex::First);
        assert(ops[1].vector_index == VectorIndex::Second);
    }
}

/// Other predictions of a frame picture draw on the frame, unless they are by fields:
/// those draw on the top field with the first vector and on the bottom field with the
/// second. Those of a field picture draw on the field that was selected, the lower half
/// of a split macroblock on the field selected for it.
pub proof fn law_predictions_draw_on_selected_field(
    mb: MacroblockPrediction,
    direction: Direction,
    i: int,
)
    requires
        0 <= i < directional_ops(mb, direction).len(),
    ensures
        ({
            let o = directional_ops(mb, direction)[i];
            let frame = mb.picture_structure == PictureStructure::Frame;
            &&& o.direction == direction
            &&& o.reference == ReferenceTarget::Frame <==> frame && mb.prediction_type
                != PredictionType::FieldBased
            &&& frame && o.vector_index == VectorIndex::First ==> o.reference
                != ReferenceTarget::WholeField(FieldParity::Bottom)
            &&& frame && o.vector_index == VectorIndex::Second ==> o.reference
                == ReferenceTarget::WholeField(FieldParity::Bottom)
            &&& !frame ==> o.reference == ReferenceTarget::WholeField(
                if o.region == PredictionRegion::Lower16x8 {
                    mb.field_select_lower
                } else {
                    mb.field_select
                },
            )
            &&& o.region == PredictionRegion::Lower16x8 ==> o.vector_index == VectorIndex::Second
            &&& directional_ops(mb, direction).len() == 2 <==> (if frame {
                mb.prediction_type == PredictionType::FieldBased
            } else {
                mb.prediction_type == PredictionType::SixteenByEight
            })
        }),
{
}

} // verus!
