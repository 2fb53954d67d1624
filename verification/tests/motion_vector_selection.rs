use oxideav_mpeg12video::error::Error;
use oxideav_mpeg12video::macroblock_modes::PredictionType;
use oxideav_mpeg12video::motion_vector_selection::{
    ERR_DUAL_PRIME_NOT_FORWARD_ONLY, ERR_INTRA_WITHOUT_CONCEALMENT, ERR_NO_MOTION_FLAGS,
    MacroblockPrediction, PredictionRegion, ReferenceTarget, select_predictions,
};
use oxideav_mpeg12video::picture_header::PictureStructure;
use oxideav_mpeg12video::pmv::{Direction, FieldParity, VectorIndex};

fn base() -> MacroblockPrediction {
    MacroblockPrediction {
        picture_structure: PictureStructure::Frame,
        prediction_type: PredictionType::FrameBased,
        macroblock_motion_forward: true,
        macroblock_motion_backward: false,
        macroblock_intra: false,
        concealment_present: false,
        field_select: FieldParity::Top,
        field_select_lower: FieldParity::Top,
    }
}

// ---- region geometry ----

#[test]
fn region_whole_is_16x16() {
    let s = PredictionRegion::Whole.luma_block_size();
    assert_eq!((s.width, s.height), (16, 16));
    assert_eq!(PredictionRegion::Whole.luma_top_offset(), 0);
}

#[test]
fn region_16x8_halves() {
    let u = PredictionRegion::Upper16x8.luma_block_size();
    let l = PredictionRegion::Lower16x8.luma_block_size();
    assert_eq!((u.width, u.height), (16, 8));
    assert_eq!((l.width, l.height), (16, 8));
    assert_eq!(PredictionRegion::Upper16x8.luma_top_offset(), 0);
    assert_eq!(PredictionRegion::Lower16x8.luma_top_offset(), 8);
}

// ---- Table 7-14 frame pictures ----

#[test]
fn frame_framebased_forward_only() {
    let ops = select_predictions(&base()).unwrap();
    assert_eq!(ops.len(), 1);
    assert_eq!(ops[0].vector_index, VectorIndex::First);
    assert_eq!(ops[0].direction, Direction::Forward);
    assert_eq!(ops[0].reference, ReferenceTarget::Frame);
    assert_eq!(ops[0].region, PredictionRegion::Whole);
}

#[test]
fn frame_framebased_bidirectional_order() {
    let mb = MacroblockPrediction {
        macroblock_motion_backward: true,
        ..base()
    };
    let ops = select_predictions(&mb).unwrap();
    assert_eq!(ops.len(), 2);
    // Forward precedes backward (bitstream order).
    assert_eq!(ops[0].direction, Direction::Forward);
    assert_eq!(ops[1].direction, Direction::Backward);
    assert!(ops.iter().all(|o| o.reference == ReferenceTarget::Frame));
    assert!(ops.iter().all(|o| o.region == PredictionRegion::Whole));
}

#[test]
fn frame_framebased_backward_only() {
    let mb = MacroblockPrediction {
        macroblock_motion_forward: false,
        macroblock_motion_backward: true,
        ..base()
    };
    let ops = select_predictions(&mb).unwrap();
    assert_eq!(ops.len(), 1);
    assert_eq!(ops[0].direction, Direction::Backward);
    assert_eq!(ops[0].vector_index, VectorIndex::First);
}

#[test]
fn frame_fieldbased_forward_top_then_bottom() {
    let mb = MacroblockPrediction {
        prediction_type: PredictionType::FieldBased,
        ..base()
    };
    let ops = select_predictions(&mb).unwrap();
    assert_eq!(ops.len(), 2);
    assert_eq!(ops[0].vector_index, VectorIndex::First);
    assert_eq!(
        ops[0].reference,
        ReferenceTarget::WholeField(FieldParity::Top)
    );
    assert_eq!(ops[1].vector_index, VectorIndex::Second);
    assert_eq!(
        ops[1].reference,
        ReferenceTarget::WholeField(FieldParity::Bottom)
    );
}

#[test]
fn frame_fieldbased_bidirectional_four_ops() {
    let mb = MacroblockPrediction {
        prediction_type: PredictionType::FieldBased,
        macroblock_motion_backward: true,
        ..base()
    };
    let ops = select_predictions(&mb).unwrap();
    assert_eq!(ops.len(), 4);
    // forward top, forward bottom, backward top, backward bottom.
    assert_eq!(ops[0].direction, Direction::Forward);
    assert_eq!(ops[1].direction, Direction::Forward);
    assert_eq!(ops[2].direction, Direction::Backward);
    assert_eq!(ops[3].direction, Direction::Backward);
    assert_eq!(
        ops[2].reference,
        ReferenceTarget::WholeField(FieldParity::Top)
    );
    assert_eq!(
        ops[3].reference,
        ReferenceTarget::WholeField(FieldParity::Bottom)
    );
}

// ---- Table 7-13 field pictures ----

#[test]
fn field_fieldbased_uses_field_select() {
    let mb = MacroblockPrediction {
        picture_structure: PictureStructure::TopField,
        prediction_type: PredictionType::FieldBased,
        field_select: FieldParity::Bottom,
        ..base()
    };
    let ops = select_predictions(&mb).unwrap();
    assert_eq!(ops.len(), 1);
    assert_eq!(
        ops[0].reference,
        ReferenceTarget::WholeField(FieldParity::Bottom)
    );
    assert_eq!(ops[0].region, PredictionRegion::Whole);
}

#[test]
fn field_16x8_upper_then_lower_with_independent_selects() {
    let mb = MacroblockPrediction {
        picture_structure: PictureStructure::BottomField,
        prediction_type: PredictionType::SixteenByEight,
        field_select: FieldParity::Top,
        field_select_lower: FieldParity::Bottom,
        ..base()
    };
    let ops = select_predictions(&mb).unwrap();
    assert_eq!(ops.len(), 2);
    assert_eq!(ops[0].region, PredictionRegion::Upper16x8);
    assert_eq!(
        ops[0].reference,
        ReferenceTarget::WholeField(FieldParity::Top)
    );
    assert_eq!(ops[1].region, PredictionRegion::Lower16x8);
    assert_eq!(
        ops[1].reference,
        ReferenceTarget::WholeField(FieldParity::Bottom)
    );
    assert_eq!(ops[0].vector_index, VectorIndex::First);
    assert_eq!(ops[1].vector_index, VectorIndex::Second);
}

#[test]
fn field_16x8_bidirectional_four_ops_order() {
    let mb = MacroblockPrediction {
        picture_structure: PictureStructure::TopField,
        prediction_type: PredictionType::SixteenByEight,
        macroblock_motion_backward: true,
        ..base()
    };
    let ops = select_predictions(&mb).unwrap();
    assert_eq!(ops.len(), 4);
    assert_eq!(ops[0].direction, Direction::Forward);
    assert_eq!(ops[0].region, PredictionRegion::Upper16x8);
    assert_eq!(ops[1].direction, Direction::Forward);
    assert_eq!(ops[1].region, PredictionRegion::Lower16x8);
    assert_eq!(ops[2].direction, Direction::Backward);
    assert_eq!(ops[2].region, PredictionRegion::Upper16x8);
    assert_eq!(ops[3].direction, Direction::Backward);
    assert_eq!(ops[3].region, PredictionRegion::Lower16x8);
}

// ---- dual prime ----

#[test]
fn dual_prime_field_two_ops() {
    let mb = MacroblockPrediction {
        picture_structure: PictureStructure::TopField,
        prediction_type: PredictionType::DualPrime,
        ..base()
    };
    let ops = select_predictions(&mb).unwrap();
    assert_eq!(ops.len(), 2);
    assert_eq!(
        ops[0].reference,
        ReferenceTarget::DualPrimeSameParity(FieldParity::Top)
    );
    assert_eq!(
        ops[1].reference,
        ReferenceTarget::DualPrimeOppositeParity(FieldParity::Bottom)
    );
    assert!(ops.iter().all(|o| o.direction == Direction::Forward));
}

#[test]
fn dual_prime_bottom_field_parities_swap() {
    let mb = MacroblockPrediction {
        picture_structure: PictureStructure::BottomField,
        prediction_type: PredictionType::DualPrime,
        ..base()
    };
    let ops = select_predictions(&mb).unwrap();
    assert_eq!(
        ops[0].reference,
        ReferenceTarget::DualPrimeSameParity(FieldParity::Bottom)
    );
    assert_eq!(
        ops[1].reference,
        ReferenceTarget::DualPrimeOppositeParity(FieldParity::Top)
    );
}

#[test]
fn dual_prime_frame_four_ops() {
    let mb = MacroblockPrediction {
        picture_structure: PictureStructure::Frame,
        prediction_type: PredictionType::DualPrime,
        ..base()
    };
    let ops = select_predictions(&mb).unwrap();
    assert_eq!(ops.len(), 4);
    // same top, same bottom, opposite top, opposite bottom.
    assert_eq!(
        ops[0].reference,
        ReferenceTarget::DualPrimeSameParity(FieldParity::Top)
    );
    assert_eq!(
        ops[1].reference,
        ReferenceTarget::DualPrimeSameParity(FieldParity::Bottom)
    );
    assert_eq!(
        ops[2].reference,
        ReferenceTarget::DualPrimeOppositeParity(FieldParity::Top)
    );
    assert_eq!(
        ops[3].reference,
        ReferenceTarget::DualPrimeOppositeParity(FieldParity::Bottom)
    );
    // The two same-parity ops both read vector'[0][0].
    assert_eq!(ops[0].vector_index, VectorIndex::First);
    assert_eq!(ops[1].vector_index, VectorIndex::First);
    assert!(ops.iter().all(|o| o.direction == Direction::Forward));
}

#[test]
fn dual_prime_with_backward_is_rejected() {
    let mb = MacroblockPrediction {
        picture_structure: PictureStructure::Frame,
        prediction_type: PredictionType::DualPrime,
        macroblock_motion_backward: true,
        ..base()
    };
    assert_eq!(
        select_predictions(&mb),
        Err(Error::InvalidBitstream(ERR_DUAL_PRIME_NOT_FORWARD_ONLY))
    );
}

// ---- intra / concealment ----

#[test]
fn intra_with_concealment_frame_single_forward() {
    let mb = MacroblockPrediction {
        macroblock_intra: true,
        concealment_present: true,
        macroblock_motion_forward: false,
        ..base()
    };
    let ops = select_predictions(&mb).unwrap();
    assert_eq!(ops.len(), 1);
    assert_eq!(ops[0].direction, Direction::Forward);
    assert_eq!(ops[0].vector_index, VectorIndex::First);
    assert_eq!(ops[0].reference, ReferenceTarget::Frame);
}

#[test]
fn intra_with_concealment_field_uses_field_select() {
    let mb = MacroblockPrediction {
        picture_structure: PictureStructure::BottomField,
        macroblock_intra: true,
        concealment_present: true,
        macroblock_motion_forward: false,
        field_select: FieldParity::Bottom,
        ..base()
    };
    let ops = select_predictions(&mb).unwrap();
    assert_eq!(ops.len(), 1);
    assert_eq!(
        ops[0].reference,
        ReferenceTarget::WholeField(FieldParity::Bottom)
    );
}

#[test]
fn intra_without_concealment_rejected() {
    let mb = MacroblockPrediction {
        macroblock_intra: true,
        concealment_present: false,
        ..base()
    };
    assert_eq!(
        select_predictions(&mb),
        Err(Error::InvalidBitstream(ERR_INTRA_WITHOUT_CONCEALMENT))
    );
}

// ---- skipped / no-motion ----

#[test]
fn no_motion_flags_rejected() {
    let mb = MacroblockPrediction {
        macroblock_motion_forward: false,
        macroblock_motion_backward: false,
        ..base()
    };
    assert_eq!(
        select_predictions(&mb),
        Err(Error::InvalidBitstream(ERR_NO_MOTION_FLAGS))
    );
}
