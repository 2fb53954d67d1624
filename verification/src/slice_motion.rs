//! The vectors of MPEG-2 macroblocks that are predicted from frames.

use crate::error::{Error, Result};
use crate::macroblock_modes::PredictionType;
use crate::motion_vector::{
    code_step, component_delta, entries_in_range, vector_in_range, MotionVector, MotionVectorEntry,
    MotionVectorsContext, MotionVectorsKind,
};
use crate::picture_header::PictureCodingType;
use crate::pmv::{range_of, vector_range, ReconstructedComponent, ERR_VECTOR_RANGE};
use crate::slice_macroblock_walk::{fields_of, MacroblockFields, MacroblockRecord};
use vstd::arithmetic::power2::lemma2_to64;
use vstd::prelude::*;

verus! {

pub const ERR_SKIP_AFTER_INTRA: &'static str =
    "B-picture: a skipped macroblock shall not follow an intra macroblock (§7.6.6)";

/// A reconstructed vector.
#[derive(Debug, Clone, Copy, PartialEq, Eq)]
pub struct ReconstructedVector {
    pub horizontal: ReconstructedComponent,
    pub vertical: ReconstructedComponent,
}

/// The reconstructed vectors of a macroblock.
#[derive(Debug, Clone)]
pub struct ReconstructedMotionVectors {
    pub forward: Option<Vec<ReconstructedVector>>,
    pub backward: Option<Vec<ReconstructedVector>>,
}

/// What reconstructed vectors hold.
pub struct ReconstructedFields {
    pub forward: Option<Seq<ReconstructedVector>>,
    pub backward: Option<Seq<ReconstructedVector>>,
}

pub open spec fn vectors_of(v: Option<Vec<ReconstructedVector>>) -> Option<
    Seq<ReconstructedVector>,
> {
    match v {
        Some(v) => Some(v@),
        None => None,
    }
}

impl View for ReconstructedMotionVectors {
    type V = ReconstructedFields;

    open spec fn view(&self) -> ReconstructedFields {
        ReconstructedFields {
            forward: vectors_of(self.forward),
            backward: vectors_of(self.backward),
        }
    }
}

/// The last vector of each direction.
#[derive(Debug, Clone, Copy, PartialEq, Eq)]
pub struct FramePredictors {
    pub forward_horizontal: i32,
    pub forward_vertical: i32,
    pub backward_horizontal: i32,
    pub backward_vertical: i32,
}

pub open spec fn zero_predictors() -> FramePredictors {
    FramePredictors {
        forward_horizontal: 0,
        forward_vertical: 0,
        backward_horizontal: 0,
        backward_vertical: 0,
    }
}

impl FramePredictors {
    /// The predictors at the start of a slice.
    pub fn zero() -> (p: Self)
        ensures
            p == zero_predictors(),
    {
        FramePredictors {
            forward_horizontal: 0,
            forward_vertical: 0,
            backward_horizontal: 0,
            backward_vertical: 0,
        }
    }

    pub open spec fn of(self, kind: MotionVectorsKind) -> (i32, i32) {
        match kind {
            MotionVectorsKind::Forward => (self.forward_horizontal, self.forward_vertical),
            MotionVectorsKind::Backward => (self.backward_horizontal, self.backward_vertical),
        }
    }

    pub open spec fn with(self, kind: MotionVectorsKind, v: (i32, i32)) -> FramePredictors {
        match kind {
            MotionVectorsKind::Forward => FramePredictors {
                forward_horizontal: v.0,
                forward_vertical: v.1,
                ..self
            },
            MotionVectorsKind::Backward => FramePredictors {
                backward_horizontal: v.0,
                backward_vertical: v.1,
                ..self
            },
        }
    }
}

/// One turn of the range of an `f_code` back into it.
pub open spec fn wrapped(x: int, f_code: u8) -> int {
    let (low, high, range) = range_of(f_code);
    if x < low {
        x + range
    } else if x > high {
        x - range
    } else {
        x
    }
}

/// A component: its predictor plus the coded difference, wrapped into the range.
pub open spec fn component_from(code: i8, residual: Option<u8>, f_code: u8, pmv: i32) -> Result<
    ReconstructedComponent,
> {
    if !(1 <= f_code <= 9) {
        Err(Error::InvalidBitstream(ERR_VECTOR_RANGE))
    } else {
        let delta = component_delta(code, residual, f_code);
        let v = wrapped(pmv + delta, f_code);
        Ok(
            (ReconstructedComponent {
                vector_prime: v as i32,
                new_pmv: v as i32,
                delta: delta as i32,
                range: range_of(f_code).2 as i32,
            }),
        )
    }
}

/// Whether a predictor lies in the range of an `f_code`.
pub open spec fn pmv_in_range(pmv: i32, f_code: u8) -> bool {
    1 <= f_code <= 9 ==> range_of(f_code).0 <= pmv <= range_of(f_code).1
}

proof fn lemma_component_from(code: i8, residual: Option<u8>, f_code: u8, pmv: i32)
    requires
        -16 <= code <= 16,
        residual matches Some(r) ==> r < code_step(f_code),
        pmv_in_range(pmv, f_code),
    ensures
        component_from(code, residual, f_code, pmv) matches Ok(c) ==> pmv_in_range(
            c.new_pmv,
            f_code,
        ) && c.vector_prime == c.new_pmv,
        1 <= f_code <= 9 ==> 1 <= code_step(f_code) <= 256 && -4096 <= component_delta(
            code,
            residual,
            f_code,
        ) <= 4096,
{
    lemma2_to64();
    if 1 <= f_code <= 9 {
        let f = code_step(f_code);
        assert(-16 * f <= (code - 1) * f + f <= 16 * f && -16 * f <= (code + 1) * f - f <= 16 * f)
            by (nonlinear_arith)
            requires
                -16 <= code <= 16,
                f >= 1,
        ;
        assert(code > 0 ==> (code - 1) * f >= 0) by (nonlinear_arith)
            requires
                f >= 1,
        ;
        assert(code < 0 ==> (code + 1) * f <= 0) by (nonlinear_arith)
            requires
                f >= 1,
        ;
    }
}

/// Reconstructs a component.
pub fn reconstruct_vector_component(
    code: i8,
    residual: Option<u8>,
    f_code: u8,
    pmv: i32,
) -> (res: Result<ReconstructedComponent>)
    requires
        -16 <= code <= 16,
        residual matches Some(r) ==> r < code_step(f_code),
        pmv_in_range(pmv, f_code),
    ensures
        res == component_from(code, residual, f_code, pmv),
        res matches Ok(c) ==> pmv_in_range(c.new_pmv, f_code),
{
    proof {
        lemma_component_from(code, residual, f_code, pmv);
        lemma2_to64();
    }
    let (low, high, range) = vector_range(f_code)?;
    let f: i32 = range / 32;
    assert(f == code_step(f_code));
    let r: i32 = match residual {
        Some(r) => r as i32,
        None => 0,
    };
    assert(-4352 <= (code - 1) * f <= 4352 && -4352 <= (code + 1) * f <= 4352) by (nonlinear_arith)
        requires
            -16 <= code <= 16,
            1 <= f <= 256,
    ;
    let c: i32 = code as i32;
    let delta: i32 = if c == 0 {
        0
    } else if c > 0 {
        (c - 1) * f + r + 1
    } else {
        (c + 1) * f - r - 1
    };
    let sum: i32 = pmv + delta;
    let v: i32 = if sum < low {
        sum + range
    } else if sum > high {
        sum - range
    } else {
        sum
    };
    Ok(ReconstructedComponent { vector_prime: v, new_pmv: v, delta, range })
}

/// A vector from its predictors, or the first of its components that cannot be.
pub open spec fn vector_from(v: MotionVector, f_codes: (u8, u8), pmv: (i32, i32)) -> Result<
    ReconstructedVector,
> {
    match component_from(v.motion_code_horiz, v.motion_residual_horiz, f_codes.0, pmv.0) {
        Err(e) => Err(e),
        Ok(horizontal) => match component_from(
            v.motion_code_vert,
            v.motion_residual_vert,
            f_codes.1,
            pmv.1,
        ) {
            Err(e) => Err(e),
            Ok(vertical) => Ok((ReconstructedVector { horizontal, vertical })),
        },
    }
}

/// Whether the predictors lie in the ranges of their `f_code` values.
pub open spec fn predictors_in_range(p: FramePredictors, f_codes: MotionVectorsContext) -> bool {
    &&& pmv_in_range(p.forward_horizontal, f_codes.f_code_fwd_horiz)
    &&& pmv_in_range(p.forward_vertical, f_codes.f_code_fwd_vert)
    &&& pmv_in_range(p.backward_horizontal, f_codes.f_code_bwd_horiz)
    &&& pmv_in_range(p.backward_vertical, f_codes.f_code_bwd_vert)
}

/// The vector of one direction of a macroblock, and the predictors after it: the
/// first that it carries, or none.
pub open spec fn direction_from(
    entries: Option<Seq<MotionVectorEntry>>,
    kind: MotionVectorsKind,
    f_codes: MotionVectorsContext,
    pmv: FramePredictors,
) -> Result<(Option<Seq<ReconstructedVector>>, FramePredictors)> {
    match entries {
        None => Ok((None, pmv)),
        Some(e) => match vector_from(
            e[0].motion_vector,
            f_codes.spec_for_kind(kind),
            pmv.of(kind),
        ) {
            Err(e) => Err(e),
            Ok(v) => Ok(
                (
                    Some(seq![v]),
                    pmv.with(kind, (v.horizontal.new_pmv, v.vertical.new_pmv)),
                ),
            ),
        },
    }
}

/// A zero vector.
pub open spec fn zero_vector() -> ReconstructedVector {
    let zero = ReconstructedComponent { vector_prime: 0, new_pmv: 0, delta: 0, range: 0 };
    ReconstructedVector { horizontal: zero, vertical: zero }
}

/// Whether a macroblock is predicted otherwise than from frames.
pub open spec fn other_mode(m: MacroblockFields) -> bool {
    &&& !m.macroblock_type.macroblock_intra
    &&& m.motion_type matches Some(t)
    &&& t.prediction_type != PredictionType::FrameBased
}

/// The vectors of a macroblock, and the predictors after it. An intra macroblock
/// without a concealment vector resets the predictors; so does a P-picture
/// macroblock without a vector, which is predicted with a zero vector. A macroblock
/// that is predicted otherwise than from frames gets no vectors here.
pub open spec fn macroblock_motion(
    m: MacroblockFields,
    coding: PictureCodingType,
    f_codes: MotionVectorsContext,
    pmv: FramePredictors,
) -> Result<(ReconstructedFields, FramePredictors)> {
    let mt = m.macroblock_type;
    if other_mode(m) {
        Ok(((ReconstructedFields { forward: None, backward: None }), pmv))
    } else if mt.macroblock_intra && m.forward is None {
        Ok(((ReconstructedFields { forward: None, backward: None }), zero_predictors()))
    } else if coding == PictureCodingType::Predictive && m.forward is None {
        Ok(
            (
                (ReconstructedFields { forward: Some(seq![zero_vector()]), backward: None }),
                zero_predictors(),
            ),
        )
    } else {
        match direction_from(m.forward, MotionVectorsKind::Forward, f_codes, pmv) {
            Err(e) => Err(e),
            Ok((forward, p)) => match direction_from(
                m.backward,
                MotionVectorsKind::Backward,
                f_codes,
                p,
            ) {
                Err(e) => Err(e),
                Ok((backward, q)) => Ok(((ReconstructedFields { forward, backward }), q)),
            },
        }
    }
}

fn reconstruct_vector(v: &MotionVector, f_codes: (u8, u8), pmv: (i32, i32)) -> (res: Result<
    ReconstructedVector,
>)
    requires
        vector_in_range(*v, f_codes),
        pmv_in_range(pmv.0, f_codes.0),
        pmv_in_range(pmv.1, f_codes.1),
    ensures
        res == vector_from(*v, f_codes, pmv),
        res matches Ok(r) ==> pmv_in_range(r.horizontal.new_pmv, f_codes.0) && pmv_in_range(
            r.vertical.new_pmv,
            f_codes.1,
        ),
{
    let horizontal = reconstruct_vector_component(
        v.motion_code_horiz,
        v.motion_residual_horiz,
        f_codes.0,
        pmv.0,
    )?;
    let vertical = reconstruct_vector_component(
        v.motion_code_vert,
        v.motion_residual_vert,
        f_codes.1,
        pmv.1,
    )?;
    Ok(ReconstructedVector { horizontal, vertical })
}

/// Reconstructs the vectors of a macroblock and carries the predictors on.
pub fn reconstruct_macroblock_motion(
    record: &MacroblockRecord,
    coding: PictureCodingType,
    f_codes: &MotionVectorsContext,
    pmv: &mut FramePredictors,
) -> (res: Result<ReconstructedMotionVectors>)
    requires
        record@.forward matches Some(v) ==> entries_in_range(
            v,
            f_codes.spec_for_kind(MotionVectorsKind::Forward),
        ),
        record@.backward matches Some(v) ==> entries_in_range(
            v,
            f_codes.spec_for_kind(MotionVectorsKind::Backward),
        ),
        predictors_in_range(*old(pmv), *f_codes),
    ensures
        match macroblock_motion(record@, coding, *f_codes, *old(pmv)) {
            Ok((v, p)) => res is Ok && res->Ok_0@ == v && *final(pmv) == p,
            Err(e) => res == Err::<ReconstructedMotionVectors, Error>(e),
        },
        predictors_in_range(*final(pmv), *f_codes),
{
    proof {
        lemma_zero_in_range(f_codes.f_code_fwd_horiz);
        lemma_zero_in_range(f_codes.f_code_fwd_vert);
        lemma_zero_in_range(f_codes.f_code_bwd_horiz);
        lemma_zero_in_range(f_codes.f_code_bwd_vert);
    }
    let intra = record.macroblock_type.macroblock_intra;
    let other = !intra && match record.motion_type {
        Some(t) => t.prediction_type != PredictionType::FrameBased,
        None => false,
    };
    if other {
        return Ok(ReconstructedMotionVectors { forward: None, backward: None });
    }
    if intra && record.motion_vectors_forward.is_none() {
        *pmv = FramePredictors::zero();
        return Ok(ReconstructedMotionVectors { forward: None, backward: None });
    }
    if coding == PictureCodingType::Predictive && record.motion_vectors_forward.is_none() {
        *pmv = FramePredictors::zero();
        let zero = ReconstructedComponent { vector_prime: 0, new_pmv: 0, delta: 0, range: 0 };
        let v = ReconstructedVector { horizontal: zero, vertical: zero };
        let mut vectors: Vec<ReconstructedVector> = Vec::new();
        vectors.push(v);
        assert(vectors@ =~= seq![zero_vector()]);
        return Ok(ReconstructedMotionVectors { forward: Some(vectors), backward: None });
    }
    let ghost start = *pmv;
    let mut forward: Option<Vec<ReconstructedVector>> = None;
    match &record.motion_vectors_forward {
        Some(mvs) => {
            assert(record@.forward == Some(mvs.entries@));
            let v = reconstruct_vector(
                &mvs.entries[0].motion_vector,
                (f_codes.f_code_fwd_horiz, f_codes.f_code_fwd_vert),
                (pmv.forward_horizontal, pmv.forward_vertical),
            )?;
            pmv.forward_horizontal = v.horizontal.new_pmv;
            pmv.forward_vertical = v.vertical.new_pmv;
            let mut vectors: Vec<ReconstructedVector> = Vec::new();
            vectors.push(v);
            assert(vectors@ =~= seq![v]);
            forward = Some(vectors);
        },
        None => {},
    }
    assert(direction_from(record@.forward, MotionVectorsKind::Forward, *f_codes, start) == Ok::<
        (Option<Seq<ReconstructedVector>>, FramePredictors),
        Error,
    >((vectors_of(forward), *pmv)));
    let mut backward: Option<Vec<ReconstructedVector>> = None;
    match &record.motion_vectors_backward {
        Some(mvs) => {
            assert(record@.backward == Some(mvs.entries@));
            let v = reconstruct_vector(
                &mvs.entries[0].motion_vector,
                (f_codes.f_code_bwd_horiz, f_codes.f_code_bwd_vert),
                (pmv.backward_horizontal, pmv.backward_vertical),
            )?;
            pmv.backward_horizontal = v.horizontal.new_pmv;
            pmv.backward_vertical = v.vertical.new_pmv;
            let mut vectors: Vec<ReconstructedVector> = Vec::new();
            vectors.push(v);
            assert(vectors@ =~= seq![v]);
            backward = Some(vectors);
        },
        None => {},
    }
    Ok(ReconstructedMotionVectors { forward, backward })
}

pub proof fn lemma_zero_in_range(f_code: u8)
    ensures
        pmv_in_range(0, f_code),
{
    vstd::arithmetic::power2::lemma_pow2_pos((f_code - 1) as nat);
}

// ---------------------------------------------------------------------------
// The macroblocks of a slice
// ---------------------------------------------------------------------------

/// What is carried from the vectors of one macroblock of a slice to those of the
/// next.
#[derive(Debug, Clone, Copy)]
pub struct MotionState {
    /// The last vectors.
    pub predictors: FramePredictors,
    /// Whether the last macroblock was intra.
    pub after_intra: bool,
}

/// The state at the start of a slice.
pub open spec fn motion_start() -> MotionState {
    MotionState { predictors: zero_predictors(), after_intra: false }
}

/// The last vectors after skipped macroblocks: those of a P-picture are zero.
pub open spec fn predictors_after_skips(
    coding: PictureCodingType,
    predictors: FramePredictors,
    skipped: int,
) -> FramePredictors {
    if skipped > 0 && coding == PictureCodingType::Predictive {
        zero_predictors()
    } else {
        predictors
    }
}

/// The vectors of a macroblock, and the state after it. In a B-picture none may be
/// skipped after an intra macroblock.
pub open spec fn motion_step(
    m: MacroblockFields,
    coding: PictureCodingType,
    f_codes: MotionVectorsContext,
    st: MotionState,
) -> Result<(ReconstructedFields, MotionState)> {
    if m.skipped > 0 && coding == PictureCodingType::Bidirectional && st.after_intra {
        Err(Error::InvalidBitstream(ERR_SKIP_AFTER_INTRA))
    } else {
        match macroblock_motion(
            m,
            coding,
            f_codes,
            predictors_after_skips(coding, st.predictors, m.skipped),
        ) {
            Err(e) => Err(e),
            Ok((vectors, predictors)) => Ok(
                (
                    vectors,
                    (MotionState {
                        predictors,
                        after_intra: m.macroblock_type.macroblock_intra,
                    }),
                ),
            ),
        }
    }
}

/// The vectors of the macroblocks of a slice.
pub open spec fn slice_vectors(
    ms: Seq<MacroblockFields>,
    coding: PictureCodingType,
    f_codes: MotionVectorsContext,
    st: MotionState,
) -> Result<Seq<ReconstructedFields>>
    decreases ms.len(),
{
    if ms.len() == 0 {
        Ok(Seq::empty())
    } else {
        match motion_step(ms[0], coding, f_codes, st) {
            Err(e) => Err(e),
            Ok((first, next)) => match slice_vectors(ms.drop_first(), coding, f_codes, next) {
                Err(e) => Err(e),
                Ok(rest) => Ok(seq![first] + rest),
            },
        }
    }
}

/// What the vectors of macroblocks hold.
pub open spec fn vector_fields(v: Seq<ReconstructedMotionVectors>) -> Seq<ReconstructedFields> {
    Seq::new(v.len(), |i: int| v[i]@)
}

/// Whether the vectors of a macroblock have the codes and residuals of their `f_code`
/// values.
pub open spec fn vectors_readable(m: MacroblockFields, f_codes: MotionVectorsContext) -> bool {
    &&& m.forward matches Some(v) ==> entries_in_range(
        v,
        f_codes.spec_for_kind(MotionVectorsKind::Forward),
    )
    &&& m.backward matches Some(v) ==> entries_in_range(
        v,
        f_codes.spec_for_kind(MotionVectorsKind::Backward),
    )
}

/// Reconstructs the vectors of all macroblocks of a slice.
pub fn reconstruct_slice_motion_vectors(
    records: &Vec<MacroblockRecord>,
    coding: PictureCodingType,
    f_codes: &MotionVectorsContext,
) -> (res: Result<Vec<ReconstructedMotionVectors>>)
    requires
        forall|i: int|
            0 <= i < records@.len() ==> vectors_readable((#[trigger] records@[i])@, *f_codes),
    ensures
        match slice_vectors(fields_of(records@), coding, *f_codes, motion_start()) {
            Ok(vectors) => res is Ok && vector_fields(res->Ok_0@) == vectors,
            Err(e) => res == Err::<Vec<ReconstructedMotionVectors>, Error>(e),
        },
{
    let ghost ms = fields_of(records@);
    let ghost whole = slice_vectors(ms, coding, *f_codes, motion_start());
    let mut st = MotionState { predictors: FramePredictors::zero(), after_intra: false };
    let mut out: Vec<ReconstructedMotionVectors> = Vec::new();
    proof {
        lemma_zero_in_range(f_codes.f_code_fwd_horiz);
        lemma_zero_in_range(f_codes.f_code_fwd_vert);
        lemma_zero_in_range(f_codes.f_code_bwd_horiz);
        lemma_zero_in_range(f_codes.f_code_bwd_vert);
        assert(ms.subrange(0, ms.len() as int) =~= ms);
        if let Ok(vectors) = whole {
            assert(vector_fields(out@) + vectors =~= vectors);
        }
    }
    let mut k: usize = 0;
    while k < records.len()
        invariant
            k <= records@.len(),
            ms == fields_of(records@),
            forall|i: int|
                0 <= i < records@.len() ==> vectors_readable((#[trigger] records@[i])@, *f_codes),
            predictors_in_range(st.predictors, *f_codes),
            predictors_in_range(zero_predictors(), *f_codes),
            whole == slice_vectors(ms, coding, *f_codes, motion_start()),
            match slice_vectors(ms.subrange(k as int, ms.len() as int), coding, *f_codes, st) {
                Err(e) => whole == Err::<Seq<ReconstructedFields>, Error>(e),
                Ok(rest) => whole == Ok::<Seq<ReconstructedFields>, Error>(
                    vector_fields(out@) + rest,
                ),
            },
        decreases records@.len() - k,
    {
        let record = &records[k];
        let ghost left = ms.subrange(k as int, ms.len() as int);
        let ghost before = st;
        let ghost done = out@;
        proof {
            assert(vectors_readable(records@[k as int]@, *f_codes));
            assert(left[0] == record@);
            assert(left.drop_first() =~= ms.subrange(k + 1, ms.len() as int));
        }
        let skipped = record.skipped_macroblock_count > 0;
        if skipped && coding == PictureCodingType::Bidirectional && st.after_intra {
            return Err(Error::InvalidBitstream(ERR_SKIP_AFTER_INTRA));
        }
        if skipped && coding == PictureCodingType::Predictive {
            st.predictors = FramePredictors::zero();
        }
        let mut predictors = st.predictors;
        let vectors = reconstruct_macroblock_motion(record, coding, f_codes, &mut predictors)?;
        st = MotionState { predictors, after_intra: record.macroblock_type.macroblock_intra };
        out.push(vectors);
        proof {
            assert(motion_step(record@, coding, *f_codes, before) == Ok::<
                (ReconstructedFields, MotionState),
                Error,
            >((vectors@, st)));
            if let Ok(rest) = slice_vectors(left.drop_first(), coding, *f_codes, st) {
                assert(vector_fields(done) + (seq![vectors@] + rest) =~= vector_fields(out@)
                    + rest);
            }
        }
        k += 1;
    }
    proof {
        assert(ms.subrange(k as int, ms.len() as int) =~= Seq::<MacroblockFields>::empty());
        assert(vector_fields(out@) + Seq::<ReconstructedFields>::empty() =~= vector_fields(out@));
    }
    Ok(out)
}

/// Every macroblock of a slice gets its vectors.
pub proof fn lemma_as_many_vectors(
    ms: Seq<MacroblockFields>,
    coding: PictureCodingType,
    f_codes: MotionVectorsContext,
    st: MotionState,
)
    ensures
        slice_vectors(ms, coding, f_codes, st) matches Ok(vectors) ==> vectors.len() == ms.len(),
    decreases ms.len(),
{
    if ms.len() > 0 {
        if let Ok((_, next)) = motion_step(ms[0], coding, f_codes, st) {
            lemma_as_many_vectors(ms.drop_first(), coding, f_codes, next);
        }
    }
}

/// A component is the last one plus the coded difference, one turn of the range further
/// or back where that is needed to stay in the range. A difference has the sign of its
/// code and is one more than its residual beyond the codes before.
pub proof fn law_component_is_last_plus_difference(
    code: i8,
    residual: Option<u8>,
    f_code: u8,
    pmv: i32,
)
    requires
        1 <= f_code <= 9,
        -16 <= code <= 16,
        residual matches Some(r) ==> r < code_step(f_code),
        pmv_in_range(pmv, f_code),
    ensures
        ({
            let f = code_step(f_code);
            let c = component_from(code, residual, f_code, pmv)->Ok_0;
            let r = match residual {
                Some(r) => r as int,
                None => 0,
            };
            &&& component_from(code, residual, f_code, pmv) is Ok
            &&& -(16 * f) <= c.vector_prime < 16 * f
            &&& c.new_pmv == c.vector_prime
            &&& c.vector_prime == pmv + c.delta || c.vector_prime == pmv + c.delta + 32 * f
                || c.vector_prime == pmv + c.delta - 32 * f
            &&& code == 0 ==> c.delta == 0
            &&& code > 0 ==> c.delta == code * f - f + r + 1
            &&& code < 0 ==> c.delta == code * f + f - r - 1
        }),
{
    lemma2_to64();
    lemma_component_from(code, residual, f_code, pmv);
    let f = code_step(f_code);
    assert((code - 1) * f == code * f - f) by (nonlinear_arith);
    assert((code + 1) * f == code * f + f) by (nonlinear_arith);
}

/// After a skipped macroblock of a P-picture, and at the start of a slice, vectors are
/// coded by themselves: what came before does not matter.
pub proof fn law_skipping_resets_vectors(
    m: MacroblockFields,
    f_codes: MotionVectorsContext,
    st: MotionState,
)
    requires
        m.skipped > 0,
    ensures
        motion_step(m, PictureCodingType::Predictive, f_codes, st) == motion_step(
            m,
            PictureCodingType::Predictive,
            f_codes,
            motion_start(),
        ),
        motion_start().predictors.of(MotionVectorsKind::Forward) == (0i32, 0i32),
        motion_start().predictors.of(MotionVectorsKind::Backward) == (0i32, 0i32),
{
}

/// So too after an intra macroblock without a concealment vector: the vectors after it
/// are those of a slice that starts there.
pub proof fn law_intra_resets_vectors(
    m: MacroblockFields,
    coding: PictureCodingType,
    f_codes: MotionVectorsContext,
    st: MotionState,
)
    requires
        m.macroblock_type.macroblock_intra,
        m.forward is None,
        m.skipped == 0,
    ensures
        motion_step(m, coding, f_codes, st) matches Ok((_, next)) && next.predictors
            == motion_start().predictors && next.after_intra,
{
}

/// Each direction goes on from its own last vector: a vector is the one before in its
/// direction plus the difference that was coded, horizontal from horizontal and vertical
/// from vertical, and is itself what the next one goes on from. A direction without a
/// vector keeps its last one.
pub proof fn law_directions_go_on_from_their_own(
    m: MacroblockFields,
    coding: PictureCodingType,
    f_codes: MotionVectorsContext,
    pmv: FramePredictors,
    kind: MotionVectorsKind,
)
    requires
        !other_mode(m),
        !m.macroblock_type.macroblock_intra || m.forward is Some,
        coding == PictureCodingType::Predictive ==> m.forward is Some,
        macroblock_motion(m, coding, f_codes, pmv) is Ok,
    ensures
        ({
            let (v, after) = macroblock_motion(m, coding, f_codes, pmv)->Ok_0;
            let forward = kind == MotionVectorsKind::Forward;
            let coded = if forward {
                m.forward
            } else {
                m.backward
            };
            let vectors = if forward {
                v.forward
            } else {
                v.backward
            };
            let codes = if forward {
                (f_codes.f_code_fwd_horiz, f_codes.f_code_fwd_vert)
            } else {
                (f_codes.f_code_bwd_horiz, f_codes.f_code_bwd_vert)
            };
            &&& vectors is Some <==> coded is Some
            &&& coded is None ==> after.of(kind) == pmv.of(kind)
            &&& coded matches Some(e) ==> {
                let w = vectors->0[0];
                let mv = e[0].motion_vector;
                &&& vectors->0.len() == 1
                &&& after.of(kind) == (w.horizontal.new_pmv, w.vertical.new_pmv)
                &&& component_from(
                    mv.motion_code_horiz,
                    mv.motion_residual_horiz,
                    codes.0,
                    pmv.of(kind).0,
                ) == Ok::<ReconstructedComponent, Error>(w.horizontal)
                &&& component_from(
                    mv.motion_code_vert,
                    mv.motion_residual_vert,
                    codes.1,
                    pmv.of(kind).1,
                ) == Ok::<ReconstructedComponent, Error>(w.vertical)
            }
        }),
{
}

} // verus!
