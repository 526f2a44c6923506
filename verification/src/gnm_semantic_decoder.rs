//! Reduced-GNM semantic decoder datasets and artifacts.

use vstd::prelude::*;

use crate::arkit::{Arkit52Coefficients, Arkit52ValueError, ARKIT_NON_TONGUE_CHANNEL_COUNT};
use crate::arkit_teacher::{FaceRegion, GnmRegionFitRecord, PairedTemporalSample, TeacherDatasetError};
use crate::binary::{Binary32, SIGN_32};
use crate::content_hash::{
    canonical_list_bytes, canonical_rows_bytes, fnv1a, fnv_of,
    lemma_single_byte_change_is_detected, put_bytes, put_canonical, put_canonical_rows, put_text, put_texts,
    put_u32, put_u64, text_list_bytes, u32_bytes, u64_bytes, FNV_OFFSET,
};
use crate::hash_changes::{lemma_similar_word_is_detected, lemma_two_words_hash_alike, similar_words};
use crate::linear_map::{
    all_finite, is_all_finite, map_values, LinearPriorFitError, LinearPriorLoadError,
    NormalizedLinearMapArtifact,
};
use crate::observable_basis::projected;
use crate::takes::{
    contains_take, lemma_other_takes_are_not_selected, lemma_selected_positions_fit, names_take, same_takes, selected_positions, sorted_takes, strictly_ordered,
};
use crate::teacher_aligned_basis::{
    is_aligned_reconstruction, project_teacher_aligned_expression,
    reconstruct_teacher_aligned_expression, subtract_non_tongue, TeacherAlignedBasisError,
    TeacherAlignedGnmBasisArtifact,
};
use crate::teacher_residual::{channel_differences, clamp_to_arkit52, is_clamping, micros_to_seconds, seconds_of_micros, zero_features};

verus! {

/// Semantic decoder artifact schema version.
pub const GNM_SEMANTIC_DECODER_SCHEMA_VERSION: u32 = 1;

/// Number of diagnostic regions in every feature slot.
pub const REGION_COUNT: usize = 7;

/// Bit pattern of the number of face landmarks.
pub const LANDMARK_COUNT_BITS: u32 = 0x43ef_0000;

/// Fixed semantic decoder variants.
#[derive(Clone, Copy, Debug, PartialEq, Eq, Structural)]
pub enum GnmSemanticDecoderKind {
    /// Predict teacher non-tongue ARKit channels from reduced GNM features.
    GnmOnly,
    /// Predict the signed teacher-minus-Direct residual with Direct as a skip connection.
    HybridResidual,
}

/// Causal semantic feature settings.
#[derive(Clone, Copy, Debug, PartialEq, Eq, Structural)]
pub struct GnmSemanticFeatureConfig {
    /// Number of newest-first current/past frame slots.
    pub history_len: usize,
    /// Largest permitted timestamp gap within one history.
    pub max_gap_micros: u64,
}

/// Feature order of the decoder that reads the fitted model alone.
pub const GNM_ONLY_FEATURE_ORDER: &'static str =
    "v1:newest-first(reduced-expression+joint-axis-angle+rigid-ypr+objective+regions(contour,brow,eye,nose,mouth,iris,other)[weighted-rms,valid/478])+reduced-expression-velocity+dt-seconds";

/// Feature order of the decoder that also reads the Direct channels.
pub const HYBRID_RESIDUAL_FEATURE_ORDER: &'static str =
    "v1:newest-first(reduced-expression+joint-axis-angle+rigid-ypr+objective+regions(contour,brow,eye,nose,mouth,iris,other)[weighted-rms,valid/478]+direct-non-tongue-51)+reduced-expression-velocity+direct-velocity-51+dt-seconds";

/// Feature order of one decoder kind.
pub open spec fn feature_order_of(kind: GnmSemanticDecoderKind) -> Seq<char> {
    match kind {
        GnmSemanticDecoderKind::GnmOnly => GNM_ONLY_FEATURE_ORDER@,
        GnmSemanticDecoderKind::HybridResidual => HYBRID_RESIDUAL_FEATURE_ORDER@,
    }
}

/// Stable human-readable feature order for one decoder kind.
#[must_use]
pub fn gnm_semantic_feature_order(kind: GnmSemanticDecoderKind) -> (order: String)
    ensures
        order@ == feature_order_of(kind),
{
    match kind {
        GnmSemanticDecoderKind::GnmOnly => GNM_ONLY_FEATURE_ORDER.to_owned(),
        GnmSemanticDecoderKind::HybridResidual => HYBRID_RESIDUAL_FEATURE_ORDER.to_owned(),
    }
}

/// Region at a position of the stable diagnostic order.
pub open spec fn diagnostic_region(at: int) -> FaceRegion {
    if at == 0 {
        FaceRegion::Contour
    } else if at == 1 {
        FaceRegion::Brow
    } else if at == 2 {
        FaceRegion::Eye
    } else if at == 3 {
        FaceRegion::Nose
    } else if at == 4 {
        FaceRegion::Mouth
    } else if at == 5 {
        FaceRegion::Iris
    } else {
        FaceRegion::Other
    }
}

/// Stable diagnostic-region order in every semantic feature slot.
pub fn gnm_diagnostic_region_order() -> (order: [FaceRegion; 7])
    ensures
        forall|i: int| 0 <= i < 7 ==> #[trigger] order@[i] == diagnostic_region(i),
{
    [
        FaceRegion::Contour,
        FaceRegion::Brow,
        FaceRegion::Eye,
        FaceRegion::Nose,
        FaceRegion::Mouth,
        FaceRegion::Iris,
        FaceRegion::Other,
    ]
}

/// Engine-neutral reduced GNM record for one trace frame.
#[derive(Clone, Debug, PartialEq)]
pub struct GnmSemanticFrame {
    /// Source frame sequence.
    pub frame_seq: u64,
    /// Source monotonic timestamp in microseconds.
    pub timestamp_micros: u64,
    /// Teacher-aligned reduced non-tongue expression.
    pub reduced_expression: Vec<Binary32>,
    /// Raw fitted joint rotations in axis-angle order.
    pub joint_rotations: Vec<[Binary32; 3]>,
    /// Raw rigid yaw, pitch, and roll.
    pub rigid_yaw_pitch_roll: [Binary32; 3],
    /// Raw fit objective.
    pub objective: Binary32,
    /// Seven stable-order regional fit records.
    pub region_fits: Vec<GnmRegionFitRecord>,
    /// Exact-frame MediaPipe Direct coefficients.
    pub direct: Arkit52Coefficients,
}

/// What a frame holds.
pub struct SemanticFrameView {
    /// Source frame sequence.
    pub frame_seq: u64,
    /// Source monotonic timestamp in microseconds.
    pub timestamp_micros: u64,
    /// Reduced expression.
    pub reduced: Seq<Binary32>,
    /// Joint rotations.
    pub rotations: Seq<[Binary32; 3]>,
    /// Rigid rotation.
    pub rigid: [Binary32; 3],
    /// Fit objective.
    pub objective: Binary32,
    /// Regional fit records.
    pub regions: Seq<GnmRegionFitRecord>,
    /// Direct coefficients.
    pub direct: Arkit52Coefficients,
}

impl View for GnmSemanticFrame {
    type V = SemanticFrameView;

    open spec fn view(&self) -> SemanticFrameView {
        SemanticFrameView {
            frame_seq: self.frame_seq,
            timestamp_micros: self.timestamp_micros,
            reduced: self.reduced_expression@,
            rotations: self.joint_rotations@,
            rigid: self.rigid_yaw_pitch_roll,
            objective: self.objective,
            regions: self.region_fits@,
            direct: self.direct,
        }
    }
}

/// One supervised decoder row.
#[derive(Clone, Debug, PartialEq)]
pub struct GnmSemanticRow {
    /// Capture take identity.
    pub take_id: String,
    /// Source frame sequence.
    pub frame_seq: u64,
    /// Feature configuration used to construct this row.
    pub feature_config: GnmSemanticFeatureConfig,
    /// Current/past-only semantic features.
    pub features: Vec<Binary32>,
    /// Teacher target or teacher-minus-Direct target.
    pub target: [Binary32; 51],
}

/// Typed semantic dataset/feature failure.
#[derive(Clone, Debug, PartialEq)]
pub enum GnmSemanticDatasetError {
    /// Paired trace validation failed.
    TeacherDataset(TeacherDatasetError),
    /// Aligned basis validation or projection failed.
    Basis(TeacherAlignedBasisError),
    /// History length or maximum gap is invalid.
    InvalidConfig,
    /// History ordering, shape, or continuity is invalid.
    InvalidHistory(&'static str),
    /// Regional diagnostics do not contain the fixed seven regions exactly once.
    InvalidRegions,
}

/// The sample has a fitted state and Direct coefficients.
pub open spec fn has_frame(sample: PairedTemporalSample) -> bool {
    sample.gnm_state is Some && sample.mediapipe_observation is Some
}

/// Frame of a sample whose expression projects to `reduced`.
pub open spec fn frame_with(
    sample: PairedTemporalSample,
    reduced: Seq<Binary32>,
) -> SemanticFrameView {
    let state = sample.gnm_state->0;
    SemanticFrameView {
        frame_seq: sample.frame_seq,
        timestamp_micros: sample.timestamp_micros,
        reduced,
        rotations: state.joint_rotations@,
        rigid: state.rigid_yaw_pitch_roll,
        objective: state.objective,
        regions: state.region_fits@,
        direct: sample.mediapipe_observation->0.direct_coefficients,
    }
}

/// Coordinates of the sample's expression in the basis.
pub open spec fn sample_coordinates(
    sample: PairedTemporalSample,
    basis: TeacherAlignedGnmBasisArtifact,
) -> Seq<Binary32> {
    projected(basis.basis_row_major@, sample.gnm_state->0.expression@, basis.rank as int)
}

/// Why the sample's expression cannot be projected, if it cannot.
pub open spec fn projection_fault(
    sample: PairedTemporalSample,
    basis: TeacherAlignedGnmBasisArtifact,
) -> Option<TeacherAlignedBasisError> {
    if basis.fault() is Some {
        basis.fault()
    } else if !all_finite(sample_coordinates(sample, basis)) {
        Some(TeacherAlignedBasisError::InvalidNumeric("projected expression"))
    } else {
        None
    }
}

/// The outcome of converting a sample.
pub open spec fn frame_outcome(
    sample: PairedTemporalSample,
    basis: TeacherAlignedGnmBasisArtifact,
) -> Result<Option<SemanticFrameView>, GnmSemanticDatasetError> {
    if !has_frame(sample) {
        Ok(None)
    } else if projection_fault(sample, basis) is Some {
        Err(GnmSemanticDatasetError::Basis(projection_fault(sample, basis)->0))
    } else {
        Ok(Some(frame_with(sample, sample_coordinates(sample, basis))))
    }
}

fn copy_rotations(rotations: &Vec<[Binary32; 3]>) -> (copy: Vec<[Binary32; 3]>)
    ensures
        copy@ == rotations@,
{
    let mut copy: Vec<[Binary32; 3]> = Vec::new();
    for i in 0..rotations.len()
        invariant
            copy@ =~= rotations@.take(i as int),
    {
        copy.push(rotations[i]);
    }
    assert(rotations@.take(rotations@.len() as int) =~= rotations@);
    copy
}

fn copy_regions(regions: &Vec<GnmRegionFitRecord>) -> (copy: Vec<GnmRegionFitRecord>)
    ensures
        copy@ == regions@,
{
    let mut copy: Vec<GnmRegionFitRecord> = Vec::new();
    for i in 0..regions.len()
        invariant
            copy@ =~= regions@.take(i as int),
    {
        copy.push(regions[i]);
    }
    assert(regions@.take(regions@.len() as int) =~= regions@);
    copy
}

/// Converts one trace row into an engine-neutral semantic frame.
///
/// # Errors
///
/// Returns an aligned-basis error for an incompatible expression/artifact.
pub fn gnm_semantic_frame_from_sample(
    sample: &PairedTemporalSample,
    basis: &TeacherAlignedGnmBasisArtifact,
) -> (result: Result<Option<GnmSemanticFrame>, GnmSemanticDatasetError>)
    ensures
        match result {
            Ok(None) => frame_outcome(*sample, *basis) == Ok::<_, GnmSemanticDatasetError>(
                None::<SemanticFrameView>,
            ),
            Ok(Some(frame)) => frame_outcome(*sample, *basis) == Ok::<_, GnmSemanticDatasetError>(
                Some(frame@),
            ),
            Err(error) => frame_outcome(*sample, *basis) == Err::<Option<SemanticFrameView>, _>(
                error,
            ),
        },
{
    let (gnm, direct) = match (&sample.gnm_state, &sample.mediapipe_observation) {
        (Some(gnm), Some(direct)) => (gnm, direct),
        _ => {
            return Ok(None);
        },
    };
    let reduced_expression = match project_teacher_aligned_expression(&gnm.expression, basis) {
        Ok(reduced) => reduced,
        Err(error) => {
            return Err(GnmSemanticDatasetError::Basis(error));
        },
    };
    Ok(
        Some(
            GnmSemanticFrame {
                frame_seq: sample.frame_seq,
                timestamp_micros: sample.timestamp_micros,
                reduced_expression,
                joint_rotations: copy_rotations(&gnm.joint_rotations),
                rigid_yaw_pitch_roll: gnm.rigid_yaw_pitch_roll,
                objective: gnm.objective,
                region_fits: copy_regions(&gnm.region_fits),
                direct: direct.direct_coefficients,
            },
        ),
    )
}

/// How often a region occurs among the first `n` records.
pub open spec fn region_count(regions: Seq<GnmRegionFitRecord>, region: FaceRegion, n: int) -> int
    decreases n,
{
    if n <= 0 {
        0
    } else {
        region_count(regions, region, n - 1) + if regions[n - 1].region == region {
            1int
        } else {
            0
        }
    }
}

/// Every diagnostic region occurs exactly once, with a finite residual.
pub open spec fn regions_valid(regions: Seq<GnmRegionFitRecord>) -> bool {
    &&& regions.len() == REGION_COUNT
    &&& forall|r: int|
        0 <= r < 7 ==> region_count(regions, #[trigger] diagnostic_region(r), 7) == 1
    &&& forall|i: int| 0 <= i < 7 ==> (#[trigger] regions[i]).weighted_rms.finite()
}

fn are_regions_valid(regions: &Vec<GnmRegionFitRecord>) -> (valid: bool)
    ensures
        valid == regions_valid(regions@),
{
    if regions.len() != REGION_COUNT {
        return false;
    }
    let order = gnm_diagnostic_region_order();
    for r in 0..REGION_COUNT
        invariant
            regions@.len() == 7,
            forall|i: int| 0 <= i < 7 ==> #[trigger] order@[i] == diagnostic_region(i),
            forall|i: int|
                0 <= i < r ==> region_count(regions@, #[trigger] diagnostic_region(i), 7) == 1,
    {
        let mut count: usize = 0;
        for i in 0..REGION_COUNT
            invariant
                regions@.len() == 7,
                r < 7,
                order@[r as int] == diagnostic_region(r as int),
                count == region_count(regions@, diagnostic_region(r as int), i as int),
                count <= i,
        {
            if regions[i].region == order[r] {
                count = count + 1;
            }
        }
        if count != 1 {
            assert(region_count(regions@, diagnostic_region(r as int), 7) != 1);
            return false;
        }
    }
    for i in 0..REGION_COUNT
        invariant
            regions@.len() == 7,
            forall|j: int| 0 <= j < i ==> (#[trigger] regions@[j]).weighted_rms.finite(),
    {
        if !regions[i].weighted_rms.is_finite() {
            assert(!regions@[i as int].weighted_rms.finite());
            return false;
        }
    }
    true
}

/// Position of the first record of a region at or after `from`.
pub open spec fn region_position(
    regions: Seq<GnmRegionFitRecord>,
    region: FaceRegion,
    from: int,
) -> int
    decreases regions.len() - from,
{
    if from >= regions.len() || from < 0 {
        regions.len() as int
    } else if regions[from].region == region {
        from
    } else {
        region_position(regions, region, from + 1)
    }
}

proof fn lemma_counted_region_is_found(
    regions: Seq<GnmRegionFitRecord>,
    region: FaceRegion,
    from: int,
)
    requires
        0 <= from <= regions.len(),
        region_count(regions, region, regions.len() as int) > region_count(regions, region, from),
    ensures
        from <= region_position(regions, region, from) < regions.len(),
    decreases regions.len() - from,
{
    if from < regions.len() && regions[from].region != region {
        assert(region_count(regions, region, from + 1) == region_count(regions, region, from));
        lemma_counted_region_is_found(regions, region, from + 1);
    }
}

/// Numbers of one axis-angle rotation after another, over the first `n`.
pub open spec fn rotation_features(rotations: Seq<[Binary32; 3]>, n: int) -> Seq<Binary32>
    decreases n,
{
    if n <= 0 {
        Seq::empty()
    } else {
        rotation_features(rotations, n - 1) + rotations[n - 1]@
    }
}

/// Share of the face landmarks that a record used.
pub open spec fn point_share(record: GnmRegionFitRecord) -> Binary32 {
    Binary32::of_integer(record.valid_points as nat).over(Binary32 { bits: LANDMARK_COUNT_BITS })
}

/// Residual and point share of each of the first `n` regions of the stable order.
pub open spec fn region_features(regions: Seq<GnmRegionFitRecord>, n: int) -> Seq<Binary32>
    decreases n,
{
    if n <= 0 {
        Seq::empty()
    } else {
        let record = regions[region_position(regions, diagnostic_region(n - 1), 0)];
        region_features(regions, n - 1).push(record.weighted_rms).push(point_share(record))
    }
}

/// Non-tongue Direct values, for the kind that reads them.
pub open spec fn direct_features(direct: Arkit52Coefficients, kind: GnmSemanticDecoderKind) -> Seq<
    Binary32,
> {
    match kind {
        GnmSemanticDecoderKind::GnmOnly => Seq::empty(),
        GnmSemanticDecoderKind::HybridResidual => direct@.take(
            ARKIT_NON_TONGUE_CHANNEL_COUNT as int,
        ),
    }
}

/// One frame's slot after the reduced expression.
pub open spec fn slot_tail(frame: SemanticFrameView, kind: GnmSemanticDecoderKind) -> Seq<
    Binary32,
> {
    rotation_features(frame.rotations, frame.rotations.len() as int) + frame.rigid@
        + seq![frame.objective] + region_features(frame.regions, 7) + direct_features(
        frame.direct,
        kind,
    )
}

/// One frame's slot.
pub open spec fn slot_features(frame: SemanticFrameView, kind: GnmSemanticDecoderKind) -> Seq<
    Binary32,
> {
    frame.reduced + slot_tail(frame, kind)
}

/// The first `n` slots, newest first.
pub open spec fn slots_before(
    history: Seq<SemanticFrameView>,
    kind: GnmSemanticDecoderKind,
    n: int,
) -> Seq<Binary32>
    decreases n,
{
    if n <= 0 {
        Seq::empty()
    } else {
        slots_before(history, kind, n - 1) + slot_features(history[n - 1], kind)
    }
}

/// Change per second of each number.
pub open spec fn velocities(current: Seq<Binary32>, previous: Seq<Binary32>, dt: Binary32) -> Seq<
    Binary32,
> {
    Seq::new(current.len(), |i: int| current[i].minus(previous[i]).over(dt))
}

/// Time between the two newest frames.
pub open spec fn newest_step(history: Seq<SemanticFrameView>) -> Binary32 {
    micros_to_seconds((history[0].timestamp_micros - history[1].timestamp_micros) as nat)
}

/// The fixed-order feature vector of a history.
pub open spec fn semantic_features(
    history: Seq<SemanticFrameView>,
    kind: GnmSemanticDecoderKind,
    history_len: int,
) -> Seq<Binary32> {
    slots_before(history, kind, history_len) + velocities(
        history[0].reduced,
        history[1].reduced,
        newest_step(history),
    ) + velocities(
        direct_features(history[0].direct, kind),
        direct_features(history[1].direct, kind),
        newest_step(history),
    ) + seq![newest_step(history)]
}

/// Every fitted number of a frame is finite.
pub open spec fn frame_finite(frame: SemanticFrameView) -> bool {
    &&& all_finite(frame.reduced)
    &&& forall|j: int| 0 <= j < frame.rotations.len() ==> all_finite((#[trigger] frame.rotations[j])@)
    &&& all_finite(frame.rigid@)
    &&& frame.objective.finite()
}

/// `newer` directly follows `older` within the largest permitted gap.
pub open spec fn directly_follows(
    newer_seq: u64,
    newer_micros: u64,
    older_seq: u64,
    older_micros: u64,
    max_gap_micros: u64,
) -> bool {
    &&& newer_seq == older_seq + 1
    &&& newer_micros > older_micros
    &&& newer_micros - older_micros <= max_gap_micros
}

/// Whether one frame directly follows another within the largest permitted gap.
pub fn is_direct_successor(
    newer_seq: u64,
    newer_micros: u64,
    older_seq: u64,
    older_micros: u64,
    max_gap_micros: u64,
) -> (follows: bool)
    ensures
        follows == directly_follows(
            newer_seq,
            newer_micros,
            older_seq,
            older_micros,
            max_gap_micros,
        ),
{
    older_seq < u64::MAX && newer_seq == older_seq + 1 && newer_micros > older_micros
        && newer_micros - older_micros <= max_gap_micros
}

/// Why the frame at `index` breaks the history, if it does.
pub open spec fn frame_fault(
    history: Seq<SemanticFrameView>,
    index: int,
    max_gap_micros: u64,
) -> Option<GnmSemanticDatasetError> {
    let frame = history[index];
    if frame.reduced.len() != history[0].reduced.len() || frame.rotations.len()
        != history[0].rotations.len() {
        Some(GnmSemanticDatasetError::InvalidHistory("rank or joint count changed"))
    } else if !regions_valid(frame.regions) {
        Some(GnmSemanticDatasetError::InvalidRegions)
    } else if !frame_finite(frame) {
        Some(GnmSemanticDatasetError::InvalidHistory("non-finite value"))
    } else if index > 0 && !directly_follows(
        history[index - 1].frame_seq,
        history[index - 1].timestamp_micros,
        frame.frame_seq,
        frame.timestamp_micros,
        max_gap_micros,
    ) {
        Some(GnmSemanticDatasetError::InvalidHistory("sequence or timestamp gap"))
    } else {
        None
    }
}

/// The first fault among the first `n` frames, newest first.
pub open spec fn first_frame_fault(
    history: Seq<SemanticFrameView>,
    max_gap_micros: u64,
    n: int,
) -> Option<GnmSemanticDatasetError>
    decreases n,
{
    if n <= 0 {
        None
    } else if first_frame_fault(history, max_gap_micros, n - 1) is Some {
        first_frame_fault(history, max_gap_micros, n - 1)
    } else {
        frame_fault(history, n - 1, max_gap_micros)
    }
}

impl GnmSemanticFeatureConfig {
    /// The settings describe a history.
    pub open spec fn usable(self) -> bool {
        self.history_len > 0 && self.max_gap_micros > 0
    }

    /// Frames that a feature vector needs: the slots, and the frame before the
    /// current one.
    pub open spec fn required(self) -> int {
        if self.history_len < 2 {
            2
        } else {
            self.history_len as int
        }
    }

    /// Frames that a feature vector needs.
    pub fn required_frames(self) -> (required: usize)
        ensures
            required == self.required(),
    {
        if self.history_len < 2 {
            2
        } else {
            self.history_len
        }
    }
}

/// The outcome of building features from a newest-first history.
pub open spec fn feature_outcome(
    history: Seq<SemanticFrameView>,
    kind: GnmSemanticDecoderKind,
    config: GnmSemanticFeatureConfig,
) -> Result<Option<Seq<Binary32>>, GnmSemanticDatasetError> {
    let fault = first_frame_fault(history, config.max_gap_micros, config.required());
    let features = semantic_features(history, kind, config.history_len as int);
    if !config.usable() {
        Err(GnmSemanticDatasetError::InvalidConfig)
    } else if history.len() < config.required() {
        Ok(None)
    } else if history[0].reduced.len() == 0 {
        Err(GnmSemanticDatasetError::InvalidHistory("zero rank"))
    } else if fault is Some {
        Err(fault->0)
    } else if !all_finite(features) {
        Err(GnmSemanticDatasetError::InvalidHistory("non-finite feature"))
    } else {
        Ok(Some(features))
    }
}

/// The frames of a history.
pub open spec fn frame_views(history: Seq<GnmSemanticFrame>) -> Seq<SemanticFrameView> {
    Seq::new(history.len(), |i: int| history[i]@)
}

fn is_frame_finite(frame: &GnmSemanticFrame) -> (finite: bool)
    ensures
        finite == frame_finite(frame@),
{
    if !is_all_finite(&frame.reduced_expression) {
        return false;
    }
    for j in 0..frame.joint_rotations.len()
        invariant
            all_finite(frame.reduced_expression@),
            forall|k: int|
                0 <= k < j ==> all_finite((#[trigger] frame.joint_rotations@[k])@),
    {
        if !is_all_finite(frame.joint_rotations[j].as_slice()) {
            assert(!all_finite(frame@.rotations[j as int]@));
            return false;
        }
    }
    is_all_finite(frame.rigid_yaw_pitch_roll.as_slice()) && frame.objective.is_finite()
}

fn check_frame(history: &Vec<GnmSemanticFrame>, index: usize, max_gap_micros: u64) -> (result: Result<
    (),
    GnmSemanticDatasetError,
>)
    requires
        index < history@.len(),
    ensures
        match result {
            Ok(_) => frame_fault(frame_views(history@), index as int, max_gap_micros) is None,
            Err(error) => frame_fault(frame_views(history@), index as int, max_gap_micros) == Some(
                error,
            ),
        },
{
    let frame = &history[index];
    let current = &history[0];
    if frame.reduced_expression.len() != current.reduced_expression.len()
        || frame.joint_rotations.len() != current.joint_rotations.len() {
        return Err(GnmSemanticDatasetError::InvalidHistory("rank or joint count changed"));
    }
    if !are_regions_valid(&frame.region_fits) {
        return Err(GnmSemanticDatasetError::InvalidRegions);
    }
    if !is_frame_finite(frame) {
        return Err(GnmSemanticDatasetError::InvalidHistory("non-finite value"));
    }
    if index > 0 {
        let newer = &history[index - 1];
        if !is_direct_successor(
            newer.frame_seq,
            newer.timestamp_micros,
            frame.frame_seq,
            frame.timestamp_micros,
            max_gap_micros,
        ) {
            return Err(GnmSemanticDatasetError::InvalidHistory("sequence or timestamp gap"));
        }
    }
    Ok(())
}

/// Appends numbers.
pub fn put_numbers(out: &mut Vec<Binary32>, numbers: &[Binary32])
    ensures
        final(out)@ == old(out)@ + numbers@,
{
    let ghost before = out@;
    for i in 0..numbers.len()
        invariant
            out@ =~= before + numbers@.take(i as int),
    {
        out.push(numbers[i]);
    }
    assert(numbers@.take(numbers@.len() as int) =~= numbers@);
}

/// Appends the Direct values that the kind reads.
pub fn put_direct(out: &mut Vec<Binary32>, direct: &Arkit52Coefficients, kind: GnmSemanticDecoderKind)
    ensures
        final(out)@ == old(out)@ + direct_features(*direct, kind),
{
    let ghost before = out@;
    match kind {
        GnmSemanticDecoderKind::GnmOnly => {
            assert(out@ =~= before + direct_features(*direct, kind));
        },
        GnmSemanticDecoderKind::HybridResidual => {
            for i in 0..ARKIT_NON_TONGUE_CHANNEL_COUNT
                invariant
                    out@ =~= before + direct@.take(i as int),
            {
                out.push(direct.values[i]);
            }
        },
    }
}

fn find_region(regions: &Vec<GnmRegionFitRecord>, region: FaceRegion) -> (at: usize)
    requires
        region_position(regions@, region, 0) < regions@.len(),
    ensures
        at == region_position(regions@, region, 0),
        at < regions@.len(),
{
    let mut at: usize = 0;
    while regions[at].region != region
        invariant
            at < regions@.len(),
            region_position(regions@, region, 0) == region_position(regions@, region, at as int),
            region_position(regions@, region, 0) < regions@.len(),
        decreases regions@.len() - at,
    {
        assert(region_position(regions@, region, at as int) == region_position(
            regions@,
            region,
            at + 1,
        ));
        assert(at + 1 < regions@.len() && regions@.len() == regions.len());
        at = at + 1;
    }
    at
}

/// Appends a frame's slot after the reduced expression.
pub fn put_slot_tail(
    out: &mut Vec<Binary32>,
    frame: &GnmSemanticFrame,
    kind: GnmSemanticDecoderKind,
)
    requires
        regions_valid(frame.region_fits@),
    ensures
        final(out)@ == old(out)@ + slot_tail(frame@, kind),
{
    let ghost before = out@;
    for j in 0..frame.joint_rotations.len()
        invariant
            out@ =~= before + rotation_features(frame.joint_rotations@, j as int),
    {
        put_numbers(out, frame.joint_rotations[j].as_slice());
    }
    put_numbers(out, frame.rigid_yaw_pitch_roll.as_slice());
    out.push(frame.objective);
    let ghost fitted = out@;
    let order = gnm_diagnostic_region_order();
    for r in 0..REGION_COUNT
        invariant
            regions_valid(frame.region_fits@),
            forall|i: int| 0 <= i < 7 ==> #[trigger] order@[i] == diagnostic_region(i),
            out@ =~= fitted + region_features(frame.region_fits@, r as int),
    {
        proof {
            assert(region_count(frame.region_fits@, diagnostic_region(r as int), 7) == 1);
            lemma_counted_region_is_found(
                frame.region_fits@,
                diagnostic_region(r as int),
                0,
            );
        }
        let at: usize = find_region(&frame.region_fits, order[r]);
        let record = frame.region_fits[at];
        out.push(record.weighted_rms);
        out.push(
            Binary32::from_integer(record.valid_points as u64).quotient(
                Binary32::from_bits(LANDMARK_COUNT_BITS),
            ),
        );
    }
    put_direct(out, &frame.direct, kind);
    assert(out@ =~= before + slot_tail(frame@, kind));
}

fn put_slot(out: &mut Vec<Binary32>, frame: &GnmSemanticFrame, kind: GnmSemanticDecoderKind)
    requires
        regions_valid(frame.region_fits@),
    ensures
        final(out)@ == old(out)@ + slot_features(frame@, kind),
{
    let ghost before = out@;
    put_numbers(out, &frame.reduced_expression);
    put_slot_tail(out, frame, kind);
    assert(out@ =~= before + slot_features(frame@, kind));
}

/// Appends the change per second of each number.
pub fn put_velocities(
    out: &mut Vec<Binary32>,
    current: &[Binary32],
    previous: &[Binary32],
    dt: Binary32,
)
    requires
        current@.len() == previous@.len(),
    ensures
        final(out)@ == old(out)@ + velocities(current@, previous@, dt),
{
    let ghost before = out@;
    for i in 0..current.len()
        invariant
            current@.len() == previous@.len(),
            out@ =~= before + velocities(current@, previous@, dt).take(i as int),
    {
        out.push(current[i].difference(previous[i]).quotient(dt));
    }
}

/// Builds one fixed-order current/past feature vector.
///
/// `newest_first_history[0]` is the current frame. No future-frame input exists.
///
/// # Errors
///
/// Rejects malformed ranks, joints, regions, or non-descending/over-gap history.
pub fn build_gnm_semantic_features(
    newest_first_history: &Vec<GnmSemanticFrame>,
    kind: GnmSemanticDecoderKind,
    config: GnmSemanticFeatureConfig,
) -> (result: Result<Option<Vec<Binary32>>, GnmSemanticDatasetError>)
    ensures
        ({
            let outcome = feature_outcome(frame_views(newest_first_history@), kind, config);
            match result {
                Ok(None) => outcome == Ok::<_, GnmSemanticDatasetError>(None::<Seq<Binary32>>),
                Ok(Some(features)) => outcome == Ok::<_, GnmSemanticDatasetError>(
                    Some(features@),
                ),
                Err(error) => outcome == Err::<Option<Seq<Binary32>>, _>(error),
            }
        }),
{
    let ghost views = frame_views(newest_first_history@);
    if config.history_len == 0 || config.max_gap_micros == 0 {
        return Err(GnmSemanticDatasetError::InvalidConfig);
    }
    let required: usize = config.required_frames();
    if newest_first_history.len() < required {
        return Ok(None);
    }
    if newest_first_history[0].reduced_expression.len() == 0 {
        return Err(GnmSemanticDatasetError::InvalidHistory("zero rank"));
    }
    for index in 0..required
        invariant
            required == config.required(),
            config.usable(),
            required <= newest_first_history@.len(),
            views == frame_views(newest_first_history@),
            views[0].reduced.len() > 0,
            first_frame_fault(views, config.max_gap_micros, index as int) is None,
            forall|i: int|
                0 <= i < index ==> frame_fault(views, i, config.max_gap_micros) is None
                    && (#[trigger] views[i]).reduced.len() == views[0].reduced.len()
                    && regions_valid(views[i].regions),
    {
        if let Err(error) = check_frame(newest_first_history, index, config.max_gap_micros) {
            proof {
                lemma_fault_persists(
                    views,
                    config.max_gap_micros,
                    index + 1,
                    required as int,
                );
            }
            return Err(error);
        }
    }
    let mut features: Vec<Binary32> = Vec::new();
    for slot in 0..config.history_len
        invariant
            config.history_len <= newest_first_history@.len(),
            views == frame_views(newest_first_history@),
            forall|i: int|
                0 <= i < config.history_len ==> regions_valid((#[trigger] views[i]).regions),
            features@ == slots_before(views, kind, slot as int),
    {
        assert(regions_valid(views[slot as int].regions));
        put_slot(&mut features, &newest_first_history[slot], kind);
    }
    let current = &newest_first_history[0];
    let previous = &newest_first_history[1];
    proof {
        assert(frame_fault(views, 1, config.max_gap_micros) is None);
        assert(views[1].reduced.len() == views[0].reduced.len());
    }
    let dt = seconds_of_micros(current.timestamp_micros - previous.timestamp_micros);
    put_velocities(
        &mut features,
        &current.reduced_expression,
        &previous.reduced_expression,
        dt,
    );
    let mut current_direct: Vec<Binary32> = Vec::new();
    put_direct(&mut current_direct, &current.direct, kind);
    let mut previous_direct: Vec<Binary32> = Vec::new();
    put_direct(&mut previous_direct, &previous.direct, kind);
    proof {
        assert(current_direct@ =~= direct_features(views[0].direct, kind));
        assert(previous_direct@ =~= direct_features(views[1].direct, kind));
    }
    put_velocities(&mut features, &current_direct, &previous_direct, dt);
    features.push(dt);
    assert(features@ =~= semantic_features(views, kind, config.history_len as int));
    if !is_all_finite(&features) {
        return Err(GnmSemanticDatasetError::InvalidHistory("non-finite feature"));
    }
    Ok(Some(features))
}

proof fn lemma_fault_persists(
    history: Seq<SemanticFrameView>,
    max_gap_micros: u64,
    n: int,
    m: int,
)
    requires
        n <= m,
        first_frame_fault(history, max_gap_micros, n) is Some,
    ensures
        first_frame_fault(history, max_gap_micros, m) == first_frame_fault(
            history,
            max_gap_micros,
            n,
        ),
    decreases m - n,
{
    if n < m {
        lemma_fault_persists(history, max_gap_micros, n, m - 1);
    }
}

/// What a row holds besides its take and settings.
pub struct SemanticRowView {
    /// Source frame sequence.
    pub frame_seq: u64,
    /// Features.
    pub features: Seq<Binary32>,
    /// Target.
    pub target: Seq<Binary32>,
}

/// Target of a row: the teacher, or what the teacher adds to Direct.
pub open spec fn row_target(
    teacher: Arkit52Coefficients,
    direct: Arkit52Coefficients,
    kind: GnmSemanticDecoderKind,
) -> Seq<Binary32> {
    match kind {
        GnmSemanticDecoderKind::GnmOnly => teacher@.take(ARKIT_NON_TONGUE_CHANNEL_COUNT as int),
        GnmSemanticDecoderKind::HybridResidual => channel_differences(teacher@, direct@),
    }
}

/// A history with a new current frame: what does not directly precede it is
/// dropped.
pub open spec fn grown(
    history: Seq<SemanticFrameView>,
    frame: SemanticFrameView,
    config: GnmSemanticFeatureConfig,
) -> Seq<SemanticFrameView> {
    if history.len() > 0 && !directly_follows(
        frame.frame_seq,
        frame.timestamp_micros,
        history[0].frame_seq,
        history[0].timestamp_micros,
        config.max_gap_micros,
    ) {
        seq![frame]
    } else {
        seq![frame] + history
    }
}

/// The newest frames that later features may read.
pub open spec fn trimmed(history: Seq<SemanticFrameView>, config: GnmSemanticFeatureConfig) -> Seq<
    SemanticFrameView,
> {
    if history.len() > config.required() {
        history.take(config.required())
    } else {
        history
    }
}

/// History after one more sample; a sample without teacher or frame clears it.
pub open spec fn history_step(
    history: Seq<SemanticFrameView>,
    sample: PairedTemporalSample,
    basis: TeacherAlignedGnmBasisArtifact,
    config: GnmSemanticFeatureConfig,
) -> Seq<SemanticFrameView> {
    if sample.teacher is None || !has_frame(sample) {
        Seq::empty()
    } else {
        trimmed(
            grown(history, frame_with(sample, sample_coordinates(sample, basis)), config),
            config,
        )
    }
}

/// Row that one more sample gives, if it gives one.
pub open spec fn row_step(
    history: Seq<SemanticFrameView>,
    sample: PairedTemporalSample,
    basis: TeacherAlignedGnmBasisArtifact,
    kind: GnmSemanticDecoderKind,
    config: GnmSemanticFeatureConfig,
) -> Result<Option<SemanticRowView>, GnmSemanticDatasetError> {
    if sample.teacher is None {
        Ok(None)
    } else {
        match frame_outcome(sample, basis) {
            Err(error) => Err(error),
            Ok(None) => Ok(None),
            Ok(Some(frame)) => match feature_outcome(grown(history, frame, config), kind, config) {
                Err(error) => Err(error),
                Ok(None) => Ok(None),
                Ok(Some(features)) => Ok(
                    Some(
                        SemanticRowView {
                            frame_seq: sample.frame_seq,
                            features,
                            target: row_target(sample.teacher->0, frame.direct, kind),
                        },
                    ),
                ),
            },
        }
    }
}

/// History after the first `n` samples.
pub open spec fn history_after(
    samples: Seq<PairedTemporalSample>,
    basis: TeacherAlignedGnmBasisArtifact,
    config: GnmSemanticFeatureConfig,
    n: int,
) -> Seq<SemanticFrameView>
    decreases n,
{
    if n <= 0 {
        Seq::empty()
    } else {
        history_step(history_after(samples, basis, config, n - 1), samples[n - 1], basis, config)
    }
}

/// Rows of the first `n` samples, or the first failure.
pub open spec fn rows_outcome(
    samples: Seq<PairedTemporalSample>,
    basis: TeacherAlignedGnmBasisArtifact,
    kind: GnmSemanticDecoderKind,
    config: GnmSemanticFeatureConfig,
    n: int,
) -> Result<Seq<SemanticRowView>, GnmSemanticDatasetError>
    decreases n,
{
    if n <= 0 {
        Ok(Seq::empty())
    } else {
        match rows_outcome(samples, basis, kind, config, n - 1) {
            Err(error) => Err(error),
            Ok(rows) => match row_step(
                history_after(samples, basis, config, n - 1),
                samples[n - 1],
                basis,
                kind,
                config,
            ) {
                Err(error) => Err(error),
                Ok(None) => Ok(rows),
                Ok(Some(row)) => Ok(rows.push(row)),
            },
        }
    }
}

/// The row as it is stored.
pub open spec fn is_semantic_row(
    take_id: Seq<char>,
    config: GnmSemanticFeatureConfig,
    view: SemanticRowView,
    row: GnmSemanticRow,
) -> bool {
    &&& row.take_id@ == take_id
    &&& row.frame_seq == view.frame_seq
    &&& row.feature_config == config
    &&& row.features@ == view.features
    &&& row.target@ == view.target
}

/// The rows as they are stored.
pub open spec fn are_semantic_rows(
    take_id: Seq<char>,
    config: GnmSemanticFeatureConfig,
    views: Seq<SemanticRowView>,
    rows: Seq<GnmSemanticRow>,
) -> bool {
    &&& rows.len() == views.len()
    &&& forall|i: int|
        0 <= i < rows.len() ==> is_semantic_row(take_id, config, views[i], #[trigger] rows[i])
}

fn make_target(
    teacher: &Arkit52Coefficients,
    direct: &Arkit52Coefficients,
    kind: GnmSemanticDecoderKind,
) -> (target: [Binary32; 51])
    ensures
        target@ == row_target(*teacher, *direct, kind),
{
    match kind {
        GnmSemanticDecoderKind::HybridResidual => subtract_non_tongue(teacher, direct),
        GnmSemanticDecoderKind::GnmOnly => {
            let mut target: [Binary32; 51] = [Binary32::zero();51];
            for i in 0..ARKIT_NON_TONGUE_CHANNEL_COUNT
                invariant
                    forall|k: int| 0 <= k < i ==> #[trigger] target@[k] == teacher@[k],
            {
                target[i] = teacher.values[i];
            }
            assert(target@ =~= row_target(*teacher, *direct, kind));
            target
        },
    }
}

fn take_sample(
    take_id: &String,
    sample: &PairedTemporalSample,
    basis: &TeacherAlignedGnmBasisArtifact,
    kind: GnmSemanticDecoderKind,
    config: GnmSemanticFeatureConfig,
    history: &mut Vec<GnmSemanticFrame>,
) -> (result: Result<Option<GnmSemanticRow>, GnmSemanticDatasetError>)
    ensures
        result is Ok ==> frame_views(final(history)@) == history_step(
            frame_views(old(history)@),
            *sample,
            *basis,
            config,
        ),
        ({
            let outcome = row_step(frame_views(old(history)@), *sample, *basis, kind, config);
            match result {
                Ok(None) => outcome == Ok::<_, GnmSemanticDatasetError>(None::<SemanticRowView>),
                Ok(Some(row)) => {
                    &&& outcome is Ok
                    &&& outcome->Ok_0 is Some
                    &&& is_semantic_row(take_id@, config, outcome->Ok_0->0, row)
                },
                Err(error) => outcome == Err::<Option<SemanticRowView>, _>(error),
            }
        }),
{
    let ghost before = frame_views(history@);
    let teacher = match &sample.teacher {
        Some(teacher) => teacher,
        None => {
            history.clear();
            assert(frame_views(history@) =~= Seq::empty());
            return Ok(None);
        },
    };
    let frame = match gnm_semantic_frame_from_sample(sample, basis) {
        Err(error) => {
            return Err(error);
        },
        Ok(None) => {
            history.clear();
            assert(frame_views(history@) =~= Seq::empty());
            return Ok(None);
        },
        Ok(Some(frame)) => frame,
    };
    let ghost view = frame@;
    if history.len() > 0 {
        let newest = &history[0];
        if !is_direct_successor(
            frame.frame_seq,
            frame.timestamp_micros,
            newest.frame_seq,
            newest.timestamp_micros,
            config.max_gap_micros,
        ) {
            history.clear();
        }
    }
    let direct = frame.direct;
    history.insert(0, frame);
    assert(frame_views(history@) =~= grown(before, view, config));
    let row = match build_gnm_semantic_features(history, kind, config) {
        Err(error) => {
            return Err(error);
        },
        Ok(None) => None,
        Ok(Some(features)) => Some(
            GnmSemanticRow {
                take_id: take_id.clone(),
                frame_seq: sample.frame_seq,
                feature_config: config,
                features,
                target: make_target(teacher, &direct, kind),
            },
        ),
    };
    history.truncate(config.required_frames());
    assert(frame_views(history@) =~= history_step(before, *sample, *basis, config));
    Ok(row)
}

/// Builds causal rows, clearing history at missing or discontinuous frames.
///
/// `pairing` is the outcome of validating the trace's frame pairing.
///
/// # Errors
///
/// Returns typed source, basis, configuration, and feature validation failures.
pub fn build_gnm_semantic_rows(
    take_id: &String,
    samples: &Vec<PairedTemporalSample>,
    basis: &TeacherAlignedGnmBasisArtifact,
    kind: GnmSemanticDecoderKind,
    config: GnmSemanticFeatureConfig,
    pairing: Result<(), TeacherDatasetError>,
) -> (result: Result<Vec<GnmSemanticRow>, GnmSemanticDatasetError>)
    ensures
        ({
            let outcome = rows_outcome(samples@, *basis, kind, config, samples@.len() as int);
            match result {
                Ok(rows) => {
                    &&& config.usable()
                    &&& pairing is Ok
                    &&& outcome is Ok
                    &&& are_semantic_rows(take_id@, config, outcome->Ok_0, rows@)
                },
                Err(error) => {
                    if !config.usable() {
                        error == GnmSemanticDatasetError::InvalidConfig
                    } else if pairing is Err {
                        error == GnmSemanticDatasetError::TeacherDataset(pairing->Err_0)
                    } else {
                        outcome == Err::<Seq<SemanticRowView>, _>(error)
                    }
                },
            }
        }),
{
    if config.history_len == 0 || config.max_gap_micros == 0 {
        return Err(GnmSemanticDatasetError::InvalidConfig);
    }
    if let Err(error) = pairing {
        return Err(GnmSemanticDatasetError::TeacherDataset(error));
    }
    let mut rows: Vec<GnmSemanticRow> = Vec::new();
    let mut history: Vec<GnmSemanticFrame> = Vec::new();
    assert(frame_views(history@) =~= Seq::empty());
    for i in 0..samples.len()
        invariant
            config.usable(),
            pairing is Ok,
            frame_views(history@) == history_after(samples@, *basis, config, i as int),
            rows_outcome(samples@, *basis, kind, config, i as int) is Ok,
            are_semantic_rows(
                take_id@,
                config,
                rows_outcome(samples@, *basis, kind, config, i as int)->Ok_0,
                rows@,
            ),
    {
        match take_sample(take_id, &samples[i], basis, kind, config, &mut history) {
            Err(error) => {
                proof {
                    lemma_row_failure_persists(
                        samples@,
                        *basis,
                        kind,
                        config,
                        i + 1,
                        samples@.len() as int,
                    );
                }
                return Err(error);
            },
            Ok(None) => {},
            Ok(Some(row)) => {
                rows.push(row);
            },
        }
    }
    Ok(rows)
}

proof fn lemma_row_failure_persists(
    samples: Seq<PairedTemporalSample>,
    basis: TeacherAlignedGnmBasisArtifact,
    kind: GnmSemanticDecoderKind,
    config: GnmSemanticFeatureConfig,
    n: int,
    m: int,
)
    requires
        n <= m,
        rows_outcome(samples, basis, kind, config, n) is Err,
    ensures
        rows_outcome(samples, basis, kind, config, m) == rows_outcome(
            samples,
            basis,
            kind,
            config,
            n,
        ),
    decreases m - n,
{
    if n < m {
        lemma_row_failure_persists(samples, basis, kind, config, n, m - 1);
    }
}

/// Rows look back only: what the first `n` samples give does not depend on any
/// later sample.
pub proof fn lemma_future_does_not_change_semantic_rows(
    left: Seq<PairedTemporalSample>,
    right: Seq<PairedTemporalSample>,
    basis: TeacherAlignedGnmBasisArtifact,
    kind: GnmSemanticDecoderKind,
    config: GnmSemanticFeatureConfig,
    n: int,
)
    requires
        n <= left.len(),
        n <= right.len(),
        forall|i: int| 0 <= i < n ==> left[i] == right[i],
    ensures
        rows_outcome(left, basis, kind, config, n) == rows_outcome(right, basis, kind, config, n),
        history_after(left, basis, config, n) == history_after(right, basis, config, n),
    decreases n,
{
    if n > 0 {
        lemma_future_does_not_change_semantic_rows(left, right, basis, kind, config, n - 1);
        assert(left[n - 1] == right[n - 1]);
    }
}

/// A sample without teacher, fitted state or Direct coefficients starts the
/// history over: the next row is built as if nothing had come before.
pub proof fn lemma_missing_evidence_clears_the_history(
    samples: Seq<PairedTemporalSample>,
    basis: TeacherAlignedGnmBasisArtifact,
    config: GnmSemanticFeatureConfig,
    n: int,
)
    requires
        0 < n <= samples.len(),
        samples[n - 1].teacher is None || !has_frame(samples[n - 1]),
    ensures
        history_after(samples, basis, config, n) == Seq::<SemanticFrameView>::empty(),
{
}

/// Number of features of one frame's slot without Direct values.
pub open spec fn common_width(rank: int, joint_count: int) -> int {
    rank + joint_count * 3 + 3 + 1 + 14
}

/// Number of Direct values in a slot.
pub open spec fn direct_width(kind: GnmSemanticDecoderKind) -> int {
    match kind {
        GnmSemanticDecoderKind::GnmOnly => 0,
        GnmSemanticDecoderKind::HybridResidual => ARKIT_NON_TONGUE_CHANNEL_COUNT as int,
    }
}

/// Number of features of a row.
pub open spec fn semantic_width(
    rank: int,
    joint_count: int,
    kind: GnmSemanticDecoderKind,
    history_len: int,
) -> int {
    history_len * (common_width(rank, joint_count) + direct_width(kind)) + rank + direct_width(kind)
        + 1
}

proof fn lemma_rotation_features_width(rotations: Seq<[Binary32; 3]>, n: int)
    requires
        0 <= n,
    ensures
        rotation_features(rotations, n).len() == 3 * n,
    decreases n,
{
    if n > 0 {
        lemma_rotation_features_width(rotations, n - 1);
    }
}

proof fn lemma_region_features_width(regions: Seq<GnmRegionFitRecord>, n: int)
    requires
        0 <= n,
    ensures
        region_features(regions, n).len() == 2 * n,
    decreases n,
{
    if n > 0 {
        lemma_region_features_width(regions, n - 1);
    }
}

proof fn lemma_slots_width(
    history: Seq<SemanticFrameView>,
    kind: GnmSemanticDecoderKind,
    rank: int,
    joint_count: int,
    n: int,
)
    requires
        0 <= n <= history.len(),
        forall|i: int|
            0 <= i < n ==> (#[trigger] history[i]).reduced.len() == rank
                && history[i].rotations.len() == joint_count,
    ensures
        slots_before(history, kind, n).len() == n * (common_width(rank, joint_count)
            + direct_width(kind)),
    decreases n,
{
    let slot = common_width(rank, joint_count) + direct_width(kind);
    if n > 0 {
        lemma_slots_width(history, kind, rank, joint_count, n - 1);
        let frame = history[n - 1];
        lemma_rotation_features_width(frame.rotations, frame.rotations.len() as int);
        lemma_region_features_width(frame.regions, 7);
        assert(slot_features(frame, kind).len() == slot);
        assert((n - 1) * slot + slot == n * slot) by (nonlinear_arith);
    } else {
        assert(n * slot == 0) by (nonlinear_arith)
            requires
                n == 0,
        ;
    }
}

/// Every feature vector has the width that its rank, joint count, kind and
/// history length fix.
pub proof fn lemma_features_have_fixed_width(
    history: Seq<SemanticFrameView>,
    kind: GnmSemanticDecoderKind,
    config: GnmSemanticFeatureConfig,
)
    requires
        feature_outcome(history, kind, config) matches Ok(Some(_)),
    ensures
        semantic_features(history, kind, config.history_len as int).len() == semantic_width(
            history[0].reduced.len() as int,
            history[0].rotations.len() as int,
            kind,
            config.history_len as int,
        ),
{
    let required = config.required();
    assert forall|i: int| 0 <= i < required implies (#[trigger] history[i]).reduced.len()
        == history[0].reduced.len() && history[i].rotations.len()
        == history[0].rotations.len() by {
        lemma_no_fault_below(history, config.max_gap_micros, i, required);
    }
    lemma_slots_width(
        history,
        kind,
        history[0].reduced.len() as int,
        history[0].rotations.len() as int,
        config.history_len as int,
    );
}

/// A history without a fault has none at any of its frames.
pub proof fn lemma_no_fault_below(
    history: Seq<SemanticFrameView>,
    max_gap_micros: u64,
    i: int,
    n: int,
)
    requires
        0 <= i < n,
        first_frame_fault(history, max_gap_micros, n) is None,
    ensures
        frame_fault(history, i, max_gap_micros) is None,
    decreases n,
{
    if i < n - 1 {
        lemma_no_fault_below(history, max_gap_micros, i, n - 1);
    }
}

/// The joint count can be read off the width: no two joint counts give rows of
/// one rank, kind and history length the same width.
pub proof fn lemma_width_fixes_the_joint_count(
    rank: int,
    left: int,
    right: int,
    kind: GnmSemanticDecoderKind,
    history_len: int,
)
    requires
        history_len > 0,
        semantic_width(rank, left, kind, history_len) == semantic_width(
            rank,
            right,
            kind,
            history_len,
        ),
    ensures
        left == right,
{
    let a = common_width(rank, left) + direct_width(kind);
    let b = common_width(rank, right) + direct_width(kind);
    assert(a == b) by (nonlinear_arith)
        requires
            history_len > 0,
            history_len * a == history_len * b,
    ;
}

/// Versioned normalized ridge decoder.
#[derive(Clone, Debug, PartialEq)]
pub struct GnmSemanticDecoderArtifact {
    /// Artifact schema version.
    pub schema_version: u32,
    /// Target/output semantics.
    pub kind: GnmSemanticDecoderKind,
    /// Content hash of the teacher-aligned basis.
    pub aligned_basis_content_hash: u64,
    /// SHA-256 of the GNM model.
    pub model_sha256: String,
    /// Teacher-aligned expression rank.
    pub rank: usize,
    /// GNM joint count encoded in each slot.
    pub joint_count: usize,
    /// Exact stable feature order.
    pub feature_order: String,
    /// Causal history configuration.
    pub feature_config: GnmSemanticFeatureConfig,
    /// Ordered training take ids.
    pub training_takes: Vec<String>,
    /// Shared normalized ridge map.
    pub linear_map: NormalizedLinearMapArtifact,
    /// Deterministic hash over every preceding field.
    pub content_hash: u64,
}

/// Byte that stands for a decoder kind in the hash.
pub open spec fn kind_byte(kind: GnmSemanticDecoderKind) -> u8 {
    match kind {
        GnmSemanticDecoderKind::GnmOnly => 0,
        GnmSemanticDecoderKind::HybridResidual => 1,
    }
}

impl GnmSemanticDecoderArtifact {
    /// The hashed bytes after the kind.
    pub open spec fn hashed_tail(self) -> Seq<u8> {
        u64_bytes(self.aligned_basis_content_hash) + vstd::utf8::encode_utf8(self.model_sha256@)
            + u64_bytes(self.rank as u64) + u64_bytes(self.joint_count as u64) + self.hashed_rest()
    }

    /// The hashed bytes after the joint count.
    pub open spec fn hashed_rest(self) -> Seq<u8> {
        vstd::utf8::encode_utf8(self.feature_order@) + u64_bytes(
            self.feature_config.history_len as u64,
        ) + u64_bytes(self.feature_config.max_gap_micros) + text_list_bytes(self.training_takes@)
            + canonical_list_bytes(self.linear_map.feature_mean@) + canonical_list_bytes(
            self.linear_map.feature_std@,
        ) + canonical_list_bytes(self.linear_map.target_mean@) + canonical_list_bytes(
            self.linear_map.target_std@,
        ) + canonical_rows_bytes(self.linear_map.weights@)
    }

    /// The bytes that the content hash covers.
    pub open spec fn hashed_bytes(self) -> Seq<u8> {
        u32_bytes(self.schema_version).push(kind_byte(self.kind)) + self.hashed_tail()
    }

    /// The stored hash covers the contents.
    pub open spec fn hash_matches(self) -> bool {
        self.content_hash == fnv_of(self.hashed_bytes())
    }

    /// Number of features that the decoder reads.
    pub open spec fn width(self) -> int {
        semantic_width(
            self.rank as int,
            self.joint_count as int,
            self.kind,
            self.feature_config.history_len as int,
        )
    }

    /// The error owed for the first failed check before prediction, if one fails.
    pub open spec fn is_refusal(
        self,
        features: Seq<Binary32>,
        error: LinearPriorLoadError,
    ) -> bool {
        if self.schema_version != GNM_SEMANTIC_DECODER_SCHEMA_VERSION {
            error == (LinearPriorLoadError::UnsupportedSchemaVersion {
                found: self.schema_version,
            })
        } else if !self.hash_matches() {
            error == (LinearPriorLoadError::ContentHashMismatch {
                recorded: self.content_hash,
                computed: fnv_of(self.hashed_bytes()),
            })
        } else if self.feature_order@ != feature_order_of(self.kind) {
            &&& error matches LinearPriorLoadError::FeatureOrderMismatch { expected, found }
            &&& expected@ == feature_order_of(self.kind)
            &&& found@ == self.feature_order@
        } else if features.len() != self.width() || !self.linear_map.fits(features.len() as int) {
            &&& error matches LinearPriorLoadError::DimensionMismatch { detail }
            &&& detail@ == "GNM semantic decoder dimensions disagree"@
        } else {
            &&& !(all_finite(features) && self.linear_map.scales_usable()
                && self.linear_map.means_usable())
            &&& error matches LinearPriorLoadError::InvalidNormalization { field }
            &&& field@ == "GNM semantic decoder feature/normalization"@
        }
    }

    /// The artifact and the features pass every check before prediction.
    pub open spec fn accepts(self, features: Seq<Binary32>) -> bool {
        &&& self.schema_version == GNM_SEMANTIC_DECODER_SCHEMA_VERSION
        &&& self.hash_matches()
        &&& self.feature_order@ == feature_order_of(self.kind)
        &&& features.len() == self.width()
        &&& self.linear_map.fits(features.len() as int)
        &&& all_finite(features)
        &&& self.linear_map.scales_usable()
        &&& self.linear_map.means_usable()
    }

    /// What the map gives for the features; sums begin at negative zero.
    pub open spec fn prediction(self, features: Seq<Binary32>) -> Seq<Binary32> {
        map_values(self.linear_map, features, Binary32 { bits: SIGN_32 })
    }
}

fn decoder_tail(artifact: &GnmSemanticDecoderArtifact) -> (tail: Vec<u8>)
    ensures
        tail@ == artifact.hashed_tail(),
{
    let mut tail: Vec<u8> = Vec::new();
    put_u64(&mut tail, artifact.aligned_basis_content_hash);
    assert(tail@ =~= u64_bytes(artifact.aligned_basis_content_hash));
    put_text(&mut tail, &artifact.model_sha256);
    put_u64(&mut tail, artifact.rank as u64);
    put_u64(&mut tail, artifact.joint_count as u64);
    put_text(&mut tail, &artifact.feature_order);
    put_u64(&mut tail, artifact.feature_config.history_len as u64);
    put_u64(&mut tail, artifact.feature_config.max_gap_micros);
    put_texts(&mut tail, &artifact.training_takes);
    put_canonical(&mut tail, &artifact.linear_map.feature_mean);
    put_canonical(&mut tail, &artifact.linear_map.feature_std);
    put_canonical(&mut tail, &artifact.linear_map.target_mean);
    put_canonical(&mut tail, &artifact.linear_map.target_std);
    put_canonical_rows(&mut tail, &artifact.linear_map.weights);
    assert(tail@ =~= artifact.hashed_tail());
    tail
}

/// Hash over every field but the hash itself.
pub fn hash_decoder(artifact: &GnmSemanticDecoderArtifact) -> (hash: u64)
    ensures
        hash == fnv_of(artifact.hashed_bytes()),
{
    let mut bytes: Vec<u8> = Vec::new();
    put_u32(&mut bytes, artifact.schema_version);
    let kind: u8 = match artifact.kind {
        GnmSemanticDecoderKind::GnmOnly => 0,
        GnmSemanticDecoderKind::HybridResidual => 1,
    };
    bytes.push(kind);
    let tail = decoder_tail(artifact);
    put_bytes(&mut bytes, &tail);
    assert(bytes@ =~= artifact.hashed_bytes());
    fnv1a(&bytes)
}

/// Whether a feature row has the width of the decoder.
pub fn is_semantic_width(
    len: usize,
    rank: usize,
    joint_count: usize,
    kind: GnmSemanticDecoderKind,
    history_len: usize,
) -> (fits: bool)
    ensures
        fits == (len == semantic_width(
            rank as int,
            joint_count as int,
            kind,
            history_len as int,
        )),
{
    let direct: usize = match kind {
        GnmSemanticDecoderKind::GnmOnly => 0,
        GnmSemanticDecoderKind::HybridResidual => ARKIT_NON_TONGUE_CHANNEL_COUNT,
    };
    let ghost slot = common_width(rank as int, joint_count as int) + direct_width(kind);
    proof {
        assert(history_len == 0 ==> history_len * slot == 0) by (nonlinear_arith);
        assert(history_len >= 1 && slot >= 0 ==> history_len * slot >= slot) by (nonlinear_arith);
    }
    if len < 1 || len - 1 < direct || len - 1 - direct < rank {
        assert(history_len * slot >= 0) by (nonlinear_arith)
            requires
                slot >= 0,
        ;
        return false;
    }
    let slots: usize = len - 1 - direct - rank;
    if history_len == 0 {
        return slots == 0;
    }
    let width: Option<usize> = match joint_count.checked_mul(3) {
        Some(joints) => match joints.checked_add(rank) {
            Some(sum) => match sum.checked_add(18 + direct) {
                Some(width) => width.checked_mul(history_len),
                None => None,
            },
            None => None,
        },
        None => None,
    };
    match width {
        Some(width) => {
            assert(slot * history_len == history_len * slot) by (nonlinear_arith);
            width == slots
        },
        None => {
            assert(slot * history_len == history_len * slot) by (nonlinear_arith);
            assert(history_len * slot > usize::MAX);
            false
        },
    }
}

/// Predicts unclamped channels or signed residuals.
///
/// # Errors
///
/// Rejects schema/hash/order/dimension and non-finite normalization failures.
pub fn predict_gnm_semantic_raw(
    artifact: &GnmSemanticDecoderArtifact,
    features: &Vec<Binary32>,
) -> (result: Result<Vec<Binary32>, LinearPriorLoadError>)
    ensures
        match result {
            Ok(prediction) => {
                &&& artifact.accepts(features@)
                &&& all_finite(artifact.prediction(features@))
                &&& prediction@ == artifact.prediction(features@)
            },
            Err(error) => {
                if artifact.accepts(features@) {
                    &&& !all_finite(artifact.prediction(features@))
                    &&& error matches LinearPriorLoadError::InvalidNormalization { field }
                    &&& field@ == "GNM semantic decoder prediction"@
                } else {
                    artifact.is_refusal(features@, error)
                }
            },
        },
{
    if artifact.schema_version != GNM_SEMANTIC_DECODER_SCHEMA_VERSION {
        return Err(
            LinearPriorLoadError::UnsupportedSchemaVersion { found: artifact.schema_version },
        );
    }
    let computed: u64 = hash_decoder(artifact);
    if computed != artifact.content_hash {
        return Err(
            LinearPriorLoadError::ContentHashMismatch {
                recorded: artifact.content_hash,
                computed,
            },
        );
    }
    let expected = gnm_semantic_feature_order(artifact.kind);
    if artifact.feature_order != expected {
        return Err(
            LinearPriorLoadError::FeatureOrderMismatch {
                expected,
                found: artifact.feature_order.clone(),
            },
        );
    }
    if !is_semantic_width(
        features.len(),
        artifact.rank,
        artifact.joint_count,
        artifact.kind,
        artifact.feature_config.history_len,
    ) || !artifact.linear_map.is_fitting(features.len()) {
        return Err(
            LinearPriorLoadError::DimensionMismatch {
                detail: "GNM semantic decoder dimensions disagree".to_owned(),
            },
        );
    }
    if !is_all_finite(features) || !artifact.linear_map.has_usable_scales()
        || !artifact.linear_map.has_usable_means() {
        return Err(
            LinearPriorLoadError::InvalidNormalization {
                field: "GNM semantic decoder feature/normalization".to_owned(),
            },
        );
    }
    let prediction = artifact.linear_map.apply(features, Binary32::from_bits(SIGN_32));
    if !is_all_finite(&prediction) {
        return Err(
            LinearPriorLoadError::InvalidNormalization {
                field: "GNM semantic decoder prediction".to_owned(),
            },
        );
    }
    Ok(prediction)
}

/// Clamps a raw prediction only at the final ARKit52 boundary.
///
/// # Errors
///
/// Returns an ARKit value error when an input is non-finite.
pub fn gnm_only_prediction_to_arkit52(raw: &Vec<Binary32>) -> (result: Result<
    Arkit52Coefficients,
    Arkit52ValueError,
>)
    requires
        raw@.len() == ARKIT_NON_TONGUE_CHANNEL_COUNT,
    ensures
        is_clamping(raw@, result),
{
    clamp_to_arkit52(raw)
}

/// The artifact with exactly one of its kind, basis hash, rank and joint count
/// altered and its content hash kept. A word may be counted up or down by one, or
/// altered in up to four neighbouring bytes; words below two to the thirty-second may
/// be altered at will. Where a word is altered further its hash decides (see
/// [`lemma_altered_decoder_is_refused_by_its_hash`]): that some such changes go
/// unnoticed is shown by [`lemma_wide_change_can_go_unnoticed`].
pub open spec fn is_tampered(
    artifact: GnmSemanticDecoderArtifact,
    altered: GnmSemanticDecoderArtifact,
) -> bool {
    ||| {
        &&& altered == (GnmSemanticDecoderArtifact { kind: altered.kind, ..artifact })
        &&& altered.kind != artifact.kind
    }
    ||| {
        &&& altered == (GnmSemanticDecoderArtifact {
            aligned_basis_content_hash: altered.aligned_basis_content_hash,
            ..artifact
        })
        &&& altered.aligned_basis_content_hash != artifact.aligned_basis_content_hash
        &&& similar_words(altered.aligned_basis_content_hash, artifact.aligned_basis_content_hash)
    }
    ||| {
        &&& altered == (GnmSemanticDecoderArtifact { rank: altered.rank, ..artifact })
        &&& altered.rank != artifact.rank
        &&& similar_words(altered.rank as u64, artifact.rank as u64)
    }
    ||| {
        &&& altered == (GnmSemanticDecoderArtifact { joint_count: altered.joint_count, ..artifact })
        &&& altered.joint_count != artifact.joint_count
        &&& similar_words(altered.joint_count as u64, artifact.joint_count as u64)
    }
}

/// A decoder altered in any way, its schema version and content hash kept, is refused
/// with the hash error exactly where the contents hash to something else. Contents
/// that happen to hash alike are what the hash cannot tell apart.
pub proof fn lemma_altered_decoder_is_refused_by_its_hash(
    artifact: GnmSemanticDecoderArtifact,
    altered: GnmSemanticDecoderArtifact,
    features: Seq<Binary32>,
    error: LinearPriorLoadError,
)
    requires
        artifact.schema_version == GNM_SEMANTIC_DECODER_SCHEMA_VERSION,
        artifact.hash_matches(),
        altered.schema_version == artifact.schema_version,
        altered.content_hash == artifact.content_hash,
    ensures
        altered.hash_matches() <==> fnv_of(altered.hashed_bytes()) == fnv_of(
            artifact.hashed_bytes(),
        ),
        !altered.hash_matches() ==> {
            &&& !altered.accepts(features)
            &&& altered.is_refusal(features, error) <==> error == (
            LinearPriorLoadError::ContentHashMismatch {
                recorded: artifact.content_hash,
                computed: fnv_of(altered.hashed_bytes()),
            })
        },
{
}

/// A tampered decoder is refused, whatever it is asked: the hash no longer covers the
/// contents, and the error says so.
pub proof fn lemma_tampered_decoder_is_refused(
    artifact: GnmSemanticDecoderArtifact,
    altered: GnmSemanticDecoderArtifact,
    features: Seq<Binary32>,
    error: LinearPriorLoadError,
)
    requires
        artifact.schema_version == GNM_SEMANTIC_DECODER_SCHEMA_VERSION,
        artifact.hash_matches(),
        is_tampered(artifact, altered),
    ensures
        !altered.hash_matches(),
        !altered.accepts(features),
        altered.is_refusal(features, error) <==> error == (
        LinearPriorLoadError::ContentHashMismatch {
            recorded: artifact.content_hash,
            computed: fnv_of(altered.hashed_bytes()),
        }),
        artifact.content_hash != fnv_of(altered.hashed_bytes()),
{
    let head = u32_bytes(artifact.schema_version).push(kind_byte(artifact.kind));
    let model = vstd::utf8::encode_utf8(artifact.model_sha256@);
    let rest = artifact.hashed_rest();
    let basis = u64_bytes(artifact.aligned_basis_content_hash);
    let rank = u64_bytes(artifact.rank as u64);
    let joints = u64_bytes(artifact.joint_count as u64);
    lemma_decoder_layout(artifact);
    lemma_decoder_layout(altered);
    if altered.kind != artifact.kind {
        lemma_relabelled_bytes_hash_apart(artifact, altered);
    } else if altered.aligned_basis_content_hash != artifact.aligned_basis_content_hash {
        lemma_similar_word_is_detected(
            FNV_OFFSET,
            head,
            altered.aligned_basis_content_hash,
            artifact.aligned_basis_content_hash,
            model + rank + joints + rest,
        );
    } else if altered.rank != artifact.rank {
        lemma_similar_word_is_detected(
            FNV_OFFSET,
            head + basis + model,
            altered.rank as u64,
            artifact.rank as u64,
            joints + rest,
        );
    } else {
        lemma_similar_word_is_detected(
            FNV_OFFSET,
            head + basis + model + rank,
            altered.joint_count as u64,
            artifact.joint_count as u64,
            rest,
        );
    }
}

/// Where the words lie in what is hashed.
proof fn lemma_decoder_layout(artifact: GnmSemanticDecoderArtifact)
    ensures
        ({
            let head = u32_bytes(artifact.schema_version).push(kind_byte(artifact.kind));
            let model = vstd::utf8::encode_utf8(artifact.model_sha256@);
            let rest = artifact.hashed_rest();
            let basis = u64_bytes(artifact.aligned_basis_content_hash);
            let rank = u64_bytes(artifact.rank as u64);
            let joints = u64_bytes(artifact.joint_count as u64);
            let bytes = artifact.hashed_bytes();
            &&& bytes == head + basis + (model + rank + joints + rest)
            &&& bytes == (head + basis + model) + rank + (joints + rest)
            &&& bytes == (head + basis + model + rank) + joints + rest
        }),
{
    let head = u32_bytes(artifact.schema_version).push(kind_byte(artifact.kind));
    lemma_six_parts(
        head,
        u64_bytes(artifact.aligned_basis_content_hash),
        vstd::utf8::encode_utf8(artifact.model_sha256@),
        u64_bytes(artifact.rank as u64),
        u64_bytes(artifact.joint_count as u64),
        artifact.hashed_rest(),
    );
}

proof fn lemma_six_parts(
    head: Seq<u8>,
    basis: Seq<u8>,
    model: Seq<u8>,
    rank: Seq<u8>,
    joints: Seq<u8>,
    rest: Seq<u8>,
)
    ensures
        ({
            let bytes = head + (basis + model + rank + joints + rest);
            &&& bytes == head + basis + (model + rank + joints + rest)
            &&& bytes == (head + basis + model) + rank + (joints + rest)
            &&& bytes == (head + basis + model + rank) + joints + rest
        }),
{
    let bytes = head + (basis + model + rank + joints + rest);
    assert(bytes =~= head + basis + (model + rank + joints + rest));
    assert(bytes =~= (head + basis + model) + rank + (joints + rest));
    assert(bytes =~= (head + basis + model + rank) + joints + rest);
}

/// The kind is one byte of what is hashed.
proof fn lemma_relabelled_bytes_hash_apart(
    artifact: GnmSemanticDecoderArtifact,
    relabelled: GnmSemanticDecoderArtifact,
)
    requires
        relabelled.schema_version == artifact.schema_version,
        relabelled.kind != artifact.kind,
        relabelled.hashed_tail() == artifact.hashed_tail(),
    ensures
        fnv_of(relabelled.hashed_bytes()) != fnv_of(artifact.hashed_bytes()),
{
    lemma_exchanged_byte_is_detected(
        u32_bytes(artifact.schema_version),
        kind_byte(relabelled.kind),
        kind_byte(artifact.kind),
        artifact.hashed_tail(),
    );
}

proof fn lemma_exchanged_byte_is_detected(head: Seq<u8>, left: u8, right: u8, tail: Seq<u8>)
    requires
        left != right,
    ensures
        fnv_of(head.push(left) + tail) != fnv_of(head.push(right) + tail),
{
    let bytes = head.push(right) + tail;
    let at = head.len() as int;
    assert(head.push(left) + tail =~= bytes.update(at, left));
    lemma_single_byte_change_is_detected(FNV_OFFSET, bytes, at, left);
}

/// A wide change can go unnoticed: of every decoder without a residual that records
/// the first of these basis hashes, the content hash covers the second one too.
pub proof fn lemma_wide_change_can_go_unnoticed(
    artifact: GnmSemanticDecoderArtifact,
    altered: GnmSemanticDecoderArtifact,
)
    requires
        artifact.schema_version == GNM_SEMANTIC_DECODER_SCHEMA_VERSION,
        artifact.kind is GnmOnly,
        artifact.aligned_basis_content_hash == 0x975c_5053_7435_be15,
        altered == (GnmSemanticDecoderArtifact {
            aligned_basis_content_hash: 0x51c5_c784_0ff1_40e3,
            ..artifact
        }),
    ensures
        altered.aligned_basis_content_hash != artifact.aligned_basis_content_hash,
        fnv_of(altered.hashed_bytes()) == fnv_of(artifact.hashed_bytes()),
        altered.hash_matches() == artifact.hash_matches(),
{
    let model = vstd::utf8::encode_utf8(artifact.model_sha256@);
    let rank = u64_bytes(artifact.rank as u64);
    let joints = u64_bytes(artifact.joint_count as u64);
    lemma_decoder_layout(artifact);
    lemma_decoder_layout(altered);
    lemma_two_words_hash_alike(model + rank + joints + artifact.hashed_rest());
}

/// A decoder as it was fitted is refused only for its numbers: on features of the
/// trained length no schema, hash, order or dimension error occurs.
pub proof fn lemma_fitted_decoder_is_refused_for_numbers_only(
    artifact: GnmSemanticDecoderArtifact,
    features: Seq<Binary32>,
    error: LinearPriorLoadError,
)
    requires
        artifact.schema_version == GNM_SEMANTIC_DECODER_SCHEMA_VERSION,
        artifact.hash_matches(),
        artifact.feature_order@ == feature_order_of(artifact.kind),
        features.len() == artifact.width(),
        artifact.linear_map.fits(features.len() as int),
    ensures
        artifact.is_refusal(features, error) ==> error is InvalidNormalization,
        all_finite(features) && artifact.linear_map.scales_usable()
            && artifact.linear_map.means_usable() ==> artifact.accepts(features),
{
}

/// Typed fit failure.
#[derive(Clone, Debug, PartialEq)]
pub enum GnmSemanticFitError {
    /// Teacher-aligned basis validation failed.
    Basis(TeacherAlignedBasisError),
    /// No selected training rows exist.
    EmptyTrainingSet,
    /// Row feature dimensions cannot represent the requested contract.
    DimensionMismatch,
    /// Feature-order string does not match the fixed kind contract.
    FeatureOrderMismatch,
    /// Shared ridge fitting failed.
    Ridge(LinearPriorFitError),
}

/// Take ids of the rows.
pub open spec fn semantic_row_takes(rows: Seq<GnmSemanticRow>) -> Seq<Seq<char>> {
    Seq::new(rows.len(), |i: int| rows[i].take_id@)
}

/// Positions of the rows that belong to the takes.
pub open spec fn semantic_training_positions(
    rows: Seq<GnmSemanticRow>,
    takes: Seq<String>,
) -> Seq<usize> {
    selected_positions(semantic_row_takes(rows), takes, rows.len() as int)
}

/// Selects the rows to fit on: those of the explicitly selected takes.
pub fn select_semantic_rows(rows: &Vec<GnmSemanticRow>, takes: &Vec<String>) -> (positions: Vec<
    usize,
>)
    ensures
        positions@ == semantic_training_positions(rows@, takes@),
        forall|i: int| 0 <= i < positions@.len() ==> #[trigger] positions@[i] < rows@.len(),
{
    let mut positions: Vec<usize> = Vec::new();
    for i in 0..rows.len()
        invariant
            positions@ == selected_positions(semantic_row_takes(rows@), takes@, i as int),
    {
        if contains_take(takes, &rows[i].take_id) {
            positions.push(i);
        }
    }
    proof {
        assert(rows.len() == rows@.len());
        lemma_selected_positions_fit(semantic_row_takes(rows@), takes@, rows@.len() as int);
    }
    positions
}

/// The selected rows share settings and width, and their targets are finite.
pub open spec fn rows_consistent(rows: Seq<GnmSemanticRow>, positions: Seq<usize>) -> bool {
    let first = rows[positions[0] as int];
    forall|i: int|
        0 <= i < positions.len() ==> {
            let row = rows[(#[trigger] positions[i]) as int];
            &&& row.feature_config == first.feature_config
            &&& row.features@.len() == first.features@.len()
            &&& all_finite(row.target@)
        }
}

/// Whether the selected rows share settings and width, with finite targets.
pub fn are_rows_consistent(rows: &Vec<GnmSemanticRow>, positions: &Vec<usize>) -> (consistent: bool)
    requires
        positions@.len() > 0,
        forall|i: int| 0 <= i < positions@.len() ==> #[trigger] positions@[i] < rows@.len(),
    ensures
        consistent == rows_consistent(rows@, positions@),
{
    let first = &rows[positions[0]];
    for i in 0..positions.len()
        invariant
            forall|j: int|
                0 <= j < positions@.len() ==> #[trigger] positions@[j] < rows@.len(),
            positions@.len() > 0,
            *first == rows@[positions@[0] as int],
            forall|j: int|
                0 <= j < i ==> {
                    let row = rows@[(#[trigger] positions@[j]) as int];
                    &&& row.feature_config == first.feature_config
                    &&& row.features@.len() == first.features@.len()
                    &&& all_finite(row.target@)
                },
    {
        let row = &rows[positions[i]];
        if row.feature_config != first.feature_config || row.features.len() != first.features.len()
            || !is_all_finite(row.target.as_slice()) {
            assert(!rows_consistent(rows@, positions@)) by {
                let at = positions@[i as int];
                assert(rows@[at as int] == *row);
            }
            return false;
        }
    }
    true
}

/// Some joint count gives rows this width.
pub open spec fn width_is_possible(
    len: int,
    rank: int,
    kind: GnmSemanticDecoderKind,
    history_len: int,
) -> bool {
    exists|joint_count: int|
        joint_count >= 0 && len == #[trigger] semantic_width(rank, joint_count, kind, history_len)
}

/// Joint count of rows with this width, if there is one.
fn joint_count_of(
    len: usize,
    rank: usize,
    kind: GnmSemanticDecoderKind,
    history_len: usize,
) -> (found: Option<usize>)
    requires
        rank <= ARKIT_NON_TONGUE_CHANNEL_COUNT,
        history_len > 0,
    ensures
        match found {
            Some(joint_count) => len == semantic_width(
                rank as int,
                joint_count as int,
                kind,
                history_len as int,
            ),
            None => !width_is_possible(len as int, rank as int, kind, history_len as int),
        },
{
    let direct: usize = match kind {
        GnmSemanticDecoderKind::GnmOnly => 0,
        GnmSemanticDecoderKind::HybridResidual => ARKIT_NON_TONGUE_CHANNEL_COUNT,
    };
    let fixed: usize = rank + direct + 1;
    let lost: usize = rank + 18 + direct;
    proof {
        assert forall|j: int|
            j >= 0 && len == #[trigger] semantic_width(
                rank as int,
                j,
                kind,
                history_len as int,
            ) implies len >= fixed && (len - fixed) % (history_len as int) == 0 && (len - fixed) / (
        history_len as int) == lost + 3 * j by {
            let slot = lost + 3 * j;
            assert(slot == common_width(rank as int, j) + direct_width(kind));
            assert(history_len * slot >= 0) by (nonlinear_arith)
                requires
                    slot >= 0,
            ;
            assert(len - fixed == slot * history_len) by (nonlinear_arith)
                requires
                    len - fixed == history_len * slot,
            ;
            vstd::arithmetic::div_mod::lemma_fundamental_div_mod_converse(
                len - fixed,
                history_len as int,
                slot,
                0,
            );
        }
    }
    if len < fixed {
        return None;
    }
    let slots: usize = len - fixed;
    if slots % history_len != 0 {
        return None;
    }
    let slot: usize = slots / history_len;
    if slot < lost || (slot - lost) % 3 != 0 {
        return None;
    }
    let joint_count: usize = (slot - lost) / 3;
    proof {
        vstd::arithmetic::div_mod::lemma_fundamental_div_mod(slots as int, history_len as int);
        assert(slot == common_width(rank as int, joint_count as int) + direct_width(kind));
    }
    Some(joint_count)
}

/// Zero coordinates can be reconstructed: the basis is valid.
pub open spec fn reconstructs_zero(basis: TeacherAlignedGnmBasisArtifact) -> bool {
    &&& basis.fault() is None
    &&& all_finite(
        crate::observable_basis::reconstructed(
            basis.basis_row_major@,
            zero_features(basis.rank as int),
            basis.rank as int,
        ),
    )
}

/// Checks that zero coordinates can be reconstructed.
///
/// # Errors
///
/// Passes the reconstruction failure on.
pub fn check_zero_reconstruction(basis: &TeacherAlignedGnmBasisArtifact) -> (result: Result<
    (),
    TeacherAlignedBasisError,
>)
    ensures
        match result {
            Ok(_) => reconstructs_zero(*basis),
            Err(error) => !reconstructs_zero(*basis) && is_aligned_reconstruction(
                zero_features(basis.rank as int),
                *basis,
                Err(error),
            ),
        },
{
    let mut zeros: Vec<Binary32> = Vec::new();
    for i in 0..basis.rank
        invariant
            zeros@ =~= zero_features(i as int),
    {
        zeros.push(Binary32::zero());
    }
    match reconstruct_teacher_aligned_expression(&zeros, basis) {
        Ok(_) => Ok(()),
        Err(error) => Err(error),
    }
}

/// The error owed for the first failed check of a fit; the ridge solver comes
/// last.
pub open spec fn is_fit_refusal(
    rows: Seq<GnmSemanticRow>,
    takes: Seq<String>,
    kind: GnmSemanticDecoderKind,
    basis: TeacherAlignedGnmBasisArtifact,
    feature_order: Seq<char>,
    error: GnmSemanticFitError,
) -> bool {
    let positions = semantic_training_positions(rows, takes);
    let first = rows[positions[0] as int];
    if !reconstructs_zero(basis) {
        error matches GnmSemanticFitError::Basis(reason) && is_aligned_reconstruction(
            zero_features(basis.rank as int),
            basis,
            Err(reason),
        )
    } else if feature_order != feature_order_of(kind) {
        error == GnmSemanticFitError::FeatureOrderMismatch
    } else if positions.len() == 0 {
        error == GnmSemanticFitError::EmptyTrainingSet
    } else {
        &&& !fit_dimensions_agree(rows, positions, kind, basis)
        &&& error == GnmSemanticFitError::DimensionMismatch
    }
}

/// The selected rows agree with each other and with the basis.
pub open spec fn fit_dimensions_agree(
    rows: Seq<GnmSemanticRow>,
    positions: Seq<usize>,
    kind: GnmSemanticDecoderKind,
    basis: TeacherAlignedGnmBasisArtifact,
) -> bool {
    let first = rows[positions[0] as int];
    &&& rows_consistent(rows, positions)
    &&& first.feature_config.history_len > 0
    &&& width_is_possible(
        first.features@.len() as int,
        basis.rank as int,
        kind,
        first.feature_config.history_len as int,
    )
}

/// Every check of a fit passes.
pub open spec fn fit_accepted(
    rows: Seq<GnmSemanticRow>,
    takes: Seq<String>,
    kind: GnmSemanticDecoderKind,
    basis: TeacherAlignedGnmBasisArtifact,
    feature_order: Seq<char>,
) -> bool {
    let positions = semantic_training_positions(rows, takes);
    &&& reconstructs_zero(basis)
    &&& feature_order == feature_order_of(kind)
    &&& positions.len() > 0
    &&& fit_dimensions_agree(rows, positions, kind, basis)
}

/// Assembles a decoder from `fitted`, the ridge solver's outcome on the selected
/// rows (see [`select_semantic_rows`]).
///
/// # Errors
///
/// Rejects empty selections, contract/dimension mismatch, or shared ridge failures.
pub fn fit_gnm_semantic_decoder(
    rows: &Vec<GnmSemanticRow>,
    training_takes: &Vec<String>,
    kind: GnmSemanticDecoderKind,
    basis: &TeacherAlignedGnmBasisArtifact,
    feature_order: &String,
    fitted: Result<NormalizedLinearMapArtifact, LinearPriorFitError>,
) -> (result: Result<GnmSemanticDecoderArtifact, GnmSemanticFitError>)
    ensures
        ({
            let positions = semantic_training_positions(rows@, training_takes@);
            let first = rows@[positions[0] as int];
            let accepted = fit_accepted(rows@, training_takes@, kind, *basis, feature_order@);
            match result {
                Ok(artifact) => {
                    &&& accepted
                    &&& fitted == Ok::<_, LinearPriorFitError>(artifact.linear_map)
                    &&& artifact.schema_version == GNM_SEMANTIC_DECODER_SCHEMA_VERSION
                    &&& artifact.kind == kind
                    &&& artifact.aligned_basis_content_hash == basis.content_hash
                    &&& artifact.model_sha256@ == basis.model_sha256@
                    &&& artifact.rank == basis.rank
                    &&& artifact.width() == first.features@.len()
                    &&& artifact.feature_order@ == feature_order@
                    &&& artifact.feature_config == first.feature_config
                    &&& strictly_ordered(artifact.training_takes@)
                    &&& same_takes(artifact.training_takes@, training_takes@)
                    &&& artifact.hash_matches()
                },
                Err(error) => {
                    if accepted {
                        fitted is Err && error == GnmSemanticFitError::Ridge(fitted->Err_0)
                    } else {
                        is_fit_refusal(
                            rows@,
                            training_takes@,
                            kind,
                            *basis,
                            feature_order@,
                            error,
                        )
                    }
                },
            }
        }),
{
    if let Err(error) = check_zero_reconstruction(basis) {
        return Err(GnmSemanticFitError::Basis(error));
    }
    let expected = gnm_semantic_feature_order(kind);
    if *feature_order != expected {
        return Err(GnmSemanticFitError::FeatureOrderMismatch);
    }
    let positions = select_semantic_rows(rows, training_takes);
    if positions.len() == 0 {
        return Err(GnmSemanticFitError::EmptyTrainingSet);
    }
    let first = &rows[positions[0]];
    let feature_config = first.feature_config;
    if !are_rows_consistent(rows, &positions) || feature_config.history_len == 0 {
        return Err(GnmSemanticFitError::DimensionMismatch);
    }
    let joint_count: usize = match joint_count_of(
        first.features.len(),
        basis.rank,
        kind,
        feature_config.history_len,
    ) {
        Some(joint_count) => joint_count,
        None => {
            return Err(GnmSemanticFitError::DimensionMismatch);
        },
    };
    let linear_map = match fitted {
        Ok(linear_map) => linear_map,
        Err(error) => {
            return Err(GnmSemanticFitError::Ridge(error));
        },
    };
    let mut artifact = GnmSemanticDecoderArtifact {
        schema_version: GNM_SEMANTIC_DECODER_SCHEMA_VERSION,
        kind,
        aligned_basis_content_hash: basis.content_hash,
        model_sha256: basis.model_sha256.clone(),
        rank: basis.rank,
        joint_count,
        feature_order: feature_order.clone(),
        feature_config,
        training_takes: sorted_takes(training_takes),
        linear_map,
        content_hash: 0,
    };
    let hash: u64 = hash_decoder(&artifact);
    artifact.content_hash = hash;
    Ok(artifact)
}

/// Rows of other takes do not take part in fitting: adding any number of them changes
/// neither the selection nor what the selected rows hold.
pub proof fn lemma_other_takes_do_not_fit(
    rows: Seq<GnmSemanticRow>,
    takes: Seq<String>,
    extras: Seq<GnmSemanticRow>,
)
    requires
        forall|i: int| 0 <= i < extras.len() ==> !names_take(takes, (#[trigger] extras[i]).take_id@),
    ensures
        semantic_training_positions(rows + extras, takes) == semantic_training_positions(
            rows,
            takes,
        ),
{
    let names = semantic_row_takes(extras);
    lemma_other_takes_are_not_selected(semantic_row_takes(rows), takes, names);
    assert(semantic_row_takes(rows + extras) =~= semantic_row_takes(rows) + names);
}

} // verus!
