//! MediaPipe landmark latent controls and upper-bound decoder.

use vstd::prelude::*;

use crate::arkit::Arkit52Coefficients;
use crate::arkit_teacher::{PairedTemporalSample, TeacherDatasetError};
use crate::binary::{Binary32, SIGN_32};
use crate::content_hash::{
    canonical_list_bytes, canonical_rows_bytes, fnv1a, fnv_of, put_bytes, put_canonical, put_canonical_rows, put_text,
    put_texts, put_u32, put_u64, text_list_bytes, u32_bytes, u64_bytes,
};
use crate::gnm_semantic_decoder::{
    are_rows_consistent, are_semantic_rows, build_gnm_semantic_features, check_zero_reconstruction,
    direct_features, directly_follows, feature_outcome, frame_outcome, frame_views,
    gnm_semantic_frame_from_sample, is_direct_successor, is_semantic_row, newest_step, put_direct,
    put_numbers, put_slot_tail, put_velocities, reconstructs_zero, regions_valid, rows_consistent,
    select_semantic_rows, semantic_training_positions, slot_tail, velocities,
    GnmSemanticDecoderKind, GnmSemanticFeatureConfig, GnmSemanticFrame, GnmSemanticRow,
    SemanticFrameView, SemanticRowView, lemma_no_fault_below,
};
use crate::landmark_basis::{
    is_observed, landmark_fault, latent, latent_fault, normalize_landmarks_xy, normalized_xy, project_landmark_latent, sample_landmarks,
    sample_residual, validate_landmark_basis, LandmarkAlignedBasisArtifact, LandmarkControlError,
};
use crate::linear_map::{
    all_finite, is_all_finite, map_values, LinearPriorFitError, LinearPriorLoadError, NormalizedLinearMapArtifact,
};
use crate::takes::{same_takes, sorted_takes, strictly_ordered};
use crate::teacher_aligned_basis::{
    is_aligned_reconstruction, subtract_non_tongue, TeacherAlignedGnmBasisArtifact,
};
use crate::teacher_residual::{micros_to_seconds, seconds_of_micros, zero_features};

verus! {

/// Decoder schema version.
pub const LANDMARK_CONTROL_DECODER_SCHEMA_VERSION: u32 = 1;

/// Decoder variants.
#[derive(Clone, Copy, Debug, PartialEq, Eq, Structural)]
pub enum LandmarkControlDecoderKind {
    /// Direct plus a landmark-latent residual.
    LandmarkResidual,
    /// Direct plus reduced GNM and landmark-latent residual (information upper bound).
    GnmLandmarkUpperBound,
}

/// Feature order of the decoder that reads landmarks alone.
pub const LANDMARK_RESIDUAL_FEATURE_ORDER: &'static str =
    "v1:newest-first(landmark-latent+direct-51)+landmark-velocity+direct-velocity-51+dt-seconds";

/// Feature order of the decoder that also reads the fitted model.
pub const GNM_LANDMARK_FEATURE_ORDER: &'static str =
    "v1:newest-first(reduced-gnm+landmark-latent+joint-axis-angle+rigid-ypr+objective+regions-14+direct-51)+reduced-gnm-velocity+landmark-velocity+direct-velocity-51+dt-seconds";

/// Feature order of one decoder kind.
pub open spec fn control_order_of(kind: LandmarkControlDecoderKind) -> Seq<char> {
    match kind {
        LandmarkControlDecoderKind::LandmarkResidual => LANDMARK_RESIDUAL_FEATURE_ORDER@,
        LandmarkControlDecoderKind::GnmLandmarkUpperBound => GNM_LANDMARK_FEATURE_ORDER@,
    }
}

/// Stable feature-order string.
#[must_use]
pub fn landmark_control_feature_order(kind: LandmarkControlDecoderKind) -> (order: String)
    ensures
        order@ == control_order_of(kind),
{
    match kind {
        LandmarkControlDecoderKind::LandmarkResidual => LANDMARK_RESIDUAL_FEATURE_ORDER.to_owned(),
        LandmarkControlDecoderKind::GnmLandmarkUpperBound => GNM_LANDMARK_FEATURE_ORDER.to_owned(),
    }
}

/// Exact-frame landmark latent and Direct record.
#[derive(Clone, Debug, PartialEq)]
pub struct LandmarkControlFrame {
    /// Source frame sequence.
    pub frame_seq: u64,
    /// Source monotonic timestamp.
    pub timestamp_micros: u64,
    /// Teacher-aligned landmark latent.
    pub landmark_latent: Vec<Binary32>,
    /// Exact-frame Direct coefficients.
    pub direct: Arkit52Coefficients,
}

/// What a frame holds.
pub struct LandmarkFrameView {
    /// Source frame sequence.
    pub frame_seq: u64,
    /// Source monotonic timestamp.
    pub timestamp_micros: u64,
    /// Landmark latent.
    pub latent: Seq<Binary32>,
    /// Direct coefficients.
    pub direct: Arkit52Coefficients,
}

impl View for LandmarkControlFrame {
    type V = LandmarkFrameView;

    open spec fn view(&self) -> LandmarkFrameView {
        LandmarkFrameView {
            frame_seq: self.frame_seq,
            timestamp_micros: self.timestamp_micros,
            latent: self.landmark_latent@,
            direct: self.direct,
        }
    }
}

/// The frames of a history.
pub open spec fn landmark_views(history: Seq<LandmarkControlFrame>) -> Seq<LandmarkFrameView> {
    Seq::new(history.len(), |i: int| history[i]@)
}

/// Non-tongue Direct values.
pub open spec fn direct_values(direct: Arkit52Coefficients) -> Seq<Binary32> {
    direct_features(direct, GnmSemanticDecoderKind::HybridResidual)
}

/// The first `n` landmark slots, newest first.
pub open spec fn landmark_slots_before(history: Seq<LandmarkFrameView>, n: int) -> Seq<Binary32>
    decreases n,
{
    if n <= 0 {
        Seq::empty()
    } else {
        landmark_slots_before(history, n - 1) + history[n - 1].latent + direct_values(
            history[n - 1].direct,
        )
    }
}

/// Time between the two newest frames.
pub open spec fn landmark_step(history: Seq<LandmarkFrameView>) -> Binary32 {
    micros_to_seconds((history[0].timestamp_micros - history[1].timestamp_micros) as nat)
}

/// The fixed-order landmark feature vector of a history.
pub open spec fn landmark_features(history: Seq<LandmarkFrameView>, history_len: int) -> Seq<
    Binary32,
> {
    let dt = landmark_step(history);
    landmark_slots_before(history, history_len) + velocities(
        history[0].latent,
        history[1].latent,
        dt,
    ) + velocities(direct_values(history[0].direct), direct_values(history[1].direct), dt)
        + seq![dt]
}

/// Why the frame at `index` breaks the history, if it does.
pub open spec fn landmark_frame_fault(
    history: Seq<LandmarkFrameView>,
    index: int,
    max_gap_micros: u64,
) -> Option<LandmarkControlError> {
    let frame = history[index];
    if frame.latent.len() != history[0].latent.len() || !all_finite(frame.latent) {
        Some(LandmarkControlError::InvalidShape("landmark history rank"))
    } else if index > 0 && !directly_follows(
        history[index - 1].frame_seq,
        history[index - 1].timestamp_micros,
        frame.frame_seq,
        frame.timestamp_micros,
        max_gap_micros,
    ) {
        Some(LandmarkControlError::IdentityMismatch)
    } else {
        None
    }
}

/// The first fault among the first `n` frames, newest first.
pub open spec fn first_landmark_frame_fault(
    history: Seq<LandmarkFrameView>,
    max_gap_micros: u64,
    n: int,
) -> Option<LandmarkControlError>
    decreases n,
{
    if n <= 0 {
        None
    } else if first_landmark_frame_fault(history, max_gap_micros, n - 1) is Some {
        first_landmark_frame_fault(history, max_gap_micros, n - 1)
    } else {
        landmark_frame_fault(history, n - 1, max_gap_micros)
    }
}

/// The outcome of building landmark features from a newest-first history.
pub open spec fn landmark_outcome(
    history: Seq<LandmarkFrameView>,
    config: GnmSemanticFeatureConfig,
) -> Result<Option<Seq<Binary32>>, LandmarkControlError> {
    let fault = first_landmark_frame_fault(history, config.max_gap_micros, config.required());
    let features = landmark_features(history, config.history_len as int);
    if !config.usable() {
        Err(LandmarkControlError::InvalidShape("feature configuration"))
    } else if history.len() < config.required() {
        Ok(None)
    } else if history[0].latent.len() == 0 {
        Err(LandmarkControlError::InvalidShape("zero landmark rank"))
    } else if fault is Some {
        Err(fault->0)
    } else if !all_finite(features) {
        Err(LandmarkControlError::InvalidNumeric("landmark feature"))
    } else {
        Ok(Some(features))
    }
}

proof fn lemma_landmark_frame_fault_persists(
    history: Seq<LandmarkFrameView>,
    max_gap_micros: u64,
    n: int,
    m: int,
)
    requires
        n <= m,
        first_landmark_frame_fault(history, max_gap_micros, n) is Some,
    ensures
        first_landmark_frame_fault(history, max_gap_micros, m) == first_landmark_frame_fault(
            history,
            max_gap_micros,
            n,
        ),
    decreases m - n,
{
    if n < m {
        lemma_landmark_frame_fault_persists(history, max_gap_micros, n, m - 1);
    }
}

proof fn lemma_no_landmark_fault_below(
    history: Seq<LandmarkFrameView>,
    max_gap_micros: u64,
    i: int,
    n: int,
)
    requires
        0 <= i < n,
        first_landmark_frame_fault(history, max_gap_micros, n) is None,
    ensures
        landmark_frame_fault(history, i, max_gap_micros) is None,
    decreases n,
{
    if i < n - 1 {
        lemma_no_landmark_fault_below(history, max_gap_micros, i, n - 1);
    }
}

fn check_landmark_frame(
    history: &Vec<LandmarkControlFrame>,
    index: usize,
    max_gap_micros: u64,
) -> (result: Result<(), LandmarkControlError>)
    requires
        index < history@.len(),
    ensures
        match result {
            Ok(_) => landmark_frame_fault(
                landmark_views(history@),
                index as int,
                max_gap_micros,
            ) is None,
            Err(error) => landmark_frame_fault(
                landmark_views(history@),
                index as int,
                max_gap_micros,
            ) == Some(error),
        },
{
    let frame = &history[index];
    if frame.landmark_latent.len() != history[0].landmark_latent.len() || !is_all_finite(
        &frame.landmark_latent,
    ) {
        return Err(LandmarkControlError::InvalidShape("landmark history rank"));
    }
    if index > 0 {
        let newer = &history[index - 1];
        if !is_direct_successor(
            newer.frame_seq,
            newer.timestamp_micros,
            frame.frame_seq,
            frame.timestamp_micros,
            max_gap_micros,
        ) {
            return Err(LandmarkControlError::IdentityMismatch);
        }
    }
    Ok(())
}

/// Appends the velocities of the two newest Direct values and the time step.
fn put_direct_velocities(
    out: &mut Vec<Binary32>,
    current: &Arkit52Coefficients,
    previous: &Arkit52Coefficients,
    dt: Binary32,
)
    ensures
        final(out)@ == old(out)@ + velocities(direct_values(*current), direct_values(*previous), dt)
            + seq![dt],
{
    let mut current_direct: Vec<Binary32> = Vec::new();
    put_direct(&mut current_direct, current, GnmSemanticDecoderKind::HybridResidual);
    let mut previous_direct: Vec<Binary32> = Vec::new();
    put_direct(&mut previous_direct, previous, GnmSemanticDecoderKind::HybridResidual);
    proof {
        assert(current_direct@ =~= direct_values(*current));
        assert(previous_direct@ =~= direct_values(*previous));
    }
    put_velocities(out, &current_direct, &previous_direct, dt);
    out.push(dt);
    assert(out@ =~= old(out)@ + velocities(direct_values(*current), direct_values(*previous), dt)
        + seq![dt]);
}

/// Builds landmark features without GNM state or diagnostics.
///
/// # Errors
///
/// Rejects invalid configuration, rank changes, frame gaps, or non-finite values.
pub fn build_landmark_residual_features(
    newest_first_history: &Vec<LandmarkControlFrame>,
    config: GnmSemanticFeatureConfig,
) -> (result: Result<Option<Vec<Binary32>>, LandmarkControlError>)
    ensures
        ({
            let outcome = landmark_outcome(landmark_views(newest_first_history@), config);
            match result {
                Ok(None) => outcome == Ok::<_, LandmarkControlError>(None::<Seq<Binary32>>),
                Ok(Some(features)) => outcome == Ok::<_, LandmarkControlError>(Some(features@)),
                Err(error) => outcome == Err::<Option<Seq<Binary32>>, _>(error),
            }
        }),
{
    let ghost views = landmark_views(newest_first_history@);
    if config.history_len == 0 || config.max_gap_micros == 0 {
        return Err(LandmarkControlError::InvalidShape("feature configuration"));
    }
    let required: usize = config.required_frames();
    if newest_first_history.len() < required {
        return Ok(None);
    }
    if newest_first_history[0].landmark_latent.len() == 0 {
        return Err(LandmarkControlError::InvalidShape("zero landmark rank"));
    }
    for index in 0..required
        invariant
            required == config.required(),
            config.usable(),
            required <= newest_first_history@.len(),
            views == landmark_views(newest_first_history@),
            views[0].latent.len() > 0,
            first_landmark_frame_fault(views, config.max_gap_micros, index as int) is None,
    {
        if let Err(error) = check_landmark_frame(
            newest_first_history,
            index,
            config.max_gap_micros,
        ) {
            proof {
                lemma_landmark_frame_fault_persists(
                    views,
                    config.max_gap_micros,
                    index + 1,
                    required as int,
                );
            }
            return Err(error);
        }
    }
    let mut features: Vec<Binary32> = Vec::new();
    for slot in 0..config.history_len
        invariant
            config.history_len <= newest_first_history@.len(),
            views == landmark_views(newest_first_history@),
            features@ == landmark_slots_before(views, slot as int),
    {
        let frame = &newest_first_history[slot];
        put_numbers(&mut features, &frame.landmark_latent);
        put_direct(&mut features, &frame.direct, GnmSemanticDecoderKind::HybridResidual);
    }
    let current = &newest_first_history[0];
    let previous = &newest_first_history[1];
    proof {
        lemma_no_landmark_fault_below(views, config.max_gap_micros, 1, required as int);
    }
    let dt = seconds_of_micros(current.timestamp_micros - previous.timestamp_micros);
    put_velocities(&mut features, &current.landmark_latent, &previous.landmark_latent, dt);
    put_direct_velocities(&mut features, &current.direct, &previous.direct, dt);
    assert(features@ =~= landmark_features(views, config.history_len as int));
    if !is_all_finite(&features) {
        return Err(LandmarkControlError::InvalidNumeric("landmark feature"));
    }
    Ok(Some(features))
}

/// The first `n` joint slots, newest first.
pub open spec fn joint_slots_before(
    gnm: Seq<SemanticFrameView>,
    landmarks: Seq<LandmarkFrameView>,
    n: int,
) -> Seq<Binary32>
    decreases n,
{
    if n <= 0 {
        Seq::empty()
    } else {
        joint_slots_before(gnm, landmarks, n - 1) + gnm[n - 1].reduced + landmarks[n - 1].latent
            + slot_tail(gnm[n - 1], GnmSemanticDecoderKind::HybridResidual)
    }
}

/// The fixed-order joint feature vector of two aligned histories.
pub open spec fn joint_features(
    gnm: Seq<SemanticFrameView>,
    landmarks: Seq<LandmarkFrameView>,
    history_len: int,
) -> Seq<Binary32> {
    let dt = newest_step(gnm);
    joint_slots_before(gnm, landmarks, history_len) + velocities(gnm[0].reduced, gnm[1].reduced, dt)
        + velocities(landmarks[0].latent, landmarks[1].latent, dt) + velocities(
        direct_values(gnm[0].direct),
        direct_values(gnm[1].direct),
        dt,
    ) + seq![dt]
}

/// The first `n` frames of both histories are the same source frames.
pub open spec fn frames_aligned(
    gnm: Seq<SemanticFrameView>,
    landmarks: Seq<LandmarkFrameView>,
    n: int,
) -> bool {
    forall|i: int|
        0 <= i < n ==> (#[trigger] gnm[i]).frame_seq == landmarks[i].frame_seq
            && gnm[i].timestamp_micros == landmarks[i].timestamp_micros
}

/// The outcome of joining a fitted and a landmark history.
pub open spec fn joint_outcome(
    gnm: Seq<SemanticFrameView>,
    landmarks: Seq<LandmarkFrameView>,
    config: GnmSemanticFeatureConfig,
) -> Result<Option<Seq<Binary32>>, LandmarkControlError> {
    match feature_outcome(gnm, GnmSemanticDecoderKind::HybridResidual, config) {
        Err(error) => Err(LandmarkControlError::Gnm(error)),
        Ok(None) => Ok(None),
        Ok(Some(_)) => match landmark_outcome(landmarks, config) {
            Err(error) => Err(error),
            Ok(None) => Ok(None),
            Ok(Some(_)) => {
                if !frames_aligned(gnm, landmarks, config.required()) {
                    Err(LandmarkControlError::IdentityMismatch)
                } else if gnm[0].reduced.len() != landmarks[0].latent.len() {
                    Err(LandmarkControlError::InvalidShape("HL latent ranks"))
                } else {
                    Ok(Some(joint_features(gnm, landmarks, config.history_len as int)))
                }
            },
        },
    }
}

/// Builds joint features from exact-frame aligned reduced GNM and landmark
/// histories.
///
/// # Errors
///
/// Rejects any identity, rank, history, or numeric mismatch.
pub fn build_gnm_landmark_upper_bound_features(
    newest_first_gnm: &Vec<GnmSemanticFrame>,
    newest_first_landmark: &Vec<LandmarkControlFrame>,
    config: GnmSemanticFeatureConfig,
) -> (result: Result<Option<Vec<Binary32>>, LandmarkControlError>)
    ensures
        ({
            let outcome = joint_outcome(
                frame_views(newest_first_gnm@),
                landmark_views(newest_first_landmark@),
                config,
            );
            match result {
                Ok(None) => outcome == Ok::<_, LandmarkControlError>(None::<Seq<Binary32>>),
                Ok(Some(features)) => outcome == Ok::<_, LandmarkControlError>(Some(features@)),
                Err(error) => outcome == Err::<Option<Seq<Binary32>>, _>(error),
            }
        }),
{
    let ghost gnm = frame_views(newest_first_gnm@);
    let ghost landmarks = landmark_views(newest_first_landmark@);
    match build_gnm_semantic_features(
        newest_first_gnm,
        GnmSemanticDecoderKind::HybridResidual,
        config,
    ) {
        Err(error) => {
            return Err(LandmarkControlError::Gnm(error));
        },
        Ok(None) => {
            return Ok(None);
        },
        Ok(Some(_)) => {},
    }
    match build_landmark_residual_features(newest_first_landmark, config) {
        Err(error) => {
            return Err(error);
        },
        Ok(None) => {
            return Ok(None);
        },
        Ok(Some(_)) => {},
    }
    let required: usize = config.required_frames();
    for i in 0..required
        invariant
            required == config.required(),
            required <= newest_first_gnm@.len(),
            required <= newest_first_landmark@.len(),
            gnm == frame_views(newest_first_gnm@),
            landmarks == landmark_views(newest_first_landmark@),
            feature_outcome(gnm, GnmSemanticDecoderKind::HybridResidual, config) matches Ok(
                Some(_),
            ),
            landmark_outcome(landmarks, config) matches Ok(Some(_)),
            frames_aligned(gnm, landmarks, i as int),
    {
        let fitted = &newest_first_gnm[i];
        let landmark = &newest_first_landmark[i];
        if fitted.frame_seq != landmark.frame_seq || fitted.timestamp_micros
            != landmark.timestamp_micros {
            assert(!frames_aligned(gnm, landmarks, required as int)) by {
                assert(gnm[i as int].frame_seq == fitted.frame_seq);
            }
            return Err(LandmarkControlError::IdentityMismatch);
        }
    }
    if newest_first_gnm[0].reduced_expression.len() != newest_first_landmark[0].landmark_latent.len() {
        return Err(LandmarkControlError::InvalidShape("HL latent ranks"));
    }
    proof {
        assert forall|i: int| 0 <= i < required implies regions_valid(
            (#[trigger] gnm[i]).regions,
        ) by {
            lemma_no_fault_below(gnm, config.max_gap_micros, i, required as int);
        }
        lemma_no_fault_below(gnm, config.max_gap_micros, 1, required as int);
        lemma_no_landmark_fault_below(landmarks, config.max_gap_micros, 1, required as int);
    }
    let mut features: Vec<Binary32> = Vec::new();
    for slot in 0..config.history_len
        invariant
            config.history_len <= newest_first_gnm@.len(),
            config.history_len <= newest_first_landmark@.len(),
            gnm == frame_views(newest_first_gnm@),
            landmarks == landmark_views(newest_first_landmark@),
            forall|i: int| 0 <= i < config.history_len ==> regions_valid((#[trigger] gnm[i]).regions),
            features@ == joint_slots_before(gnm, landmarks, slot as int),
    {
        assert(regions_valid(gnm[slot as int].regions));
        put_numbers(&mut features, &newest_first_gnm[slot].reduced_expression);
        put_numbers(&mut features, &newest_first_landmark[slot].landmark_latent);
        put_slot_tail(
            &mut features,
            &newest_first_gnm[slot],
            GnmSemanticDecoderKind::HybridResidual,
        );
    }
    let current = &newest_first_gnm[0];
    let previous = &newest_first_gnm[1];
    let dt = seconds_of_micros(current.timestamp_micros - previous.timestamp_micros);
    put_velocities(
        &mut features,
        &current.reduced_expression,
        &previous.reduced_expression,
        dt,
    );
    put_velocities(
        &mut features,
        &newest_first_landmark[0].landmark_latent,
        &newest_first_landmark[1].landmark_latent,
        dt,
    );
    put_direct_velocities(&mut features, &current.direct, &previous.direct, dt);
    assert(features@ =~= joint_features(gnm, landmarks, config.history_len as int));
    Ok(Some(features))
}

/// Newest-first histories that rows are built from.
pub struct ControlHistory {
    /// Landmark frames.
    pub landmarks: Seq<LandmarkFrameView>,
    /// Fitted frames; unused by the decoder that reads landmarks alone.
    pub gnm: Seq<SemanticFrameView>,
}

/// No frames.
pub open spec fn empty_history() -> ControlHistory {
    ControlHistory { landmarks: Seq::empty(), gnm: Seq::empty() }
}

/// The newest `n` frames.
pub open spec fn newest<T>(frames: Seq<T>, n: int) -> Seq<T> {
    if frames.len() > n {
        frames.take(n)
    } else {
        frames
    }
}

/// The history that a frame may continue: nothing where the frame does not
/// directly follow.
pub open spec fn continued(
    history: ControlHistory,
    sample: PairedTemporalSample,
    config: GnmSemanticFeatureConfig,
) -> ControlHistory {
    if history.landmarks.len() > 0 && !directly_follows(
        sample.frame_seq,
        sample.timestamp_micros,
        history.landmarks[0].frame_seq,
        history.landmarks[0].timestamp_micros,
        config.max_gap_micros,
    ) {
        empty_history()
    } else {
        history
    }
}

/// Landmark frame of a sample.
pub open spec fn landmark_frame(
    sample: PairedTemporalSample,
    basis: LandmarkAlignedBasisArtifact,
) -> LandmarkFrameView {
    LandmarkFrameView {
        frame_seq: sample.frame_seq,
        timestamp_micros: sample.timestamp_micros,
        latent: latent(normalized_xy(sample_landmarks(sample)), basis),
        direct: sample.mediapipe_observation->0.direct_coefficients,
    }
}

/// Why a sample has no landmark frame, if it has none.
pub open spec fn landmark_sample_fault(
    sample: PairedTemporalSample,
    basis: LandmarkAlignedBasisArtifact,
) -> Option<LandmarkControlError> {
    if landmark_fault(sample_landmarks(sample)) is Some {
        landmark_fault(sample_landmarks(sample))
    } else {
        latent_fault(normalized_xy(sample_landmarks(sample)), basis)
    }
}

/// Histories and row after one more sample, or the failure.
pub open spec fn control_step(
    history: ControlHistory,
    sample: PairedTemporalSample,
    landmark_basis: LandmarkAlignedBasisArtifact,
    gnm_basis: Option<TeacherAlignedGnmBasisArtifact>,
    config: GnmSemanticFeatureConfig,
) -> Result<(ControlHistory, Option<Seq<Binary32>>), LandmarkControlError> {
    let kept = continued(history, sample, config);
    let landmarks = seq![landmark_frame(sample, landmark_basis)] + kept.landmarks;
    let required = config.required();
    if !is_observed(sample) {
        Ok((empty_history(), None))
    } else if landmark_sample_fault(sample, landmark_basis) is Some {
        Err(landmark_sample_fault(sample, landmark_basis)->0)
    } else {
        match gnm_basis {
            None => match landmark_outcome(landmarks, config) {
                Err(error) => Err(error),
                Ok(features) => Ok(
                    (
                        ControlHistory {
                            landmarks: newest(landmarks, required),
                            gnm: newest(kept.gnm, required),
                        },
                        features,
                    ),
                ),
            },
            Some(basis) => match frame_outcome(sample, basis) {
                Err(error) => Err(LandmarkControlError::Gnm(error)),
                Ok(None) => Ok((empty_history(), None)),
                Ok(Some(frame)) => {
                    let gnm = seq![frame] + kept.gnm;
                    match joint_outcome(gnm, landmarks, config) {
                        Err(error) => Err(error),
                        Ok(features) => Ok(
                            (
                                ControlHistory {
                                    landmarks: newest(landmarks, required),
                                    gnm: newest(gnm, required),
                                },
                                features,
                            ),
                        ),
                    }
                },
            },
        }
    }
}

/// Histories and rows after the first `n` samples, or the first failure.
pub open spec fn control_outcome(
    samples: Seq<PairedTemporalSample>,
    landmark_basis: LandmarkAlignedBasisArtifact,
    gnm_basis: Option<TeacherAlignedGnmBasisArtifact>,
    config: GnmSemanticFeatureConfig,
    n: int,
) -> Result<(ControlHistory, Seq<SemanticRowView>), LandmarkControlError>
    decreases n,
{
    if n <= 0 {
        Ok((empty_history(), Seq::empty()))
    } else {
        let sample = samples[n - 1];
        match control_outcome(samples, landmark_basis, gnm_basis, config, n - 1) {
            Err(error) => Err(error),
            Ok((history, rows)) => match control_step(
                history,
                sample,
                landmark_basis,
                gnm_basis,
                config,
            ) {
                Err(error) => Err(error),
                Ok((next, None)) => Ok((next, rows)),
                Ok((next, Some(features))) => Ok(
                    (
                        next,
                        rows.push(
                            SemanticRowView {
                                frame_seq: sample.frame_seq,
                                features,
                                target: sample_residual(sample),
                            },
                        ),
                    ),
                ),
            },
        }
    }
}

/// A basis of fitted states is given exactly where the kind reads it.
pub open spec fn provenance_agrees(kind: LandmarkControlDecoderKind, with_gnm: bool) -> bool {
    with_gnm == (kind == LandmarkControlDecoderKind::GnmLandmarkUpperBound)
}

/// The histories as they are stored.
pub open spec fn stores(
    landmarks: Seq<LandmarkControlFrame>,
    gnm: Seq<GnmSemanticFrame>,
    history: ControlHistory,
) -> bool {
    landmark_views(landmarks) == history.landmarks && frame_views(gnm) == history.gnm
}

fn push_landmark_frame(
    sample: &PairedTemporalSample,
    basis: &LandmarkAlignedBasisArtifact,
    config: GnmSemanticFeatureConfig,
    landmarks: &mut Vec<LandmarkControlFrame>,
    gnm: &mut Vec<GnmSemanticFrame>,
    Ghost(history): Ghost<ControlHistory>,
) -> (result: Result<(), LandmarkControlError>)
    requires
        stores(old(landmarks)@, old(gnm)@, history),
        is_observed(*sample),
    ensures
        match result {
            Ok(_) => {
                let kept = continued(history, *sample, config);
                &&& landmark_sample_fault(*sample, *basis) is None
                &&& landmark_views(final(landmarks)@) == seq![landmark_frame(*sample, *basis)]
                    + kept.landmarks
                &&& frame_views(final(gnm)@) == kept.gnm
            },
            Err(error) => landmark_sample_fault(*sample, *basis) == Some(error),
        },
{
    let observation = match &sample.mediapipe_observation {
        Some(observation) => observation,
        None => {
            return Err(LandmarkControlError::KindMismatch);
        },
    };
    let normalized = match normalize_landmarks_xy(&observation.landmarks_xy) {
        Ok(normalized) => normalized,
        Err(error) => {
            return Err(error);
        },
    };
    let landmark_latent = match project_landmark_latent(&normalized, basis) {
        Ok(landmark_latent) => landmark_latent,
        Err(error) => {
            return Err(error);
        },
    };
    if landmarks.len() > 0 {
        let newest = &landmarks[0];
        assert(history.landmarks[0] == newest@);
        if !is_direct_successor(
            sample.frame_seq,
            sample.timestamp_micros,
            newest.frame_seq,
            newest.timestamp_micros,
            config.max_gap_micros,
        ) {
            landmarks.clear();
            gnm.clear();
            assert(landmark_views(landmarks@) =~= Seq::empty());
            assert(frame_views(gnm@) =~= Seq::empty());
        }
    }
    let ghost kept = continued(history, *sample, config);
    assert(stores(landmarks@, gnm@, kept));
    landmarks.insert(
        0,
        LandmarkControlFrame {
            frame_seq: sample.frame_seq,
            timestamp_micros: sample.timestamp_micros,
            landmark_latent,
            direct: observation.direct_coefficients,
        },
    );
    assert(landmark_views(landmarks@) =~= seq![landmark_frame(*sample, *basis)] + kept.landmarks);
    Ok(())
}

fn clear_histories(landmarks: &mut Vec<LandmarkControlFrame>, gnm: &mut Vec<GnmSemanticFrame>)
    ensures
        stores(final(landmarks)@, final(gnm)@, empty_history()),
{
    landmarks.clear();
    gnm.clear();
    assert(landmark_views(landmarks@) =~= Seq::empty());
    assert(frame_views(gnm@) =~= Seq::empty());
}

fn trim_histories(
    landmarks: &mut Vec<LandmarkControlFrame>,
    gnm: &mut Vec<GnmSemanticFrame>,
    required: usize,
)
    ensures
        landmark_views(final(landmarks)@) == newest(
            landmark_views(old(landmarks)@),
            required as int,
        ),
        frame_views(final(gnm)@) == newest(frame_views(old(gnm)@), required as int),
{
    landmarks.truncate(required);
    gnm.truncate(required);
    assert(landmark_views(landmarks@) =~= newest(
        landmark_views(old(landmarks)@),
        required as int,
    ));
    assert(frame_views(gnm@) =~= newest(frame_views(old(gnm)@), required as int));
}

fn take_control_sample(
    sample: &PairedTemporalSample,
    landmark_basis: &LandmarkAlignedBasisArtifact,
    gnm_basis: Option<&TeacherAlignedGnmBasisArtifact>,
    config: GnmSemanticFeatureConfig,
    landmarks: &mut Vec<LandmarkControlFrame>,
    gnm: &mut Vec<GnmSemanticFrame>,
    Ghost(history): Ghost<ControlHistory>,
) -> (result: Result<Option<Vec<Binary32>>, LandmarkControlError>)
    requires
        stores(old(landmarks)@, old(gnm)@, history),
    ensures
        ({
            let basis = match gnm_basis {
                Some(basis) => Some(*basis),
                None => None,
            };
            let outcome = control_step(history, *sample, *landmark_basis, basis, config);
            match result {
                Ok(found) => {
                    &&& outcome is Ok
                    &&& stores(final(landmarks)@, final(gnm)@, outcome->Ok_0.0)
                    &&& found is Some <==> outcome->Ok_0.1 is Some
                    &&& found is Some ==> is_observed(*sample)
                    &&& found is Some ==> found->0@ == outcome->Ok_0.1->0
                },
                Err(error) => outcome == Err::<(ControlHistory, Option<Seq<Binary32>>), _>(error),
            }
        }),
{
    let required: usize = config.required_frames();
    if sample.mediapipe_observation.is_none() || sample.teacher.is_none() {
        clear_histories(landmarks, gnm);
        return Ok(None);
    }
    if let Err(error) = push_landmark_frame(
        sample,
        landmark_basis,
        config,
        landmarks,
        gnm,
        Ghost(history),
    ) {
        return Err(error);
    }
    let ghost kept = continued(history, *sample, config);
    match gnm_basis {
        None => match build_landmark_residual_features(landmarks, config) {
            Err(error) => Err(error),
            Ok(features) => {
                trim_histories(landmarks, gnm, required);
                Ok(features)
            },
        },
        Some(basis) => match gnm_semantic_frame_from_sample(sample, basis) {
            Err(error) => Err(LandmarkControlError::Gnm(error)),
            Ok(None) => {
                clear_histories(landmarks, gnm);
                Ok(None)
            },
            Ok(Some(frame)) => {
                let ghost view = frame@;
                gnm.insert(0, frame);
                assert(frame_views(gnm@) =~= seq![view] + kept.gnm);
                match build_gnm_landmark_upper_bound_features(gnm, landmarks, config) {
                    Err(error) => Err(error),
                    Ok(features) => {
                        trim_histories(landmarks, gnm, required);
                        Ok(features)
                    },
                }
            },
        },
    }
}

proof fn lemma_control_failure_persists(
    samples: Seq<PairedTemporalSample>,
    landmark_basis: LandmarkAlignedBasisArtifact,
    gnm_basis: Option<TeacherAlignedGnmBasisArtifact>,
    config: GnmSemanticFeatureConfig,
    n: int,
    m: int,
)
    requires
        n <= m,
        control_outcome(samples, landmark_basis, gnm_basis, config, n) is Err,
    ensures
        control_outcome(samples, landmark_basis, gnm_basis, config, m) == control_outcome(
            samples,
            landmark_basis,
            gnm_basis,
            config,
            n,
        ),
    decreases m - n,
{
    if n < m {
        lemma_control_failure_persists(samples, landmark_basis, gnm_basis, config, n, m - 1);
    }
}

fn control_row(
    take_id: &String,
    sample: &PairedTemporalSample,
    config: GnmSemanticFeatureConfig,
    features: Vec<Binary32>,
) -> (row: GnmSemanticRow)
    requires
        is_observed(*sample),
    ensures
        is_semantic_row(
            take_id@,
            config,
            SemanticRowView {
                frame_seq: sample.frame_seq,
                features: features@,
                target: sample_residual(*sample),
            },
            row,
        ),
{
    let target = match (&sample.mediapipe_observation, &sample.teacher) {
        (Some(observation), Some(teacher)) => subtract_non_tongue(
            teacher,
            &observation.direct_coefficients,
        ),
        _ => [Binary32::zero();51],
    };
    GnmSemanticRow {
        take_id: take_id.clone(),
        frame_seq: sample.frame_seq,
        feature_config: config,
        features,
        target,
    }
}

/// Builds supervised rows with exact-frame residual targets.
///
/// `pairing` is the outcome of validating the trace's frame pairing.
///
/// # Errors
///
/// Returns typed trace, basis, normalization, join, or feature failures.
#[verifier::spinoff_prover]
pub fn build_landmark_control_rows(
    take_id: &String,
    samples: &Vec<PairedTemporalSample>,
    landmark_basis: &LandmarkAlignedBasisArtifact,
    gnm_basis: Option<&TeacherAlignedGnmBasisArtifact>,
    kind: LandmarkControlDecoderKind,
    config: GnmSemanticFeatureConfig,
    pairing: Result<(), TeacherDatasetError>,
) -> (result: Result<Vec<GnmSemanticRow>, LandmarkControlError>)
    ensures
        ({
            let basis = match gnm_basis {
                Some(basis) => Some(*basis),
                None => None,
            };
            let outcome = control_outcome(
                samples@,
                *landmark_basis,
                basis,
                config,
                samples@.len() as int,
            );
            match result {
                Ok(rows) => {
                    &&& provenance_agrees(kind, gnm_basis is Some)
                    &&& pairing is Ok
                    &&& outcome is Ok
                    &&& are_semantic_rows(take_id@, config, outcome->Ok_0.1, rows@)
                },
                Err(error) => {
                    if !provenance_agrees(kind, gnm_basis is Some) {
                        error == LandmarkControlError::KindMismatch
                    } else if pairing is Err {
                        error == LandmarkControlError::TeacherDataset(pairing->Err_0)
                    } else {
                        outcome == Err::<(ControlHistory, Seq<SemanticRowView>), _>(error)
                    }
                },
            }
        }),
{
    let reads_gnm = kind == LandmarkControlDecoderKind::GnmLandmarkUpperBound;
    if reads_gnm != gnm_basis.is_some() {
        return Err(LandmarkControlError::KindMismatch);
    }
    if let Err(error) = pairing {
        return Err(LandmarkControlError::TeacherDataset(error));
    }
    let ghost basis = match gnm_basis {
        Some(basis) => Some(*basis),
        None => None,
    };
    let mut rows: Vec<GnmSemanticRow> = Vec::new();
    let mut landmarks: Vec<LandmarkControlFrame> = Vec::new();
    let mut gnm: Vec<GnmSemanticFrame> = Vec::new();
    proof {
        assert(landmark_views(landmarks@) =~= Seq::empty());
        assert(frame_views(gnm@) =~= Seq::empty());
    }
    for i in 0..samples.len()
        invariant
            provenance_agrees(kind, gnm_basis is Some),
            pairing is Ok,
            basis == (match gnm_basis {
                Some(basis) => Some(*basis),
                None => None,
            }),
            control_outcome(samples@, *landmark_basis, basis, config, i as int) matches Ok(
                (history, views),
            ) && stores(landmarks@, gnm@, history) && are_semantic_rows(
                take_id@,
                config,
                views,
                rows@,
            ),
    {
        let sample = &samples[i];
        let ghost state = control_outcome(samples@, *landmark_basis, basis, config, i as int)->Ok_0;
        match take_control_sample(
            sample,
            landmark_basis,
            gnm_basis,
            config,
            &mut landmarks,
            &mut gnm,
            Ghost(state.0),
        ) {
            Err(error) => {
                proof {
                    lemma_control_failure_persists(
                        samples@,
                        *landmark_basis,
                        basis,
                        config,
                        i + 1,
                        samples@.len() as int,
                    );
                }
                return Err(error);
            },
            Ok(None) => {},
            Ok(Some(features)) => {
                let row = control_row(take_id, sample, config, features);
                rows.push(row);
            },
        }
    }
    Ok(rows)
}

/// Rows look back only: what the first `n` samples give does not depend on any
/// later sample.
pub proof fn lemma_future_does_not_change_control_rows(
    left: Seq<PairedTemporalSample>,
    right: Seq<PairedTemporalSample>,
    landmark_basis: LandmarkAlignedBasisArtifact,
    gnm_basis: Option<TeacherAlignedGnmBasisArtifact>,
    config: GnmSemanticFeatureConfig,
    n: int,
)
    requires
        n <= left.len(),
        n <= right.len(),
        forall|i: int| 0 <= i < n ==> left[i] == right[i],
    ensures
        control_outcome(left, landmark_basis, gnm_basis, config, n) == control_outcome(
            right,
            landmark_basis,
            gnm_basis,
            config,
            n,
        ),
    decreases n,
{
    if n > 0 {
        lemma_future_does_not_change_control_rows(
            left,
            right,
            landmark_basis,
            gnm_basis,
            config,
            n - 1,
        );
        assert(left[n - 1] == right[n - 1]);
    }
}

/// Versioned residual decoder.
#[derive(Clone, Debug, PartialEq)]
pub struct LandmarkControlDecoderArtifact {
    /// Artifact schema version.
    pub schema_version: u32,
    /// Decoder semantics.
    pub kind: LandmarkControlDecoderKind,
    /// Landmark basis content hash.
    pub landmark_basis_content_hash: u64,
    /// Reduced-GNM basis hash; absent where only landmarks are read.
    pub gnm_basis_content_hash: Option<u64>,
    /// Shared landmark/GNM latent rank.
    pub rank: usize,
    /// Exact feature order.
    pub feature_order: String,
    /// Causal feature configuration.
    pub feature_config: GnmSemanticFeatureConfig,
    /// Ordered training take ids.
    pub training_takes: Vec<String>,
    /// Shared normalized ridge map.
    pub linear_map: NormalizedLinearMapArtifact,
    /// Deterministic content hash.
    pub content_hash: u64,
}

/// Byte that stands for a decoder kind in the hash.
pub open spec fn control_kind_byte(kind: LandmarkControlDecoderKind) -> u8 {
    match kind {
        LandmarkControlDecoderKind::LandmarkResidual => 0,
        LandmarkControlDecoderKind::GnmLandmarkUpperBound => 1,
    }
}

/// A presence byte, and the hash where there is one.
pub open spec fn optional_hash_bytes(hash: Option<u64>) -> Seq<u8> {
    match hash {
        Some(hash) => seq![1u8] + u64_bytes(hash),
        None => seq![0u8],
    }
}

impl LandmarkControlDecoderArtifact {
    /// The hashed bytes before the rank.
    pub open spec fn hashed_head(self) -> Seq<u8> {
        u32_bytes(self.schema_version).push(control_kind_byte(self.kind)) + u64_bytes(
            self.landmark_basis_content_hash,
        ) + optional_hash_bytes(self.gnm_basis_content_hash)
    }

    /// The hashed bytes from the rank on.
    pub open spec fn hashed_tail(self) -> Seq<u8> {
        u64_bytes(self.rank as u64) + vstd::utf8::encode_utf8(self.feature_order@) + u64_bytes(
            self.feature_config.history_len as u64,
        ) + u64_bytes(self.feature_config.max_gap_micros) + text_list_bytes(self.training_takes@)
            + canonical_list_bytes(self.linear_map.feature_mean@) + canonical_list_bytes(
            self.linear_map.feature_std@,
        ) + canonical_list_bytes(self.linear_map.target_mean@) + canonical_list_bytes(
            self.linear_map.target_std@,
        ) + canonical_rows_bytes(self.linear_map.weights@)
    }

    /// The bytes that the content hash covers.
    pub open spec fn hashed_bytes(self) -> Seq<u8> {
        self.hashed_head() + self.hashed_tail()
    }

    /// The stored hash covers the contents.
    pub open spec fn hash_matches(self) -> bool {
        self.content_hash == fnv_of(self.hashed_bytes())
    }

    /// Provenance and feature order are those of the kind.
    pub open spec fn order_agrees(self) -> bool {
        &&& provenance_agrees(self.kind, self.gnm_basis_content_hash is Some)
        &&& self.feature_order@ == control_order_of(self.kind)
    }

    /// The artifact and the features pass every check before prediction.
    pub open spec fn accepts(self, features: Seq<Binary32>) -> bool {
        &&& self.schema_version == LANDMARK_CONTROL_DECODER_SCHEMA_VERSION
        &&& self.hash_matches()
        &&& self.order_agrees()
        &&& self.linear_map.fits(features.len() as int)
        &&& all_finite(features)
        &&& self.linear_map.scales_usable()
        &&& self.linear_map.means_usable()
    }

    /// The error owed for the first failed check.
    pub open spec fn is_refusal(
        self,
        features: Seq<Binary32>,
        error: LinearPriorLoadError,
    ) -> bool {
        if self.schema_version != LANDMARK_CONTROL_DECODER_SCHEMA_VERSION {
            error == (LinearPriorLoadError::UnsupportedSchemaVersion {
                found: self.schema_version,
            })
        } else if !self.hash_matches() {
            error == (LinearPriorLoadError::ContentHashMismatch {
                recorded: self.content_hash,
                computed: fnv_of(self.hashed_bytes()),
            })
        } else if !self.order_agrees() {
            &&& error matches LinearPriorLoadError::FeatureOrderMismatch { expected, found }
            &&& expected@ == control_order_of(self.kind)
            &&& found@ == self.feature_order@
        } else if !self.linear_map.fits(features.len() as int) {
            &&& error matches LinearPriorLoadError::DimensionMismatch { detail }
            &&& detail@ == "landmark-control decoder dimensions disagree"@
        } else {
            &&& !(all_finite(features) && self.linear_map.scales_usable()
                && self.linear_map.means_usable())
            &&& error matches LinearPriorLoadError::InvalidNormalization { field }
            &&& field@ == "landmark-control feature/normalization"@
        }
    }

    /// What the map gives for the features; sums begin at negative zero.
    pub open spec fn prediction(self, features: Seq<Binary32>) -> Seq<Binary32> {
        map_values(self.linear_map, features, Binary32 { bits: SIGN_32 })
    }
}

fn control_head(artifact: &LandmarkControlDecoderArtifact) -> (head: Vec<u8>)
    ensures
        head@ == artifact.hashed_head(),
{
    let mut head: Vec<u8> = Vec::new();
    put_u32(&mut head, artifact.schema_version);
    let kind: u8 = match artifact.kind {
        LandmarkControlDecoderKind::LandmarkResidual => 0,
        LandmarkControlDecoderKind::GnmLandmarkUpperBound => 1,
    };
    head.push(kind);
    put_u64(&mut head, artifact.landmark_basis_content_hash);
    match artifact.gnm_basis_content_hash {
        Some(hash) => {
            head.push(1);
            put_u64(&mut head, hash);
        },
        None => {
            head.push(0);
        },
    }
    assert(head@ =~= artifact.hashed_head());
    head
}

fn control_tail(artifact: &LandmarkControlDecoderArtifact) -> (tail: Vec<u8>)
    ensures
        tail@ == artifact.hashed_tail(),
{
    let mut tail: Vec<u8> = Vec::new();
    put_u64(&mut tail, artifact.rank as u64);
    assert(tail@ =~= u64_bytes(artifact.rank as u64));
    put_text(&mut tail, &artifact.feature_order);
    put_u64(&mut tail, artifact.feature_config.history_len as u64);
    put_u64(&mut tail, artifact.feature_config.max_gap_micros);
    put_texts(&mut tail, &artifact.training_takes);
    put_canonical(&mut tail, &artifact.linear_map.feature_mean);
    put_canonical(&mut tail, &artifact.linear_map.feature_std);
    put_canonical(&mut tail, &artifact.linear_map.target_mean);
    put_canonical(&mut tail, &artifact.linear_map.target_std);
    put_canonical_rows(&mut tail, &artifact.linear_map.weights);
    tail
}

/// Hash over every field but the hash itself.
pub fn hash_landmark_decoder(artifact: &LandmarkControlDecoderArtifact) -> (hash: u64)
    ensures
        hash == fnv_of(artifact.hashed_bytes()),
{
    let mut bytes = control_head(artifact);
    let tail = control_tail(artifact);
    put_bytes(&mut bytes, &tail);
    fnv1a(&bytes)
}

/// Predicts an unclamped signed residual.
///
/// # Errors
///
/// Rejects schema, hash, kind/provenance, dimension, or numeric failures.
pub fn predict_landmark_control_raw(
    artifact: &LandmarkControlDecoderArtifact,
    features: &Vec<Binary32>,
) -> (result: Result<Vec<Binary32>, LinearPriorLoadError>)
    ensures
        match result {
            Ok(prediction) => {
                &&& artifact.accepts(features@)
                &&& all_finite(artifact.prediction(features@))
                &&& prediction@ == artifact.prediction(features@)
            },
            Err(error) => {
                if artifact.accepts(features@) {
                    &&& !all_finite(artifact.prediction(features@))
                    &&& error matches LinearPriorLoadError::InvalidNormalization { field }
                    &&& field@ == "landmark-control prediction"@
                } else {
                    artifact.is_refusal(features@, error)
                }
            },
        },
{
    if artifact.schema_version != LANDMARK_CONTROL_DECODER_SCHEMA_VERSION {
        return Err(
            LinearPriorLoadError::UnsupportedSchemaVersion { found: artifact.schema_version },
        );
    }
    let computed: u64 = hash_landmark_decoder(artifact);
    if computed != artifact.content_hash {
        return Err(
            LinearPriorLoadError::ContentHashMismatch {
                recorded: artifact.content_hash,
                computed,
            },
        );
    }
    let reads_gnm = artifact.kind == LandmarkControlDecoderKind::GnmLandmarkUpperBound;
    let expected = landmark_control_feature_order(artifact.kind);
    if reads_gnm != artifact.gnm_basis_content_hash.is_some() || artifact.feature_order
        != expected {
        return Err(
            LinearPriorLoadError::FeatureOrderMismatch {
                expected,
                found: artifact.feature_order.clone(),
            },
        );
    }
    if !artifact.linear_map.is_fitting(features.len()) {
        return Err(
            LinearPriorLoadError::DimensionMismatch {
                detail: "landmark-control decoder dimensions disagree".to_owned(),
            },
        );
    }
    if !is_all_finite(features) || !artifact.linear_map.has_usable_scales()
        || !artifact.linear_map.has_usable_means() {
        return Err(
            LinearPriorLoadError::InvalidNormalization {
                field: "landmark-control feature/normalization".to_owned(),
            },
        );
    }
    let prediction = artifact.linear_map.apply(features, Binary32::from_bits(SIGN_32));
    if !is_all_finite(&prediction) {
        return Err(
            LinearPriorLoadError::InvalidNormalization {
                field: "landmark-control prediction".to_owned(),
            },
        );
    }
    Ok(prediction)
}

/// The bases agree with the kind and with each other.
pub open spec fn bases_agree(
    kind: LandmarkControlDecoderKind,
    landmark_basis: LandmarkAlignedBasisArtifact,
    gnm_basis: Option<TeacherAlignedGnmBasisArtifact>,
) -> bool {
    &&& landmark_basis.fault() is None
    &&& provenance_agrees(kind, gnm_basis is Some)
    &&& gnm_basis is Some ==> gnm_basis->0.rank == landmark_basis.rank && reconstructs_zero(
        gnm_basis->0,
    )
}

/// The error owed where the bases do not agree.
pub open spec fn is_basis_refusal(
    kind: LandmarkControlDecoderKind,
    landmark_basis: LandmarkAlignedBasisArtifact,
    gnm_basis: Option<TeacherAlignedGnmBasisArtifact>,
    error: LandmarkControlError,
) -> bool {
    if landmark_basis.fault() is Some {
        landmark_basis.fault() == Some(error)
    } else if !provenance_agrees(kind, gnm_basis is Some) {
        error == LandmarkControlError::KindMismatch
    } else {
        &&& gnm_basis is Some
        &&& if gnm_basis->0.rank != landmark_basis.rank {
            error == LandmarkControlError::InvalidShape("L/HL rank mismatch")
        } else {
            error matches LandmarkControlError::ResidualNormalization(reason)
                && is_aligned_reconstruction(
                zero_features(gnm_basis->0.rank as int),
                gnm_basis->0,
                Err(reason),
            )
        }
    }
}

/// Checks that the bases agree with the kind and with each other, and returns
/// the hash of the fitted-state basis.
fn check_bases(
    kind: LandmarkControlDecoderKind,
    landmark_basis: &LandmarkAlignedBasisArtifact,
    gnm_basis: Option<&TeacherAlignedGnmBasisArtifact>,
) -> (result: Result<Option<u64>, LandmarkControlError>)
    ensures
        ({
            let basis = match gnm_basis {
                Some(basis) => Some(*basis),
                None => None,
            };
            match result {
                Ok(hash) => {
                    &&& bases_agree(kind, *landmark_basis, basis)
                    &&& hash == (match basis {
                        Some(basis) => Some(basis.content_hash),
                        None => None,
                    })
                },
                Err(error) => {
                    &&& !bases_agree(kind, *landmark_basis, basis)
                    &&& is_basis_refusal(kind, *landmark_basis, basis, error)
                },
            }
        }),
{
    if let Err(error) = validate_landmark_basis(landmark_basis) {
        return Err(error);
    }
    match (kind, gnm_basis) {
        (LandmarkControlDecoderKind::LandmarkResidual, None) => Ok(None),
        (LandmarkControlDecoderKind::GnmLandmarkUpperBound, Some(basis)) => {
            if basis.rank != landmark_basis.rank {
                return Err(LandmarkControlError::InvalidShape("L/HL rank mismatch"));
            }
            if let Err(error) = check_zero_reconstruction(basis) {
                return Err(LandmarkControlError::ResidualNormalization(error));
            }
            Ok(Some(basis.content_hash))
        },
        _ => Err(LandmarkControlError::KindMismatch),
    }
}

/// Assembles a decoder from `fitted`, the ridge solver's outcome on the rows of
/// the selected takes.
///
/// The explicit basis arguments are required to place verifiable content hashes
/// in the artifact; row features alone cannot recover artifact provenance.
///
/// # Errors
///
/// Rejects kind/basis mismatch, malformed rows, or shared ridge failures.
pub fn fit_landmark_control_decoder(
    rows: &Vec<GnmSemanticRow>,
    training_takes: &Vec<String>,
    kind: LandmarkControlDecoderKind,
    landmark_basis: &LandmarkAlignedBasisArtifact,
    gnm_basis: Option<&TeacherAlignedGnmBasisArtifact>,
    fitted: Result<NormalizedLinearMapArtifact, LinearPriorFitError>,
) -> (result: Result<LandmarkControlDecoderArtifact, LandmarkControlError>)
    ensures
        ({
            let basis = match gnm_basis {
                Some(basis) => Some(*basis),
                None => None,
            };
            let positions = semantic_training_positions(rows@, training_takes@);
            let agreed = bases_agree(kind, *landmark_basis, basis);
            match result {
                Ok(artifact) => {
                    &&& agreed
                    &&& positions.len() > 0
                    &&& rows_consistent(rows@, positions)
                    &&& fitted == Ok::<_, LinearPriorFitError>(artifact.linear_map)
                    &&& artifact.schema_version == LANDMARK_CONTROL_DECODER_SCHEMA_VERSION
                    &&& artifact.kind == kind
                    &&& artifact.landmark_basis_content_hash == landmark_basis.content_hash
                    &&& artifact.gnm_basis_content_hash == (match basis {
                        Some(basis) => Some(basis.content_hash),
                        None => None,
                    })
                    &&& artifact.rank == landmark_basis.rank
                    &&& artifact.order_agrees()
                    &&& artifact.feature_config == rows@[positions[0] as int].feature_config
                    &&& strictly_ordered(artifact.training_takes@)
                    &&& same_takes(artifact.training_takes@, training_takes@)
                    &&& artifact.hash_matches()
                },
                Err(error) => {
                    if !agreed {
                        is_basis_refusal(kind, *landmark_basis, basis, error)
                    } else if positions.len() == 0 {
                        error == LandmarkControlError::EmptyTrainingSet
                    } else if !rows_consistent(rows@, positions) {
                        error == LandmarkControlError::InvalidShape("training rows")
                    } else {
                        fitted is Err && error == LandmarkControlError::Ridge(fitted->Err_0)
                    }
                },
            }
        }),
{
    let gnm_basis_content_hash = match check_bases(kind, landmark_basis, gnm_basis) {
        Ok(hash) => hash,
        Err(error) => {
            return Err(error);
        },
    };
    let positions = select_semantic_rows(rows, training_takes);
    if positions.len() == 0 {
        return Err(LandmarkControlError::EmptyTrainingSet);
    }
    if !are_rows_consistent(rows, &positions) {
        return Err(LandmarkControlError::InvalidShape("training rows"));
    }
    let linear_map = match fitted {
        Ok(linear_map) => linear_map,
        Err(error) => {
            return Err(LandmarkControlError::Ridge(error));
        },
    };
    let mut artifact = LandmarkControlDecoderArtifact {
        schema_version: LANDMARK_CONTROL_DECODER_SCHEMA_VERSION,
        kind,
        landmark_basis_content_hash: landmark_basis.content_hash,
        gnm_basis_content_hash,
        rank: landmark_basis.rank,
        feature_order: landmark_control_feature_order(kind),
        feature_config: rows[positions[0]].feature_config,
        training_takes: sorted_takes(training_takes),
        linear_map,
        content_hash: 0,
    };
    let hash: u64 = hash_landmark_decoder(&artifact);
    artifact.content_hash = hash;
    Ok(artifact)
}

} // verus!
