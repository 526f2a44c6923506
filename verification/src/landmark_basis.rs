//! Landmark normalization and teacher-residual-aligned landmark bases.

use vstd::prelude::*;

use crate::arkit::{Arkit52Coefficients, ARKIT_NON_TONGUE_CHANNEL_COUNT};
use crate::arkit_teacher::{MediaPipeObservation, PairedTemporalSample, TeacherDatasetError};
use crate::binary::{Binary32, Binary64, SIGN_32};
use crate::content_hash::{
    canonical_list_bytes, fnv1a, fnv_of, index_list_bytes, lemma_equal_texts_are_hashed_alike, put_canonical, put_indices, put_texts, put_u32, put_u64,
    text_list_bytes, u32_bytes, u64_bytes,
};
use crate::gnm_semantic_decoder::GnmSemanticDatasetError;
use crate::linear_map::{all_finite, is_all_finite, LinearPriorFitError};
use crate::matrix::{
    column_values, lay_out_rows, lemma_position_fits, peak_sign, row_major, sign_of_peak, LeftSingularVectors,
};
use crate::ordering::{descending_keys, is_stable_order, order_descending};
use crate::takes::{
    contains_take, lemma_nothing_is_kept, lemma_selected_are_kept, lemma_selected_positions_fit, lemma_sorted_takes_are_unique, names_take, same_takes,
    selected_positions, sorted_takes, strictly_ordered,
};
use crate::teacher_aligned_basis::{
    are_statistics_finite, channel_mean, channel_std, inactive_before, is_normalization,
    normalize_teacher_residuals, normalized_residual, residual_rows, statistics_finite,
    residuals_finite, subtract_non_tongue, usable_length, ResidualNormalization, TeacherAlignedBasisError,
};
use crate::teacher_residual::channel_differences;

verus! {

/// Number of face landmarks.
pub const LANDMARK_COUNT: usize = 478;

/// Flattened 478-point MediaPipe `(x, y)` dimension.
pub const NORMALIZED_LANDMARK_XY_DIM: usize = 956;

/// Landmark teacher-aligned basis schema version.
pub const LANDMARK_ALIGNED_BASIS_SCHEMA_VERSION: u32 = 1;

/// Bit pattern of one millionth: smaller landmark scales are degenerate.
pub const DEGENERATE_SCALE_BITS: u32 = 0x3586_37bd;

/// Typed landmark-control failure.
#[derive(Clone, Debug, PartialEq)]
pub enum LandmarkControlError {
    /// Exactly 478 `(x, y)` points are required.
    LandmarkCount(usize),
    /// Landmark coordinates or a computed number are non-finite.
    InvalidNumeric(&'static str),
    /// Centered landmark RMS scale is at most one millionth.
    DegenerateScale,
    /// Requested rank is outside `1..=51`.
    InvalidRank(usize),
    /// No selected training samples/rows exist.
    EmptyTrainingSet,
    /// Artifact or feature dimensions disagree with the fixed contract.
    InvalidShape(&'static str),
    /// Artifact hash does not match its fields.
    HashMismatch,
    /// Paired trace validation failed.
    TeacherDataset(TeacherDatasetError),
    /// Shared teacher-residual normalization failed.
    ResidualNormalization(TeacherAlignedBasisError),
    /// Reduced GNM history/basis failed.
    Gnm(GnmSemanticDatasetError),
    /// GNM and landmark frame identities differ.
    IdentityMismatch,
    /// Shared ridge fit failed.
    Ridge(LinearPriorFitError),
    /// Decoder kind and supplied basis provenance disagree.
    KindMismatch,
}

/// Every coordinate is finite.
pub open spec fn points_finite(landmarks: Seq<[Binary32; 2]>) -> bool {
    forall|i: int| 0 <= i < landmarks.len() ==> all_finite((#[trigger] landmarks[i])@)
}

/// Sum of one coordinate over the first `n` points.
pub open spec fn coordinate_total(landmarks: Seq<[Binary32; 2]>, axis: int, n: int) -> Binary32
    decreases n,
{
    if n <= 0 {
        Binary32 { bits: SIGN_32 }
    } else {
        coordinate_total(landmarks, axis, n - 1).plus(landmarks[n - 1]@[axis])
    }
}

/// Mean of one coordinate.
pub open spec fn centroid(landmarks: Seq<[Binary32; 2]>, axis: int) -> Binary32 {
    coordinate_total(landmarks, axis, landmarks.len() as int).over(
        Binary32::of_integer(landmarks.len()),
    )
}

/// Sum of the squared distances of the first `n` points from the centroid.
pub open spec fn spread_total(landmarks: Seq<[Binary32; 2]>, n: int) -> Binary32
    decreases n,
{
    if n <= 0 {
        Binary32 { bits: SIGN_32 }
    } else {
        let dx = landmarks[n - 1]@[0].minus(centroid(landmarks, 0));
        let dy = landmarks[n - 1]@[1].minus(centroid(landmarks, 1));
        spread_total(landmarks, n - 1).plus(dx.times(dx).plus(dy.times(dy)))
    }
}

/// Root mean square distance from the centroid.
pub open spec fn landmark_scale(landmarks: Seq<[Binary32; 2]>) -> Binary32 {
    spread_total(landmarks, landmarks.len() as int).over(
        Binary32::of_integer(landmarks.len()),
    ).root()
}

/// The centered and scaled coordinates, point after point.
pub open spec fn normalized_xy(landmarks: Seq<[Binary32; 2]>) -> Seq<Binary32> {
    Seq::new(
        956,
        |k: int|
            landmarks[k / 2]@[k % 2].minus(centroid(landmarks, k % 2)).over(
                landmark_scale(landmarks),
            ),
    )
}

/// Why landmarks cannot be normalized, if they cannot.
pub open spec fn landmark_fault(landmarks: Seq<[Binary32; 2]>) -> Option<LandmarkControlError> {
    if landmarks.len() != LANDMARK_COUNT {
        Some(LandmarkControlError::LandmarkCount(landmarks.len() as usize))
    } else if !points_finite(landmarks) {
        Some(LandmarkControlError::InvalidNumeric("landmark coordinate"))
    } else if !landmark_scale(landmarks).finite() {
        Some(LandmarkControlError::InvalidNumeric("landmark scale"))
    } else if landmark_scale(landmarks).at_most(Binary32 { bits: DEGENERATE_SCALE_BITS }) {
        Some(LandmarkControlError::DegenerateScale)
    } else {
        None
    }
}

fn coordinate_centroid(landmarks: &Vec<[Binary32; 2]>, axis: usize) -> (mean: Binary32)
    requires
        axis < 2,
    ensures
        mean == centroid(landmarks@, axis as int),
{
    let mut total = Binary32::from_bits(SIGN_32);
    for i in 0..landmarks.len()
        invariant
            axis < 2,
            total == coordinate_total(landmarks@, axis as int, i as int),
    {
        total = total.sum(landmarks[i][axis]);
    }
    total.quotient(Binary32::from_integer(landmarks.len() as u64))
}

/// Removes per-frame translation and RMS scale from all 478 `(x, y)` points.
///
/// # Errors
///
/// Rejects the wrong point count, non-finite coordinates, or degenerate scale.
pub fn normalize_landmarks_xy(landmarks: &Vec<[Binary32; 2]>) -> (result: Result<
    [Binary32; 956],
    LandmarkControlError,
>)
    ensures
        match result {
            Ok(normalized) => landmark_fault(landmarks@) is None && normalized@ == normalized_xy(
                landmarks@,
            ),
            Err(error) => landmark_fault(landmarks@) == Some(error),
        },
{
    if landmarks.len() != LANDMARK_COUNT {
        return Err(LandmarkControlError::LandmarkCount(landmarks.len()));
    }
    for i in 0..landmarks.len()
        invariant
            landmarks@.len() == LANDMARK_COUNT,
            forall|j: int| 0 <= j < i ==> all_finite((#[trigger] landmarks@[j])@),
    {
        if !is_all_finite(landmarks[i].as_slice()) {
            assert(!all_finite(landmarks@[i as int]@));
            return Err(LandmarkControlError::InvalidNumeric("landmark coordinate"));
        }
    }
    let mean_x = coordinate_centroid(landmarks, 0);
    let mean_y = coordinate_centroid(landmarks, 1);
    let mut spread = Binary32::from_bits(SIGN_32);
    for i in 0..landmarks.len()
        invariant
            mean_x == centroid(landmarks@, 0),
            mean_y == centroid(landmarks@, 1),
            spread == spread_total(landmarks@, i as int),
    {
        let dx = landmarks[i][0].difference(mean_x);
        let dy = landmarks[i][1].difference(mean_y);
        spread = spread.sum(dx.product(dx).sum(dy.product(dy)));
    }
    let scale = spread.quotient(Binary32::from_integer(landmarks.len() as u64)).square_root();
    if !scale.is_finite() {
        return Err(LandmarkControlError::InvalidNumeric("landmark scale"));
    }
    if scale.is_at_most(Binary32::from_bits(DEGENERATE_SCALE_BITS)) {
        return Err(LandmarkControlError::DegenerateScale);
    }
    let mut normalized: [Binary32; 956] = [Binary32::zero();956];
    for i in 0..LANDMARK_COUNT
        invariant
            landmarks@.len() == LANDMARK_COUNT,
            mean_x == centroid(landmarks@, 0),
            mean_y == centroid(landmarks@, 1),
            scale == landmark_scale(landmarks@),
            forall|k: int|
                0 <= k < 2 * i ==> #[trigger] normalized@[k] == normalized_xy(landmarks@)[k],
    {
        normalized[2 * i] = landmarks[i][0].difference(mean_x).quotient(scale);
        normalized[2 * i + 1] = landmarks[i][1].difference(mean_y).quotient(scale);
    }
    assert(normalized@ =~= normalized_xy(landmarks@));
    Ok(normalized)
}

/// One normalized landmark row paired with its exact-frame teacher residual.
#[derive(Clone, Debug, PartialEq)]
pub struct LandmarkAlignmentSample {
    /// Source take id.
    pub take_id: String,
    /// Source frame sequence.
    pub frame_seq: u64,
    /// Translation/scale-normalized 478-point `(x, y)` vector.
    pub normalized_xy: [Binary32; 956],
    /// Same-frame teacher-minus-Direct non-tongue residual.
    pub teacher_residual: [Binary32; 51],
}

/// The sample has an observation and a teacher.
pub open spec fn is_observed(sample: PairedTemporalSample) -> bool {
    sample.mediapipe_observation is Some && sample.teacher is Some
}

/// The sample's landmarks.
pub open spec fn sample_landmarks(sample: PairedTemporalSample) -> Seq<[Binary32; 2]> {
    sample.mediapipe_observation->0.landmarks_xy@
}

/// What the teacher adds to the sample's Direct values.
pub open spec fn sample_residual(sample: PairedTemporalSample) -> Seq<Binary32> {
    channel_differences(
        sample.teacher->0@,
        sample.mediapipe_observation->0.direct_coefficients@,
    )
}

/// The alignment sample of an observed paired sample.
pub open spec fn is_landmark_alignment(
    take_id: Seq<char>,
    sample: PairedTemporalSample,
    alignment: LandmarkAlignmentSample,
) -> bool {
    &&& alignment.take_id@ == take_id
    &&& alignment.frame_seq == sample.frame_seq
    &&& alignment.normalized_xy@ == normalized_xy(sample_landmarks(sample))
    &&& alignment.teacher_residual@ == sample_residual(sample)
}

/// Positions of the observed samples among the first `n`.
pub open spec fn observed_before(samples: Seq<PairedTemporalSample>, n: int) -> Seq<int>
    decreases n,
{
    if n <= 0 {
        Seq::empty()
    } else if is_observed(samples[n - 1]) {
        observed_before(samples, n - 1).push(n - 1)
    } else {
        observed_before(samples, n - 1)
    }
}

/// The first landmark fault among the first `n` samples.
pub open spec fn first_landmark_fault(samples: Seq<PairedTemporalSample>, n: int) -> Option<
    LandmarkControlError,
>
    decreases n,
{
    if n <= 0 {
        None
    } else if first_landmark_fault(samples, n - 1) is Some {
        first_landmark_fault(samples, n - 1)
    } else if is_observed(samples[n - 1]) {
        landmark_fault(sample_landmarks(samples[n - 1]))
    } else {
        None
    }
}

/// The alignment samples of the first `n` paired samples.
pub open spec fn are_landmark_alignments(
    take_id: Seq<char>,
    samples: Seq<PairedTemporalSample>,
    n: int,
    output: Seq<LandmarkAlignmentSample>,
) -> bool {
    let observed = observed_before(samples, n);
    &&& output.len() == observed.len()
    &&& forall|i: int|
        0 <= i < output.len() ==> is_landmark_alignment(
            take_id,
            samples[observed[i]],
            #[trigger] output[i],
        )
}

proof fn lemma_landmark_fault_persists(samples: Seq<PairedTemporalSample>, n: int, m: int)
    requires
        n <= m,
        first_landmark_fault(samples, n) is Some,
    ensures
        first_landmark_fault(samples, m) == first_landmark_fault(samples, n),
    decreases m - n,
{
    if n < m {
        lemma_landmark_fault_persists(samples, n, m - 1);
    }
}

/// The alignment sample of one observed paired sample.
fn align_landmarks(
    take_id: &String,
    sample: &PairedTemporalSample,
    observation: &MediaPipeObservation,
    teacher: &Arkit52Coefficients,
) -> (result: Result<LandmarkAlignmentSample, LandmarkControlError>)
    requires
        sample.mediapipe_observation == Some(*observation),
        sample.teacher == Some(*teacher),
    ensures
        match result {
            Ok(alignment) => {
                &&& landmark_fault(sample_landmarks(*sample)) is None
                &&& is_landmark_alignment(take_id@, *sample, alignment)
            },
            Err(error) => landmark_fault(sample_landmarks(*sample)) == Some(error),
        },
{
    match normalize_landmarks_xy(&observation.landmarks_xy) {
        Err(error) => Err(error),
        Ok(normalized) => Ok(
            LandmarkAlignmentSample {
                take_id: take_id.clone(),
                frame_seq: sample.frame_seq,
                normalized_xy: normalized,
                teacher_residual: subtract_non_tongue(teacher, &observation.direct_coefficients),
            },
        ),
    }
}

/// One more observed sample extends the alignments.
proof fn lemma_alignments_extend(
    take_id: Seq<char>,
    samples: Seq<PairedTemporalSample>,
    n: int,
    output: Seq<LandmarkAlignmentSample>,
    alignment: LandmarkAlignmentSample,
)
    requires
        0 <= n < samples.len(),
        are_landmark_alignments(take_id, samples, n, output),
        is_observed(samples[n]),
        is_landmark_alignment(take_id, samples[n], alignment),
    ensures
        are_landmark_alignments(take_id, samples, n + 1, output.push(alignment)),
{
    let before = observed_before(samples, n);
    let observed = observed_before(samples, n + 1);
    let longer = output.push(alignment);
    assert(observed == before.push(n));
    assert forall|k: int| 0 <= k < longer.len() implies is_landmark_alignment(
        take_id,
        samples[observed[k]],
        #[trigger] longer[k],
    ) by {
        if k < output.len() {
            assert(longer[k] == output[k]);
            assert(observed[k] == before[k]);
            assert(is_landmark_alignment(take_id, samples[before[k]], output[k]));
        }
    }
}

/// Builds exact-frame landmark/residual alignment samples without GNM input.
///
/// `pairing` is the outcome of validating the trace's frame pairing.
///
/// # Errors
///
/// Returns paired-trace or landmark-normalization failures.
pub fn build_landmark_alignment_samples(
    take_id: &String,
    samples: &Vec<PairedTemporalSample>,
    pairing: Result<(), TeacherDatasetError>,
) -> (result: Result<Vec<LandmarkAlignmentSample>, LandmarkControlError>)
    ensures
        ({
            let fault = first_landmark_fault(samples@, samples@.len() as int);
            match result {
                Ok(output) => {
                    &&& pairing is Ok
                    &&& fault is None
                    &&& are_landmark_alignments(
                        take_id@,
                        samples@,
                        samples@.len() as int,
                        output@,
                    )
                },
                Err(error) => {
                    if pairing is Err {
                        error == LandmarkControlError::TeacherDataset(pairing->Err_0)
                    } else {
                        fault == Some(error)
                    }
                },
            }
        }),
{
    if let Err(error) = pairing {
        return Err(LandmarkControlError::TeacherDataset(error));
    }
    let mut output: Vec<LandmarkAlignmentSample> = Vec::new();
    for i in 0..samples.len()
        invariant
            pairing is Ok,
            first_landmark_fault(samples@, i as int) is None,
            are_landmark_alignments(take_id@, samples@, i as int, output@),
    {
        let sample = &samples[i];
        if let (Some(observation), Some(teacher)) = (
            &sample.mediapipe_observation,
            &sample.teacher,
        ) {
            match align_landmarks(take_id, sample, observation, teacher) {
                Err(error) => {
                    proof {
                        lemma_landmark_fault_persists(samples@, i + 1, samples@.len() as int);
                    }
                    return Err(error);
                },
                Ok(alignment) => {
                    proof {
                        lemma_alignments_extend(
                            take_id@,
                            samples@,
                            i as int,
                            output@,
                            alignment,
                        );
                    }
                    output.push(alignment);
                },
            }
        }
    }
    Ok(output)
}

/// Versioned teacher-residual-aligned landmark basis.
#[derive(Clone, Debug, PartialEq)]
pub struct LandmarkAlignedBasisArtifact {
    /// Artifact schema version.
    pub schema_version: u32,
    /// Retained latent rank.
    pub rank: usize,
    /// Fixed source dimension (956).
    pub source_dimension: usize,
    /// Ordered training take ids.
    pub training_takes: Vec<String>,
    /// Training-only mean normalized landmark vector.
    pub source_mean: Vec<Binary32>,
    /// Training-only residual mean.
    pub residual_mean: [Binary32; 51],
    /// Training-only residual standard deviation.
    pub residual_std: [Binary32; 51],
    /// Residual channels inactive under the shared threshold.
    pub inactive_residual_channels: Vec<usize>,
    /// Cross-covariance singular values in descending order.
    pub singular_values_descending: Vec<Binary64>,
    /// Row-major `[956, rank]` orthonormal basis.
    pub basis_row_major: Vec<Binary32>,
    /// Deterministic content hash over every preceding field.
    pub content_hash: u64,
}

/// Each number rounded to single precision.
pub open spec fn narrowed_all(numbers: Seq<Binary64>) -> Seq<Binary32> {
    Seq::new(numbers.len(), |i: int| numbers[i].narrowed())
}

impl LandmarkAlignedBasisArtifact {
    /// The bytes that the content hash covers.
    pub open spec fn hashed_bytes(self) -> Seq<u8> {
        u32_bytes(self.schema_version) + u64_bytes(self.rank as u64) + u64_bytes(
            self.source_dimension as u64,
        ) + text_list_bytes(self.training_takes@) + canonical_list_bytes(self.source_mean@)
            + canonical_list_bytes(self.residual_mean@) + canonical_list_bytes(self.residual_std@)
            + index_list_bytes(self.inactive_residual_channels@) + canonical_list_bytes(
            narrowed_all(self.singular_values_descending@),
        ) + canonical_list_bytes(self.basis_row_major@)
    }

    /// The stored hash covers the contents.
    pub open spec fn hash_matches(self) -> bool {
        self.content_hash == fnv_of(self.hashed_bytes())
    }

    /// Schema and dimensions are as fixed.
    pub open spec fn shape_valid(self) -> bool {
        &&& self.schema_version == LANDMARK_ALIGNED_BASIS_SCHEMA_VERSION
        &&& self.source_dimension == NORMALIZED_LANDMARK_XY_DIM
        &&& 1 <= self.rank <= ARKIT_NON_TONGUE_CHANNEL_COUNT
        &&& self.source_mean@.len() == NORMALIZED_LANDMARK_XY_DIM
        &&& self.singular_values_descending@.len() == self.rank
        &&& self.basis_row_major@.len() == NORMALIZED_LANDMARK_XY_DIM * self.rank
    }

    /// Why the artifact cannot be used, if it cannot.
    pub open spec fn fault(self) -> Option<LandmarkControlError> {
        if !self.shape_valid() {
            Some(LandmarkControlError::InvalidShape("landmark basis"))
        } else if !self.hash_matches() {
            Some(LandmarkControlError::HashMismatch)
        } else {
            None
        }
    }
}

/// Hash over every field but the hash itself.
pub fn hash_landmark_basis(artifact: &LandmarkAlignedBasisArtifact) -> (hash: u64)
    ensures
        hash == fnv_of(artifact.hashed_bytes()),
{
    let mut bytes: Vec<u8> = Vec::new();
    put_u32(&mut bytes, artifact.schema_version);
    assert(bytes@ =~= u32_bytes(artifact.schema_version));
    put_u64(&mut bytes, artifact.rank as u64);
    put_u64(&mut bytes, artifact.source_dimension as u64);
    put_texts(&mut bytes, &artifact.training_takes);
    put_canonical(&mut bytes, &artifact.source_mean);
    put_canonical(&mut bytes, artifact.residual_mean.as_slice());
    put_canonical(&mut bytes, artifact.residual_std.as_slice());
    put_indices(&mut bytes, &artifact.inactive_residual_channels);
    let narrowed = narrow_all(&artifact.singular_values_descending);
    put_canonical(&mut bytes, &narrowed);
    put_canonical(&mut bytes, &artifact.basis_row_major);
    fnv1a(&bytes)
}

fn narrow_all(numbers: &Vec<Binary64>) -> (narrowed: Vec<Binary32>)
    ensures
        narrowed@ == narrowed_all(numbers@),
{
    let mut narrowed: Vec<Binary32> = Vec::new();
    for i in 0..numbers.len()
        invariant
            narrowed@.len() == i,
            forall|j: int| 0 <= j < i ==> #[trigger] narrowed@[j] == numbers@[j].narrowed(),
    {
        narrowed.push(numbers[i].narrow());
    }
    assert(narrowed@ =~= narrowed_all(numbers@));
    narrowed
}

/// Checks schema, dimensions and hash.
///
/// # Errors
///
/// Rejects an artifact with another shape, or whose hash does not cover it.
pub fn validate_landmark_basis(basis: &LandmarkAlignedBasisArtifact) -> (result: Result<
    (),
    LandmarkControlError,
>)
    ensures
        match result {
            Ok(_) => basis.fault() is None,
            Err(error) => basis.fault() == Some(error),
        },
{
    if basis.schema_version != LANDMARK_ALIGNED_BASIS_SCHEMA_VERSION || basis.source_dimension
        != NORMALIZED_LANDMARK_XY_DIM || basis.rank < 1 || basis.rank
        > ARKIT_NON_TONGUE_CHANNEL_COUNT || basis.source_mean.len() != NORMALIZED_LANDMARK_XY_DIM
        || basis.singular_values_descending.len() != basis.rank || basis.basis_row_major.len()
        != NORMALIZED_LANDMARK_XY_DIM * basis.rank {
        return Err(LandmarkControlError::InvalidShape("landmark basis"));
    }
    if hash_landmark_basis(basis) != basis.content_hash {
        return Err(LandmarkControlError::HashMismatch);
    }
    Ok(())
}

/// One latent coordinate, summed over the first `n` centered source values.
pub open spec fn latent_before(
    source: Seq<Binary32>,
    basis: LandmarkAlignedBasisArtifact,
    column: int,
    n: int,
) -> Binary32
    decreases n,
{
    if n <= 0 {
        Binary32 { bits: 0 }
    } else {
        latent_before(source, basis, column, n - 1).plus(
            source[n - 1].minus(basis.source_mean@[n - 1]).times(
                basis.basis_row_major@[(n - 1) * (basis.rank as int) + column],
            ),
        )
    }
}

/// Latent coordinates of a normalized landmark vector.
pub open spec fn latent(source: Seq<Binary32>, basis: LandmarkAlignedBasisArtifact) -> Seq<
    Binary32,
> {
    Seq::new(basis.rank as nat, |column: int| latent_before(source, basis, column, 956))
}

/// Why a landmark vector has no latent coordinates, if it has none.
pub open spec fn latent_fault(source: Seq<Binary32>, basis: LandmarkAlignedBasisArtifact) -> Option<
    LandmarkControlError,
> {
    if basis.fault() is Some {
        basis.fault()
    } else if !all_finite(latent(source, basis)) {
        Some(LandmarkControlError::InvalidNumeric("landmark latent"))
    } else {
        None
    }
}

/// Projects a normalized landmark vector, less the training mean, onto the basis.
///
/// # Errors
///
/// Rejects malformed/hash-mismatched artifacts or non-finite results.
pub fn project_landmark_latent(
    normalized_xy: &[Binary32; 956],
    basis: &LandmarkAlignedBasisArtifact,
) -> (result: Result<Vec<Binary32>, LandmarkControlError>)
    ensures
        match result {
            Ok(coordinates) => latent_fault(normalized_xy@, *basis) is None && coordinates@
                == latent(normalized_xy@, *basis),
            Err(error) => latent_fault(normalized_xy@, *basis) == Some(error),
        },
{
    if let Err(error) = validate_landmark_basis(basis) {
        return Err(error);
    }
    let rank: usize = basis.rank;
    let mut coordinates: Vec<Binary32> = Vec::new();
    for column in 0..rank
        invariant
            rank == basis.rank,
            basis.shape_valid(),
            coordinates@.len() == column,
            forall|c: int|
                0 <= c < column ==> #[trigger] coordinates@[c] == latent_before(
                    normalized_xy@,
                    *basis,
                    c,
                    956,
                ),
    {
        let mut value = Binary32::zero();
        for row in 0..NORMALIZED_LANDMARK_XY_DIM
            invariant
                column < rank,
                rank == basis.rank,
                basis.shape_valid(),
                value == latent_before(normalized_xy@, *basis, column as int, row as int),
        {
            proof {
                lemma_position_fits(row as int, column as int, 956, rank as int);
                assert(basis.basis_row_major.len() == basis.basis_row_major@.len());
            }
            value =
            value.sum(
                normalized_xy[row].difference(basis.source_mean[row]).product(
                    basis.basis_row_major[row * rank + column],
                ),
            );
        }
        coordinates.push(value);
    }
    assert(coordinates@ =~= latent(normalized_xy@, *basis));
    if !is_all_finite(&coordinates) {
        return Err(LandmarkControlError::InvalidNumeric("landmark latent"));
    }
    Ok(coordinates)
}

/// Take ids of the samples.
pub open spec fn landmark_takes(samples: Seq<LandmarkAlignmentSample>) -> Seq<Seq<char>> {
    Seq::new(samples.len(), |i: int| samples[i].take_id@)
}

/// Positions of the training samples.
pub open spec fn training_landmarks(
    samples: Seq<LandmarkAlignmentSample>,
    takes: Seq<String>,
) -> Seq<usize> {
    selected_positions(landmark_takes(samples), takes, samples.len() as int)
}

/// Normalized landmark vectors of the training samples.
pub open spec fn training_sources(
    samples: Seq<LandmarkAlignmentSample>,
    takes: Seq<String>,
) -> Seq<Seq<Binary32>> {
    let positions = training_landmarks(samples, takes);
    Seq::new(positions.len(), |i: int| samples[positions[i] as int].normalized_xy@)
}

/// Teacher residuals of the training samples.
pub open spec fn training_targets(
    samples: Seq<LandmarkAlignmentSample>,
    takes: Seq<String>,
) -> Seq<Seq<Binary32>> {
    let positions = training_landmarks(samples, takes);
    Seq::new(positions.len(), |i: int| samples[positions[i] as int].teacher_residual@)
}

/// Mean of one source value over the first `n` rows, in shares of the whole count.
pub open spec fn source_mean_before(sources: Seq<Seq<Binary32>>, at: int, n: int) -> Binary32
    decreases n,
{
    if n <= 0 {
        Binary32 { bits: 0 }
    } else {
        source_mean_before(sources, at, n - 1).plus(
            sources[n - 1][at].over(Binary32::of_integer(sources.len())),
        )
    }
}

/// Mean source vector.
pub open spec fn source_means(sources: Seq<Seq<Binary32>>) -> Seq<Binary32> {
    Seq::new(956, |at: int| source_mean_before(sources, at, sources.len() as int))
}

/// Cross-covariance of one source value with one normalized residual channel
/// over the first `n` rows, in shares of the whole count.
pub open spec fn landmark_covariance_before(
    sources: Seq<Seq<Binary32>>,
    residuals: Seq<Seq<Binary32>>,
    at: int,
    channel: int,
    n: int,
) -> Binary64
    decreases n,
{
    if n <= 0 {
        Binary64 { bits: 0 }
    } else {
        let centered = sources[n - 1][at].minus(source_means(sources)[at]);
        landmark_covariance_before(sources, residuals, at, channel, n - 1).plus(
            centered.times(normalized_residual(residuals, n - 1, channel)).widened().over(
                Binary32::of_integer(sources.len()).widened(),
            ),
        )
    }
}

/// The cross-covariance matrix, one row per source value.
pub open spec fn is_landmark_covariance(
    sources: Seq<Seq<Binary32>>,
    residuals: Seq<Seq<Binary32>>,
    rows: Seq<[Binary64; 51]>,
) -> bool {
    &&& rows.len() == NORMALIZED_LANDMARK_XY_DIM
    &&& forall|at: int, c: int|
        0 <= at < 956 && 0 <= c < 51 ==> #[trigger] rows[at]@[c] == landmark_covariance_before(
            sources,
            residuals,
            at,
            c,
            sources.len() as int,
        )
}

/// Why the samples cannot be aligned, if they cannot.
pub open spec fn landmark_alignment_fault(
    samples: Seq<LandmarkAlignmentSample>,
    takes: Seq<String>,
    rank: usize,
) -> Option<LandmarkControlError> {
    if rank < 1 || rank > ARKIT_NON_TONGUE_CHANNEL_COUNT {
        Some(LandmarkControlError::InvalidRank(rank))
    } else if training_landmarks(samples, takes).len() == 0 {
        Some(LandmarkControlError::EmptyTrainingSet)
    } else if !residuals_finite(training_targets(samples, takes)) {
        Some(
            LandmarkControlError::ResidualNormalization(
                TeacherAlignedBasisError::InvalidNumeric("teacher residual"),
            ),
        )
    } else if !statistics_finite(training_targets(samples, takes)) {
        Some(
            LandmarkControlError::ResidualNormalization(
                TeacherAlignedBasisError::InvalidNumeric("residual statistics"),
            ),
        )
    } else {
        None
    }
}

/// Training statistics: what the singular-value solver is run on, with the
/// source mean and the residual normalization that go with it.
#[derive(Clone, Debug, PartialEq)]
pub struct LandmarkStatistics {
    /// Mean normalized landmark vector.
    pub source_mean: Vec<Binary32>,
    /// Residual statistics.
    pub normalization: ResidualNormalization,
    /// Cross-covariance, one row per source value.
    pub cross_covariance: Vec<[Binary64; 51]>,
}

/// The normalized landmark vectors as sequences.
pub open spec fn source_rows(sources: Seq<[Binary32; 956]>) -> Seq<Seq<Binary32>> {
    Seq::new(sources.len(), |i: int| sources[i]@)
}

fn mean_sources(sources: &Vec<[Binary32; 956]>) -> (means: Vec<Binary32>)
    ensures
        means@ == source_means(source_rows(sources@)),
{
    let ghost rows = source_rows(sources@);
    let count = Binary32::from_integer(sources.len() as u64);
    let mut means: Vec<Binary32> = Vec::new();
    for at in 0..NORMALIZED_LANDMARK_XY_DIM
        invariant
            rows == source_rows(sources@),
            count == Binary32::of_integer(rows.len()),
            means@.len() == at,
            forall|k: int|
                0 <= k < at ==> #[trigger] means@[k] == source_mean_before(
                    rows,
                    k,
                    rows.len() as int,
                ),
    {
        let mut mean = Binary32::zero();
        for i in 0..sources.len()
            invariant
                at < 956,
                rows == source_rows(sources@),
                count == Binary32::of_integer(rows.len()),
                mean == source_mean_before(rows, at as int, i as int),
        {
            mean = mean.sum(sources[i][at].quotient(count));
        }
        means.push(mean);
    }
    assert(means@ =~= source_means(rows));
    means
}

fn landmark_covariance_row(
    sources: &Vec<[Binary32; 956]>,
    means: &Vec<Binary32>,
    normalization: &ResidualNormalization,
    at: usize,
    Ghost(residuals): Ghost<Seq<Seq<Binary32>>>,
) -> (row: [Binary64; 51])
    requires
        at < 956,
        sources@.len() == residuals.len(),
        means@ == source_means(source_rows(sources@)),
        is_normalization(residuals, *normalization),
    ensures
        forall|c: int|
            0 <= c < 51 ==> #[trigger] row@[c] == landmark_covariance_before(
                source_rows(sources@),
                residuals,
                at as int,
                c,
                sources@.len() as int,
            ),
{
    let ghost rows = source_rows(sources@);
    let count = Binary32::from_integer(sources.len() as u64).widen();
    let mean = means[at];
    let mut row: [Binary64; 51] = [Binary64::zero();51];
    for c in 0..ARKIT_NON_TONGUE_CHANNEL_COUNT
        invariant
            at < 956,
            rows == source_rows(sources@),
            sources@.len() == residuals.len(),
            is_normalization(residuals, *normalization),
            count == Binary32::of_integer(rows.len()).widened(),
            mean == source_means(rows)[at as int],
            forall|k: int|
                0 <= k < c ==> #[trigger] row@[k] == landmark_covariance_before(
                    rows,
                    residuals,
                    at as int,
                    k,
                    rows.len() as int,
                ),
    {
        let mut covariance = Binary64::zero();
        for i in 0..sources.len()
            invariant
                c < 51,
                at < 956,
                rows == source_rows(sources@),
                sources@.len() == residuals.len(),
                is_normalization(residuals, *normalization),
                count == Binary32::of_integer(rows.len()).widened(),
                mean == source_means(rows)[at as int],
                covariance == landmark_covariance_before(
                    rows,
                    residuals,
                    at as int,
                    c as int,
                    i as int,
                ),
        {
            let centered = sources[i][at].difference(mean);
            assert(normalization.normalized@[i as int]@[c as int] == normalized_residual(
                residuals,
                i as int,
                c as int,
            ));
            covariance =
            covariance.sum(
                centered.product(normalization.normalized[i][c]).widen().quotient(count),
            );
        }
        row[c] = covariance;
    }
    row
}

/// Source mean, residual normalization and cross-covariance of the training
/// samples.
///
/// # Errors
///
/// Rejects rank, training selection, and numeric failures.
pub fn landmark_statistics(
    samples: &Vec<LandmarkAlignmentSample>,
    training_takes: &Vec<String>,
    rank: usize,
) -> (result: Result<LandmarkStatistics, LandmarkControlError>)
    ensures
        match result {
            Ok(statistics) => {
                let sources = training_sources(samples@, training_takes@);
                let residuals = training_targets(samples@, training_takes@);
                &&& landmark_alignment_fault(samples@, training_takes@, rank) is None
                &&& statistics.source_mean@ == source_means(sources)
                &&& is_normalization(residuals, statistics.normalization)
                &&& is_landmark_covariance(sources, residuals, statistics.cross_covariance@)
            },
            Err(error) => landmark_alignment_fault(samples@, training_takes@, rank) == Some(error),
        },
{
    if rank < 1 || rank > ARKIT_NON_TONGUE_CHANNEL_COUNT {
        return Err(LandmarkControlError::InvalidRank(rank));
    }
    let ghost takes = training_takes@;
    let ghost points = training_sources(samples@, takes);
    let ghost rows = training_targets(samples@, takes);
    let mut positions: Vec<usize> = Vec::new();
    for i in 0..samples.len()
        invariant
            takes == training_takes@,
            positions@ == selected_positions(landmark_takes(samples@), takes, i as int),
    {
        if contains_take(training_takes, &samples[i].take_id) {
            positions.push(i);
        }
    }
    proof {
        assert(samples.len() == samples@.len());
        lemma_selected_positions_fit(landmark_takes(samples@), takes, samples@.len() as int);
    }
    if positions.len() == 0 {
        return Err(LandmarkControlError::EmptyTrainingSet);
    }
    let mut sources: Vec<[Binary32; 956]> = Vec::new();
    let mut residuals: Vec<[Binary32; 51]> = Vec::new();
    for i in 0..positions.len()
        invariant
            takes == training_takes@,
            positions@ == training_landmarks(samples@, takes),
            forall|j: int| 0 <= j < positions@.len() ==> #[trigger] positions@[j] < samples@.len(),
            points == training_sources(samples@, takes),
            rows == training_targets(samples@, takes),
            sources@.len() == i,
            residuals@.len() == i,
            forall|j: int| 0 <= j < i ==> (#[trigger] sources@[j])@ == points[j],
            forall|j: int| 0 <= j < i ==> (#[trigger] residuals@[j])@ == rows[j],
    {
        let sample = &samples[positions[i]];
        sources.push(sample.normalized_xy);
        residuals.push(sample.teacher_residual);
    }
    proof {
        assert(source_rows(sources@) =~= points);
        assert(residual_rows(residuals@) =~= rows);
    }
    let source_mean = mean_sources(&sources);
    let normalization = match normalize_teacher_residuals(&residuals) {
        Ok(normalization) => normalization,
        Err(error) => {
            return Err(LandmarkControlError::ResidualNormalization(error));
        },
    };
    if !are_statistics_finite(&normalization, Ghost(rows)) {
        return Err(
            LandmarkControlError::ResidualNormalization(
                TeacherAlignedBasisError::InvalidNumeric("residual statistics"),
            ),
        );
    }
    let mut cross_covariance: Vec<[Binary64; 51]> = Vec::new();
    for at in 0..NORMALIZED_LANDMARK_XY_DIM
        invariant
            sources@.len() == rows.len(),
            source_rows(sources@) == points,
            source_mean@ == source_means(points),
            is_normalization(rows, normalization),
            cross_covariance@.len() == at,
            forall|t: int, c: int|
                0 <= t < at && 0 <= c < 51 ==> #[trigger] cross_covariance@[t]@[c]
                    == landmark_covariance_before(points, rows, t, c, points.len() as int),
    {
        let row = landmark_covariance_row(&sources, &source_mean, &normalization, at, Ghost(rows));
        cross_covariance.push(row);
    }
    Ok(LandmarkStatistics { source_mean, normalization, cross_covariance })
}

/// Sum of the squares of the first `n` numbers.
pub open spec fn wide_squares_before(numbers: Seq<Binary64>, n: int) -> Binary64
    decreases n,
{
    if n <= 0 {
        Binary64 { bits: 0 }
    } else {
        wide_squares_before(numbers, n - 1).plus(numbers[n - 1].times(numbers[n - 1]))
    }
}

/// Euclidean length.
pub open spec fn wide_length(numbers: Seq<Binary64>) -> Binary64 {
    wide_squares_before(numbers, numbers.len() as int).root()
}

/// The direction rounded to single precision, with unit length and its peak
/// positive.
pub open spec fn signed_direction(direction: Seq<Binary64>) -> Seq<Binary32> {
    let raw = narrowed_all(direction);
    let factor = peak_sign(raw).over(wide_length(direction).narrowed());
    Seq::new(direction.len(), |r: int| raw[r].times(factor))
}

fn sign_direction(direction: &Vec<Binary64>) -> (result: Option<Vec<Binary32>>)
    ensures
        match result {
            Some(column) => usable_length(wide_length(direction@)) && column@ == signed_direction(
                direction@,
            ),
            None => !usable_length(wide_length(direction@)),
        },
{
    let mut squares = Binary64::zero();
    for i in 0..direction.len()
        invariant
            squares == wide_squares_before(direction@, i as int),
    {
        squares = squares.sum(direction[i].product(direction[i]));
    }
    let length = squares.square_root();
    if !length.is_finite() || length.is_at_most(Binary64::zero()) {
        return None;
    }
    let raw = narrow_all(direction);
    let factor = sign_of_peak(&raw).quotient(length.narrow());
    let mut column: Vec<Binary32> = Vec::new();
    for i in 0..raw.len()
        invariant
            raw@ == narrowed_all(direction@),
            column@.len() == i,
            forall|j: int| 0 <= j < i ==> #[trigger] column@[j] == raw@[j].times(factor),
    {
        column.push(raw[i].product(factor));
    }
    assert(column@ =~= signed_direction(direction@));
    Some(column)
}

/// Why the decomposition gives no basis, if it does not.
pub open spec fn landmark_decomposition_fault(
    decomposition: LeftSingularVectors,
    rank: int,
) -> Option<LandmarkControlError> {
    if decomposition.left is None {
        Some(LandmarkControlError::InvalidShape("left singular vectors"))
    } else if exists|i: int|
        0 <= i < rank && !usable_length(wide_length(#[trigger] decomposition.direction(i))) {
        Some(LandmarkControlError::InvalidNumeric("basis norm"))
    } else {
        None
    }
}

/// The basis columns of a fit.
pub open spec fn landmark_columns(decomposition: LeftSingularVectors, rank: int) -> Seq<
    Seq<Binary32>,
> {
    Seq::new(rank as nat, |i: int| signed_direction(decomposition.direction(i)))
}

/// The artifact of a fit.
pub open spec fn is_landmark_fit(
    samples: Seq<LandmarkAlignmentSample>,
    takes: Seq<String>,
    rank: usize,
    decomposition: LeftSingularVectors,
    artifact: LandmarkAlignedBasisArtifact,
) -> bool {
    let residuals = training_targets(samples, takes);
    &&& artifact.schema_version == LANDMARK_ALIGNED_BASIS_SCHEMA_VERSION
    &&& artifact.rank == rank
    &&& artifact.source_dimension == NORMALIZED_LANDMARK_XY_DIM
    &&& strictly_ordered(artifact.training_takes@)
    &&& same_takes(artifact.training_takes@, takes)
    &&& artifact.source_mean@ == source_means(training_sources(samples, takes))
    &&& forall|c: int|
        0 <= c < 51 ==> #[trigger] artifact.residual_mean@[c] == channel_mean(residuals, c)
    &&& forall|c: int|
        0 <= c < 51 ==> #[trigger] artifact.residual_std@[c] == channel_std(residuals, c)
    &&& artifact.inactive_residual_channels@ == inactive_before(residuals, 51)
    &&& artifact.singular_values_descending@ == decomposition.retained(rank as int)
    &&& artifact.basis_row_major@ == row_major(landmark_columns(decomposition, rank as int), 956)
    &&& artifact.hash_matches()
}

/// Fits the landmark basis from the left singular vectors of the 956-by-51
/// teacher-residual cross-covariance (see [`landmark_statistics`]).
///
/// # Errors
///
/// Rejects rank, training selection, numeric, and decomposition shape failures.
pub fn fit_landmark_aligned_basis(
    samples: &Vec<LandmarkAlignmentSample>,
    training_takes: &Vec<String>,
    rank: usize,
    decomposition: &LeftSingularVectors,
) -> (result: Result<LandmarkAlignedBasisArtifact, LandmarkControlError>)
    requires
        decomposition.complete(ARKIT_NON_TONGUE_CHANNEL_COUNT as int, 956),
    ensures
        ({
            let input_fault = landmark_alignment_fault(samples@, training_takes@, rank);
            let result_fault = landmark_decomposition_fault(*decomposition, rank as int);
            match result {
                Ok(artifact) => {
                    &&& input_fault is None
                    &&& result_fault is None
                    &&& is_landmark_fit(
                        samples@,
                        training_takes@,
                        rank,
                        *decomposition,
                        artifact,
                    )
                    &&& artifact.fault() is None
                },
                Err(error) => {
                    if input_fault is Some {
                        input_fault == Some(error)
                    } else {
                        result_fault == Some(error)
                    }
                },
            }
        }),
{
    let statistics = match landmark_statistics(samples, training_takes, rank) {
        Ok(statistics) => statistics,
        Err(error) => {
            return Err(error);
        },
    };
    let left = match &decomposition.left {
        Some(left) => left,
        None => {
            return Err(LandmarkControlError::InvalidShape("left singular vectors"));
        },
    };
    let order = order_descending(&decomposition.singular_values);
    let mut singular_values_descending: Vec<Binary64> = Vec::new();
    let mut columns: Vec<Vec<Binary32>> = Vec::new();
    for i in 0..rank
        invariant
            1 <= rank <= 51,
            landmark_alignment_fault(samples@, training_takes@, rank) is None,
            decomposition.complete(51, 956),
            decomposition.left == Some(*left),
            order@ == decomposition.order(),
            is_stable_order(descending_keys(decomposition.singular_values@), order@),
            singular_values_descending@.len() == i,
            columns@.len() == i,
            forall|j: int|
                0 <= j < i ==> #[trigger] singular_values_descending@[j]
                    == decomposition.singular_values@[order@[j] as int],
            forall|j: int|
                0 <= j < i ==> (#[trigger] columns@[j])@ == signed_direction(
                    decomposition.direction(j),
                ),
            forall|j: int| 0 <= j < i ==> (#[trigger] columns@[j])@.len() == 956,
            forall|j: int|
                0 <= j < i ==> usable_length(wide_length(#[trigger] decomposition.direction(j))),
    {
        let position: usize = order[i];
        assert(left@[position as int]@.len() == 956);
        singular_values_descending.push(decomposition.singular_values[position]);
        assert(left@[position as int]@ == decomposition.direction(i as int));
        match sign_direction(&left[position]) {
            Some(column) => columns.push(column),
            None => {
                return Err(LandmarkControlError::InvalidNumeric("basis norm"));
            },
        }
    }
    proof {
        assert(singular_values_descending@ =~= decomposition.retained(rank as int));
        assert(column_values(columns@) =~= landmark_columns(*decomposition, rank as int));
    }
    let basis_row_major = lay_out_rows(&columns, NORMALIZED_LANDMARK_XY_DIM);
    let mut artifact = LandmarkAlignedBasisArtifact {
        schema_version: LANDMARK_ALIGNED_BASIS_SCHEMA_VERSION,
        rank,
        source_dimension: NORMALIZED_LANDMARK_XY_DIM,
        training_takes: sorted_takes(training_takes),
        source_mean: statistics.source_mean,
        residual_mean: statistics.normalization.mean,
        residual_std: statistics.normalization.std,
        inactive_residual_channels: statistics.normalization.inactive_channels,
        singular_values_descending,
        basis_row_major,
        content_hash: 0,
    };
    let hash: u64 = hash_landmark_basis(&artifact);
    artifact.content_hash = hash;
    Ok(artifact)
}

/// The samples of the training takes, in order.
pub open spec fn of_training_takes(
    samples: Seq<LandmarkAlignmentSample>,
    takes: Seq<String>,
) -> Seq<LandmarkAlignmentSample> {
    samples.filter(|sample: LandmarkAlignmentSample| names_take(takes, sample.take_id@))
}

/// Appended samples of other takes leave the samples of the training takes as they are.
pub proof fn lemma_appended_takes_do_not_train(
    samples: Seq<LandmarkAlignmentSample>,
    extras: Seq<LandmarkAlignmentSample>,
    takes: Seq<String>,
)
    requires
        forall|i: int| 0 <= i < extras.len() ==> !names_take(takes, (#[trigger] extras[i]).take_id@),
    ensures
        of_training_takes(samples + extras, takes) == of_training_takes(samples, takes),
{
    lemma_nothing_is_kept(
        samples,
        extras,
        |sample: LandmarkAlignmentSample| names_take(takes, sample.take_id@),
    );
}

/// The training data are those of the samples of the training takes.
proof fn lemma_training_data_are_kept(samples: Seq<LandmarkAlignmentSample>, takes: Seq<String>)
    requires
        samples.len() <= usize::MAX,
    ensures
        ({
            let kept = of_training_takes(samples, takes);
            &&& training_landmarks(samples, takes).len() == kept.len()
            &&& training_sources(samples, takes) == Seq::new(
                kept.len(),
                |i: int| kept[i].normalized_xy@,
            )
            &&& training_targets(samples, takes) == Seq::new(
                kept.len(),
                |i: int| kept[i].teacher_residual@,
            )
        }),
{
    let kept = of_training_takes(samples, takes);
    lemma_selected_are_kept(
        samples,
        landmark_takes(samples),
        takes,
        |sample: LandmarkAlignmentSample| names_take(takes, sample.take_id@),
    );
    assert(training_sources(samples, takes) =~= Seq::new(
        kept.len(),
        |i: int| kept[i].normalized_xy@,
    ));
    assert(training_targets(samples, takes) =~= Seq::new(
        kept.len(),
        |i: int| kept[i].teacher_residual@,
    ));
}

/// Samples of other takes change nothing that a fit is made of, however many there are
/// and wherever they stand: neither the landmark vectors that train, nor their
/// residuals, nor what is refused.
pub proof fn lemma_other_takes_do_not_align_landmarks(
    samples: Seq<LandmarkAlignmentSample>,
    others: Seq<LandmarkAlignmentSample>,
    takes: Seq<String>,
    rank: usize,
)
    requires
        samples.len() <= usize::MAX,
        others.len() <= usize::MAX,
        of_training_takes(samples, takes) == of_training_takes(others, takes),
    ensures
        training_sources(samples, takes) == training_sources(others, takes),
        training_targets(samples, takes) == training_targets(others, takes),
        landmark_alignment_fault(samples, takes, rank) == landmark_alignment_fault(
            others,
            takes,
            rank,
        ),
{
    lemma_training_data_are_kept(samples, takes);
    lemma_training_data_are_kept(others, takes);
}

/// Samples of other takes do not change the artifact: fits of two lists that agree on
/// the training takes agree in every field, and in the content hash.
pub proof fn lemma_other_takes_do_not_change_the_basis(
    samples: Seq<LandmarkAlignmentSample>,
    others: Seq<LandmarkAlignmentSample>,
    takes: Seq<String>,
    rank: usize,
    decomposition: LeftSingularVectors,
    artifact: LandmarkAlignedBasisArtifact,
    other: LandmarkAlignedBasisArtifact,
)
    requires
        samples.len() <= usize::MAX,
        others.len() <= usize::MAX,
        of_training_takes(samples, takes) == of_training_takes(others, takes),
        is_landmark_fit(samples, takes, rank, decomposition, artifact),
        is_landmark_fit(others, takes, rank, decomposition, other),
    ensures
        is_landmark_fit(samples, takes, rank, decomposition, other),
        artifact.training_takes@.len() == other.training_takes@.len(),
        forall|i: int|
            0 <= i < artifact.training_takes@.len() ==> (#[trigger] artifact.training_takes@[i])@
                == other.training_takes@[i]@,
        artifact.source_mean@ == other.source_mean@,
        artifact.residual_mean == other.residual_mean,
        artifact.residual_std == other.residual_std,
        artifact.inactive_residual_channels@ == other.inactive_residual_channels@,
        artifact.singular_values_descending@ == other.singular_values_descending@,
        artifact.basis_row_major@ == other.basis_row_major@,
        artifact.hashed_bytes() == other.hashed_bytes(),
        artifact.content_hash == other.content_hash,
{
    lemma_other_takes_do_not_align_landmarks(samples, others, takes, rank);
    assert(same_takes(artifact.training_takes@, other.training_takes@));
    lemma_sorted_takes_are_unique(artifact.training_takes@, other.training_takes@);
    lemma_equal_texts_are_hashed_alike(artifact.training_takes@, other.training_takes@);
    let residuals = training_targets(samples, takes);
    assert forall|c: int| 0 <= c < 51 implies #[trigger] artifact.residual_mean@[c]
        == other.residual_mean@[c] by {
        assert(artifact.residual_mean@[c] == channel_mean(residuals, c));
    }
    assert forall|c: int| 0 <= c < 51 implies #[trigger] artifact.residual_std@[c]
        == other.residual_std@[c] by {
        assert(artifact.residual_std@[c] == channel_std(residuals, c));
    }
    assert(artifact.residual_mean =~= other.residual_mean);
    assert(artifact.residual_std =~= other.residual_std);
}

} // verus!
