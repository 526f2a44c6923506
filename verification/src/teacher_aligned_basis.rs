//! Teacher-residual-aligned observable GNM basis artifacts.

use vstd::arithmetic::power2::pow2;
use vstd::prelude::*;

use crate::arithmetic::lemma_sign_of_units_64;
use crate::arithmetic_laws::lemma_units_of_zero;
use crate::arkit::{Arkit52Coefficients, ARKIT_NON_TONGUE_CHANNEL_COUNT};
use crate::arkit_teacher::{PairedTemporalSample, TeacherDatasetError};
use crate::binary::{magnitude_units, Binary32, Binary64, INFINITY_64, SIGN_64};
use crate::binary_convert::is_wide;
use crate::content_hash::{
    canonical_list_bytes, fnv1a, fnv_of, index_list_bytes, lemma_equal_texts_are_hashed_alike, put_canonical, put_indices, put_text,
    put_texts, put_u32, put_u64, text_list_bytes, u32_bytes, u64_bytes,
};
use crate::linear_map::{all_finite, is_all_finite};
use crate::matrix::{
    all_finite_64, column_values, is_all_finite_64, lay_out_rows, lemma_position_fits, peak_sign, row_major,
    sign_of_peak, LeftSingularVectors,
};
use crate::observable_basis::{
    is_blank, narrowed_list_bytes, project_non_tongue_expression, project_rows, projected,
    put_narrowed, reconstruct_rows, reconstructed, GnmModelError, GnmNonTongueExpression,
    ObservableBasisError, ObservableGnmBasisArtifact, GNM_HEAD_V3_NON_TONGUE_EXPRESSION_DIM,
};
use crate::ordering::{descending_keys, is_stable_order, order_descending};
use crate::takes::{
    contains_take, lemma_nothing_is_kept, lemma_selected_are_kept, lemma_selected_positions_fit, lemma_sorted_takes_are_unique,
    lemma_selection_needs_takes, names_take, same_takes, selected_positions, sorted_takes,
    strictly_ordered,
};
use crate::teacher_residual::{channel_differences, is_complete};
use crate::unit_length::{
    lemma_covered_quotient_is_finite, lemma_length_covers, lemma_narrow_covers, lemma_signed_is_finite,
    lemma_sum_grows,
};
use crate::weighted_mean::lemma_square_without_sign;

verus! {

/// Schema version of [`TeacherAlignedGnmBasisArtifact`].
pub const TEACHER_ALIGNED_GNM_BASIS_SCHEMA_VERSION: u32 = 1;

/// Bit pattern of one millionth: channels that vary less are inactive.
pub const INACTIVE_RESIDUAL_STD_THRESHOLD_BITS: u32 = 0x3586_37bd;

/// Typed teacher-aligned-basis failure.
#[derive(Clone, Copy, Debug, PartialEq)]
pub enum TeacherAlignedBasisError {
    /// The source observable artifact is invalid.
    Observable(ObservableBasisError),
    /// Rank is outside the fixed cross-covariance limit.
    InvalidRank {
        /// Requested rank.
        rank: usize,
        /// Largest permitted rank.
        maximum: usize,
    },
    /// No selected training samples were supplied.
    NoTrainingSamples,
    /// An input or computed number was non-finite or had no usable norm.
    InvalidNumeric(&'static str),
    /// Artifact dimensions or schema do not match the fixed contract.
    InvalidShape(&'static str),
    /// Artifact content hash does not match its fields.
    HashMismatch,
    /// Compact expression validation failed.
    Expression(GnmModelError),
}

/// Per-channel statistics of teacher residuals.
#[derive(Clone, Debug, PartialEq)]
pub struct ResidualNormalization {
    /// Mean.
    pub mean: [Binary32; 51],
    /// Population standard deviation.
    pub std: [Binary32; 51],
    /// Channels that do not vary.
    pub inactive_channels: Vec<usize>,
    /// Centered residuals in units of the deviation; zero on inactive channels.
    pub normalized: Vec<[Binary32; 51]>,
}

/// The residuals as sequences.
pub open spec fn residual_rows(residuals: Seq<[Binary32; 51]>) -> Seq<Seq<Binary32>> {
    Seq::new(residuals.len(), |i: int| residuals[i]@)
}

/// Every residual is finite.
pub open spec fn residuals_finite(residuals: Seq<Seq<Binary32>>) -> bool {
    forall|i: int| 0 <= i < residuals.len() ==> all_finite(#[trigger] residuals[i])
}

/// Mean of one channel over the first `n` rows, in shares of the whole count.
pub open spec fn mean_before(residuals: Seq<Seq<Binary32>>, channel: int, n: int) -> Binary32
    decreases n,
{
    if n <= 0 {
        Binary32 { bits: 0 }
    } else {
        mean_before(residuals, channel, n - 1).plus(
            residuals[n - 1][channel].over(Binary32::of_integer(residuals.len())),
        )
    }
}

/// Mean of one channel.
pub open spec fn channel_mean(residuals: Seq<Seq<Binary32>>, channel: int) -> Binary32 {
    mean_before(residuals, channel, residuals.len() as int)
}

/// Population variance of one channel over the first `n` rows, in shares of the
/// whole count.
pub open spec fn variance_before(residuals: Seq<Seq<Binary32>>, channel: int, n: int) -> Binary32
    decreases n,
{
    if n <= 0 {
        Binary32 { bits: 0 }
    } else {
        let centered = residuals[n - 1][channel].minus(channel_mean(residuals, channel));
        variance_before(residuals, channel, n - 1).plus(
            centered.times(centered).over(Binary32::of_integer(residuals.len())),
        )
    }
}

/// Population standard deviation of one channel.
pub open spec fn channel_std(residuals: Seq<Seq<Binary32>>, channel: int) -> Binary32 {
    variance_before(residuals, channel, residuals.len() as int).root()
}

/// The channel does not vary.
pub open spec fn inactive(std: Binary32) -> bool {
    std.at_most(Binary32 { bits: INACTIVE_RESIDUAL_STD_THRESHOLD_BITS })
}

/// One residual in units of its channel's deviation; zero where the channel
/// does not vary.
pub open spec fn normalized_residual(
    residuals: Seq<Seq<Binary32>>,
    row: int,
    channel: int,
) -> Binary32 {
    let std = channel_std(residuals, channel);
    if (Binary32 { bits: INACTIVE_RESIDUAL_STD_THRESHOLD_BITS }).less(std) {
        residuals[row][channel].minus(channel_mean(residuals, channel)).over(std)
    } else {
        Binary32 { bits: 0 }
    }
}

/// Inactive channels among the first `n`.
pub open spec fn inactive_before(residuals: Seq<Seq<Binary32>>, n: int) -> Seq<usize>
    decreases n,
{
    if n <= 0 {
        Seq::empty()
    } else if inactive(channel_std(residuals, n - 1)) {
        inactive_before(residuals, n - 1).push((n - 1) as usize)
    } else {
        inactive_before(residuals, n - 1)
    }
}

/// The statistics of the residuals.
pub open spec fn is_normalization(
    residuals: Seq<Seq<Binary32>>,
    normalization: ResidualNormalization,
) -> bool {
    &&& forall|c: int|
        0 <= c < 51 ==> #[trigger] normalization.mean@[c] == channel_mean(residuals, c)
    &&& forall|c: int|
        0 <= c < 51 ==> #[trigger] normalization.std@[c] == channel_std(residuals, c)
    &&& normalization.inactive_channels@ == inactive_before(residuals, 51)
    &&& normalization.normalized@.len() == residuals.len()
    &&& forall|i: int, c: int|
        0 <= i < residuals.len() && 0 <= c < 51 ==> #[trigger] normalization.normalized@[i]@[c]
            == normalized_residual(residuals, i, c)
}

/// Mean and deviation of one channel.
fn channel_statistics(residuals: &Vec<[Binary32; 51]>, channel: usize) -> (statistics: (
    Binary32,
    Binary32,
))
    requires
        channel < 51,
    ensures
        statistics.0 == channel_mean(residual_rows(residuals@), channel as int),
        statistics.1 == channel_std(residual_rows(residuals@), channel as int),
{
    let ghost rows = residual_rows(residuals@);
    let count = Binary32::from_integer(residuals.len() as u64);
    let mut mean = Binary32::zero();
    for i in 0..residuals.len()
        invariant
            channel < 51,
            rows == residual_rows(residuals@),
            count == Binary32::of_integer(rows.len()),
            mean == mean_before(rows, channel as int, i as int),
    {
        mean = mean.sum(residuals[i][channel].quotient(count));
    }
    let mut variance = Binary32::zero();
    for i in 0..residuals.len()
        invariant
            channel < 51,
            rows == residual_rows(residuals@),
            count == Binary32::of_integer(rows.len()),
            mean == channel_mean(rows, channel as int),
            variance == variance_before(rows, channel as int, i as int),
    {
        let centered = residuals[i][channel].difference(mean);
        variance = variance.sum(centered.product(centered).quotient(count));
    }
    (mean, variance.square_root())
}

/// Whether every residual is finite.
fn are_residuals_finite(residuals: &Vec<[Binary32; 51]>) -> (finite: bool)
    ensures
        finite == residuals_finite(residual_rows(residuals@)),
{
    let ghost rows = residual_rows(residuals@);
    for i in 0..residuals.len()
        invariant
            rows == residual_rows(residuals@),
            forall|j: int| 0 <= j < i ==> all_finite(#[trigger] rows[j]),
    {
        if !is_all_finite(residuals[i].as_slice()) {
            assert(!all_finite(rows[i as int]));
            return false;
        }
    }
    true
}

/// Residual statistics over the training rows.
///
/// # Errors
///
/// Rejects an empty selection or a residual that is not finite.
pub fn normalize_teacher_residuals(residuals: &Vec<[Binary32; 51]>) -> (result: Result<
    ResidualNormalization,
    TeacherAlignedBasisError,
>)
    ensures
        match result {
            Ok(normalization) => {
                &&& residuals@.len() > 0
                &&& residuals_finite(residual_rows(residuals@))
                &&& is_normalization(residual_rows(residuals@), normalization)
            },
            Err(error) => {
                if residuals@.len() == 0 {
                    error == TeacherAlignedBasisError::NoTrainingSamples
                } else {
                    !residuals_finite(residual_rows(residuals@)) && error
                        == TeacherAlignedBasisError::InvalidNumeric("teacher residual")
                }
            },
        },
{
    if residuals.len() == 0 {
        return Err(TeacherAlignedBasisError::NoTrainingSamples);
    }
    if !are_residuals_finite(residuals) {
        return Err(TeacherAlignedBasisError::InvalidNumeric("teacher residual"));
    }
    let ghost rows = residual_rows(residuals@);
    let threshold = Binary32::from_bits(INACTIVE_RESIDUAL_STD_THRESHOLD_BITS);
    let mut mean: [Binary32; 51] = [Binary32::zero();51];
    let mut std: [Binary32; 51] = [Binary32::zero();51];
    let mut inactive_channels: Vec<usize> = Vec::new();
    for c in 0..ARKIT_NON_TONGUE_CHANNEL_COUNT
        invariant
            rows == residual_rows(residuals@),
            threshold == (Binary32 { bits: INACTIVE_RESIDUAL_STD_THRESHOLD_BITS }),
            forall|j: int| 0 <= j < c ==> #[trigger] mean@[j] == channel_mean(rows, j),
            forall|j: int| 0 <= j < c ==> #[trigger] std@[j] == channel_std(rows, j),
            inactive_channels@ == inactive_before(rows, c as int),
    {
        let (channel_mean_value, channel_std_value) = channel_statistics(residuals, c);
        mean[c] = channel_mean_value;
        std[c] = channel_std_value;
        if channel_std_value.is_at_most(threshold) {
            inactive_channels.push(c);
        }
    }
    let mut normalized: Vec<[Binary32; 51]> = Vec::new();
    for i in 0..residuals.len()
        invariant
            rows == residual_rows(residuals@),
            threshold == (Binary32 { bits: INACTIVE_RESIDUAL_STD_THRESHOLD_BITS }),
            forall|j: int| 0 <= j < 51 ==> #[trigger] mean@[j] == channel_mean(rows, j),
            forall|j: int| 0 <= j < 51 ==> #[trigger] std@[j] == channel_std(rows, j),
            normalized@.len() == i,
            forall|r: int, c: int|
                0 <= r < i && 0 <= c < 51 ==> #[trigger] normalized@[r]@[c]
                    == normalized_residual(rows, r, c),
    {
        let mut row: [Binary32; 51] = [Binary32::zero();51];
        for c in 0..ARKIT_NON_TONGUE_CHANNEL_COUNT
            invariant
                i < residuals@.len(),
                rows == residual_rows(residuals@),
                threshold == (Binary32 { bits: INACTIVE_RESIDUAL_STD_THRESHOLD_BITS }),
                forall|j: int| 0 <= j < 51 ==> #[trigger] mean@[j] == channel_mean(rows, j),
                forall|j: int| 0 <= j < 51 ==> #[trigger] std@[j] == channel_std(rows, j),
                forall|j: int|
                    0 <= j < c ==> #[trigger] row@[j] == normalized_residual(rows, i as int, j),
                forall|j: int| c <= j < 51 ==> #[trigger] row@[j] == (Binary32 { bits: 0 }),
        {
            if threshold.is_less(std[c]) {
                row[c] = residuals[i][c].difference(mean[c]).quotient(std[c]);
            }
        }
        normalized.push(row);
    }
    Ok(ResidualNormalization { mean, std, inactive_channels, normalized })
}

/// One exact-frame expression and ARKit-teacher residual pair.
#[derive(Clone, Debug, PartialEq)]
pub struct TeacherAlignmentSample {
    /// Source take id.
    pub take_id: String,
    /// Exact source frame sequence.
    pub frame_seq: u64,
    /// Raw fitted non-tongue Head-v3 expression.
    pub expression: GnmNonTongueExpression,
    /// Same-frame `ARKit teacher - MediaPipe Direct`, excluding TongueOut.
    pub teacher_residual: [Binary32; 51],
}

/// Positions of the complete samples among the first `n`.
pub open spec fn complete_before(samples: Seq<PairedTemporalSample>, n: int) -> Seq<int>
    decreases n,
{
    if n <= 0 {
        Seq::empty()
    } else if is_complete(samples[n - 1]) {
        complete_before(samples, n - 1).push(n - 1)
    } else {
        complete_before(samples, n - 1)
    }
}

/// The alignment sample of a complete paired sample.
pub open spec fn is_alignment(
    take_id: Seq<char>,
    sample: PairedTemporalSample,
    alignment: TeacherAlignmentSample,
) -> bool {
    &&& alignment.take_id@ == take_id
    &&& alignment.frame_seq == sample.frame_seq
    &&& alignment.expression@ == sample.gnm_state->0.expression@
    &&& alignment.teacher_residual@ == channel_differences(
        sample.teacher->0@,
        sample.mediapipe_observation->0.direct_coefficients@,
    )
}

/// The alignment samples of the first `n` paired samples.
pub open spec fn are_alignments(
    take_id: Seq<char>,
    samples: Seq<PairedTemporalSample>,
    n: int,
    output: Seq<TeacherAlignmentSample>,
) -> bool {
    let complete = complete_before(samples, n);
    &&& output.len() == complete.len()
    &&& forall|i: int|
        0 <= i < output.len() ==> is_alignment(
            take_id,
            samples[complete[i]],
            #[trigger] output[i],
        )
}

/// `left - right` of the non-tongue channels.
pub fn subtract_non_tongue(left: &Arkit52Coefficients, right: &Arkit52Coefficients) -> (differences: [Binary32; 51])
    ensures
        differences@ == channel_differences(left@, right@),
{
    let mut differences: [Binary32; 51] = [Binary32::zero();51];
    for i in 0..ARKIT_NON_TONGUE_CHANNEL_COUNT
        invariant
            forall|k: int| 0 <= k < i ==> #[trigger] differences@[k] == left@[k].minus(right@[k]),
    {
        differences[i] = left.values[i].difference(right.values[i]);
    }
    assert(differences@ =~= channel_differences(left@, right@));
    differences
}

/// Builds exact-frame alignment samples without using the hand-projected GNM output.
///
/// `pairing` is the outcome of validating the trace's frame pairing.
///
/// # Errors
///
/// Passes a pairing failure on.
pub fn build_teacher_alignment_samples(
    take_id: &String,
    samples: &Vec<PairedTemporalSample>,
    pairing: Result<(), TeacherDatasetError>,
) -> (result: Result<Vec<TeacherAlignmentSample>, TeacherDatasetError>)
    ensures
        match result {
            Ok(output) => pairing is Ok && are_alignments(
                take_id@,
                samples@,
                samples@.len() as int,
                output@,
            ),
            Err(error) => pairing == Err::<(), TeacherDatasetError>(error),
        },
{
    if let Err(error) = pairing {
        return Err(error);
    }
    let mut output: Vec<TeacherAlignmentSample> = Vec::new();
    for i in 0..samples.len()
        invariant
            are_alignments(take_id@, samples@, i as int, output@),
    {
        let sample = &samples[i];
        if let (Some(teacher), Some(direct), Some(gnm)) = (
            &sample.teacher,
            &sample.mediapipe_observation,
            &sample.gnm_state,
        ) {
            let ghost before = output@;
            output.push(
                TeacherAlignmentSample {
                    take_id: take_id.clone(),
                    frame_seq: sample.frame_seq,
                    expression: gnm.expression.clone(),
                    teacher_residual: subtract_non_tongue(teacher, &direct.direct_coefficients),
                },
            );
            proof {
                let complete = complete_before(samples@, i + 1);
                assert forall|k: int| 0 <= k < output@.len() implies is_alignment(
                    take_id@,
                    samples@[complete[k]],
                    #[trigger] output@[k],
                ) by {
                    if k < before.len() {
                        assert(is_alignment(
                            take_id@,
                            samples@[complete_before(samples@, i as int)[k]],
                            before[k],
                        ));
                    }
                }
            }
        }
    }
    Ok(output)
}

/// Versioned teacher-aligned non-tongue GNM basis.
#[derive(Clone, Debug, PartialEq)]
pub struct TeacherAlignedGnmBasisArtifact {
    /// Artifact schema version.
    pub schema_version: u32,
    /// Content hash of the source observable basis.
    pub observable_basis_content_hash: u64,
    /// SHA-256 of the pinned GNM model bytes.
    pub model_sha256: String,
    /// Dense mapping schema revision.
    pub mapping_schema_revision: u32,
    /// Rank of the source observable basis.
    pub source_rank: usize,
    /// Retained teacher-aligned rank.
    pub rank: usize,
    /// Ordered training take ids.
    pub training_takes: Vec<String>,
    /// Training-only residual mean in canonical non-tongue ARKit order.
    pub residual_mean: [Binary32; 51],
    /// Training-only residual population standard deviation.
    pub residual_std: [Binary32; 51],
    /// Residual channels whose standard deviation is at most one millionth.
    pub inactive_residual_channels: Vec<usize>,
    /// Cross-covariance singular values in descending order.
    pub singular_values_descending: Vec<Binary64>,
    /// Row-major `[351, rank]` orthonormal basis.
    pub basis_row_major: Vec<Binary32>,
    /// Deterministic content hash over every preceding field.
    pub content_hash: u64,
}

impl TeacherAlignedGnmBasisArtifact {
    /// The bytes that the content hash covers.
    pub open spec fn hashed_bytes(self) -> Seq<u8> {
        u32_bytes(self.schema_version) + u64_bytes(self.observable_basis_content_hash)
            + vstd::utf8::encode_utf8(self.model_sha256@) + u32_bytes(self.mapping_schema_revision)
            + u64_bytes(self.source_rank as u64) + u64_bytes(self.rank as u64)
            + text_list_bytes(self.training_takes@) + canonical_list_bytes(self.residual_mean@)
            + canonical_list_bytes(self.residual_std@) + index_list_bytes(
            self.inactive_residual_channels@,
        ) + narrowed_list_bytes(self.singular_values_descending@) + canonical_list_bytes(
            self.basis_row_major@,
        )
    }

    /// The stored hash covers the contents.
    pub open spec fn hash_matches(self) -> bool {
        self.content_hash == fnv_of(self.hashed_bytes())
    }

    /// Schema, dimensions and numbers are as fixed.
    pub open spec fn shape_valid(self) -> bool {
        &&& self.schema_version == TEACHER_ALIGNED_GNM_BASIS_SCHEMA_VERSION
        &&& 1 <= self.rank <= self.source_rank
        &&& self.rank <= ARKIT_NON_TONGUE_CHANNEL_COUNT
        &&& self.model_sha256@.len() > 0
        &&& self.training_takes@.len() > 0
        &&& all_finite(self.residual_mean@)
        &&& all_finite(self.residual_std@)
        &&& self.singular_values_descending@.len() == self.rank
        &&& all_finite_64(self.singular_values_descending@)
        &&& self.basis_row_major@.len() == GNM_HEAD_V3_NON_TONGUE_EXPRESSION_DIM * self.rank
        &&& all_finite(self.basis_row_major@)
    }

    /// Why the artifact cannot be used, if it cannot.
    pub open spec fn fault(self) -> Option<TeacherAlignedBasisError> {
        if !self.shape_valid() {
            Some(TeacherAlignedBasisError::InvalidShape("artifact"))
        } else if !self.hash_matches() {
            Some(TeacherAlignedBasisError::HashMismatch)
        } else {
            None
        }
    }
}

/// Hash over every field but the hash itself.
pub fn teacher_aligned_basis_hash(artifact: &TeacherAlignedGnmBasisArtifact) -> (hash: u64)
    ensures
        hash == fnv_of(artifact.hashed_bytes()),
{
    let mut bytes: Vec<u8> = Vec::new();
    put_u32(&mut bytes, artifact.schema_version);
    put_u64(&mut bytes, artifact.observable_basis_content_hash);
    put_text(&mut bytes, &artifact.model_sha256);
    put_u32(&mut bytes, artifact.mapping_schema_revision);
    put_u64(&mut bytes, artifact.source_rank as u64);
    put_u64(&mut bytes, artifact.rank as u64);
    put_texts(&mut bytes, &artifact.training_takes);
    put_canonical(&mut bytes, artifact.residual_mean.as_slice());
    put_canonical(&mut bytes, artifact.residual_std.as_slice());
    put_indices(&mut bytes, &artifact.inactive_residual_channels);
    put_narrowed(&mut bytes, &artifact.singular_values_descending);
    put_canonical(&mut bytes, &artifact.basis_row_major);
    assert(bytes@ =~= artifact.hashed_bytes());
    fnv1a(&bytes)
}

/// Checks schema, dimensions, numbers and hash.
///
/// # Errors
///
/// Rejects an artifact with another shape, numbers that are not finite, or
/// contents that the hash does not cover.
pub fn validate_aligned_artifact(basis: &TeacherAlignedGnmBasisArtifact) -> (result: Result<
    (),
    TeacherAlignedBasisError,
>)
    ensures
        match result {
            Ok(_) => basis.fault() is None,
            Err(error) => basis.fault() == Some(error),
        },
{
    if basis.schema_version != TEACHER_ALIGNED_GNM_BASIS_SCHEMA_VERSION || basis.rank < 1
        || basis.rank > basis.source_rank || basis.rank > ARKIT_NON_TONGUE_CHANNEL_COUNT || is_blank(
        &basis.model_sha256,
    ) || basis.training_takes.len() == 0 || !is_all_finite(basis.residual_mean.as_slice())
        || !is_all_finite(basis.residual_std.as_slice()) || basis.singular_values_descending.len()
        != basis.rank || !is_all_finite_64(&basis.singular_values_descending)
        || basis.basis_row_major.len() != GNM_HEAD_V3_NON_TONGUE_EXPRESSION_DIM * basis.rank
        || !is_all_finite(&basis.basis_row_major) {
        return Err(TeacherAlignedBasisError::InvalidShape("artifact"));
    }
    if teacher_aligned_basis_hash(basis) != basis.content_hash {
        return Err(TeacherAlignedBasisError::HashMismatch);
    }
    Ok(())
}

/// The outcome of projecting an expression.
pub open spec fn is_aligned_projection(
    expression: Seq<Binary32>,
    basis: TeacherAlignedGnmBasisArtifact,
    result: Result<Vec<Binary32>, TeacherAlignedBasisError>,
) -> bool {
    let reduced = projected(basis.basis_row_major@, expression, basis.rank as int);
    match result {
        Ok(found) => basis.fault() is None && all_finite(reduced) && found@ == reduced,
        Err(error) => {
            if basis.fault() is Some {
                basis.fault() == Some(error)
            } else {
                !all_finite(reduced) && error == TeacherAlignedBasisError::InvalidNumeric(
                    "projected expression",
                )
            }
        },
    }
}

/// Projects an expression onto the aligned basis.
///
/// # Errors
///
/// Rejects an invalid artifact or non-finite output.
pub fn project_teacher_aligned_expression(
    expression: &GnmNonTongueExpression,
    basis: &TeacherAlignedGnmBasisArtifact,
) -> (result: Result<Vec<Binary32>, TeacherAlignedBasisError>)
    ensures
        is_aligned_projection(expression@, *basis, result),
{
    if let Err(error) = validate_aligned_artifact(basis) {
        return Err(error);
    }
    let reduced = project_rows(&basis.basis_row_major, expression.values(), basis.rank);
    if !is_all_finite(&reduced) {
        return Err(TeacherAlignedBasisError::InvalidNumeric("projected expression"));
    }
    Ok(reduced)
}

/// The outcome of reconstructing an expression.
pub open spec fn is_aligned_reconstruction(
    reduced: Seq<Binary32>,
    basis: TeacherAlignedGnmBasisArtifact,
    result: Result<GnmNonTongueExpression, TeacherAlignedBasisError>,
) -> bool {
    let values = reconstructed(basis.basis_row_major@, reduced, basis.rank as int);
    match result {
        Ok(expression) => {
            &&& basis.fault() is None
            &&& reduced.len() == basis.rank
            &&& all_finite(values)
            &&& expression@ == values
        },
        Err(error) => {
            if basis.fault() is Some {
                basis.fault() == Some(error)
            } else if reduced.len() != basis.rank {
                error == TeacherAlignedBasisError::InvalidShape("reduced expression")
            } else {
                !all_finite(values) && error == TeacherAlignedBasisError::Expression(
                    GnmModelError::NonFiniteExpression,
                )
            }
        },
    }
}

/// Reconstructs an expression; excluded tongue values remain absent.
///
/// # Errors
///
/// Rejects an invalid artifact, reduced dimension, or expression result.
pub fn reconstruct_teacher_aligned_expression(
    reduced: &Vec<Binary32>,
    basis: &TeacherAlignedGnmBasisArtifact,
) -> (result: Result<GnmNonTongueExpression, TeacherAlignedBasisError>)
    ensures
        is_aligned_reconstruction(reduced@, *basis, result),
{
    if let Err(error) = validate_aligned_artifact(basis) {
        return Err(error);
    }
    if reduced.len() != basis.rank {
        return Err(TeacherAlignedBasisError::InvalidShape("reduced expression"));
    }
    let values = reconstruct_rows(&basis.basis_row_major, reduced, basis.rank);
    match GnmNonTongueExpression::try_from_values(values) {
        Ok(expression) => Ok(expression),
        Err(error) => Err(TeacherAlignedBasisError::Expression(error)),
    }
}

/// Take ids of the samples.
pub open spec fn sample_takes(samples: Seq<TeacherAlignmentSample>) -> Seq<Seq<char>> {
    Seq::new(samples.len(), |i: int| samples[i].take_id@)
}

/// Positions of the training samples.
pub open spec fn training_samples(samples: Seq<TeacherAlignmentSample>, takes: Seq<String>) -> Seq<
    usize,
> {
    selected_positions(sample_takes(samples), takes, samples.len() as int)
}

/// Observable coordinates of the training samples.
pub open spec fn training_coordinates(
    observable: ObservableGnmBasisArtifact,
    samples: Seq<TeacherAlignmentSample>,
    takes: Seq<String>,
) -> Seq<Seq<Binary32>> {
    let positions = training_samples(samples, takes);
    Seq::new(
        positions.len(),
        |i: int|
            projected(
                observable.basis_row_major@,
                samples[positions[i] as int].expression@,
                observable.rank as int,
            ),
    )
}

/// Teacher residuals of the training samples.
pub open spec fn training_residuals(
    samples: Seq<TeacherAlignmentSample>,
    takes: Seq<String>,
) -> Seq<Seq<Binary32>> {
    let positions = training_samples(samples, takes);
    Seq::new(positions.len(), |i: int| samples[positions[i] as int].teacher_residual@)
}

/// Mean of one coordinate over the first `n` rows, in shares of the whole count.
pub open spec fn coordinate_mean_before(
    coordinates: Seq<Seq<Binary32>>,
    source: int,
    n: int,
) -> Binary64
    decreases n,
{
    if n <= 0 {
        Binary64 { bits: 0 }
    } else {
        coordinate_mean_before(coordinates, source, n - 1).plus(
            coordinates[n - 1][source].widened().over(Binary64::of_integer(coordinates.len())),
        )
    }
}

/// Mean of one coordinate.
pub open spec fn coordinate_mean(coordinates: Seq<Seq<Binary32>>, source: int) -> Binary64 {
    coordinate_mean_before(coordinates, source, coordinates.len() as int)
}

/// Cross-covariance of one coordinate with one normalized residual channel over
/// the first `n` rows, in shares of the whole count.
pub open spec fn covariance_before(
    coordinates: Seq<Seq<Binary32>>,
    residuals: Seq<Seq<Binary32>>,
    source: int,
    channel: int,
    n: int,
) -> Binary64
    decreases n,
{
    if n <= 0 {
        Binary64 { bits: 0 }
    } else {
        let centered = coordinates[n - 1][source].widened().minus(
            coordinate_mean(coordinates, source),
        );
        covariance_before(coordinates, residuals, source, channel, n - 1).plus(
            centered.times(normalized_residual(residuals, n - 1, channel).widened()).over(
                Binary64::of_integer(coordinates.len()),
            ),
        )
    }
}

/// The cross-covariance matrix, one row per coordinate.
pub open spec fn is_cross_covariance(
    coordinates: Seq<Seq<Binary32>>,
    residuals: Seq<Seq<Binary32>>,
    rank: int,
    rows: Seq<[Binary64; 51]>,
) -> bool {
    &&& rows.len() == rank
    &&& forall|s: int, c: int|
        0 <= s < rank && 0 <= c < 51 ==> #[trigger] rows[s]@[c] == covariance_before(
            coordinates,
            residuals,
            s,
            c,
            coordinates.len() as int,
        )
}

/// The observable artifact cannot be projected onto.
pub open spec fn observable_fault(observable: ObservableGnmBasisArtifact) -> Option<
    ObservableBasisError,
> {
    if observable.fault() is Some {
        observable.fault()
    } else if !all_finite(
        projected(
            observable.basis_row_major@,
            Seq::new(351, |i: int| Binary32 { bits: 0 }),
            observable.rank as int,
        ),
    ) {
        Some(ObservableBasisError::InvalidNumeric("projected expression"))
    } else {
        None
    }
}

/// The smaller of the observable rank and the number of residual channels.
pub open spec fn largest_rank(observable: ObservableGnmBasisArtifact) -> int {
    if observable.rank < ARKIT_NON_TONGUE_CHANNEL_COUNT {
        observable.rank as int
    } else {
        ARKIT_NON_TONGUE_CHANNEL_COUNT as int
    }
}

/// Why the inputs cannot be aligned, if they cannot.
pub open spec fn alignment_fault(
    observable: ObservableGnmBasisArtifact,
    samples: Seq<TeacherAlignmentSample>,
    takes: Seq<String>,
    rank: usize,
) -> Option<TeacherAlignedBasisError> {
    if observable_fault(observable) is Some {
        Some(TeacherAlignedBasisError::Observable(observable_fault(observable)->0))
    } else if rank < 1 || rank > largest_rank(observable) {
        Some(
            TeacherAlignedBasisError::InvalidRank {
                rank,
                maximum: largest_rank(observable) as usize,
            },
        )
    } else if training_samples(samples, takes).len() == 0 {
        Some(TeacherAlignedBasisError::NoTrainingSamples)
    } else if !residuals_finite(training_coordinates(observable, samples, takes)) {
        Some(
            TeacherAlignedBasisError::Observable(
                ObservableBasisError::InvalidNumeric("projected expression"),
            ),
        )
    } else if !residuals_finite(training_residuals(samples, takes)) {
        Some(TeacherAlignedBasisError::InvalidNumeric("teacher residual"))
    } else if !statistics_finite(training_residuals(samples, takes)) {
        Some(TeacherAlignedBasisError::InvalidNumeric("residual statistics"))
    } else {
        None
    }
}

/// Mean and deviation of every channel are finite.
pub open spec fn statistics_finite(residuals: Seq<Seq<Binary32>>) -> bool {
    forall|c: int|
        0 <= c < 51 ==> (#[trigger] channel_mean(residuals, c)).finite() && channel_std(
            residuals,
            c,
        ).finite()
}

/// Whether mean and deviation of every channel are finite.
pub(crate) fn are_statistics_finite(
    normalization: &ResidualNormalization,
    Ghost(residuals): Ghost<Seq<Seq<Binary32>>>,
) -> (finite: bool)
    requires
        is_normalization(residuals, *normalization),
    ensures
        finite == statistics_finite(residuals),
{
    for c in 0..51usize
        invariant
            is_normalization(residuals, *normalization),
            forall|b: int|
                0 <= b < c ==> (#[trigger] channel_mean(residuals, b)).finite() && channel_std(
                    residuals,
                    b,
                ).finite(),
    {
        if !normalization.mean[c].is_finite() || !normalization.std[c].is_finite() {
            assert(!channel_mean(residuals, c as int).finite() || !channel_std(
                residuals,
                c as int,
            ).finite());
            return false;
        }
    }
    true
}

/// Training statistics: what the singular-value solver is run on, and the
/// residual normalization that goes with it.
#[derive(Clone, Debug, PartialEq)]
pub struct AlignmentStatistics {
    /// Residual statistics.
    pub normalization: ResidualNormalization,
    /// Cross-covariance, one row per observable coordinate.
    pub cross_covariance: Vec<[Binary64; 51]>,
}

/// Positions of the training samples, in order.
fn select_samples(samples: &Vec<TeacherAlignmentSample>, takes: &Vec<String>) -> (positions: Vec<
    usize,
>)
    ensures
        positions@ == training_samples(samples@, takes@),
        positions@.len() <= samples@.len(),
        forall|i: int| 0 <= i < positions@.len() ==> #[trigger] positions@[i] < samples@.len(),
{
    let mut positions: Vec<usize> = Vec::new();
    for i in 0..samples.len()
        invariant
            positions@ == selected_positions(sample_takes(samples@), takes@, i as int),
    {
        if contains_take(takes, &samples[i].take_id) {
            positions.push(i);
        }
    }
    proof {
        assert(samples.len() == samples@.len());
        lemma_selected_positions_fit(sample_takes(samples@), takes@, samples@.len() as int);
    }
    positions
}

/// One row of the cross-covariance.
fn covariance_row(
    coordinates: &Vec<Vec<Binary32>>,
    normalization: &ResidualNormalization,
    source: usize,
    Ghost(residuals): Ghost<Seq<Seq<Binary32>>>,
) -> (row: [Binary64; 51])
    requires
        coordinates@.len() == residuals.len(),
        is_normalization(residuals, *normalization),
        forall|i: int| 0 <= i < coordinates@.len() ==> source < (#[trigger] coordinates@[i])@.len(),
    ensures
        forall|c: int|
            0 <= c < 51 ==> #[trigger] row@[c] == covariance_before(
                column_values(coordinates@),
                residuals,
                source as int,
                c,
                coordinates@.len() as int,
            ),
{
    let ghost points = column_values(coordinates@);
    let count = Binary64::from_integer(coordinates.len() as u64);
    let mut mean = Binary64::zero();
    for i in 0..coordinates.len()
        invariant
            points == column_values(coordinates@),
            forall|j: int|
                0 <= j < coordinates@.len() ==> source < (#[trigger] coordinates@[j])@.len(),
            count == Binary64::of_integer(points.len()),
            mean == coordinate_mean_before(points, source as int, i as int),
    {
        mean = mean.sum(coordinates[i][source].widen().quotient(count));
    }
    let mut row: [Binary64; 51] = [Binary64::zero();51];
    for c in 0..ARKIT_NON_TONGUE_CHANNEL_COUNT
        invariant
            points == column_values(coordinates@),
            coordinates@.len() == residuals.len(),
            is_normalization(residuals, *normalization),
            forall|j: int|
                0 <= j < coordinates@.len() ==> source < (#[trigger] coordinates@[j])@.len(),
            count == Binary64::of_integer(points.len()),
            mean == coordinate_mean(points, source as int),
            forall|j: int|
                0 <= j < c ==> #[trigger] row@[j] == covariance_before(
                    points,
                    residuals,
                    source as int,
                    j,
                    coordinates@.len() as int,
                ),
    {
        let mut covariance = Binary64::zero();
        for i in 0..coordinates.len()
            invariant
                c < 51,
                points == column_values(coordinates@),
                coordinates@.len() == residuals.len(),
                is_normalization(residuals, *normalization),
                forall|j: int|
                    0 <= j < coordinates@.len() ==> source < (#[trigger] coordinates@[j])@.len(),
                count == Binary64::of_integer(points.len()),
                mean == coordinate_mean(points, source as int),
                covariance == covariance_before(
                    points,
                    residuals,
                    source as int,
                    c as int,
                    i as int,
                ),
        {
            let centered = coordinates[i][source].widen().difference(mean);
            assert(normalization.normalized@[i as int]@[c as int] == normalized_residual(
                residuals,
                i as int,
                c as int,
            ));
            covariance =
            covariance.sum(
                centered.product(normalization.normalized[i][c].widen()).quotient(count),
            );
        }
        row[c] = covariance;
    }
    row
}

/// Residual normalization and cross-covariance of the training samples.
///
/// # Errors
///
/// Rejects an invalid source artifact, rank, empty training selection, or
/// non-finite numeric input or residual statistics.
pub fn alignment_statistics(
    observable: &ObservableGnmBasisArtifact,
    samples: &Vec<TeacherAlignmentSample>,
    training_takes: &Vec<String>,
    rank: usize,
) -> (result: Result<AlignmentStatistics, TeacherAlignedBasisError>)
    ensures
        match result {
            Ok(statistics) => {
                let residuals = training_residuals(samples@, training_takes@);
                &&& alignment_fault(*observable, samples@, training_takes@, rank) is None
                &&& is_normalization(residuals, statistics.normalization)
                &&& is_cross_covariance(
                    training_coordinates(*observable, samples@, training_takes@),
                    residuals,
                    observable.rank as int,
                    statistics.cross_covariance@,
                )
            },
            Err(error) => alignment_fault(*observable, samples@, training_takes@, rank) == Some(
                error,
            ),
        },
{
    let neutral = GnmNonTongueExpression::neutral();
    if let Err(error) = project_non_tongue_expression(&neutral, observable) {
        return Err(TeacherAlignedBasisError::Observable(error));
    }
    let maximum: usize = if observable.rank < ARKIT_NON_TONGUE_CHANNEL_COUNT {
        observable.rank
    } else {
        ARKIT_NON_TONGUE_CHANNEL_COUNT
    };
    if rank < 1 || rank > maximum {
        return Err(TeacherAlignedBasisError::InvalidRank { rank, maximum });
    }
    let positions = select_samples(samples, training_takes);
    if positions.len() == 0 {
        return Err(TeacherAlignedBasisError::NoTrainingSamples);
    }
    let ghost points = training_coordinates(*observable, samples@, training_takes@);
    let ghost rows = training_residuals(samples@, training_takes@);
    let mut coordinates: Vec<Vec<Binary32>> = Vec::new();
    let mut residuals: Vec<[Binary32; 51]> = Vec::new();
    for i in 0..positions.len()
        invariant
            observable_fault(*observable) is None,
            1 <= rank <= largest_rank(*observable),
            positions@.len() > 0,
            positions@ == training_samples(samples@, training_takes@),
            points == training_coordinates(*observable, samples@, training_takes@),
            rows == training_residuals(samples@, training_takes@),
            forall|j: int| 0 <= j < positions@.len() ==> #[trigger] positions@[j] < samples@.len(),
            coordinates@.len() == i,
            residuals@.len() == i,
            forall|j: int| 0 <= j < i ==> (#[trigger] coordinates@[j])@ == points[j],
            forall|j: int| 0 <= j < i ==> all_finite(#[trigger] points[j]),
            forall|j: int| 0 <= j < i ==> (#[trigger] residuals@[j])@ == rows[j],
    {
        let sample = &samples[positions[i]];
        match project_non_tongue_expression(&sample.expression, observable) {
            Ok(reduced) => {
                coordinates.push(reduced);
                residuals.push(sample.teacher_residual);
            },
            Err(error) => {
                assert(!all_finite(points[i as int]));
                return Err(TeacherAlignedBasisError::Observable(error));
            },
        }
    }
    proof {
        assert(residual_rows(residuals@) =~= rows);
        assert(column_values(coordinates@) =~= points);
    }
    let normalization = match normalize_teacher_residuals(&residuals) {
        Ok(normalization) => normalization,
        Err(error) => {
            return Err(error);
        },
    };
    if !are_statistics_finite(&normalization, Ghost(rows)) {
        return Err(TeacherAlignedBasisError::InvalidNumeric("residual statistics"));
    }
    let mut cross_covariance: Vec<[Binary64; 51]> = Vec::new();
    for source in 0..observable.rank
        invariant
            coordinates@.len() == rows.len(),
            is_normalization(rows, normalization),
            column_values(coordinates@) == points,
            forall|j: int|
                0 <= j < coordinates@.len() ==> (#[trigger] coordinates@[j])@.len()
                    == observable.rank,
            cross_covariance@.len() == source,
            forall|t: int, c: int|
                0 <= t < source && 0 <= c < 51 ==> #[trigger] cross_covariance@[t]@[c]
                    == covariance_before(points, rows, t, c, points.len() as int),
    {
        let row = covariance_row(&coordinates, &normalization, source, Ghost(rows));
        cross_covariance.push(row);
    }
    Ok(AlignmentStatistics { normalization, cross_covariance })
}

/// Observable direction of one left singular vector at one row, summed over the
/// first `n` coordinates.
pub open spec fn lifted_before(
    basis: Seq<Binary32>,
    direction: Seq<Binary64>,
    source_rank: int,
    row: int,
    n: int,
) -> Binary64
    decreases n,
{
    if n <= 0 {
        Binary64 { bits: SIGN_64 }
    } else {
        lifted_before(basis, direction, source_rank, row, n - 1).plus(
            basis[row * source_rank + (n - 1)].widened().times(direction[n - 1]),
        )
    }
}

/// Expression direction of one left singular vector, rounded to single precision.
pub open spec fn lifted(basis: Seq<Binary32>, direction: Seq<Binary64>, source_rank: int) -> Seq<
    Binary32,
> {
    Seq::new(
        351,
        |row: int| lifted_before(basis, direction, source_rank, row, source_rank).narrowed(),
    )
}

/// Sum of the squares of the first `n` numbers.
pub open spec fn squares_before(numbers: Seq<Binary32>, n: int) -> Binary64
    decreases n,
{
    if n <= 0 {
        Binary64 { bits: SIGN_64 }
    } else {
        squares_before(numbers, n - 1).plus(
            numbers[n - 1].widened().times(numbers[n - 1].widened()),
        )
    }
}

/// Euclidean length.
pub open spec fn length_of(numbers: Seq<Binary32>) -> Binary64 {
    squares_before(numbers, numbers.len() as int).root()
}

/// The length can be divided by.
pub open spec fn usable_length(length: Binary64) -> bool {
    length.finite() && !length.at_most(Binary64 { bits: 0 })
}

/// The column divided by its length.
pub open spec fn unit_column(numbers: Seq<Binary32>) -> Seq<Binary32> {
    Seq::new(numbers.len(), |r: int| numbers[r].over(length_of(numbers).narrowed()))
}

/// The column divided by its length, with its peak positive.
pub open spec fn signed_unit(numbers: Seq<Binary32>) -> Seq<Binary32> {
    Seq::new(
        numbers.len(),
        |r: int| unit_column(numbers)[r].times(peak_sign(unit_column(numbers))),
    )
}

/// Lifts one left singular vector to an expression direction.
fn lift(observable: &ObservableGnmBasisArtifact, direction: &Vec<Binary64>) -> (column: Vec<
    Binary32,
>)
    requires
        observable.shape_valid(),
        direction@.len() == observable.rank,
    ensures
        column@ == lifted(observable.basis_row_major@, direction@, observable.rank as int),
{
    let source_rank: usize = observable.rank;
    let mut column: Vec<Binary32> = Vec::new();
    for row in 0..GNM_HEAD_V3_NON_TONGUE_EXPRESSION_DIM
        invariant
            observable.shape_valid(),
            source_rank == observable.rank,
            direction@.len() == source_rank,
            column@.len() == row,
            forall|r: int|
                0 <= r < row ==> #[trigger] column@[r] == lifted_before(
                    observable.basis_row_major@,
                    direction@,
                    source_rank as int,
                    r,
                    source_rank as int,
                ).narrowed(),
    {
        let mut value = Binary64::from_bits(SIGN_64);
        for k in 0..source_rank
            invariant
                row < 351,
                observable.shape_valid(),
                source_rank == observable.rank,
                direction@.len() == source_rank,
                value == lifted_before(
                    observable.basis_row_major@,
                    direction@,
                    source_rank as int,
                    row as int,
                    k as int,
                ),
        {
            proof {
                lemma_position_fits(row as int, k as int, 351, source_rank as int);
                assert(observable.basis_row_major.len() == observable.basis_row_major@.len());
            }
            value =
            value.sum(
                observable.basis_row_major[row * source_rank + k].widen().product(direction[k]),
            );
        }
        column.push(value.narrow());
    }
    assert(column@ =~= lifted(observable.basis_row_major@, direction@, source_rank as int));
    column
}

/// The square of a number as it enters the sum of squares.
spec fn squared(number: Binary32) -> Binary64 {
    number.widened().times(number.widened())
}

/// Only finite numbers have finite squares.
proof fn lemma_finite_square(number: Binary32)
    requires
        squared(number).finite(),
        !number.finite() ==> number.widened().magnitude() >= INFINITY_64,
    ensures
        number.finite(),
{
}

/// Zero has no square.
proof fn lemma_square_of_zero(number: Binary32)
    requires
        number.magnitude() == 0,
        is_wide(number.magnitude(), number.widened().magnitude()),
    ensures
        squared(number).magnitude() == 0,
{
    let wide = number.widened();
    lemma_units_of_zero();
    assert(0 * pow2(925) == 0) by (nonlinear_arith);
    lemma_sign_of_units_64(wide);
}

/// Normalizes and signs a column, unless its length is not usable. What comes out
/// is finite.
fn normalize_column(column: &Vec<Binary32>) -> (result: Option<Vec<Binary32>>)
    ensures
        match result {
            Some(unit) => {
                &&& usable_length(length_of(column@))
                &&& unit@ == signed_unit(column@)
                &&& all_finite(unit@)
            },
            None => !usable_length(length_of(column@)),
        },
{
    let mut squares = Binary64::from_bits(SIGN_64);
    for i in 0..column.len()
        invariant
            squares == squares_before(column@, i as int),
            squares.finite() ==> squares.rank() >= 0,
            forall|j: int|
                0 <= j < i && (#[trigger] column@[j]).finite() ==> is_wide(
                    column@[j].magnitude(),
                    column@[j].widened().magnitude(),
                ),
            forall|j: int|
                0 <= j < i && squares.finite() ==> {
                    &&& (#[trigger] column@[j]).finite()
                    &&& squared(column@[j]).finite()
                    &&& squared(column@[j]).rank() <= squares.rank()
                },
            squares.finite() && squares.rank() > 0 ==> exists|j: int|
                0 <= j < i && (#[trigger] column@[j]).magnitude() > 0,
    {
        let wide = column[i].widen();
        let ghost before = squares;
        squares = squares.sum(wide.product(wide));
        proof {
            let square = squared(column@[i as int]);
            lemma_square_without_sign(wide);
            if squares.finite() {
                lemma_sum_grows(before, square);
                lemma_finite_square(column@[i as int]);
                if column@[i as int].magnitude() == 0 {
                    lemma_square_of_zero(column@[i as int]);
                }
            }
        }
    }
    let length = squares.square_root();
    if !length.is_finite() || length.is_at_most(Binary64::zero()) {
        return None;
    }
    let divisor = length.narrow();
    proof {
        assert(squares.finite() && squares.rank() > 0);
        let units = magnitude_units(length.magnitude() as nat, 52) as int;
        let peak = choose|j: int|
            0 <= j < column@.len() && (#[trigger] column@[j]).magnitude() > 0;
        lemma_length_covers(column@[peak], column@[peak].widened(), squares);
        lemma_narrow_covers(units, divisor.magnitude(), 1);
        assert forall|j: int| 0 <= j < column@.len() implies (#[trigger] column@[j]).over(
            divisor,
        ).finite() by {
            if column@[j].magnitude() >= 0x80_0000 {
                lemma_length_covers(column@[j], column@[j].widened(), squares);
                lemma_narrow_covers(units, divisor.magnitude(), column@[j].magnitude());
            }
            lemma_covered_quotient_is_finite(column@[j], divisor);
        }
    }
    let mut unit: Vec<Binary32> = Vec::new();
    for i in 0..column.len()
        invariant
            divisor == length_of(column@).narrowed(),
            unit@.len() == i,
            forall|j: int|
                0 <= j < column@.len() ==> (#[trigger] column@[j]).over(divisor).finite(),
            forall|j: int| 0 <= j < i ==> #[trigger] unit@[j] == column@[j].over(divisor),
            all_finite(unit@),
    {
        unit.push(column[i].quotient(divisor));
    }
    assert(unit@ =~= unit_column(column@));
    let sign = sign_of_peak(&unit);
    let mut signed: Vec<Binary32> = Vec::new();
    for i in 0..unit.len()
        invariant
            unit@ == unit_column(column@),
            sign == peak_sign(unit@),
            all_finite(unit@),
            signed@.len() == i,
            forall|j: int| 0 <= j < i ==> #[trigger] signed@[j] == unit@[j].times(sign),
            all_finite(signed@),
    {
        proof {
            lemma_signed_is_finite(unit@[i as int], sign);
        }
        signed.push(unit[i].product(sign));
    }
    assert(signed@ =~= signed_unit(column@));
    Some(signed)
}

/// Lifted direction of the `i`-th largest singular value.
pub open spec fn aligned_column(
    observable: ObservableGnmBasisArtifact,
    decomposition: LeftSingularVectors,
    i: int,
) -> Seq<Binary32> {
    lifted(observable.basis_row_major@, decomposition.direction(i), observable.rank as int)
}

/// Why the decomposition gives no basis, if it does not.
pub open spec fn decomposition_fault(
    observable: ObservableGnmBasisArtifact,
    decomposition: LeftSingularVectors,
    rank: int,
) -> Option<TeacherAlignedBasisError> {
    if decomposition.left is None {
        Some(TeacherAlignedBasisError::InvalidShape("left singular vectors"))
    } else if !all_finite_64(decomposition.singular_values@) {
        Some(TeacherAlignedBasisError::InvalidNumeric("singular value"))
    } else if exists|i: int|
        0 <= i < rank && !usable_length(
            length_of(#[trigger] aligned_column(observable, decomposition, i)),
        ) {
        Some(TeacherAlignedBasisError::InvalidNumeric("basis norm"))
    } else {
        None
    }
}

/// The basis columns of a fit.
pub open spec fn aligned_columns(
    observable: ObservableGnmBasisArtifact,
    decomposition: LeftSingularVectors,
    rank: int,
) -> Seq<Seq<Binary32>> {
    Seq::new(
        rank as nat,
        |i: int| signed_unit(aligned_column(observable, decomposition, i)),
    )
}

/// The artifact of a fit.
pub open spec fn is_aligned_fit(
    observable: ObservableGnmBasisArtifact,
    samples: Seq<TeacherAlignmentSample>,
    takes: Seq<String>,
    rank: usize,
    decomposition: LeftSingularVectors,
    artifact: TeacherAlignedGnmBasisArtifact,
) -> bool {
    let residuals = training_residuals(samples, takes);
    &&& artifact.schema_version == TEACHER_ALIGNED_GNM_BASIS_SCHEMA_VERSION
    &&& artifact.observable_basis_content_hash == observable.content_hash
    &&& artifact.model_sha256@ == observable.model_sha256@
    &&& artifact.mapping_schema_revision == observable.mapping_schema_revision
    &&& artifact.source_rank == observable.rank
    &&& artifact.rank == rank
    &&& strictly_ordered(artifact.training_takes@)
    &&& same_takes(artifact.training_takes@, takes)
    &&& forall|c: int|
        0 <= c < 51 ==> #[trigger] artifact.residual_mean@[c] == channel_mean(residuals, c)
    &&& forall|c: int|
        0 <= c < 51 ==> #[trigger] artifact.residual_std@[c] == channel_std(residuals, c)
    &&& artifact.inactive_residual_channels@ == inactive_before(residuals, 51)
    &&& artifact.singular_values_descending@ == decomposition.retained(rank as int)
    &&& artifact.basis_row_major@ == row_major(
        aligned_columns(observable, decomposition, rank as int),
        351,
    )
    &&& artifact.hash_matches()
}

/// Fits the teacher-aligned basis from training-only observable coordinates and
/// normalized same-frame teacher residuals, given the left singular vectors of
/// their cross-covariance (see [`alignment_statistics`]).
///
/// # Errors
///
/// Rejects an invalid source artifact, rank, empty training selection, or
/// non-finite numeric input/result.
pub fn fit_teacher_aligned_gnm_basis(
    observable: &ObservableGnmBasisArtifact,
    samples: &Vec<TeacherAlignmentSample>,
    training_takes: &Vec<String>,
    rank: usize,
    decomposition: &LeftSingularVectors,
) -> (result: Result<TeacherAlignedGnmBasisArtifact, TeacherAlignedBasisError>)
    requires
        decomposition.complete(largest_rank(*observable), observable.rank as int),
    ensures
        ({
            let input_fault = alignment_fault(*observable, samples@, training_takes@, rank);
            let result_fault = decomposition_fault(*observable, *decomposition, rank as int);
            match result {
                Ok(artifact) => {
                    &&& input_fault is None
                    &&& result_fault is None
                    &&& is_aligned_fit(
                        *observable,
                        samples@,
                        training_takes@,
                        rank,
                        *decomposition,
                        artifact,
                    )
                    &&& observable.model_sha256@.len() > 0 ==> artifact.fault() is None
                },
                Err(error) => {
                    if input_fault is Some {
                        input_fault == Some(error)
                    } else {
                        result_fault == Some(error)
                    }
                },
            }
        }),
{
    let statistics = match alignment_statistics(observable, samples, training_takes, rank) {
        Ok(statistics) => statistics,
        Err(error) => {
            return Err(error);
        },
    };
    let left = match &decomposition.left {
        Some(left) => left,
        None => {
            return Err(TeacherAlignedBasisError::InvalidShape("left singular vectors"));
        },
    };
    if !is_all_finite_64(&decomposition.singular_values) {
        return Err(TeacherAlignedBasisError::InvalidNumeric("singular value"));
    }
    let order = order_descending(&decomposition.singular_values);
    let mut singular_values_descending: Vec<Binary64> = Vec::new();
    let mut columns: Vec<Vec<Binary32>> = Vec::new();
    for i in 0..rank
        invariant
            1 <= rank <= largest_rank(*observable),
            alignment_fault(*observable, samples@, training_takes@, rank) is None,
            observable.shape_valid(),
            decomposition.complete(largest_rank(*observable), observable.rank as int),
            decomposition.left == Some(*left),
            all_finite_64(decomposition.singular_values@),
            order@ == decomposition.order(),
            is_stable_order(descending_keys(decomposition.singular_values@), order@),
            singular_values_descending@.len() == i,
            columns@.len() == i,
            forall|j: int|
                0 <= j < i ==> #[trigger] singular_values_descending@[j]
                    == decomposition.singular_values@[order@[j] as int],
            forall|j: int|
                0 <= j < i ==> (#[trigger] columns@[j])@ == signed_unit(
                    aligned_column(*observable, *decomposition, j),
                ),
            forall|j: int| 0 <= j < i ==> all_finite((#[trigger] columns@[j])@),
            forall|j: int|
                0 <= j < i ==> usable_length(
                    length_of(#[trigger] aligned_column(*observable, *decomposition, j)),
                ),
    {
        let position: usize = order[i];
        assert(left@[position as int]@.len() == observable.rank);
        singular_values_descending.push(decomposition.singular_values[position]);
        let column = lift(observable, &left[position]);
        assert(column@ == aligned_column(*observable, *decomposition, i as int));
        match normalize_column(&column) {
            Some(unit) => columns.push(unit),
            None => {
                return Err(TeacherAlignedBasisError::InvalidNumeric("basis norm"));
            },
        }
    }
    proof {
        assert(singular_values_descending@ =~= decomposition.retained(rank as int));
        assert(column_values(columns@) =~= aligned_columns(
            *observable,
            *decomposition,
            rank as int,
        ));
    }
    let basis_row_major = lay_out_rows(&columns, GNM_HEAD_V3_NON_TONGUE_EXPRESSION_DIM);
    proof {
        assert forall|k: int| 0 <= k < basis_row_major@.len() implies (
        #[trigger] basis_row_major@[k]).finite() by {
            let count = columns@.len() as int;
            assert(0 <= k % count < count && 0 <= k / count < 351) by (nonlinear_arith)
                requires
                    count > 0,
                    0 <= k < 351 * count,
            ;
            assert(all_finite(columns@[k % count]@));
        }
    }
    let mut artifact = TeacherAlignedGnmBasisArtifact {
        schema_version: TEACHER_ALIGNED_GNM_BASIS_SCHEMA_VERSION,
        observable_basis_content_hash: observable.content_hash,
        model_sha256: observable.model_sha256.clone(),
        mapping_schema_revision: observable.mapping_schema_revision,
        source_rank: observable.rank,
        rank,
        training_takes: sorted_takes(training_takes),
        residual_mean: statistics.normalization.mean,
        residual_std: statistics.normalization.std,
        inactive_residual_channels: statistics.normalization.inactive_channels,
        singular_values_descending,
        basis_row_major,
        content_hash: 0,
    };
    let hash: u64 = teacher_aligned_basis_hash(&artifact);
    artifact.content_hash = hash;
    proof {
        lemma_selection_needs_takes(
            sample_takes(samples@),
            training_takes@,
            artifact.training_takes@,
            samples@.len() as int,
        );
    }
    Ok(artifact)
}

/// The samples of the training takes, in order.
pub open spec fn of_training_takes(
    samples: Seq<TeacherAlignmentSample>,
    takes: Seq<String>,
) -> Seq<TeacherAlignmentSample> {
    samples.filter(|sample: TeacherAlignmentSample| names_take(takes, sample.take_id@))
}

/// Appended samples of other takes leave the samples of the training takes as they are.
pub proof fn lemma_appended_takes_do_not_train(
    samples: Seq<TeacherAlignmentSample>,
    extras: Seq<TeacherAlignmentSample>,
    takes: Seq<String>,
)
    requires
        forall|i: int| 0 <= i < extras.len() ==> !names_take(takes, (#[trigger] extras[i]).take_id@),
    ensures
        of_training_takes(samples + extras, takes) == of_training_takes(samples, takes),
{
    lemma_nothing_is_kept(
        samples,
        extras,
        |sample: TeacherAlignmentSample| names_take(takes, sample.take_id@),
    );
}

/// The training data are those of the samples of the training takes.
proof fn lemma_training_data_are_kept(
    observable: ObservableGnmBasisArtifact,
    samples: Seq<TeacherAlignmentSample>,
    takes: Seq<String>,
)
    requires
        samples.len() <= usize::MAX,
    ensures
        ({
            let kept = of_training_takes(samples, takes);
            &&& training_samples(samples, takes).len() == kept.len()
            &&& training_coordinates(observable, samples, takes) == Seq::new(
                kept.len(),
                |i: int|
                    projected(
                        observable.basis_row_major@,
                        kept[i].expression@,
                        observable.rank as int,
                    ),
            )
            &&& training_residuals(samples, takes) == Seq::new(
                kept.len(),
                |i: int| kept[i].teacher_residual@,
            )
        }),
{
    let kept = of_training_takes(samples, takes);
    lemma_selected_are_kept(
        samples,
        sample_takes(samples),
        takes,
        |sample: TeacherAlignmentSample| names_take(takes, sample.take_id@),
    );
    assert(training_coordinates(observable, samples, takes) =~= Seq::new(
        kept.len(),
        |i: int|
            projected(observable.basis_row_major@, kept[i].expression@, observable.rank as int),
    ));
    assert(training_residuals(samples, takes) =~= Seq::new(
        kept.len(),
        |i: int| kept[i].teacher_residual@,
    ));
}

/// Samples of other takes change nothing that a fit is made of, however many there are
/// and wherever they stand: neither the coordinates that train, nor their residuals,
/// nor what is refused.
pub proof fn lemma_other_takes_do_not_align(
    observable: ObservableGnmBasisArtifact,
    samples: Seq<TeacherAlignmentSample>,
    others: Seq<TeacherAlignmentSample>,
    takes: Seq<String>,
    rank: usize,
)
    requires
        samples.len() <= usize::MAX,
        others.len() <= usize::MAX,
        of_training_takes(samples, takes) == of_training_takes(others, takes),
    ensures
        training_coordinates(observable, samples, takes) == training_coordinates(
            observable,
            others,
            takes,
        ),
        training_residuals(samples, takes) == training_residuals(others, takes),
        alignment_fault(observable, samples, takes, rank) == alignment_fault(
            observable,
            others,
            takes,
            rank,
        ),
{
    lemma_training_data_are_kept(observable, samples, takes);
    lemma_training_data_are_kept(observable, others, takes);
}

/// Samples of other takes do not change the artifact: fits of two lists that agree on
/// the training takes agree in every field, and in the content hash.
pub proof fn lemma_other_takes_do_not_change_the_basis(
    observable: ObservableGnmBasisArtifact,
    samples: Seq<TeacherAlignmentSample>,
    others: Seq<TeacherAlignmentSample>,
    takes: Seq<String>,
    rank: usize,
    decomposition: LeftSingularVectors,
    artifact: TeacherAlignedGnmBasisArtifact,
    other: TeacherAlignedGnmBasisArtifact,
)
    requires
        samples.len() <= usize::MAX,
        others.len() <= usize::MAX,
        of_training_takes(samples, takes) == of_training_takes(others, takes),
        is_aligned_fit(observable, samples, takes, rank, decomposition, artifact),
        is_aligned_fit(observable, others, takes, rank, decomposition, other),
    ensures
        is_aligned_fit(observable, samples, takes, rank, decomposition, other),
        artifact.training_takes@.len() == other.training_takes@.len(),
        forall|i: int|
            0 <= i < artifact.training_takes@.len() ==> (#[trigger] artifact.training_takes@[i])@
                == other.training_takes@[i]@,
        artifact.residual_mean == other.residual_mean,
        artifact.residual_std == other.residual_std,
        artifact.inactive_residual_channels@ == other.inactive_residual_channels@,
        artifact.singular_values_descending@ == other.singular_values_descending@,
        artifact.basis_row_major@ == other.basis_row_major@,
        artifact.hashed_bytes() == other.hashed_bytes(),
        artifact.content_hash == other.content_hash,
{
    lemma_other_takes_do_not_align(observable, samples, others, takes, rank);
    assert(same_takes(artifact.training_takes@, other.training_takes@));
    lemma_sorted_takes_are_unique(artifact.training_takes@, other.training_takes@);
    lemma_equal_texts_are_hashed_alike(artifact.training_takes@, other.training_takes@);
    let residuals = training_residuals(samples, takes);
    assert forall|c: int| 0 <= c < 51 implies #[trigger] artifact.residual_mean@[c]
        == other.residual_mean@[c] by {
        assert(artifact.residual_mean@[c] == channel_mean(residuals, c));
    }
    assert forall|c: int| 0 <= c < 51 implies #[trigger] artifact.residual_std@[c]
        == other.residual_std@[c] by {
        assert(artifact.residual_std@[c] == channel_std(residuals, c));
    }
    assert(artifact.residual_mean =~= other.residual_mean);
    assert(artifact.residual_std =~= other.residual_std);
}

} // verus!
