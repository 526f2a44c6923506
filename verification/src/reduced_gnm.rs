//! Validated teacher-aligned basis loading and MediaPipe pose seeding.

use vstd::prelude::*;

use crate::binary::Binary32;
use crate::gnm_model::{DenseProjection, GnmReprojectionError};
use crate::gnm_semantic_decoder::{check_zero_reconstruction, reconstructs_zero};
use crate::linear_map::copy_numbers;
use crate::observable_basis::GnmModelError;
use crate::teacher_aligned_basis::{
    is_aligned_reconstruction, TeacherAlignedBasisError, TeacherAlignedGnmBasisArtifact,
};
use crate::teacher_residual::zero_features;

verus! {

/// Low-level runtime basis of the reduced expression.
#[derive(Clone, Debug, PartialEq)]
pub struct GnmReducedExpressionBasis {
    /// Number of directions.
    pub rank: usize,
    /// Row-major `[351, rank]` basis.
    pub values_row_major: Vec<Binary32>,
}

/// Converts a verified teacher-aligned artifact into the low-level runtime basis;
/// `orthonormal` is the model's verdict on the basis.
///
/// # Errors
///
/// Rejects schema, hash, model, mapping, rank, numeric, and orthogonality
/// mismatches. No basis regeneration or full-solver fallback is performed.
pub fn load_reduced_gnm_basis(
    artifact: &TeacherAlignedGnmBasisArtifact,
    expected_model_sha256: &String,
    expected_mapping_revision: u32,
    orthonormal: Result<(), GnmModelError>,
) -> (result: Result<GnmReducedExpressionBasis, TeacherAlignedBasisError>)
    ensures
        match result {
            Ok(basis) => {
                &&& reconstructs_zero(*artifact)
                &&& artifact.model_sha256@ == expected_model_sha256@
                &&& artifact.mapping_schema_revision == expected_mapping_revision
                &&& orthonormal is Ok
                &&& basis.rank == artifact.rank
                &&& basis.values_row_major@ == artifact.basis_row_major@
            },
            Err(error) => {
                if !reconstructs_zero(*artifact) {
                    is_aligned_reconstruction(
                        zero_features(artifact.rank as int),
                        *artifact,
                        Err(error),
                    )
                } else if artifact.model_sha256@ != expected_model_sha256@ {
                    error == TeacherAlignedBasisError::InvalidShape("model SHA-256")
                } else if artifact.mapping_schema_revision != expected_mapping_revision {
                    error == TeacherAlignedBasisError::InvalidShape("mapping schema revision")
                } else {
                    orthonormal is Err && error == TeacherAlignedBasisError::Expression(
                        orthonormal->Err_0,
                    )
                }
            },
        },
{
    if let Err(error) = check_zero_reconstruction(artifact) {
        return Err(error);
    }
    if artifact.model_sha256 != *expected_model_sha256 {
        return Err(TeacherAlignedBasisError::InvalidShape("model SHA-256"));
    }
    if artifact.mapping_schema_revision != expected_mapping_revision {
        return Err(TeacherAlignedBasisError::InvalidShape("mapping schema revision"));
    }
    if let Err(error) = orthonormal {
        return Err(TeacherAlignedBasisError::Expression(error));
    }
    Ok(
        GnmReducedExpressionBasis {
            rank: artifact.rank,
            values_row_major: copy_numbers(&artifact.basis_row_major),
        },
    )
}

/// Seeds the rotation from MediaPipe; `transform_valid` tells whether the
/// camera-to-face rotation is a finite unit quaternion, and `yaw_pitch_roll` are
/// its angles.
///
/// Translation, focal length, and principal point are retained from `base`;
/// the MediaPipe translation is not part of this initial-rotation contract.
///
/// # Errors
///
/// Rejects an invalid MediaPipe transform or an invalid reconstructed projection.
pub fn seed_gnm_projection_rotation(
    transform_valid: bool,
    yaw_pitch_roll: [Binary32; 3],
    base: &DenseProjection,
) -> (result: Result<DenseProjection, GnmReprojectionError>)
    ensures
        ({
            let seeded = DenseProjection { yaw_pitch_roll, ..*base };
            match result {
                Ok(projection) => transform_valid && seeded.usable() && projection == seeded,
                Err(error) => {
                    if !transform_valid {
                        error == GnmReprojectionError::InvalidProjection(
                            "MediaPipe camera-to-face rotation must be a finite unit quaternion",
                        )
                    } else {
                        !seeded.usable() && error == GnmReprojectionError::InvalidProjection(
                            "projection must be finite with a positive focal length",
                        )
                    }
                },
            }
        }),
{
    if !transform_valid {
        return Err(
            GnmReprojectionError::InvalidProjection(
                "MediaPipe camera-to-face rotation must be a finite unit quaternion",
            ),
        );
    }
    DenseProjection::new(yaw_pitch_roll, base.translation, base.focal, base.principal_point)
}

} // verus!
