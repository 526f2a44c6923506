//! What tracking reads of a fitted head model: dimensions, versions, frame
//! identities, dynamic values and projections.

use vstd::prelude::*;

use crate::binary::Binary32;
use crate::linear_map::{all_finite, copy_numbers, is_all_finite};

verus! {

/// Major version of the pinned Head model.
pub const GNM_HEAD_V3_MAJOR: u16 = 3;

/// Minor version of the pinned Head model.
pub const GNM_HEAD_V3_MINOR: u16 = 0;

/// Generation of a model.
#[derive(Clone, Copy, Debug, PartialEq, Eq, Structural)]
pub struct GnmVersion {
    /// Major version.
    pub major: u16,
    /// Minor version.
    pub minor: u16,
}

/// The pinned Head generation.
pub open spec fn head_v3() -> GnmVersion {
    GnmVersion { major: GNM_HEAD_V3_MAJOR, minor: GNM_HEAD_V3_MINOR }
}

/// The pinned Head generation.
pub fn gnm_head_v3_version() -> (version: GnmVersion)
    ensures
        version == head_v3(),
{
    GnmVersion { major: GNM_HEAD_V3_MAJOR, minor: GNM_HEAD_V3_MINOR }
}

/// Dimensions of a loaded model.
#[derive(Clone, Copy, Debug, PartialEq, Eq, Structural)]
pub struct GnmModel {
    /// Generation.
    pub version: GnmVersion,
    /// Number of identity coefficients.
    pub identity_dimension: usize,
    /// Number of expression coefficients.
    pub expression_dimension: usize,
    /// Number of joints.
    pub joint_count: usize,
}

/// Revision of a dense correspondence set.
#[derive(Clone, Copy, Debug, PartialEq, Eq, Structural)]
pub struct DenseMappingVersion {
    /// Revision of the mapping schema.
    pub schema_revision: u32,
    /// Model generation that the mapping was built for.
    pub model_version: GnmVersion,
}

/// Identity of a source frame.
#[derive(Clone, Copy, Debug, PartialEq, Eq, Structural)]
pub struct GnmFrameStamp {
    /// Source frame sequence.
    pub source_seq: u64,
    /// Capture time.
    pub captured_at_micros: u64,
}

/// How much of the face a dense observation covers.
#[derive(Clone, Copy, Debug, PartialEq, Eq, Structural)]
pub enum DenseObservationStatus {
    /// Enough points.
    Valid,
    /// Fewer points, still usable.
    Degraded,
    /// Too few points.
    Insufficient,
}

/// Identity and coverage of a dense observation.
#[derive(Clone, Copy, Debug, PartialEq, Eq, Structural)]
pub struct GnmDenseObservation {
    /// Source frame sequence.
    pub source_seq: u64,
    /// Capture time.
    pub captured_at_micros: u64,
    /// Coverage.
    pub status: DenseObservationStatus,
}

/// Calibrated identity coefficients.
#[derive(Clone, Debug, PartialEq)]
pub struct FixedGnmIdentity {
    /// Coefficients.
    pub values: Vec<Binary32>,
}

/// Expression coefficients.
#[derive(Clone, Debug, PartialEq)]
pub struct GnmExpressionState {
    /// Coefficients.
    pub values: Vec<Binary32>,
}

impl GnmExpressionState {
    /// The same coefficients again.
    pub fn duplicate(&self) -> (copy: Self)
        ensures
            copy.values@ == self.values@,
    {
        GnmExpressionState { values: copy_numbers(&self.values) }
    }
}

/// Joint rotations and global translation.
#[derive(Clone, Debug, PartialEq)]
pub struct GnmJointState {
    /// Axis-angle rotation of each joint.
    pub rotations: Vec<[Binary32; 3]>,
    /// Global translation.
    pub translation: [Binary32; 3],
}

impl GnmJointState {
    /// There are `count` joints, none of them rotated or moved.
    pub open spec fn resting(self, count: nat) -> bool {
        let still = seq![Binary32 { bits: 0 }, Binary32 { bits: 0 }, Binary32 { bits: 0 }];
        &&& self.rotations@.len() == count
        &&& forall|i: int| 0 <= i < count ==> (#[trigger] self.rotations@[i])@ == still
        &&& self.translation@ == still
    }

    /// Every joint at rest.
    pub fn neutral(joint_count: usize) -> (joints: Self)
        ensures
            joints.resting(joint_count as nat),
    {
        let zero = Binary32::zero();
        let mut rotations: Vec<[Binary32; 3]> = Vec::new();
        for i in 0..joint_count
            invariant
                zero == (Binary32 { bits: 0 }),
                rotations@.len() == i,
                forall|j: int|
                    0 <= j < i ==> (#[trigger] rotations@[j])@ == seq![
                        Binary32 { bits: 0 },
                        Binary32 { bits: 0 },
                        Binary32 { bits: 0 },
                    ],
        {
            let rest: [Binary32; 3] = [zero, zero, zero];
            assert(rest@ =~= seq![
                Binary32 { bits: 0 },
                Binary32 { bits: 0 },
                Binary32 { bits: 0 },
            ]);
            rotations.push(rest);
        }
        let translation: [Binary32; 3] = [zero, zero, zero];
        assert(translation@ =~= seq![
            Binary32 { bits: 0 },
            Binary32 { bits: 0 },
            Binary32 { bits: 0 },
        ]);
        GnmJointState { rotations, translation }
    }

    /// The same joints again.
    pub fn duplicate(&self) -> (copy: Self)
        ensures
            copy.rotations@ == self.rotations@,
            copy.translation == self.translation,
    {
        let mut rotations: Vec<[Binary32; 3]> = Vec::new();
        for i in 0..self.rotations.len()
            invariant
                rotations@ =~= self.rotations@.take(i as int),
        {
            rotations.push(self.rotations[i]);
        }
        assert(self.rotations@.take(self.rotations@.len() as int) =~= self.rotations@);
        GnmJointState { rotations, translation: self.translation }
    }
}

/// A projection or a solve failed.
#[derive(Clone, Copy, Debug, PartialEq)]
pub enum GnmReprojectionError {
    /// The projection is not usable.
    InvalidProjection(&'static str),
    /// The solver rejected its inputs or failed.
    Solver(&'static str),
}

/// A camera projection of the head: rotation, translation, focal length and
/// principal point.
#[derive(Clone, Copy, Debug, PartialEq)]
pub struct DenseProjection {
    /// Yaw, pitch and roll.
    pub yaw_pitch_roll: [Binary32; 3],
    /// Head-space to camera-space translation.
    pub translation: [Binary32; 3],
    /// Focal length.
    pub focal: Binary32,
    /// Principal point.
    pub principal_point: [Binary32; 2],
}

impl DenseProjection {
    /// Every number is finite, and the focal length is positive.
    pub open spec fn usable(self) -> bool {
        &&& all_finite(self.yaw_pitch_roll@)
        &&& all_finite(self.translation@)
        &&& all_finite(self.principal_point@)
        &&& self.focal.finite()
        &&& self.focal.positive()
    }

    /// Accepts finite numbers with a positive focal length.
    ///
    /// # Errors
    ///
    /// Rejects numbers that are not finite, and a focal length that is not
    /// positive.
    pub fn new(
        yaw_pitch_roll: [Binary32; 3],
        translation: [Binary32; 3],
        focal: Binary32,
        principal_point: [Binary32; 2],
    ) -> (result: Result<Self, GnmReprojectionError>)
        ensures
            ({
                let projection = DenseProjection {
                    yaw_pitch_roll,
                    translation,
                    focal,
                    principal_point,
                };
                match result {
                    Ok(accepted) => accepted == projection && projection.usable(),
                    Err(error) => !projection.usable() && error
                        == GnmReprojectionError::InvalidProjection(
                        "projection must be finite with a positive focal length",
                    ),
                }
            }),
    {
        if !is_all_finite(yaw_pitch_roll.as_slice()) || !is_all_finite(translation.as_slice())
            || !is_all_finite(principal_point.as_slice()) || !focal.is_finite()
            || !focal.is_positive() {
            return Err(
                GnmReprojectionError::InvalidProjection(
                    "projection must be finite with a positive focal length",
                ),
            );
        }
        Ok(DenseProjection { yaw_pitch_roll, translation, focal, principal_point })
    }
}

} // verus!
