//! Per-frame input, dynamic state, config, and result contracts for the
//! persistent GNM numerical fitter.
//!
//! Identity is a read-only [`FixedGnmIdentity`] reference carried by the
//! per-frame input; it is never part of the mutable dynamic state, so no solver
//! path can silently recalibrate.

use vstd::prelude::*;
use vstd::string::*;

use crate::binary::Binary32;
use crate::gnm_model::{
    gnm_head_v3_version, head_v3, DenseMappingVersion, DenseObservationStatus, FixedGnmIdentity,
    GnmDenseObservation, GnmExpressionState, GnmFrameStamp, GnmJointState, GnmModel,
};
use crate::linear_map::{all_finite, is_all_finite};
use crate::text::{append_decimal, decimal};

verus! {

/// Maximum solver iterations accepted by the bounded per-frame contract.
pub const MAX_SOLVER_ITERATIONS_BOUND: usize = 64;

/// An auxiliary observation is not usable for the frame.
#[derive(Clone, Copy, Debug, PartialEq)]
#[allow(inconsistent_fields)]
pub enum AuxiliaryExpressionError {
    /// The channel configuration is invalid.
    InvalidConfig(&'static str),
    /// The auxiliary source sequence differs.
    SourceSequenceMismatch {
        /// Sequence of the frame.
        frame: u64,
        /// Sequence of the auxiliary observation.
        auxiliary: u64,
    },
    /// The auxiliary capture time differs.
    CaptureTimestampMismatch {
        /// Capture time of the frame.
        frame: u64,
        /// Capture time of the auxiliary observation.
        auxiliary: u64,
    },
}

/// Identity of an auxiliary expression observation.
#[derive(Clone, Copy, Debug, PartialEq, Eq, Structural)]
pub struct AuxiliaryExpressionObservation {
    /// Source frame sequence.
    pub source_seq: u64,
    /// Capture time.
    pub captured_at_micros: u64,
}

/// Why an auxiliary observation does not belong to the frame, if it does not.
pub open spec fn auxiliary_fault(
    stamp: GnmFrameStamp,
    auxiliary: AuxiliaryExpressionObservation,
) -> Option<AuxiliaryExpressionError> {
    if auxiliary.source_seq != stamp.source_seq {
        Some(
            AuxiliaryExpressionError::SourceSequenceMismatch {
                frame: stamp.source_seq,
                auxiliary: auxiliary.source_seq,
            },
        )
    } else if auxiliary.captured_at_micros != stamp.captured_at_micros {
        Some(
            AuxiliaryExpressionError::CaptureTimestampMismatch {
                frame: stamp.captured_at_micros,
                auxiliary: auxiliary.captured_at_micros,
            },
        )
    } else {
        None
    }
}

/// Checks that an auxiliary observation belongs to the frame.
///
/// # Errors
///
/// Reports the first part of the identity that differs.
pub fn validate_auxiliary_source_alignment(
    stamp: GnmFrameStamp,
    auxiliary: &AuxiliaryExpressionObservation,
) -> (result: Result<(), AuxiliaryExpressionError>)
    ensures
        match result {
            Ok(_) => auxiliary_fault(stamp, *auxiliary) is None,
            Err(error) => auxiliary_fault(stamp, *auxiliary) == Some(error),
        },
{
    if auxiliary.source_seq != stamp.source_seq {
        return Err(
            AuxiliaryExpressionError::SourceSequenceMismatch {
                frame: stamp.source_seq,
                auxiliary: auxiliary.source_seq,
            },
        );
    }
    if auxiliary.captured_at_micros != stamp.captured_at_micros {
        return Err(
            AuxiliaryExpressionError::CaptureTimestampMismatch {
                frame: stamp.captured_at_micros,
                auxiliary: auxiliary.captured_at_micros,
            },
        );
    }
    Ok(())
}

/// Fail-closed validation failure for one per-frame fitter input.
#[derive(Clone, Copy, Debug, PartialEq)]
#[allow(inconsistent_fields)]
pub enum GnmFitterContractError {
    /// The frame stamp does not match the dense observation's source sequence.
    SourceSequenceMismatch {
        /// Stamp sequence.
        stamp: u64,
        /// Observation sequence.
        observation: u64,
    },
    /// The frame stamp does not match the dense observation capture timestamp.
    CaptureTimestampMismatch {
        /// Stamp timestamp.
        stamp: u64,
        /// Observation timestamp.
        observation: u64,
    },
    /// The loaded model generation is not the pinned Head v3 version.
    UnsupportedModelVersion {
        /// Model major/minor version.
        actual: (u16, u16),
    },
    /// The correspondence set was built for a different model or schema.
    MappingVersionMismatch {
        /// Version recorded by the mapping.
        mapping: (u16, u16),
        /// Loaded model version.
        model: (u16, u16),
    },
    /// The fixed identity dimension differs from the model identity dimension.
    IdentityDimensionMismatch {
        /// Model identity dimension.
        expected: usize,
        /// Fixed identity dimension.
        actual: usize,
    },
    /// The dynamic expression state has the wrong dimension.
    ExpressionDimensionMismatch {
        /// Model expression dimension.
        expected: usize,
        /// Dynamic state dimension.
        actual: usize,
    },
    /// The dynamic joint count differs from the model joint count.
    JointCountMismatch {
        /// Model joint count.
        expected: usize,
        /// Dynamic state joint count.
        actual: usize,
    },
    /// A dynamic value became non-finite.
    NonFiniteDynamicValue(&'static str),
    /// A configuration value is invalid.
    InvalidConfig(&'static str),
    /// The auxiliary observation rejected its own validation.
    Auxiliary(AuxiliaryExpressionError),
}

/// A version as text.
pub open spec fn version_text(version: (u16, u16)) -> Seq<char> {
    decimal(version.0 as nat) + "."@ + decimal(version.1 as nat)
}

impl AuxiliaryExpressionError {
    /// The message of the error.
    pub open spec fn text(self) -> Seq<char> {
        match self {
            AuxiliaryExpressionError::InvalidConfig(reason) => "invalid configuration: "@ + reason@,
            AuxiliaryExpressionError::SourceSequenceMismatch { frame, auxiliary } => {
                "source_seq "@ + decimal(auxiliary as nat) + " does not match frame "@ + decimal(
                    frame as nat,
                )
            },
            AuxiliaryExpressionError::CaptureTimestampMismatch { frame, auxiliary } => {
                "timestamp "@ + decimal(auxiliary as nat) + " does not match frame "@ + decimal(
                    frame as nat,
                )
            },
        }
    }

    /// The message of the error.
    pub fn message(&self) -> (message: String)
        ensures
            message@ == self.text(),
    {
        match self {
            AuxiliaryExpressionError::InvalidConfig(reason) => {
                let mut message = "invalid configuration: ".to_owned();
                message.append(reason);
                message
            },
            AuxiliaryExpressionError::SourceSequenceMismatch { frame, auxiliary } => {
                let mut message = "source_seq ".to_owned();
                append_decimal(&mut message, *auxiliary);
                message.append(" does not match frame ");
                append_decimal(&mut message, *frame);
                message
            },
            AuxiliaryExpressionError::CaptureTimestampMismatch { frame, auxiliary } => {
                let mut message = "timestamp ".to_owned();
                append_decimal(&mut message, *auxiliary);
                message.append(" does not match frame ");
                append_decimal(&mut message, *frame);
                message
            },
        }
    }
}

impl GnmFitterContractError {
    /// The message of the error.
    pub open spec fn text(self) -> Seq<char> {
        match self {
            GnmFitterContractError::SourceSequenceMismatch { stamp, observation } => {
                "frame stamp source_seq "@ + decimal(stamp as nat) + " does not match observation "@
                    + decimal(observation as nat)
            },
            GnmFitterContractError::CaptureTimestampMismatch { stamp, observation } => {
                "frame stamp timestamp "@ + decimal(stamp as nat) + " does not match observation "@
                    + decimal(observation as nat)
            },
            GnmFitterContractError::UnsupportedModelVersion { actual } => {
                "model version "@ + version_text(actual) + " is not the supported Head v3"@
            },
            GnmFitterContractError::MappingVersionMismatch { mapping, model } => {
                "mapping version "@ + version_text(mapping) + " does not match model version "@
                    + version_text(model)
            },
            GnmFitterContractError::IdentityDimensionMismatch { expected, actual } => {
                "fixed identity has "@ + decimal(actual as nat)
                    + " coefficients but the model expects "@ + decimal(expected as nat)
            },
            GnmFitterContractError::ExpressionDimensionMismatch { expected, actual } => {
                "dynamic expression has "@ + decimal(actual as nat)
                    + " channels but the model expects "@ + decimal(expected as nat)
            },
            GnmFitterContractError::JointCountMismatch { expected, actual } => {
                "dynamic state has "@ + decimal(actual as nat) + " joints but the model expects "@
                    + decimal(expected as nat)
            },
            GnmFitterContractError::NonFiniteDynamicValue(field) => {
                "dynamic state `"@ + field@ + "` contains a non-finite value"@
            },
            GnmFitterContractError::InvalidConfig(reason) => {
                "invalid solver config: "@ + reason@
            },
            GnmFitterContractError::Auxiliary(error) => {
                "auxiliary observation: "@ + error.text()
            },
        }
    }

    /// The message of the error.
    pub fn message(&self) -> (message: String)
        ensures
            message@ == self.text(),
    {
        match self {
            GnmFitterContractError::SourceSequenceMismatch { stamp, observation } => {
                let mut message = "frame stamp source_seq ".to_owned();
                append_decimal(&mut message, *stamp);
                message.append(" does not match observation ");
                append_decimal(&mut message, *observation);
                message
            },
            GnmFitterContractError::CaptureTimestampMismatch { stamp, observation } => {
                let mut message = "frame stamp timestamp ".to_owned();
                append_decimal(&mut message, *stamp);
                message.append(" does not match observation ");
                append_decimal(&mut message, *observation);
                message
            },
            GnmFitterContractError::UnsupportedModelVersion { actual } => {
                let mut message = "model version ".to_owned();
                append_version(&mut message, *actual);
                message.append(" is not the supported Head v3");
                message
            },
            GnmFitterContractError::MappingVersionMismatch { mapping, model } => {
                let mut message = "mapping version ".to_owned();
                append_version(&mut message, *mapping);
                message.append(" does not match model version ");
                append_version(&mut message, *model);
                message
            },
            GnmFitterContractError::IdentityDimensionMismatch { expected, actual } => {
                let mut message = "fixed identity has ".to_owned();
                append_decimal(&mut message, *actual as u64);
                message.append(" coefficients but the model expects ");
                append_decimal(&mut message, *expected as u64);
                message
            },
            GnmFitterContractError::ExpressionDimensionMismatch { expected, actual } => {
                let mut message = "dynamic expression has ".to_owned();
                append_decimal(&mut message, *actual as u64);
                message.append(" channels but the model expects ");
                append_decimal(&mut message, *expected as u64);
                message
            },
            GnmFitterContractError::JointCountMismatch { expected, actual } => {
                let mut message = "dynamic state has ".to_owned();
                append_decimal(&mut message, *actual as u64);
                message.append(" joints but the model expects ");
                append_decimal(&mut message, *expected as u64);
                message
            },
            GnmFitterContractError::NonFiniteDynamicValue(field) => {
                let mut message = "dynamic state `".to_owned();
                message.append(field);
                message.append("` contains a non-finite value");
                message
            },
            GnmFitterContractError::InvalidConfig(reason) => {
                let mut message = "invalid solver config: ".to_owned();
                message.append(reason);
                message
            },
            GnmFitterContractError::Auxiliary(error) => {
                let mut message = "auxiliary observation: ".to_owned();
                let reason = error.message();
                message.append(reason.as_str());
                message
            },
        }
    }
}

fn append_version(text: &mut String, version: (u16, u16))
    ensures
        final(text)@ == old(text)@ + version_text(version),
{
    append_decimal(text, version.0 as u64);
    text.append(".");
    append_decimal(text, version.1 as u64);
    assert(text@ =~= old(text)@ + version_text(version));
}

/// Rigid head pose block of the dynamic state (yaw/pitch/roll radians).
#[derive(Clone, Copy, Debug, PartialEq)]
pub struct GnmRigidPoseBlock {
    yaw_pitch_roll: [Binary32; 3],
}

impl GnmRigidPoseBlock {
    /// The angles.
    pub closed spec fn angles(self) -> [Binary32; 3] {
        self.yaw_pitch_roll
    }

    #[verifier::type_invariant]
    spec fn valid(self) -> bool {
        all_finite(self.yaw_pitch_roll@)
    }

    /// Creates a validated rigid pose block.
    ///
    /// # Errors
    ///
    /// Returns [`GnmFitterContractError::NonFiniteDynamicValue`] for non-finite angles.
    pub fn new(yaw_pitch_roll: [Binary32; 3]) -> (result: Result<Self, GnmFitterContractError>)
        ensures
            match result {
                Ok(block) => all_finite(yaw_pitch_roll@) && block.angles() == yaw_pitch_roll,
                Err(error) => !all_finite(yaw_pitch_roll@) && error
                    == GnmFitterContractError::NonFiniteDynamicValue("rigid_yaw_pitch_roll"),
            },
    {
        if !is_all_finite(yaw_pitch_roll.as_slice()) {
            return Err(GnmFitterContractError::NonFiniteDynamicValue("rigid_yaw_pitch_roll"));
        }
        Ok(GnmRigidPoseBlock { yaw_pitch_roll })
    }

    /// Returns the yaw/pitch/roll Euler angles in radians.
    pub fn yaw_pitch_roll(&self) -> (angles: [Binary32; 3])
        ensures
            angles == self.angles(),
            all_finite(angles@),
    {
        proof {
            use_type_invariant(self);
        }
        self.yaw_pitch_roll
    }
}

/// Translation/camera block of the dynamic state.
///
/// The principal point is held fixed during solving and is carried here only as
/// validated evidence.
#[derive(Clone, Copy, Debug, PartialEq)]
pub struct GnmCameraBlock {
    translation: [Binary32; 3],
    focal: Binary32,
    principal_point: [Binary32; 2],
}

/// Why camera values cannot form a block, if they cannot.
pub open spec fn camera_fault(
    translation: Seq<Binary32>,
    focal: Binary32,
    principal_point: Seq<Binary32>,
) -> Option<GnmFitterContractError> {
    if !all_finite(translation) || !all_finite(principal_point) {
        Some(GnmFitterContractError::NonFiniteDynamicValue("camera_block"))
    } else if !focal.finite() || !focal.positive() {
        Some(
            GnmFitterContractError::InvalidConfig(
                "camera focal length must be finite and positive",
            ),
        )
    } else {
        None
    }
}

impl GnmCameraBlock {
    /// The translation.
    pub closed spec fn offset(self) -> [Binary32; 3] {
        self.translation
    }

    /// The focal length.
    pub closed spec fn focal_length(self) -> Binary32 {
        self.focal
    }

    /// The principal point.
    pub closed spec fn center(self) -> [Binary32; 2] {
        self.principal_point
    }

    #[verifier::type_invariant]
    spec fn valid(self) -> bool {
        camera_fault(self.translation@, self.focal, self.principal_point@) is None
    }

    /// Creates a validated camera block.
    ///
    /// # Errors
    ///
    /// Returns [`GnmFitterContractError::NonFiniteDynamicValue`] for any
    /// non-finite component and [`GnmFitterContractError::InvalidConfig`]
    /// for a non-positive focal length.
    pub fn new(
        translation: [Binary32; 3],
        focal: Binary32,
        principal_point: [Binary32; 2],
    ) -> (result: Result<Self, GnmFitterContractError>)
        ensures
            match result {
                Ok(block) => {
                    &&& camera_fault(translation@, focal, principal_point@) is None
                    &&& block.offset() == translation
                    &&& block.focal_length() == focal
                    &&& block.center() == principal_point
                },
                Err(error) => camera_fault(translation@, focal, principal_point@) == Some(error),
            },
    {
        if !is_all_finite(translation.as_slice()) || !is_all_finite(principal_point.as_slice()) {
            return Err(GnmFitterContractError::NonFiniteDynamicValue("camera_block"));
        }
        if !focal.is_finite() || !focal.is_positive() {
            return Err(
                GnmFitterContractError::InvalidConfig(
                    "camera focal length must be finite and positive",
                ),
            );
        }
        Ok(GnmCameraBlock { translation, focal, principal_point })
    }

    /// Returns the head-space to camera-space translation.
    pub fn translation(&self) -> (translation: [Binary32; 3])
        ensures
            translation == self.offset(),
            all_finite(translation@),
    {
        proof {
            use_type_invariant(self);
        }
        self.translation
    }

    /// Returns the focal length.
    pub fn focal(&self) -> (focal: Binary32)
        ensures
            focal == self.focal_length(),
            focal.finite(),
            focal.positive(),
    {
        proof {
            use_type_invariant(self);
        }
        self.focal
    }

    /// Returns the fixed principal point.
    pub fn principal_point(&self) -> (principal_point: [Binary32; 2])
        ensures
            principal_point == self.center(),
            all_finite(principal_point@),
    {
        proof {
            use_type_invariant(self);
        }
        self.principal_point
    }
}

/// Mutable dynamic state optimized across frames.
///
/// Identity is intentionally absent: it lives in the read-only
/// [`FixedGnmIdentity`] on the per-frame input instead.
#[derive(Clone, Debug, PartialEq)]
pub struct GnmDynamicState {
    /// Expression coefficients.
    pub expression: GnmExpressionState,
    /// Joint rotations and global translation.
    pub joints: GnmJointState,
    /// Rigid head pose block.
    pub rigid_pose: GnmRigidPoseBlock,
    /// Translation/camera block.
    pub camera: GnmCameraBlock,
}

/// Every rotation is finite.
pub open spec fn rotations_finite(rotations: Seq<[Binary32; 3]>) -> bool {
    forall|i: int| 0 <= i < rotations.len() ==> all_finite((#[trigger] rotations[i])@)
}

impl GnmDynamicState {
    /// Both states hold the same values.
    pub open spec fn same(self, other: Self) -> bool {
        &&& self.expression.values@ == other.expression.values@
        &&& self.joints.rotations@ == other.joints.rotations@
        &&& self.joints.translation == other.joints.translation
        &&& self.rigid_pose == other.rigid_pose
        &&& self.camera == other.camera
    }

    /// The same state again.
    pub fn duplicate(&self) -> (copy: Self)
        ensures
            copy.same(*self),
    {
        GnmDynamicState {
            expression: self.expression.duplicate(),
            joints: self.joints.duplicate(),
            rigid_pose: self.rigid_pose,
            camera: self.camera,
        }
    }

    /// Why the state does not fit the model, if it does not.
    pub open spec fn fault(self, model: GnmModel) -> Option<GnmFitterContractError> {
        if self.expression.values@.len() != model.expression_dimension {
            Some(
                GnmFitterContractError::ExpressionDimensionMismatch {
                    expected: model.expression_dimension,
                    actual: self.expression.values@.len() as usize,
                },
            )
        } else if self.joints.rotations@.len() != model.joint_count {
            Some(
                GnmFitterContractError::JointCountMismatch {
                    expected: model.joint_count,
                    actual: self.joints.rotations@.len() as usize,
                },
            )
        } else if !all_finite(self.expression.values@) || !rotations_finite(self.joints.rotations@)
            || !all_finite(self.joints.translation@) {
            Some(GnmFitterContractError::NonFiniteDynamicValue("expression_or_joints"))
        } else {
            None
        }
    }

    /// Validates every dynamic block against the loaded model dimensions and
    /// finiteness requirements.
    ///
    /// # Errors
    ///
    /// Returns the typed dimension/finiteness failure of the first invalid block.
    pub fn validate(&self, model: &GnmModel) -> (result: Result<(), GnmFitterContractError>)
        ensures
            match result {
                Ok(_) => self.fault(*model) is None,
                Err(error) => self.fault(*model) == Some(error),
            },
    {
        if self.expression.values.len() != model.expression_dimension {
            return Err(
                GnmFitterContractError::ExpressionDimensionMismatch {
                    expected: model.expression_dimension,
                    actual: self.expression.values.len(),
                },
            );
        }
        if self.joints.rotations.len() != model.joint_count {
            return Err(
                GnmFitterContractError::JointCountMismatch {
                    expected: model.joint_count,
                    actual: self.joints.rotations.len(),
                },
            );
        }
        let mut finite = is_all_finite(&self.expression.values) && is_all_finite(
            self.joints.translation.as_slice(),
        );
        for i in 0..self.joints.rotations.len()
            invariant
                finite ==> forall|j: int|
                    0 <= j < i ==> all_finite((#[trigger] self.joints.rotations@[j])@),
                finite ==> all_finite(self.expression.values@) && all_finite(
                    self.joints.translation@,
                ),
                !finite ==> !(all_finite(self.expression.values@) && rotations_finite(
                    self.joints.rotations@,
                ) && all_finite(self.joints.translation@)),
        {
            if !is_all_finite(self.joints.rotations[i].as_slice()) {
                assert(!all_finite(self.joints.rotations@[i as int]@));
                finite = false;
            }
        }
        if !finite {
            return Err(GnmFitterContractError::NonFiniteDynamicValue("expression_or_joints"));
        }
        Ok(())
    }
}

/// Bounded per-frame solver configuration with explicit objective weights.
#[derive(Clone, Copy, Debug, PartialEq, Eq, Structural)]
pub struct GnmSolverConfig {
    /// Maximum iterations for one bounded solve. Strictly positive and capped.
    pub max_iterations: usize,
    /// Weight of the dense reprojection objective. Must be finite and positive.
    pub dense_weight: Binary32,
    /// Absolute weight of the optional auxiliary term. Zero disables it.
    pub auxiliary_weight: Binary32,
    /// Non-negative expression smoothness/regularization weight.
    pub expression_regularization: Binary32,
    /// Non-negative joint regularization weight.
    pub joint_regularization: Binary32,
    /// Non-negative rigid-pose regularization weight.
    pub pose_regularization: Binary32,
    /// Non-negative camera-block regularization weight.
    pub camera_regularization: Binary32,
}

/// The weight is finite and not negative.
pub open spec fn weight_usable(weight: Binary32) -> bool {
    weight.finite() && !weight.less(Binary32 { bits: 0 })
}

fn is_weight_usable(weight: Binary32) -> (usable: bool)
    ensures
        usable == weight_usable(weight),
{
    weight.is_finite() && !weight.is_less(Binary32::zero())
}

impl GnmSolverConfig {
    /// Why the settings are not usable, if they are not.
    pub open spec fn fault(self) -> Option<GnmFitterContractError> {
        if self.max_iterations == 0 || self.max_iterations > MAX_SOLVER_ITERATIONS_BOUND {
            Some(
                GnmFitterContractError::InvalidConfig(
                    "max_iterations must be within 1..=MAX_SOLVER_ITERATIONS_BOUND",
                ),
            )
        } else if !self.dense_weight.finite() || !self.dense_weight.positive() {
            Some(
                GnmFitterContractError::InvalidConfig("dense weight must be finite and positive"),
            )
        } else if !(weight_usable(self.auxiliary_weight) && weight_usable(
            self.expression_regularization,
        ) && weight_usable(self.joint_regularization) && weight_usable(self.pose_regularization)
            && weight_usable(self.camera_regularization)) {
            Some(GnmFitterContractError::InvalidConfig("weights must be finite and non-negative"))
        } else {
            None
        }
    }

    /// Creates a validated bounded solver configuration.
    ///
    /// # Errors
    ///
    /// Returns [`GnmFitterContractError::InvalidConfig`] when the iteration
    /// bound or any weight violates the contract.
    pub fn new(
        max_iterations: usize,
        dense_weight: Binary32,
        auxiliary_weight: Binary32,
        expression_regularization: Binary32,
        joint_regularization: Binary32,
        pose_regularization: Binary32,
        camera_regularization: Binary32,
    ) -> (result: Result<Self, GnmFitterContractError>)
        ensures
            ({
                let config = GnmSolverConfig {
                    max_iterations,
                    dense_weight,
                    auxiliary_weight,
                    expression_regularization,
                    joint_regularization,
                    pose_regularization,
                    camera_regularization,
                };
                match result {
                    Ok(accepted) => accepted == config && config.fault() is None,
                    Err(error) => config.fault() == Some(error),
                }
            }),
    {
        if max_iterations == 0 || max_iterations > MAX_SOLVER_ITERATIONS_BOUND {
            return Err(
                GnmFitterContractError::InvalidConfig(
                    "max_iterations must be within 1..=MAX_SOLVER_ITERATIONS_BOUND",
                ),
            );
        }
        if !dense_weight.is_finite() || !dense_weight.is_positive() {
            return Err(
                GnmFitterContractError::InvalidConfig("dense weight must be finite and positive"),
            );
        }
        if !is_weight_usable(auxiliary_weight) || !is_weight_usable(expression_regularization)
            || !is_weight_usable(joint_regularization) || !is_weight_usable(pose_regularization)
            || !is_weight_usable(camera_regularization) {
            return Err(
                GnmFitterContractError::InvalidConfig("weights must be finite and non-negative"),
            );
        }
        Ok(
            GnmSolverConfig {
                max_iterations,
                dense_weight,
                auxiliary_weight,
                expression_regularization,
                joint_regularization,
                pose_regularization,
                camera_regularization,
            },
        )
    }

    /// Returns whether the auxiliary term contributes to this configuration.
    pub fn auxiliary_enabled(&self) -> (enabled: bool)
        ensures
            enabled == (Binary32 { bits: 0 }).less(self.auxiliary_weight),
    {
        Binary32::zero().is_less(self.auxiliary_weight)
    }
}

/// Engine-neutral input for exactly one bounded per-frame solve.
#[derive(Debug)]
pub struct GnmSolverFrameInput<'a> {
    stamp: GnmFrameStamp,
    observation: &'a GnmDenseObservation,
    auxiliary: Option<AuxiliaryExpressionObservation>,
    identity: &'a FixedGnmIdentity,
}

/// Why a frame cannot be solved, if it cannot.
pub open spec fn frame_input_fault(
    stamp: GnmFrameStamp,
    observation: GnmDenseObservation,
    auxiliary: Option<AuxiliaryExpressionObservation>,
    identity: FixedGnmIdentity,
    model: GnmModel,
    mapping: DenseMappingVersion,
) -> Option<GnmFitterContractError> {
    if observation.source_seq != stamp.source_seq {
        Some(
            GnmFitterContractError::SourceSequenceMismatch {
                stamp: stamp.source_seq,
                observation: observation.source_seq,
            },
        )
    } else if observation.captured_at_micros != stamp.captured_at_micros {
        Some(
            GnmFitterContractError::CaptureTimestampMismatch {
                stamp: stamp.captured_at_micros,
                observation: observation.captured_at_micros,
            },
        )
    } else if model.version != head_v3() {
        Some(
            GnmFitterContractError::UnsupportedModelVersion {
                actual: (model.version.major, model.version.minor),
            },
        )
    } else if mapping.model_version != model.version {
        Some(
            GnmFitterContractError::MappingVersionMismatch {
                mapping: (mapping.model_version.major, mapping.model_version.minor),
                model: (model.version.major, model.version.minor),
            },
        )
    } else if identity.values@.len() != model.identity_dimension {
        Some(
            GnmFitterContractError::IdentityDimensionMismatch {
                expected: model.identity_dimension,
                actual: identity.values@.len() as usize,
            },
        )
    } else if auxiliary is Some && auxiliary_fault(stamp, auxiliary->0) is Some {
        Some(GnmFitterContractError::Auxiliary(auxiliary_fault(stamp, auxiliary->0)->0))
    } else {
        None
    }
}

/// The coverage allows a solve.
pub open spec fn usable_status(status: DenseObservationStatus) -> bool {
    status == DenseObservationStatus::Valid || status == DenseObservationStatus::Degraded
}

impl<'a> GnmSolverFrameInput<'a> {
    /// The frame stamp.
    pub closed spec fn frame(self) -> GnmFrameStamp {
        self.stamp
    }

    /// The dense observation.
    pub closed spec fn seen(self) -> GnmDenseObservation {
        *self.observation
    }

    /// The auxiliary observation.
    pub closed spec fn extra(self) -> Option<AuxiliaryExpressionObservation> {
        self.auxiliary
    }

    /// The calibrated identity.
    pub closed spec fn person(self) -> FixedGnmIdentity {
        *self.identity
    }

    /// Assembles and validates one per-frame input against the loaded model
    /// and correspondence set.
    ///
    /// Validation is fail-closed: exact stamp/observation alignment, supported
    /// model generation, mapping/model version agreement, and fixed-identity
    /// dimension are all checked here so a solver cannot receive an
    /// inconsistent frame.
    ///
    /// # Errors
    ///
    /// Returns the first typed mismatch as [`GnmFitterContractError`].
    pub fn new(
        stamp: GnmFrameStamp,
        observation: &'a GnmDenseObservation,
        auxiliary: Option<AuxiliaryExpressionObservation>,
        identity: &'a FixedGnmIdentity,
        model: &GnmModel,
        mapping: &DenseMappingVersion,
    ) -> (result: Result<Self, GnmFitterContractError>)
        ensures
            ({
                let fault = frame_input_fault(
                    stamp,
                    *observation,
                    auxiliary,
                    *identity,
                    *model,
                    *mapping,
                );
                match result {
                    Ok(input) => {
                        &&& fault is None
                        &&& input.frame() == stamp
                        &&& input.seen() == *observation
                        &&& input.extra() == auxiliary
                        &&& input.person() == *identity
                    },
                    Err(error) => fault == Some(error),
                }
            }),
    {
        if observation.source_seq != stamp.source_seq {
            return Err(
                GnmFitterContractError::SourceSequenceMismatch {
                    stamp: stamp.source_seq,
                    observation: observation.source_seq,
                },
            );
        }
        if observation.captured_at_micros != stamp.captured_at_micros {
            return Err(
                GnmFitterContractError::CaptureTimestampMismatch {
                    stamp: stamp.captured_at_micros,
                    observation: observation.captured_at_micros,
                },
            );
        }
        let model_version = (model.version.major, model.version.minor);
        if model.version != gnm_head_v3_version() {
            return Err(
                GnmFitterContractError::UnsupportedModelVersion { actual: model_version },
            );
        }
        if mapping.model_version != model.version {
            return Err(
                GnmFitterContractError::MappingVersionMismatch {
                    mapping: (mapping.model_version.major, mapping.model_version.minor),
                    model: model_version,
                },
            );
        }
        if identity.values.len() != model.identity_dimension {
            return Err(
                GnmFitterContractError::IdentityDimensionMismatch {
                    expected: model.identity_dimension,
                    actual: identity.values.len(),
                },
            );
        }
        if let Some(auxiliary) = &auxiliary {
            if let Err(error) = validate_auxiliary_source_alignment(stamp, auxiliary) {
                return Err(GnmFitterContractError::Auxiliary(error));
            }
        }
        Ok(GnmSolverFrameInput { stamp, observation, auxiliary, identity })
    }

    /// Returns the exact frame stamp.
    pub fn stamp(&self) -> (stamp: GnmFrameStamp)
        ensures
            stamp == self.frame(),
    {
        self.stamp
    }

    /// Returns the primary dense observation.
    pub fn observation(&self) -> (observation: &GnmDenseObservation)
        ensures
            *observation == self.seen(),
    {
        self.observation
    }

    /// Returns the optional auxiliary observation.
    pub fn auxiliary(&self) -> (auxiliary: Option<AuxiliaryExpressionObservation>)
        ensures
            auxiliary == self.extra(),
    {
        self.auxiliary
    }

    /// Returns the read-only calibrated identity. Never part of dynamic state.
    pub fn identity(&self) -> (identity: &FixedGnmIdentity)
        ensures
            *identity == self.person(),
    {
        self.identity
    }

    /// Returns whether the dense observation carries enough valid points to
    /// attempt a solve at all.
    pub fn usable_observation(&self) -> (usable: bool)
        ensures
            usable == usable_status(self.seen().status),
    {
        match self.observation.status {
            DenseObservationStatus::Valid => true,
            DenseObservationStatus::Degraded => true,
            DenseObservationStatus::Insufficient => false,
        }
    }
}

/// Classification of one completed bounded solve.
#[derive(Clone, Copy, Debug, PartialEq, Eq, Structural)]
pub enum GnmFitStatus {
    /// Residual met the validity checks before the iteration bound.
    Converged,
    /// Iteration budget exhausted without meeting convergence evidence.
    MaxIterationsReached,
    /// Final residual exceeded the configured validity bound.
    ResidualAboveBound,
    /// Residual accumulation became non-finite during the solve.
    NonFiniteResidual,
}

/// The status says that the residual is finite.
pub open spec fn claims_finite(status: GnmFitStatus) -> bool {
    status == GnmFitStatus::Converged || status == GnmFitStatus::ResidualAboveBound
}

/// Result of one bounded per-frame solve.
#[derive(Clone, Copy, Debug, PartialEq)]
pub struct GnmFitResult {
    residual: Binary32,
    iterations: usize,
    status: GnmFitStatus,
}

impl GnmFitResult {
    /// The residual.
    pub closed spec fn final_residual(self) -> Binary32 {
        self.residual
    }

    /// The iterations.
    pub closed spec fn spent(self) -> usize {
        self.iterations
    }

    /// The classification.
    pub closed spec fn completion(self) -> GnmFitStatus {
        self.status
    }

    /// Creates a result after checking internal consistency: the residual must
    /// be finite exactly when the status says so.
    ///
    /// # Errors
    ///
    /// Returns [`GnmFitterContractError::NonFiniteDynamicValue`] when a finite
    /// status carries a non-finite residual or vice versa.
    pub fn new(residual: Binary32, iterations: usize, status: GnmFitStatus) -> (result: Result<
        Self,
        GnmFitterContractError,
    >)
        ensures
            match result {
                Ok(fit) => {
                    &&& iterations > 0
                    &&& residual.finite() == claims_finite(status)
                    &&& fit.final_residual() == residual
                    &&& fit.spent() == iterations
                    &&& fit.completion() == status
                },
                Err(error) => {
                    if iterations == 0 {
                        error == GnmFitterContractError::InvalidConfig(
                            "a completed solve must report at least one iteration",
                        )
                    } else {
                        residual.finite() != claims_finite(status) && error
                            == GnmFitterContractError::NonFiniteDynamicValue("fit_residual")
                    }
                },
            },
    {
        if iterations == 0 {
            return Err(
                GnmFitterContractError::InvalidConfig(
                    "a completed solve must report at least one iteration",
                ),
            );
        }
        let requires_finite = status == GnmFitStatus::Converged || status
            == GnmFitStatus::ResidualAboveBound;
        if residual.is_finite() != requires_finite {
            return Err(GnmFitterContractError::NonFiniteDynamicValue("fit_residual"));
        }
        Ok(GnmFitResult { residual, iterations, status })
    }

    /// Returns the final scalar objective residual when finite.
    pub fn residual(&self) -> (residual: Binary32)
        ensures
            residual == self.final_residual(),
    {
        self.residual
    }

    /// Returns the iteration count actually spent.
    pub fn iterations(&self) -> (iterations: usize)
        ensures
            iterations == self.spent(),
    {
        self.iterations
    }

    /// Returns the completion classification.
    pub fn status(&self) -> (status: GnmFitStatus)
        ensures
            status == self.completion(),
    {
        self.status
    }

    /// Returns whether this result may become the next valid authority state.
    pub fn valid(&self) -> (valid: bool)
        ensures
            valid == (self.completion() == GnmFitStatus::Converged),
    {
        self.status == GnmFitStatus::Converged
    }
}

} // verus!
