use vtuber_tracking::binary::Binary32;
use vtuber_tracking::gnm_fitter_contract::{
    AuxiliaryExpressionError, AuxiliaryExpressionObservation, GnmCameraBlock, GnmDynamicState, GnmFitResult,
    GnmFitStatus, GnmFitterContractError, GnmRigidPoseBlock, GnmSolverConfig, GnmSolverFrameInput,
    MAX_SOLVER_ITERATIONS_BOUND,
};
use vtuber_tracking::gnm_model::{
    gnm_head_v3_version, DenseMappingVersion, DenseObservationStatus, FixedGnmIdentity, GnmDenseObservation,
    GnmExpressionState, GnmFrameStamp, GnmJointState, GnmModel, GnmVersion,
};

const STAMP_SEQ: u64 = 42;
const STAMP_MICROS: u64 = 100_000;
const IDENTITY_DIM: usize = 253;
const EXPRESSION_DIM: usize = 383;

fn bits(value: f32) -> Binary32 {
    Binary32::from_bits(value.to_bits())
}

fn stamp() -> GnmFrameStamp {
    GnmFrameStamp {
        source_seq: STAMP_SEQ,
        captured_at_micros: STAMP_MICROS,
    }
}

fn simple_model() -> GnmModel {
    GnmModel {
        version: gnm_head_v3_version(),
        identity_dimension: IDENTITY_DIM,
        expression_dimension: EXPRESSION_DIM,
        joint_count: 1,
    }
}

fn full_mapping(model: &GnmModel) -> DenseMappingVersion {
    DenseMappingVersion {
        schema_revision: 1,
        model_version: model.version,
    }
}

fn observation() -> GnmDenseObservation {
    GnmDenseObservation {
        source_seq: STAMP_SEQ,
        captured_at_micros: STAMP_MICROS,
        status: DenseObservationStatus::Valid,
    }
}

fn identity(model: &GnmModel) -> FixedGnmIdentity {
    FixedGnmIdentity {
        values: vec![Binary32::zero(); model.identity_dimension],
    }
}

fn neutral_dynamic_state(model: &GnmModel) -> GnmDynamicState {
    GnmDynamicState {
        expression: GnmExpressionState {
            values: vec![Binary32::zero(); model.expression_dimension],
        },
        joints: GnmJointState::neutral(model.joint_count),
        rigid_pose: GnmRigidPoseBlock::new([Binary32::zero(); 3]).unwrap(),
        camera: GnmCameraBlock::new([bits(0.0), bits(0.0), bits(5.0)], bits(1.0), [bits(0.5), bits(0.5)]).unwrap(),
    }
}

fn config(iterations: usize, dense: f32, auxiliary: f32, rest: f32) -> Result<GnmSolverConfig, GnmFitterContractError> {
    GnmSolverConfig::new(
        iterations,
        bits(dense),
        bits(auxiliary),
        bits(rest),
        bits(rest),
        bits(rest),
        bits(rest),
    )
}

fn default_config() -> GnmSolverConfig {
    config(8, 1.0, 0.0, 0.01).unwrap()
}

fn auxiliary_observation(seq: u64, micros: u64) -> AuxiliaryExpressionObservation {
    AuxiliaryExpressionObservation {
        source_seq: seq,
        captured_at_micros: micros,
    }
}

#[test]
fn valid_input_is_accepted_and_exposes_read_only_identity() {
    let model = simple_model();
    let mapping = full_mapping(&model);
    let obs = observation();
    let fixed = identity(&model);
    let aux = auxiliary_observation(STAMP_SEQ, STAMP_MICROS);

    let input = GnmSolverFrameInput::new(stamp(), &obs, Some(aux), &fixed, &model, &mapping).unwrap();

    assert_eq!(input.stamp(), stamp());
    assert_eq!(input.auxiliary().map(|aux| aux.source_seq), Some(STAMP_SEQ));
    assert_eq!(input.identity().values.len(), model.identity_dimension);
    assert!(input.usable_observation());
}

#[test]
fn stamp_observation_alignment_is_fail_closed() {
    let model = simple_model();
    let mapping = full_mapping(&model);
    let obs = observation();
    let fixed = identity(&model);

    let wrong_seq = GnmFrameStamp {
        source_seq: STAMP_SEQ + 1,
        ..stamp()
    };
    assert!(matches!(
        GnmSolverFrameInput::new(wrong_seq, &obs, None, &fixed, &model, &mapping),
        Err(GnmFitterContractError::SourceSequenceMismatch { .. })
    ));

    let wrong_micros = GnmFrameStamp {
        captured_at_micros: STAMP_MICROS + 1,
        ..stamp()
    };
    assert!(matches!(
        GnmSolverFrameInput::new(wrong_micros, &obs, None, &fixed, &model, &mapping),
        Err(GnmFitterContractError::CaptureTimestampMismatch { .. })
    ));
}

#[test]
fn model_mapping_and_identity_are_checked_in_turn() {
    let model = simple_model();
    let mapping = full_mapping(&model);
    let obs = observation();
    let fixed = identity(&model);

    let mut old_model = model;
    old_model.version = GnmVersion { major: 2, minor: 1 };
    assert_eq!(
        GnmSolverFrameInput::new(stamp(), &obs, None, &fixed, &old_model, &mapping).err(),
        Some(GnmFitterContractError::UnsupportedModelVersion { actual: (2, 1) })
    );

    let mut other_mapping = mapping;
    other_mapping.model_version = GnmVersion { major: 2, minor: 1 };
    let error = GnmSolverFrameInput::new(stamp(), &obs, None, &fixed, &model, &other_mapping).err();
    assert_eq!(
        error,
        Some(GnmFitterContractError::MappingVersionMismatch {
            mapping: (2, 1),
            model: (3, 0),
        })
    );
    assert_eq!(
        error.unwrap().message(),
        "mapping version 2.1 does not match model version 3.0"
    );

    let short = FixedGnmIdentity { values: Vec::new() };
    assert_eq!(
        GnmSolverFrameInput::new(stamp(), &obs, None, &short, &model, &mapping).err(),
        Some(GnmFitterContractError::IdentityDimensionMismatch {
            expected: IDENTITY_DIM,
            actual: 0,
        })
    );

    let mut blind = observation();
    blind.status = DenseObservationStatus::Insufficient;
    let input = GnmSolverFrameInput::new(stamp(), &blind, None, &fixed, &model, &mapping).unwrap();
    assert!(!input.usable_observation());
}

#[test]
fn auxiliary_alignment_is_enforced_against_the_dense_frame() {
    let model = simple_model();
    let mapping = full_mapping(&model);
    let obs = observation();
    let fixed = identity(&model);
    let aux = auxiliary_observation(STAMP_SEQ + 5, STAMP_MICROS);

    assert!(matches!(
        GnmSolverFrameInput::new(stamp(), &obs, Some(aux), &fixed, &model, &mapping),
        Err(GnmFitterContractError::Auxiliary(
            AuxiliaryExpressionError::SourceSequenceMismatch { .. }
        ))
    ));
}

#[test]
fn dynamic_state_dimensions_are_validated_against_the_model() {
    let model = simple_model();

    let mut good = neutral_dynamic_state(&model);
    assert!(good.validate(&model).is_ok());

    good.expression = GnmExpressionState {
        values: vec![Binary32::zero(); EXPRESSION_DIM - 1],
    };
    assert!(matches!(
        good.validate(&model),
        Err(GnmFitterContractError::ExpressionDimensionMismatch { .. })
    ));

    let mut bad_joints = neutral_dynamic_state(&model);
    bad_joints.joints = GnmJointState::neutral(model.joint_count + 1);
    assert!(matches!(
        bad_joints.validate(&model),
        Err(GnmFitterContractError::JointCountMismatch { .. })
    ));

    assert!(matches!(
        GnmRigidPoseBlock::new([bits(f32::NAN), bits(0.0), bits(0.0)]),
        Err(GnmFitterContractError::NonFiniteDynamicValue("rigid_yaw_pitch_roll"))
    ));

    let mut broken = neutral_dynamic_state(&model);
    broken.expression.values[7] = bits(f32::INFINITY);
    let error = broken.validate(&model).err().unwrap();
    assert_eq!(
        error.message(),
        "dynamic state `expression_or_joints` contains a non-finite value"
    );
}

#[test]
fn config_rejects_bad_bounds_and_weights() {
    assert!(matches!(
        config(0, 1.0, 0.0, 0.0),
        Err(GnmFitterContractError::InvalidConfig(_))
    ));
    assert!(matches!(
        config(MAX_SOLVER_ITERATIONS_BOUND + 1, 1.0, 0.0, 0.0),
        Err(GnmFitterContractError::InvalidConfig(_))
    ));
    assert!(matches!(
        config(4, 0.0, 0.0, 0.0),
        Err(GnmFitterContractError::InvalidConfig(_))
    ));
    assert!(matches!(
        config(4, 1.0, -0.5, 0.0),
        Err(GnmFitterContractError::InvalidConfig(_))
    ));
    let ok = config(4, 1.0, 0.5, 0.0).unwrap();
    assert!(ok.auxiliary_enabled());
    assert!(!default_config().auxiliary_enabled());
}

#[test]
fn fit_result_validity_follows_status_and_finiteness() {
    let converged = GnmFitResult::new(bits(0.25), 3, GnmFitStatus::Converged).unwrap();
    assert!(converged.valid());
    assert_eq!(converged.iterations(), 3);

    let above_bound = GnmFitResult::new(
        bits(10.0),
        MAX_SOLVER_ITERATIONS_BOUND,
        GnmFitStatus::ResidualAboveBound,
    )
    .unwrap();
    assert!(!above_bound.valid());

    assert!(GnmFitResult::new(bits(f32::INFINITY), 1, GnmFitStatus::NonFiniteResidual).is_ok());
    assert!(GnmFitResult::new(bits(f32::NAN), 1, GnmFitStatus::Converged).is_err());
    assert!(GnmFitResult::new(bits(1.0), 0, GnmFitStatus::Converged).is_err());
}
