use vtuber_tracking::binary::Binary32;
use vtuber_tracking::gnm_fitter_contract::{
    GnmCameraBlock, GnmDynamicState, GnmFitterContractError, GnmRigidPoseBlock,
};
use vtuber_tracking::gnm_model::{
    gnm_head_v3_version, DenseProjection, GnmExpressionState, GnmFrameStamp, GnmJointState, GnmModel,
    GnmReprojectionError,
};
use vtuber_tracking::gnm_persistent_fitter::{
    finish_solve, neutral_initial_values, projection_of_dynamic, reinitialized_initial_values, FitStep, GnmFitInitialization, GnmFitOutcome, PersistentGnmAction,
    PersistentGnmFitter, PersistentGnmFitterError, PersistentGnmFrameOutcome, PersistentGnmLifecycleError,
    SingleFrameFitStatus, SolveStart, SolverOutcome,
};

const REUSE_GAP_MICROS: u64 = 250_000;
const INVALID_BOUND: usize = 3;

fn bits(value: f32) -> Binary32 {
    Binary32::from_bits(value.to_bits())
}

/// A calibrated lifecycle with the gaps and the bound above.
struct Lifecycle {
    calibrated: bool,
    seen: Option<GnmFrameStamp>,
    previous_valid: Option<GnmFrameStamp>,
    started: bool,
    invalid: usize,
}

impl Lifecycle {
    fn new() -> Self {
        Lifecycle {
            calibrated: false,
            seen: None,
            previous_valid: None,
            started: false,
            invalid: 0,
        }
    }

    fn calibrate(&mut self, ready: bool) -> Result<(), PersistentGnmLifecycleError> {
        *self = Lifecycle {
            calibrated: ready,
            ..Lifecycle::new()
        };
        Ok(())
    }

    fn observe(
        &mut self,
        stamp: GnmFrameStamp,
        usable: bool,
    ) -> Result<PersistentGnmAction, PersistentGnmLifecycleError> {
        if !self.calibrated {
            return Ok(PersistentGnmAction::SkipUncalibratedFrame);
        }
        if let Some(seen) = self.seen {
            if stamp.source_seq <= seen.source_seq {
                return Err(PersistentGnmLifecycleError::DuplicateSourceSequence {
                    source_seq: stamp.source_seq,
                });
            }
            if stamp.captured_at_micros <= seen.captured_at_micros {
                return Err(PersistentGnmLifecycleError::RegressedTimestamp {
                    captured_at_micros: stamp.captured_at_micros,
                });
            }
        }
        self.seen = Some(stamp);
        let stale = self
            .previous_valid
            .is_some_and(|valid| stamp.captured_at_micros - valid.captured_at_micros > REUSE_GAP_MICROS);
        if !usable {
            if stale {
                self.previous_valid = None;
            }
            return Ok(PersistentGnmAction::NoObservation {
                dynamic_state_cleared: stale,
            });
        }
        let initialization = match self.previous_valid {
            Some(source) if !stale => GnmFitInitialization::PreviousValid { source },
            None if !self.started => GnmFitInitialization::NeutralFirstFit,
            _ => GnmFitInitialization::ReinitializeDynamicState,
        };
        self.started = true;
        Ok(PersistentGnmAction::StartFit { initialization })
    }

    fn resolve(
        &mut self,
        stamp: GnmFrameStamp,
        outcome: GnmFitOutcome,
    ) -> Result<PersistentGnmAction, PersistentGnmLifecycleError> {
        match outcome {
            GnmFitOutcome::Valid => {
                self.invalid = 0;
                self.previous_valid = Some(stamp);
                Ok(PersistentGnmAction::PublishCurrentFit)
            }
            GnmFitOutcome::Invalid => {
                self.invalid += 1;
                if self.invalid >= INVALID_BOUND {
                    self.invalid = 0;
                    self.previous_valid = None;
                    Ok(PersistentGnmAction::RejectInvalidFitAndLose)
                } else {
                    Ok(PersistentGnmAction::RejectInvalidFit)
                }
            }
        }
    }
}

fn lin_model() -> GnmModel {
    GnmModel {
        version: gnm_head_v3_version(),
        identity_dimension: 253,
        expression_dimension: 383,
        joint_count: 1,
    }
}

fn truth_projection() -> DenseProjection {
    DenseProjection::new(
        [bits(0.15), bits(-0.10), bits(0.05)],
        [bits(0.02), bits(-0.03), bits(0.60)],
        bits(1.3),
        [bits(0.5), bits(0.5)],
    )
    .unwrap()
}

fn mouth_expression(mouth: f32) -> GnmExpressionState {
    let mut values = vec![Binary32::zero(); 383];
    values[0] = bits(mouth);
    GnmExpressionState { values }
}

fn stamp(source_seq: u64, captured_at_micros: u64) -> GnmFrameStamp {
    GnmFrameStamp {
        source_seq,
        captured_at_micros,
    }
}

fn converged(start: &SolveStart) -> Result<SolverOutcome, GnmReprojectionError> {
    Ok(SolverOutcome {
        valid: true,
        status: SingleFrameFitStatus::Converged,
        iterations: if matches!(start, SolveStart::Warm(_)) { 1 } else { 6 },
        objective: bits(1.0e-6),
        projection: truth_projection(),
        expression: mouth_expression(0.8),
        joints: GnmJointState::neutral(1),
    })
}

fn starved(start: &SolveStart) -> Result<SolverOutcome, GnmReprojectionError> {
    let mut outcome = converged(start)?;
    outcome.valid = false;
    outcome.status = SingleFrameFitStatus::MaxIterationsReached;
    Ok(outcome)
}

type Solve = fn(&SolveStart) -> Result<SolverOutcome, GnmReprojectionError>;

fn run(
    lifecycle: &mut Lifecycle,
    fitter: &mut PersistentGnmFitter,
    stamp: GnmFrameStamp,
    usable: bool,
    solve: Solve,
) -> Result<PersistentGnmFrameOutcome, PersistentGnmFitterError> {
    let report = match fitter.fit_frame(stamp, lifecycle.observe(stamp, usable)) {
        FitStep::Done(result) => return result,
        FitStep::Report(report) => report,
        FitStep::Solve(started, start) => finish_solve(started, &lin_model(), solve(&start)),
    };
    let decision = lifecycle.resolve(report.stamp, report.outcome());
    fitter.fit_reported(report, decision)
}

fn calibrated_fitter() -> (Lifecycle, PersistentGnmFitter) {
    let mut lifecycle = Lifecycle::new();
    let mut fitter = PersistentGnmFitter::new();
    fitter.calibration_ready(lifecycle.calibrate(true)).unwrap();
    (lifecycle, fitter)
}

#[test]
fn cold_then_warm_start_reuses_only_the_validated_dynamic_state() {
    let (mut lifecycle, mut fitter) = calibrated_fitter();

    let report1 = run(&mut lifecycle, &mut fitter, stamp(1, 1_000_000), true, converged).unwrap();
    let PersistentGnmFrameOutcome::Solved(cold) = report1 else {
        panic!("expected a solved cold-start frame");
    };
    assert_eq!(cold.initialization, GnmFitInitialization::NeutralFirstFit);
    assert!(cold.published);
    assert_eq!(cold.status, SingleFrameFitStatus::Converged);
    assert_eq!(fitter.validated().unwrap().stamp().source_seq, 1);
    let stored = fitter.validated().unwrap().dynamic().duplicate();

    // The warm start hands the solver exactly the stored state.
    let values = fitter
        .previous_valid_initial_values(stamp(1, 1_000_000))
        .expect("the stored frame matches");
    assert_eq!(values.expression, stored.expression);
    assert_eq!(values.joints, stored.joints);
    assert_eq!(values.projection, projection_of_dynamic(&stored).unwrap());

    let report2 = run(&mut lifecycle, &mut fitter, stamp(2, 1_016_000), true, converged).unwrap();
    let PersistentGnmFrameOutcome::Solved(warm) = report2 else {
        panic!("expected a solved warm-start frame");
    };
    assert_eq!(
        warm.initialization,
        GnmFitInitialization::PreviousValid {
            source: stamp(1, 1_000_000)
        }
    );
    assert!(warm.published);
    assert!(cold.iterations >= 1);
    assert!(warm.iterations >= 1);
    assert!(
        warm.iterations < cold.iterations,
        "warm {} vs cold {}",
        warm.iterations,
        cold.iterations
    );
}

#[test]
fn duplicate_and_regressed_sources_are_rejected_by_the_lifecycle() {
    let (mut lifecycle, mut fitter) = calibrated_fitter();
    assert!(run(&mut lifecycle, &mut fitter, stamp(7, 1_000_000), true, converged).is_ok());

    assert!(matches!(
        run(&mut lifecycle, &mut fitter, stamp(7, 1_100_000), true, converged),
        Err(PersistentGnmFitterError::Lifecycle(
            PersistentGnmLifecycleError::DuplicateSourceSequence { .. }
        ))
    ));
    assert!(matches!(
        run(&mut lifecycle, &mut fitter, stamp(8, 900_000), true, converged),
        Err(PersistentGnmFitterError::Lifecycle(
            PersistentGnmLifecycleError::RegressedTimestamp { .. }
        ))
    ));
    assert_eq!(fitter.validated().unwrap().stamp(), stamp(7, 1_000_000));
}

#[test]
fn invalid_solve_never_replaces_the_previous_valid_state() {
    let (mut lifecycle, mut fitter) = calibrated_fitter();
    assert!(run(&mut lifecycle, &mut fitter, stamp(1, 1_000_000), true, converged).is_ok());
    let stored = fitter.validated().cloned().unwrap();

    let report = run(&mut lifecycle, &mut fitter, stamp(2, 1_016_000), true, starved).unwrap();
    let PersistentGnmFrameOutcome::Solved(rejected) = report else {
        panic!("expected a solved-but-invalid frame");
    };
    assert!(!rejected.published);
    assert_eq!(rejected.status, SingleFrameFitStatus::MaxIterationsReached);
    assert_eq!(fitter.validated(), Some(&stored));
    assert_eq!(lifecycle.previous_valid, Some(stamp(1, 1_000_000)));

    let report3 = run(&mut lifecycle, &mut fitter, stamp(3, 1_032_000), true, converged).unwrap();
    let PersistentGnmFrameOutcome::Solved(retry) = report3 else {
        panic!("expected the retry to solve");
    };
    assert_eq!(
        retry.initialization,
        GnmFitInitialization::PreviousValid {
            source: stamp(1, 1_000_000)
        }
    );
    assert!(retry.published);
}

#[test]
fn long_gap_reacquire_discards_old_expression_and_joint_state() {
    let (mut lifecycle, mut fitter) = calibrated_fitter();
    assert!(run(&mut lifecycle, &mut fitter, stamp(1, 1_000_000), true, converged).is_ok());
    assert!(fitter.validated().is_some());

    // The solver is told to recover the pose from the observation alone.
    let step = fitter.solve_started_frame(stamp(2, 1_300_001), GnmFitInitialization::ReinitializeDynamicState);
    assert!(matches!(step, FitStep::Solve(_, SolveStart::Recovered)));

    let report = run(&mut lifecycle, &mut fitter, stamp(2, 1_300_001), true, converged).unwrap();
    let PersistentGnmFrameOutcome::Solved(reacquired) = report else {
        panic!("expected the reacquire frame to solve");
    };
    assert_eq!(
        reacquired.initialization,
        GnmFitInitialization::ReinitializeDynamicState
    );
    assert!(reacquired.published);

    // The reinitialized values never carry expression or joint history.
    let initial = reinitialized_initial_values(&lin_model(), Ok(truth_projection()), Ok(truth_projection())).unwrap();
    assert_eq!(initial.expression, mouth_expression(0.0));
    assert_eq!(initial.joints, GnmJointState::neutral(lin_model().joint_count));
    assert_eq!(
        fitter.validated().map(|frame| frame.stamp().source_seq),
        Some(2)
    );
}

#[test]
fn long_no_face_gap_clears_the_stored_warm_start_state() {
    let (mut lifecycle, mut fitter) = calibrated_fitter();
    assert!(run(&mut lifecycle, &mut fitter, stamp(1, 1_000_000), true, converged).is_ok());

    assert!(matches!(
        run(&mut lifecycle, &mut fitter, stamp(2, 1_048_000), false, converged),
        Ok(PersistentGnmFrameOutcome::NoObservation {
            dynamic_state_cleared: false
        })
    ));
    assert!(fitter.validated().is_some());

    assert!(matches!(
        run(&mut lifecycle, &mut fitter, stamp(3, 1_300_001), false, converged),
        Ok(PersistentGnmFrameOutcome::NoObservation {
            dynamic_state_cleared: true
        })
    ));
    assert!(fitter.validated().is_none());
    assert_eq!(lifecycle.previous_valid, None);

    let report = run(&mut lifecycle, &mut fitter, stamp(4, 1_400_000), true, converged).unwrap();
    let PersistentGnmFrameOutcome::Solved(reacquired) = report else {
        panic!("expected the reacquire frame to solve");
    };
    assert_eq!(
        reacquired.initialization,
        GnmFitInitialization::ReinitializeDynamicState
    );
}

#[test]
fn missing_warm_start_state_is_fail_closed_and_resolves_the_pending_fit() {
    let (mut lifecycle, mut fitter) = calibrated_fitter();
    assert!(run(&mut lifecycle, &mut fitter, stamp(1, 1_000_000), true, converged).is_ok());

    // The lifecycle still believes in a previous valid state; the store is gone.
    fitter = PersistentGnmFitter::new();
    for (seq, micros) in [(2, 1_016_000), (3, 1_032_000), (4, 1_048_000)] {
        assert!(matches!(
            run(&mut lifecycle, &mut fitter, stamp(seq, micros), true, converged),
            Err(PersistentGnmFitterError::MissingWarmStartState { .. })
        ));
    }
    assert_eq!(lifecycle.previous_valid, None);

    assert!(matches!(
        run(&mut lifecycle, &mut fitter, stamp(5, 1_064_000), true, converged),
        Ok(PersistentGnmFrameOutcome::Solved(solved))
            if solved.initialization == GnmFitInitialization::ReinitializeDynamicState
                && solved.published
    ));
}

#[test]
fn calibration_events_clear_dynamic_state() {
    let (mut lifecycle, mut fitter) = calibrated_fitter();
    assert!(run(&mut lifecycle, &mut fitter, stamp(1, 1_000_000), true, converged).is_ok());
    assert!(fitter.validated().is_some());

    fitter.calibration_invalidated(lifecycle.calibrate(false)).unwrap();
    assert!(fitter.validated().is_none());

    assert!(matches!(
        run(&mut lifecycle, &mut fitter, stamp(2, 1_100_000), true, converged),
        Ok(PersistentGnmFrameOutcome::SkippedUncalibrated)
    ));

    fitter.calibration_ready(lifecycle.calibrate(true)).unwrap();
    assert!(fitter.validated().is_none());
}

#[test]
fn uncalibrated_frames_are_skipped_without_a_solve() {
    let mut lifecycle = Lifecycle::new();
    let mut fitter = PersistentGnmFitter::new();
    assert!(matches!(
        run(&mut lifecycle, &mut fitter, stamp(1, 1_000_000), true, |_| {
            panic!("an uncalibrated frame is not solved")
        }),
        Ok(PersistentGnmFrameOutcome::SkippedUncalibrated)
    ));
    assert!(fitter.validated().is_none());
}

#[test]
fn neutral_initial_values_use_neutral_blocks_and_a_fitting_projection() {
    let model = lin_model();
    let framing = DenseProjection::new(
        [Binary32::zero(); 3],
        [bits(0.0), bits(0.0), bits(0.6)],
        bits(1.0),
        [bits(0.5), bits(0.5)],
    )
    .unwrap();
    let initial = neutral_initial_values(&model, Ok(framing)).unwrap();
    assert_eq!(initial.expression, mouth_expression(0.0));
    assert_eq!(initial.joints, GnmJointState::neutral(model.joint_count));
    assert!(initial.projection.focal.is_positive());
    assert!(initial.projection.translation[2].is_positive());

    let failure = GnmReprojectionError::Solver("flat surface");
    assert_eq!(neutral_initial_values(&model, Err(failure)).err(), Some(failure));
    assert_eq!(
        reinitialized_initial_values(&model, Ok(framing), Err(failure)).err(),
        Some(failure)
    );
}

#[test]
fn dynamic_state_round_trips_through_the_projection_form() {
    let dynamic = GnmDynamicState {
        expression: mouth_expression(0.8),
        joints: GnmJointState::neutral(1),
        rigid_pose: GnmRigidPoseBlock::new([bits(0.15), bits(-0.10), bits(0.05)]).unwrap(),
        camera: GnmCameraBlock::new(
            [bits(0.02), bits(-0.03), bits(0.60)],
            bits(1.3),
            [bits(0.5), bits(0.5)],
        )
        .unwrap(),
    };
    let projection = projection_of_dynamic(&dynamic).unwrap();
    assert_eq!(projection.yaw_pitch_roll, [bits(0.15), bits(-0.10), bits(0.05)]);
    assert_eq!(projection.translation, [bits(0.02), bits(-0.03), bits(0.60)]);
    assert_eq!(projection.focal, bits(1.3));
    assert_eq!(projection.principal_point, [bits(0.5), bits(0.5)]);
}

#[test]
fn failed_solves_carry_their_reason() {
    let (mut lifecycle, mut fitter) = calibrated_fitter();
    let error = run(&mut lifecycle, &mut fitter, stamp(1, 1), true, |_| {
        Err(GnmReprojectionError::Solver("diverged"))
    })
    .err()
    .unwrap();
    assert_eq!(
        error,
        PersistentGnmFitterError::Solve(GnmReprojectionError::Solver("diverged"))
    );
    assert_eq!(error.message("diverged"), "GNM single-frame solve: diverged");

    // A converged state that does not fit the model is a contract failure.
    let error = run(&mut lifecycle, &mut fitter, stamp(2, 2), true, |start| {
        let mut outcome = converged(start)?;
        outcome.joints = GnmJointState::neutral(2);
        Ok(outcome)
    })
    .err()
    .unwrap();
    assert_eq!(
        error,
        PersistentGnmFitterError::Contract(GnmFitterContractError::JointCountMismatch {
            expected: 1,
            actual: 2,
        })
    );
    assert!(fitter.validated().is_none());

    let step = fitter.fit_frame(stamp(3, 3), Ok(PersistentGnmAction::PublishCurrentFit));
    let FitStep::Done(Err(error)) = step else {
        panic!("a publication cannot answer an observation");
    };
    assert_eq!(
        error.message(""),
        "lifecycle emitted impossible action PublishCurrentFit for source 3"
    );
}
