use vtuber_tracking::binary::{Binary32, Binary64};
use vtuber_tracking::gnm_model::{
    DenseObservationStatus, GnmDenseObservation, GnmExpressionState, GnmFrameStamp, GnmJointState, GnmModel,
    GnmReprojectionError, GnmVersion,
};
use vtuber_tracking::gnm_persistent_fitter::{
    GnmFitInitialization, GnmFitOutcome, PersistentGnmAction, PersistentGnmLifecycleError, SingleFrameFitStatus,
    SolveStart, SolverOutcome,
};
use vtuber_tracking::gnm_sequence_fixture::{
    adaptive_policy_config, coverage_policy, driven_expression, fixed_strengths, longest_penalty_step,
    missing_landmarks, regression_lifecycle_config, regression_solver_config, synthetic_head_model, synthetic_mapping,
    synthetic_vertex_angles, temporal_lambda_ranges, temporal_scales, VertexCircle,
};
use vtuber_tracking::gnm_sequence_regression::{
    finalize_report, fit_outcome, is_observation_available, pulse_exponent, truth_at, AdaptiveTemporalState, ObservationPlan, PenaltyStrength,
    RunState, ScenarioFault, SequenceAnomalies, SequenceFitMode, SequenceRegressionError, SequenceRunReport,
    SequenceScenario, SequenceStep, SequenceTrajectory,
};

const FRAMES: usize = 24;

fn float(value: Binary32) -> f32 {
    f32::from_bits(value.to_bits())
}

fn bits(value: f32) -> Binary32 {
    Binary32::from_bits(value.to_bits())
}

fn wide(value: f64) -> Binary64 {
    Binary64::from_bits(value.to_bits())
}

fn double(value: Binary64) -> f64 {
    f64::from_bits(value.to_bits())
}

fn scenario(trajectory: SequenceTrajectory) -> SequenceScenario {
    SequenceScenario::new(trajectory, FRAMES, wide(60.0)).unwrap()
}

/// A calibrated lifecycle over the regression configuration.
struct Lifecycle {
    previous_valid: Option<GnmFrameStamp>,
    started: bool,
}

impl Lifecycle {
    fn observe(
        &mut self,
        stamp: GnmFrameStamp,
        usable: bool,
    ) -> Result<PersistentGnmAction, PersistentGnmLifecycleError> {
        let reuse = regression_lifecycle_config().reuse_age_micros;
        let stale = self
            .previous_valid
            .is_some_and(|valid| stamp.captured_at_micros - valid.captured_at_micros > reuse);
        if !usable {
            if stale {
                self.previous_valid = None;
            }
            return Ok(PersistentGnmAction::NoObservation {
                dynamic_state_cleared: stale,
            });
        }
        let initialization = match self.previous_valid {
            Some(source) if !stale => GnmFitInitialization::PreviousValid { source },
            None if !self.started => GnmFitInitialization::NeutralFirstFit,
            _ => GnmFitInitialization::ReinitializeDynamicState,
        };
        self.started = true;
        Ok(PersistentGnmAction::StartFit { initialization })
    }

    fn resolve(
        &mut self,
        stamp: GnmFrameStamp,
        outcome: GnmFitOutcome,
    ) -> Result<PersistentGnmAction, PersistentGnmLifecycleError> {
        match outcome {
            GnmFitOutcome::Valid => {
                self.previous_valid = Some(stamp);
                Ok(PersistentGnmAction::PublishCurrentFit)
            }
            GnmFitOutcome::Invalid => Ok(PersistentGnmAction::RejectInvalidFit),
        }
    }
}

/// Runs a scenario with a solver that recovers the synthesized observation.
fn run_sequence_regression(
    scenario: SequenceScenario,
    mode: SequenceFitMode,
) -> Result<SequenceRunReport, SequenceRegressionError> {
    let mut state = RunState::start(&scenario)?;
    let mut lifecycle = Lifecycle {
        previous_valid: None,
        started: false,
    };
    for index in 0..scenario.frame_count {
        let pulse = bits(float(pulse_exponent(index, scenario.frame_count)).exp());
        let frame = scenario.plan_frame(index, pulse)?;
        let usable = matches!(frame.plan, ObservationPlan::Projected(_));
        let decision = lifecycle.observe(frame.stamp, usable);
        let directed = match state.step_frame(frame.stamp, mode, scenario.fps, decision)? {
            SequenceStep::Done => continue,
            SequenceStep::Solve(directed) => directed,
        };
        if let PenaltyStrength::Adaptive(_) = directed.strength {
            state.adaptive_advanced(Ok(AdaptiveTemporalState {
                weights: fixed_strengths(),
            }))?;
        }
        let ObservationPlan::Projected(projection) = frame.plan else {
            panic!("a missing observation is not solved");
        };
        let outcome = SolverOutcome {
            valid: true,
            status: SingleFrameFitStatus::Converged,
            iterations: if matches!(directed.start, SolveStart::Warm(_)) { 2 } else { 6 },
            objective: bits(1.0e-7),
            projection,
            expression: GnmExpressionState {
                values: vec![frame.truth.mouth, bits(0.0)],
            },
            joints: GnmJointState::neutral(1),
        };
        let history_reset_required = directed
            .timing
            .is_some_and(|timing| double(timing.dt_seconds) > 0.25);
        let decision = lifecycle.resolve(frame.stamp, fit_outcome(&outcome));
        state.solve_finished(frame.stamp, frame.truth, outcome, history_reset_required, decision)?;
    }
    finalize_report(&scenario, mode, &state)
}

#[test]
fn static_sequence_is_deterministic_across_runs() {
    let first = run_sequence_regression(scenario(SequenceTrajectory::Static), SequenceFitMode::WarmStart).unwrap();
    let second = run_sequence_regression(scenario(SequenceTrajectory::Static), SequenceFitMode::WarmStart).unwrap();
    assert_eq!(first, second);
}

#[test]
fn runs_repeat_in_every_mode_with_every_anomaly() {
    for trajectory in [
        SequenceTrajectory::SlowRamp,
        SequenceTrajectory::FastRelease,
        SequenceTrajectory::HeadPoseAndExpression,
    ] {
        for mode in [
            SequenceFitMode::Cold,
            SequenceFitMode::WarmStart,
            SequenceFitMode::FixedTemporal,
            SequenceFitMode::AdaptiveTemporal,
        ] {
            let mut run = scenario(trajectory);
            run.anomalies = SequenceAnomalies {
                outlier_frame: Some(4),
                dropout_start_frame: Some(8),
                dropout_length: 3,
                extra_gap_after_dropout_micros: 400_000,
            };
            let first = run_sequence_regression(run, mode).unwrap();
            let second = run_sequence_regression(run, mode).unwrap();
            assert_eq!(first, second);
            assert_eq!(first.no_observation_frames, 3);
        }
    }
}

#[test]
fn all_modes_complete_on_the_static_sequence() {
    for mode in [
        SequenceFitMode::Cold,
        SequenceFitMode::WarmStart,
        SequenceFitMode::FixedTemporal,
        SequenceFitMode::AdaptiveTemporal,
    ] {
        let report = run_sequence_regression(scenario(SequenceTrajectory::Static), mode).unwrap();
        assert!(
            report.solved_frames >= FRAMES - 2,
            "{mode:?}: solved {} of {FRAMES}",
            report.solved_frames
        );
        assert_eq!(report.no_observation_frames, 0, "{mode:?}");
        assert!(double(report.mean_expression_error) < 0.15, "{mode:?}");
        assert!(double(report.final_expression_error) < 0.15, "{mode:?}");
    }
}

#[test]
fn warm_start_does_not_worsen_mean_iterations_versus_cold() {
    let cold = run_sequence_regression(
        scenario(SequenceTrajectory::HeadPoseAndExpression),
        SequenceFitMode::Cold,
    )
    .unwrap();
    let warm = run_sequence_regression(
        scenario(SequenceTrajectory::HeadPoseAndExpression),
        SequenceFitMode::WarmStart,
    )
    .unwrap();
    assert!(
        double(warm.mean_iterations) <= double(cold.mean_iterations) + 0.5,
        "warm mean {} must not exceed cold mean {} (+0.5)",
        double(warm.mean_iterations),
        double(cold.mean_iterations)
    );
    assert_eq!(cold.total_iterations, 6 * FRAMES as u64);
    assert_eq!(warm.total_iterations, 6 + 2 * (FRAMES as u64 - 1));
    assert_eq!(double(cold.mean_iterations), 6.0);
}

#[test]
fn slow_ramp_reports_a_finite_onset_latency() {
    let report =
        run_sequence_regression(scenario(SequenceTrajectory::SlowRamp), SequenceFitMode::WarmStart).unwrap();
    let latency = double(
        report
            .onset_latency_frames
            .expect("slow ramp must produce an onset latency"),
    );
    assert!(
        latency.abs() <= 6.0,
        "onset latency {latency} frames exceeded the bound"
    );
}

#[test]
fn fast_release_reports_a_finite_release_latency() {
    let report =
        run_sequence_regression(scenario(SequenceTrajectory::FastRelease), SequenceFitMode::WarmStart).unwrap();
    let latency = double(
        report
            .release_latency_frames
            .expect("fast release must produce a release latency"),
    );
    assert!(
        latency.abs() <= 8.0,
        "release latency {latency} frames exceeded the bound"
    );
}

#[test]
fn blink_pulse_captures_the_peak_expression() {
    let report =
        run_sequence_regression(scenario(SequenceTrajectory::BlinkPulse), SequenceFitMode::WarmStart).unwrap();
    let peak = double(
        report
            .pulse_peak_expression
            .expect("blink pulse must produce a peak metric"),
    );
    assert!(
        (0.6..=1.0).contains(&peak),
        "pulse peak {peak} outside the expected band"
    );
}

#[test]
fn head_pose_and_expression_tracks_both_groups() {
    let report = run_sequence_regression(
        scenario(SequenceTrajectory::HeadPoseAndExpression),
        SequenceFitMode::AdaptiveTemporal,
    )
    .unwrap();
    assert!(double(report.mean_pose_error_rad) < 0.05);
    assert!(double(report.mean_expression_error) < 0.15);
}

#[test]
fn one_frame_outlier_does_not_corrupt_the_final_state() {
    let scenario = SequenceScenario {
        anomalies: SequenceAnomalies {
            outlier_frame: Some(FRAMES / 2),
            ..SequenceAnomalies::default()
        },
        ..scenario(SequenceTrajectory::Static)
    };
    let report = run_sequence_regression(scenario, SequenceFitMode::FixedTemporal).unwrap();
    assert!(double(report.final_expression_error) < 0.15);
    assert!(report.solved_frames >= FRAMES - 2);
    assert!(double(report.mean_pose_error_rad) > 0.0, "the outlier is displaced");
}

#[test]
fn short_dropout_survives_and_resumes_tracking() {
    let scenario = SequenceScenario {
        anomalies: SequenceAnomalies {
            dropout_start_frame: Some(10),
            dropout_length: 2,
            ..SequenceAnomalies::default()
        },
        ..scenario(SequenceTrajectory::SlowRamp)
    };
    let report = run_sequence_regression(scenario, SequenceFitMode::WarmStart).unwrap();
    assert_eq!(report.no_observation_frames, 2);
    assert!(report.solved_frames >= FRAMES - 3);
}

#[test]
fn long_gap_forces_temporal_history_reset_and_reacquires() {
    let scenario = SequenceScenario {
        anomalies: SequenceAnomalies {
            dropout_start_frame: Some(8),
            dropout_length: 8,
            extra_gap_after_dropout_micros: 400_000,
            ..SequenceAnomalies::default()
        },
        ..scenario(SequenceTrajectory::Static)
    };
    let temporal_report = run_sequence_regression(scenario, SequenceFitMode::FixedTemporal).unwrap();
    assert!(
        temporal_report.temporal_history_resets >= 1,
        "long gap must force at least one temporal history reset"
    );
    assert!(
        temporal_report.solved_frames >= FRAMES - 22,
        "reacquire after long gap: solved {}",
        temporal_report.solved_frames
    );
    let warm_report = run_sequence_regression(scenario, SequenceFitMode::WarmStart).unwrap();
    assert!(warm_report.solved_frames >= FRAMES - 10);
}

#[test]
fn scenarios_are_bounded_and_their_errors_speak() {
    let short = SequenceScenario::new(SequenceTrajectory::Static, 11, wide(60.0)).err().unwrap();
    assert_eq!(
        short,
        SequenceRegressionError::InvalidScenario(ScenarioFault::FrameCount(11))
    );
    assert_eq!(
        short.message(""),
        "invalid scenario: frame_count 11 must be at least 12"
    );
    let slow = SequenceScenario::new(SequenceTrajectory::Static, 12, wide(3.5)).err().unwrap();
    assert_eq!(
        slow.message("3.5"),
        "invalid scenario: fps 3.5 must be finite and at least 4"
    );
    let nothing = RunState::start(&scenario(SequenceTrajectory::Static)).unwrap();
    assert_eq!(
        finalize_report(
            &scenario(SequenceTrajectory::Static),
            SequenceFitMode::Cold,
            &nothing
        )
        .err(),
        Some(SequenceRegressionError::InvalidScenario(ScenarioFault::NothingPublished))
    );
    assert_eq!(
        SequenceRegressionError::Solve(GnmReprojectionError::Solver("x")).message("diverged"),
        "bounded solve: diverged"
    );
}

#[test]
fn truth_follows_the_trajectory() {
    let still = truth_at(SequenceTrajectory::Static, 0, FRAMES, bits(0.0));
    let later = truth_at(SequenceTrajectory::Static, FRAMES - 1, FRAMES, bits(0.0));
    assert_eq!(still, later);
    let start = truth_at(SequenceTrajectory::SlowRamp, 0, FRAMES, bits(0.0));
    let end = truth_at(SequenceTrajectory::SlowRamp, FRAMES - 1, FRAMES, bits(0.0));
    assert!(float(start.mouth) < float(end.mouth));
    let exponent = float(pulse_exponent(3, FRAMES));
    let offset = (3.0f32 - FRAMES as f32 * 0.4) / 3.0;
    assert_eq!(exponent, -(offset * offset));
}

#[test]
fn fixture_constants_hold_their_decimal_values() {
    assert_eq!(regression_solver_config().tolerance, wide(1.0e-6));
    assert_eq!(regression_solver_config().max_iterations, 16);
    assert_eq!(regression_lifecycle_config().warm_start_age_micros, 50_000);
    let ranges = temporal_lambda_ranges();
    assert_eq!(ranges.expression, ranges.joints);
    assert_eq!(ranges.head_pose, ranges.translation);
    assert_eq!(ranges.expression.velocity_min, wide(1.0e-6));
    assert_eq!(ranges.expression.velocity_max, wide(1.0e-4));
    assert_eq!(adaptive_policy_config().static_weights.joints, wide(0.9));
    assert_eq!(fixed_strengths().translation, wide(0.5));
}

#[test]
fn run_constants_hold_their_decimal_values() {
    let model = GnmModel {
        version: GnmVersion { major: 3, minor: 0 },
        identity_dimension: 4,
        expression_dimension: 3,
        joint_count: 2,
    };
    assert_eq!(coverage_policy().required_points, 2);
    assert_eq!(coverage_policy().required_share, wide(0.75));
    let scales = temporal_scales(&model);
    assert_eq!(scales.expression, vec![bits(1.0); 3]);
    assert_eq!(scales.joints, vec![bits(1.0); 9]);
    assert_eq!(scales.head_pose, [bits(0.2); 3]);
    assert_eq!(scales.translation, [bits(0.2); 3]);
    assert_eq!(longest_penalty_step(), wide(0.25));
    assert_eq!(
        driven_expression(&model, bits(0.6)).values,
        vec![bits(0.6), bits(0.0), bits(0.0)]
    );
    let missing = missing_landmarks();
    assert_eq!(missing.len(), 478);
    assert!(missing.iter().flatten().all(|value| float(*value).is_nan()));
}

#[test]
fn only_usable_coverage_counts_as_observed() {
    let with = |status| GnmDenseObservation {
        source_seq: 1,
        captured_at_micros: 2,
        status,
    };
    assert!(is_observation_available(&with(DenseObservationStatus::Valid)));
    assert!(is_observation_available(&with(DenseObservationStatus::Degraded)));
    assert!(!is_observation_available(&with(DenseObservationStatus::Insufficient)));
}

#[test]
fn synthetic_head_is_a_bounded_circle() {
    let circles: Vec<VertexCircle> = synthetic_vertex_angles()
        .iter()
        .map(|angles| VertexCircle {
            cosine: bits(float(angles.angle).cos()),
            sine: bits(float(angles.angle).sin()),
            tripled_sine: bits(float(angles.tripled).sin()),
        })
        .collect();
    assert_eq!(circles.len(), 64);
    let model = synthetic_head_model(&circles, 4, 3);
    for vertex in 0..64usize {
        let angle = (vertex as f32) / 64.0 * std::f32::consts::TAU;
        assert_eq!(model.template_vertices[vertex * 3], bits(0.10 * angle.cos()));
        assert_eq!(model.template_vertices[vertex * 3 + 1], bits(0.12 * angle.sin()));
    }
    assert_eq!(synthetic_mapping().rows.len(), 64);
}
