use vtuber_tracking::binary::Binary32;
use vtuber_tracking::gnm_latest_frame_worker::{
    FitMeasurement, GnmFaceState, GnmLatestFrameWorker, GnmWorkerFrameInput, GnmWorkerInput, GnmWorkerStep, SlotRead,
    WorkerDirective,
};
use vtuber_tracking::gnm_model::{
    gnm_head_v3_version, DenseMappingVersion, DenseObservationStatus, DenseProjection, FixedGnmIdentity,
    GnmDenseObservation, GnmExpressionState, GnmFrameStamp, GnmJointState, GnmModel,
};
use vtuber_tracking::gnm_persistent_fitter::{
    finish_solve, FitStep, GnmFitInitialization, GnmFitOutcome, PersistentGnmAction, PersistentGnmFitterError,
    PersistentGnmFrameOutcome, SingleFrameFitStatus, SolverOutcome,
};

const FRAME_MICROS: u64 = 16_667;
const REUSE_GAP_MICROS: u64 = 250_000;

fn bits(value: f32) -> Binary32 {
    Binary32::from_bits(value.to_bits())
}

/// A slot that keeps the last value, its generation and the overwrite count.
struct Slot<T> {
    value: Option<T>,
    generation: u64,
    overwritten: u64,
}

impl<T: Clone> Slot<T> {
    fn new() -> Self {
        Slot {
            value: None,
            generation: 0,
            overwritten: 0,
        }
    }

    fn publish(&mut self, value: T) {
        if self.value.is_some() {
            self.overwritten += 1;
        }
        self.value = Some(value);
        self.generation += 1;
    }
}

/// Worker, slots, read-only resources, and a lifecycle that follows the gaps.
struct Bench {
    worker: GnmLatestFrameWorker,
    input: Slot<GnmWorkerInput>,
    output: Slot<GnmFaceState>,
    model: GnmModel,
    mapping: DenseMappingVersion,
    identity: FixedGnmIdentity,
    calibrated: bool,
    previous_valid: Option<GnmFrameStamp>,
    started: bool,
}

impl Bench {
    fn new() -> Self {
        let model = GnmModel {
            version: gnm_head_v3_version(),
            identity_dimension: 4,
            expression_dimension: 3,
            joint_count: 1,
        };
        Bench {
            worker: GnmLatestFrameWorker::new(),
            input: Slot::new(),
            output: Slot::new(),
            model,
            mapping: DenseMappingVersion {
                schema_revision: 1,
                model_version: model.version,
            },
            identity: FixedGnmIdentity {
                values: vec![Binary32::zero(); 4],
            },
            calibrated: false,
            previous_valid: None,
            started: false,
        }
    }

    fn step_once(&mut self) -> GnmWorkerStep {
        let read = if self.input.generation > self.worker.last_generation() {
            SlotRead::New {
                generation: self.input.generation,
            }
        } else {
            SlotRead::TimedOut
        };
        let step = self.worker.step_once(read);
        if step == GnmWorkerStep::Processed {
            let input = self.input.value.unwrap();
            match self.worker.handle_input(input, Ok(())) {
                WorkerDirective::ClearOutput => {
                    self.calibrated = input == GnmWorkerInput::CalibrationReady;
                    self.previous_valid = None;
                    self.started = false;
                    self.output.value = None;
                }
                WorkerDirective::FitFrame(frame) => self.handle_frame(frame),
            }
        }
        step
    }

    fn observe(&mut self, frame: &GnmWorkerFrameInput) -> PersistentGnmAction {
        if !self.calibrated {
            return PersistentGnmAction::SkipUncalibratedFrame;
        }
        let now = frame.stamp().captured_at_micros;
        let stale = self
            .previous_valid
            .is_some_and(|valid| now - valid.captured_at_micros > REUSE_GAP_MICROS);
        if frame.observation().status == DenseObservationStatus::Insufficient {
            return PersistentGnmAction::NoObservation {
                dynamic_state_cleared: stale,
            };
        }
        let initialization = match self.previous_valid {
            Some(source) if !stale => GnmFitInitialization::PreviousValid { source },
            None if !self.started => GnmFitInitialization::NeutralFirstFit,
            _ => GnmFitInitialization::ReinitializeDynamicState,
        };
        self.started = true;
        PersistentGnmAction::StartFit { initialization }
    }

    fn handle_frame(&mut self, frame: GnmWorkerFrameInput) {
        if !self.worker.admit_frame(
            frame.stamp(),
            frame.observation(),
            &self.identity,
            &self.model,
            &self.mapping,
        ) {
            return;
        }
        let overwritten_before = self.input.overwritten;
        let action = self.observe(&frame);
        let outcome = match self.worker.fit_frame(frame.stamp(), Ok(action)) {
            FitStep::Done(result) => result,
            FitStep::Report(_) => panic!("the bench never loses its warm-start state"),
            FitStep::Solve(started, _) => {
                let report = finish_solve(started, &self.model, Ok(converged()));
                let decision = match report.outcome() {
                    GnmFitOutcome::Valid => {
                        self.previous_valid = Some(frame.stamp());
                        PersistentGnmAction::PublishCurrentFit
                    }
                    GnmFitOutcome::Invalid => PersistentGnmAction::RejectInvalidFit,
                };
                self.worker.fit_reported(report, Ok(decision))
            }
        };
        let measurement = FitMeasurement {
            elapsed_micros: 40,
            overwritten_before,
            overwritten_after: self.input.overwritten,
        };
        if let Some(state) = self.worker.handle_frame(measurement, outcome) {
            self.output.publish(state);
        }
    }
}

fn converged() -> SolverOutcome {
    SolverOutcome {
        valid: true,
        status: SingleFrameFitStatus::Converged,
        iterations: 2,
        objective: bits(1.0e-6),
        projection: DenseProjection::new(
            [bits(0.15), bits(-0.10), bits(0.05)],
            [bits(0.02), bits(-0.03), bits(0.60)],
            bits(1.3),
            [bits(0.5), bits(0.5)],
        )
        .unwrap(),
        expression: GnmExpressionState {
            values: vec![bits(0.5), bits(0.0), bits(0.0)],
        },
        joints: GnmJointState::neutral(1),
    }
}

fn observed(seq: u64, micros: u64, status: DenseObservationStatus) -> GnmDenseObservation {
    GnmDenseObservation {
        source_seq: seq,
        captured_at_micros: micros,
        status,
    }
}

fn frame_at(seq: u64, micros: u64, status: DenseObservationStatus) -> GnmWorkerInput {
    GnmWorkerInput::Frame(GnmWorkerFrameInput::new(
        GnmFrameStamp {
            source_seq: seq,
            captured_at_micros: micros,
        },
        observed(seq, micros, status),
    ))
}

fn frame(seq: u64) -> GnmWorkerInput {
    frame_at(seq, seq * FRAME_MICROS, DenseObservationStatus::Valid)
}

#[test]
fn publishes_only_lifecycle_gated_states_with_matching_stamps() {
    let mut bench = Bench::new();

    // Uncalibrated frames are skipped, never published.
    bench.input.publish(frame(1));
    assert_eq!(bench.step_once(), GnmWorkerStep::Processed);
    assert!(bench.output.value.is_none());

    // Calibration unlocks the tracking path.
    bench.input.publish(GnmWorkerInput::CalibrationReady);
    assert_eq!(bench.step_once(), GnmWorkerStep::Processed);

    for seq in 1_u64..=3 {
        bench.input.publish(frame(seq));
        assert_eq!(bench.step_once(), GnmWorkerStep::Processed);
    }
    let state = bench.output.value.clone().expect("tracking states published");
    assert_eq!(state.stamp().source_seq, 3);
    let metrics = bench.worker.metrics();
    assert_eq!(metrics.published_frames, 3);
    assert_eq!(metrics.solved_frames, 3);
    assert_eq!(metrics.skipped_uncalibrated_frames, 1);
    assert!(metrics.last_fit_iterations >= 1);
}

#[test]
fn stale_backlog_is_never_processed_latest_value_wins() {
    let mut bench = Bench::new();
    bench.input.publish(GnmWorkerInput::CalibrationReady);
    bench.step_once();

    let baseline_overwritten = bench.input.overwritten;
    bench.input.publish(frame(1));
    bench.input.publish(frame(2));
    assert_eq!(bench.input.overwritten - baseline_overwritten, 2);
    assert_eq!(bench.step_once(), GnmWorkerStep::Processed);

    assert_eq!(bench.worker.metrics().solved_frames, 1);
    assert_eq!(bench.output.value.as_ref().unwrap().stamp().source_seq, 2);
    // The latest frame was consumed; nothing else may run.
    assert_eq!(bench.step_once(), GnmWorkerStep::Idle);
    assert_eq!(bench.worker.metrics().solved_frames, 1);
}

#[test]
fn no_observation_never_bypasses_published_authority() {
    let mut bench = Bench::new();
    bench.input.publish(GnmWorkerInput::CalibrationReady);
    bench.step_once();

    bench.input.publish(frame(1));
    bench.step_once();
    let published = bench.output.value.clone().unwrap();
    assert_eq!(published.stamp().source_seq, 1);

    // Dropout frame: normal tracking state; previous publication stays.
    bench
        .input
        .publish(frame_at(2, 2 * FRAME_MICROS, DenseObservationStatus::Insufficient));
    bench.step_once();
    assert_eq!(bench.output.value, Some(published));
    assert_eq!(bench.worker.metrics().no_observation_frames, 1);
    assert_eq!(bench.worker.metrics().published_frames, 1);
}

#[test]
fn calibration_invalidation_clears_published_state() {
    let mut bench = Bench::new();
    bench.input.publish(GnmWorkerInput::CalibrationReady);
    bench.step_once();
    bench.input.publish(frame(1));
    bench.step_once();
    assert!(bench.output.value.is_some());

    bench.input.publish(GnmWorkerInput::CalibrationInvalidated);
    bench.step_once();
    assert!(bench.output.value.is_none());
    // Frames are skipped again until recalibration.
    bench.input.publish(frame(2));
    bench.step_once();
    assert!(bench.output.value.is_none());
    assert_eq!(bench.worker.metrics().skipped_uncalibrated_frames, 1);
}

#[test]
fn contract_mismatch_is_counted_and_non_fatal() {
    let mut bench = Bench::new();
    bench.input.publish(GnmWorkerInput::CalibrationReady);
    bench.step_once();

    // Stamp claims sequence 9 while the observation carries sequence 1.
    bench.input.publish(GnmWorkerInput::Frame(GnmWorkerFrameInput::new(
        GnmFrameStamp {
            source_seq: 9,
            captured_at_micros: FRAME_MICROS,
        },
        observed(1, FRAME_MICROS, DenseObservationStatus::Valid),
    )));
    bench.step_once();
    assert_eq!(bench.worker.metrics().contract_errors, 1);
    assert!(bench.output.value.is_none());

    // The next well-formed frame still works.
    bench.input.publish(frame(1));
    bench.step_once();
    assert_eq!(bench.worker.metrics().published_frames, 1);
}

#[test]
fn long_gap_reacquires_and_republishes_fresh_authority() {
    let mut bench = Bench::new();
    bench.input.publish(GnmWorkerInput::CalibrationReady);
    bench.step_once();

    bench.input.publish(frame(1));
    bench.step_once();

    // A frame far beyond the reuse age forces a reacquire path.
    bench.input.publish(frame_at(
        2,
        FRAME_MICROS + 500_000,
        DenseObservationStatus::Valid,
    ));
    bench.step_once();

    let state = bench.output.value.clone().expect("reacquired state published");
    assert_eq!(state.stamp().source_seq, 2);
    assert_eq!(bench.worker.metrics().published_frames, 2);
}

#[test]
fn latency_and_replacements_are_recorded() {
    let mut worker = GnmLatestFrameWorker::new();
    let lost: Result<PersistentGnmFrameOutcome, PersistentGnmFitterError> =
        Ok(PersistentGnmFrameOutcome::NoObservation {
            dynamic_state_cleared: false,
        });
    let slow = FitMeasurement {
        elapsed_micros: u128::from(u64::MAX) + 7,
        overwritten_before: 3,
        overwritten_after: 8,
    };
    assert!(worker.handle_frame(slow, lost).is_none());
    let fast = FitMeasurement {
        elapsed_micros: 5,
        overwritten_before: 8,
        overwritten_after: 2,
    };
    assert!(worker.handle_frame(fast, lost).is_none());
    let metrics = worker.metrics();
    assert_eq!(metrics.last_fit_latency_micros, 5);
    assert_eq!(metrics.max_fit_latency_micros, u64::MAX);
    assert_eq!(metrics.replaced_during_fit, 5);
    assert_eq!(metrics.no_observation_frames, 2);
    worker.publish_refused();
    assert_eq!(worker.metrics().internal_errors, 1);
    assert_eq!(worker.step_once(SlotRead::Closed), GnmWorkerStep::Closed);
}
