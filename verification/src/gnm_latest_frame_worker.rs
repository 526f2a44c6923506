//! Decisions of the latest-frame worker around the persistent GNM fitter.
//!
//! Input uses capacity-one latest-value semantics: a slow fitter never
//! accumulates a backlog. Frames that arrive while a fit is running overwrite the
//! pending input and are counted as replacements.
//!
//! Publication is lifecycle-gated: a state reaches the output only when the
//! lifecycle emits its publish action. Invalid fits, observation loss, and
//! reacquisitions never bypass that authority; the previous published state
//! simply stays visible downstream until a newly validated frame replaces it.

use vstd::prelude::*;

use crate::gnm_fitter_contract::{
    frame_input_fault, GnmDynamicState, GnmSolverFrameInput,
};
use crate::gnm_model::{
    DenseMappingVersion, FixedGnmIdentity, GnmDenseObservation, GnmFrameStamp, GnmModel,
};
use crate::gnm_persistent_fitter::{
    is_admission, is_stored_after, reported_result, FitStep, GnmSolvedFrameReport, GnmValidatedDynamicFrame, PendingReport, PersistentGnmAction,
    PersistentGnmFitter, PersistentGnmFitterError, PersistentGnmFrameOutcome, PersistentGnmLifecycleError,
};

verus! {

/// One source frame submitted to the worker.
#[derive(Clone, Copy, Debug, PartialEq, Eq, Structural)]
pub struct GnmWorkerFrameInput {
    stamp: GnmFrameStamp,
    observation: GnmDenseObservation,
}

impl GnmWorkerFrameInput {
    /// The source frame.
    pub closed spec fn source(self) -> GnmFrameStamp {
        self.stamp
    }

    /// The observation.
    pub closed spec fn seen(self) -> GnmDenseObservation {
        self.observation
    }

    /// Pairs a source stamp with its dense observation.
    ///
    /// Stamp/observation alignment is checked by the fitter contract when the
    /// frame is admitted, so a mismatching pair is rejected as a typed error
    /// instead of being trusted here.
    #[must_use]
    pub fn new(stamp: GnmFrameStamp, observation: GnmDenseObservation) -> (input: Self)
        ensures
            input.source() == stamp,
            input.seen() == observation,
    {
        GnmWorkerFrameInput { stamp, observation }
    }

    /// Returns the exact source stamp.
    #[must_use]
    pub fn stamp(&self) -> (stamp: GnmFrameStamp)
        ensures
            stamp == self.source(),
    {
        self.stamp
    }

    /// Returns the dense observation.
    #[must_use]
    pub fn observation(&self) -> (observation: &GnmDenseObservation)
        ensures
            *observation == self.seen(),
    {
        &self.observation
    }
}

/// Command or frame offered through the worker's single input slot.
#[derive(Clone, Copy, Debug, PartialEq, Eq, Structural)]
pub enum GnmWorkerInput {
    /// Apply the explicit calibration-ready lifecycle event.
    CalibrationReady,
    /// Apply the explicit calibration-invalidated lifecycle event.
    CalibrationInvalidated,
    /// Admit one source frame.
    Frame(GnmWorkerFrameInput),
}

/// Lifecycle-validated tracking state published by the worker.
///
/// Every instance satisfied the persistent lifecycle's validity checks on its
/// exact source frame.
#[derive(Clone, Debug, PartialEq)]
pub struct GnmFaceState {
    stamp: GnmFrameStamp,
    dynamic: GnmDynamicState,
}

impl GnmFaceState {
    /// The source frame.
    pub closed spec fn source(self) -> GnmFrameStamp {
        self.stamp
    }

    /// The dynamic state.
    pub closed spec fn state(self) -> GnmDynamicState {
        self.dynamic
    }

    /// Returns the source frame this state was fitted on.
    #[must_use]
    pub fn stamp(&self) -> (stamp: GnmFrameStamp)
        ensures
            stamp == self.source(),
    {
        self.stamp
    }

    /// Returns the validated dynamic state.
    #[must_use]
    pub fn dynamic(&self) -> (dynamic: &GnmDynamicState)
        ensures
            *dynamic == self.state(),
    {
        &self.dynamic
    }
}

/// Counters and timings produced by one worker.
#[derive(Clone, Copy, Debug, PartialEq, Eq, Structural)]
pub struct GnmFitterWorkerMetrics {
    /// Frames admitted with a usable observation and solved.
    pub solved_frames: u64,
    /// Solves published as the new lifecycle-valid state.
    pub published_frames: u64,
    /// Solves that completed but failed lifecycle validation.
    pub invalid_fits: u64,
    /// Frames without a usable observation (dropout path).
    pub no_observation_frames: u64,
    /// Frames skipped because no calibration exists.
    pub skipped_uncalibrated_frames: u64,
    /// New frames that overwrote the pending input while a fit was running.
    pub replaced_during_fit: u64,
    /// Input-slot contract violations (stamp/observation mismatch).
    pub contract_errors: u64,
    /// Deterministic solver failures.
    pub solve_errors: u64,
    /// Lifecycle/invariant failures; always zero in correct operation.
    pub internal_errors: u64,
    /// Wall-clock duration of the most recent fit, in microseconds.
    pub last_fit_latency_micros: u64,
    /// Largest observed fit latency, in microseconds.
    pub max_fit_latency_micros: u64,
    /// Block-coordinate iterations spent by the most recent fit.
    pub last_fit_iterations: usize,
}

/// Counters before any frame.
pub open spec fn no_metrics() -> GnmFitterWorkerMetrics {
    GnmFitterWorkerMetrics {
        solved_frames: 0,
        published_frames: 0,
        invalid_fits: 0,
        no_observation_frames: 0,
        skipped_uncalibrated_frames: 0,
        replaced_during_fit: 0,
        contract_errors: 0,
        solve_errors: 0,
        internal_errors: 0,
        last_fit_latency_micros: 0,
        max_fit_latency_micros: 0,
        last_fit_iterations: 0,
    }
}

impl Default for GnmFitterWorkerMetrics {
    fn default() -> (metrics: Self)
        ensures
            metrics == no_metrics(),
    {
        GnmFitterWorkerMetrics {
            solved_frames: 0,
            published_frames: 0,
            invalid_fits: 0,
            no_observation_frames: 0,
            skipped_uncalibrated_frames: 0,
            replaced_during_fit: 0,
            contract_errors: 0,
            solve_errors: 0,
            internal_errors: 0,
            last_fit_latency_micros: 0,
            max_fit_latency_micros: 0,
            last_fit_iterations: 0,
        }
    }
}

impl GnmFitterWorkerMetrics {
    /// Every event counter can take one more.
    pub open spec fn countable(self) -> bool {
        &&& self.solved_frames < u64::MAX
        &&& self.published_frames < u64::MAX
        &&& self.invalid_fits < u64::MAX
        &&& self.no_observation_frames < u64::MAX
        &&& self.skipped_uncalibrated_frames < u64::MAX
        &&& self.contract_errors < u64::MAX
        &&& self.solve_errors < u64::MAX
        &&& self.internal_errors < u64::MAX
    }

    /// Every solve was either published or invalid.
    pub open spec fn balanced(self) -> bool {
        self.solved_frames == self.published_frames + self.invalid_fits
    }
}

/// Outcome of one non-blocking worker step.
#[derive(Clone, Copy, Debug, PartialEq, Eq, Structural)]
pub enum GnmWorkerStep {
    /// No fresh input arrived before the poll timeout elapsed.
    Idle,
    /// One input was processed.
    Processed,
    /// The input slot was closed; the worker should exit.
    Closed,
}

/// What follows from one input.
#[derive(Clone, Copy, Debug, PartialEq, Eq, Structural)]
pub enum WorkerDirective {
    /// Every published state belongs to another calibration: clear the output.
    ClearOutput,
    /// Fit this frame.
    FitFrame(GnmWorkerFrameInput),
}

/// What the input slot answered.
#[derive(Clone, Copy, Debug, PartialEq, Eq, Structural)]
pub enum SlotRead {
    /// Nothing fresh before the timeout.
    TimedOut,
    /// The slot was closed.
    Closed,
    /// A fresh input, with the slot's generation after the read.
    New {
        /// Generation of the slot.
        generation: u64,
    },
}

/// What was measured around one fit.
#[derive(Clone, Copy, Debug, PartialEq, Eq, Structural)]
pub struct FitMeasurement {
    /// Wall-clock duration in microseconds.
    pub elapsed_micros: u128,
    /// Overwritten inputs before the fit.
    pub overwritten_before: u64,
    /// Overwritten inputs after the fit.
    pub overwritten_after: u64,
}

impl FitMeasurement {
    /// Duration, capped to what the metrics can hold.
    pub open spec fn latency(self) -> u64 {
        if self.elapsed_micros > u64::MAX {
            u64::MAX
        } else {
            self.elapsed_micros as u64
        }
    }

    /// Inputs that were overwritten during the fit.
    pub open spec fn replaced(self) -> int {
        if self.overwritten_after > self.overwritten_before {
            self.overwritten_after - self.overwritten_before
        } else {
            0
        }
    }
}

/// Metrics with one fit's timing.
pub open spec fn timed(
    metrics: GnmFitterWorkerMetrics,
    measurement: FitMeasurement,
) -> GnmFitterWorkerMetrics {
    GnmFitterWorkerMetrics {
        last_fit_latency_micros: measurement.latency(),
        max_fit_latency_micros: if metrics.max_fit_latency_micros > measurement.latency() {
            metrics.max_fit_latency_micros
        } else {
            measurement.latency()
        },
        replaced_during_fit: (metrics.replaced_during_fit + measurement.replaced()) as u64,
        ..metrics
    }
}

/// Metrics with one frame's outcome.
pub open spec fn counted(
    metrics: GnmFitterWorkerMetrics,
    outcome: Result<PersistentGnmFrameOutcome, PersistentGnmFitterError>,
    stored: bool,
) -> GnmFitterWorkerMetrics {
    match outcome {
        Ok(PersistentGnmFrameOutcome::SkippedUncalibrated) => GnmFitterWorkerMetrics {
            skipped_uncalibrated_frames: (metrics.skipped_uncalibrated_frames + 1) as u64,
            ..metrics
        },
        Ok(PersistentGnmFrameOutcome::NoObservation { .. }) => GnmFitterWorkerMetrics {
            no_observation_frames: (metrics.no_observation_frames + 1) as u64,
            ..metrics
        },
        Ok(PersistentGnmFrameOutcome::Solved(report)) => {
            if report.published && stored {
                GnmFitterWorkerMetrics {
                    solved_frames: (metrics.solved_frames + 1) as u64,
                    last_fit_iterations: report.iterations,
                    published_frames: (metrics.published_frames + 1) as u64,
                    ..metrics
                }
            } else {
                GnmFitterWorkerMetrics {
                    solved_frames: (metrics.solved_frames + 1) as u64,
                    last_fit_iterations: report.iterations,
                    invalid_fits: (metrics.invalid_fits + 1) as u64,
                    ..metrics
                }
            }
        },
        Err(PersistentGnmFitterError::Contract(_)) => GnmFitterWorkerMetrics {
            contract_errors: (metrics.contract_errors + 1) as u64,
            ..metrics
        },
        Err(PersistentGnmFitterError::MissingWarmStartState { .. }) => GnmFitterWorkerMetrics {
            contract_errors: (metrics.contract_errors + 1) as u64,
            ..metrics
        },
        Err(PersistentGnmFitterError::Solve(_)) => GnmFitterWorkerMetrics {
            solve_errors: (metrics.solve_errors + 1) as u64,
            ..metrics
        },
        Err(PersistentGnmFitterError::Lifecycle(_)) => GnmFitterWorkerMetrics {
            internal_errors: (metrics.internal_errors + 1) as u64,
            ..metrics
        },
        Err(PersistentGnmFitterError::UnexpectedLifecycleAction { .. }) => GnmFitterWorkerMetrics {
            internal_errors: (metrics.internal_errors + 1) as u64,
            ..metrics
        },
    }
}

/// Persistent-GNM latest-frame worker state.
pub struct GnmLatestFrameWorker {
    fitter: PersistentGnmFitter,
    metrics: GnmFitterWorkerMetrics,
    last_generation: u64,
}

impl GnmLatestFrameWorker {
    /// The counters.
    pub closed spec fn counters(self) -> GnmFitterWorkerMetrics {
        self.metrics
    }

    /// The stored warm-start frame.
    pub closed spec fn stored(self) -> Option<GnmValidatedDynamicFrame> {
        self.fitter.stored()
    }

    /// Generation of the last processed input.
    pub closed spec fn generation(self) -> u64 {
        self.last_generation
    }

    /// Creates an uncalibrated worker.
    #[must_use]
    pub fn new() -> (worker: Self)
        ensures
            worker.counters() == no_metrics(),
            worker.counters().balanced(),
            worker.stored() is None,
            worker.generation() == 0,
    {
        GnmLatestFrameWorker {
            fitter: PersistentGnmFitter::new(),
            metrics: GnmFitterWorkerMetrics::default(),
            last_generation: 0,
        }
    }

    /// Returns a snapshot of the current metrics.
    #[must_use]
    pub fn metrics(&self) -> (metrics: GnmFitterWorkerMetrics)
        ensures
            metrics == self.counters(),
    {
        self.metrics
    }

    /// Generation after which fresh input is waited for.
    pub fn last_generation(&self) -> (generation: u64)
        ensures
            generation == self.generation(),
    {
        self.last_generation
    }

    /// Classifies what the input slot answered, and remembers the generation of
    /// a fresh input.
    pub fn step_once(&mut self, read: SlotRead) -> (step: GnmWorkerStep)
        ensures
            final(self).counters() == old(self).counters(),
            final(self).stored() == old(self).stored(),
            match read {
                SlotRead::TimedOut => {
                    step == GnmWorkerStep::Idle && final(self).generation()
                        == old(self).generation()
                },
                SlotRead::Closed => {
                    step == GnmWorkerStep::Closed && final(self).generation()
                        == old(self).generation()
                },
                SlotRead::New { generation } => {
                    step == GnmWorkerStep::Processed && final(self).generation() == generation
                },
            },
    {
        match read {
            SlotRead::TimedOut => GnmWorkerStep::Idle,
            SlotRead::Closed => GnmWorkerStep::Closed,
            SlotRead::New { generation } => {
                self.last_generation = generation;
                GnmWorkerStep::Processed
            },
        }
    }

    /// Applies the lifecycle's answer to a calibration-ready command. The output
    /// is to be cleared: a calibration reset invalidates every previously
    /// published state.
    pub fn calibration_ready(&mut self, decision: Result<(), PersistentGnmLifecycleError>)
        requires
            old(self).counters().internal_errors < u64::MAX,
        ensures
            final(self).generation() == old(self).generation(),
            match decision {
                Ok(_) => {
                    &&& final(self).stored() is None
                    &&& final(self).counters() == old(self).counters()
                },
                Err(_) => {
                    &&& final(self).stored() == old(self).stored()
                    &&& final(self).counters() == (GnmFitterWorkerMetrics {
                        internal_errors: (old(self).counters().internal_errors + 1) as u64,
                        ..old(self).counters()
                    })
                },
            },
    {
        if self.fitter.calibration_ready(decision).is_err() {
            self.metrics.internal_errors = self.metrics.internal_errors + 1;
        }
    }

    /// Applies the lifecycle's answer to a calibration-invalidated command. The
    /// output is to be cleared.
    pub fn calibration_invalidated(&mut self, decision: Result<(), PersistentGnmLifecycleError>)
        requires
            old(self).counters().internal_errors < u64::MAX,
        ensures
            final(self).generation() == old(self).generation(),
            match decision {
                Ok(_) => {
                    &&& final(self).stored() is None
                    &&& final(self).counters() == old(self).counters()
                },
                Err(_) => {
                    &&& final(self).stored() == old(self).stored()
                    &&& final(self).counters() == (GnmFitterWorkerMetrics {
                        internal_errors: (old(self).counters().internal_errors + 1) as u64,
                        ..old(self).counters()
                    })
                },
            },
    {
        if self.fitter.calibration_invalidated(decision).is_err() {
            self.metrics.internal_errors = self.metrics.internal_errors + 1;
        }
    }

    /// Handles one input; `calibration` is the lifecycle's answer to a calibration
    /// event.
    ///
    /// A calibration event clears the output whatever the lifecycle answered, so
    /// that nobody downstream acts on the authority of an old calibration.
    pub fn handle_input(
        &mut self,
        input: GnmWorkerInput,
        calibration: Result<(), PersistentGnmLifecycleError>,
    ) -> (directive: WorkerDirective)
        requires
            old(self).counters().internal_errors < u64::MAX,
        ensures
            final(self).generation() == old(self).generation(),
            match input {
                GnmWorkerInput::Frame(frame) => {
                    &&& directive == WorkerDirective::FitFrame(frame)
                    &&& final(self).stored() == old(self).stored()
                    &&& final(self).counters() == old(self).counters()
                },
                _ => {
                    &&& directive == WorkerDirective::ClearOutput
                    &&& final(self).stored() == if calibration is Ok {
                        None
                    } else {
                        old(self).stored()
                    }
                    &&& final(self).counters() == (GnmFitterWorkerMetrics {
                        internal_errors: (old(self).counters().internal_errors + if calibration is Ok {
                            0int
                        } else {
                            1
                        }) as u64,
                        ..old(self).counters()
                    })
                },
            },
    {
        match input {
            GnmWorkerInput::CalibrationReady => {
                self.calibration_ready(calibration);
                WorkerDirective::ClearOutput
            },
            GnmWorkerInput::CalibrationInvalidated => {
                self.calibration_invalidated(calibration);
                WorkerDirective::ClearOutput
            },
            GnmWorkerInput::Frame(frame) => WorkerDirective::FitFrame(frame),
        }
    }

    /// Checks one offered frame against the fitter contract. A frame that fails
    /// is counted and dropped.
    pub fn admit_frame(
        &mut self,
        stamp: GnmFrameStamp,
        observation: &GnmDenseObservation,
        identity: &FixedGnmIdentity,
        model: &GnmModel,
        mapping: &DenseMappingVersion,
    ) -> (admitted: bool)
        requires
            old(self).counters().contract_errors < u64::MAX,
        ensures
            admitted == (frame_input_fault(stamp, *observation, None, *identity, *model, *mapping)
                is None),
            final(self).stored() == old(self).stored(),
            final(self).generation() == old(self).generation(),
            final(self).counters() == (if admitted {
                old(self).counters()
            } else {
                GnmFitterWorkerMetrics {
                    contract_errors: (old(self).counters().contract_errors + 1) as u64,
                    ..old(self).counters()
                }
            }),
    {
        match GnmSolverFrameInput::new(stamp, observation, None, identity, model, mapping) {
            Ok(_) => true,
            Err(_) => {
                self.metrics.contract_errors = self.metrics.contract_errors + 1;
                false
            },
        }
    }

    /// Starts the admitted frame under the lifecycle's answer to it.
    pub fn fit_frame(
        &mut self,
        stamp: GnmFrameStamp,
        decision: Result<PersistentGnmAction, PersistentGnmLifecycleError>,
    ) -> (step: FitStep)
        ensures
            is_admission(old(self).stored(), stamp, decision, step),
            final(self).counters() == old(self).counters(),
            final(self).generation() == old(self).generation(),
            final(self).stored() == (if decision
                == Ok::<PersistentGnmAction, PersistentGnmLifecycleError>(
                PersistentGnmAction::NoObservation { dynamic_state_cleared: true },
            ) {
                None
            } else {
                old(self).stored()
            }),
    {
        self.fitter.fit_frame(stamp, decision)
    }

    /// Ends the frame's solve under the lifecycle's answer to its verdict.
    ///
    /// # Errors
    ///
    /// Returns the failure that the solve ended in, or the lifecycle's.
    pub fn fit_reported(
        &mut self,
        report: PendingReport,
        decision: Result<PersistentGnmAction, PersistentGnmLifecycleError>,
    ) -> (result: Result<PersistentGnmFrameOutcome, PersistentGnmFitterError>)
        ensures
            result == reported_result(report, decision),
            is_stored_after(old(self).stored(), report, decision, final(self).stored()),
            final(self).counters() == old(self).counters(),
            final(self).generation() == old(self).generation(),
    {
        self.fitter.fit_reported(report, decision)
    }

    /// Records one frame: latency and replacements, then its outcome. Returns
    /// the state to publish, which is there only where the frame was published.
    pub fn handle_frame(
        &mut self,
        measurement: FitMeasurement,
        outcome: Result<PersistentGnmFrameOutcome, PersistentGnmFitterError>,
    ) -> (publish: Option<GnmFaceState>)
        requires
            old(self).counters().countable(),
            old(self).counters().replaced_during_fit + measurement.replaced() <= u64::MAX,
        ensures
            final(self).stored() == old(self).stored(),
            final(self).generation() == old(self).generation(),
            final(self).counters() == counted(
                timed(old(self).counters(), measurement),
                outcome,
                old(self).stored() is Some,
            ),
            old(self).counters().balanced() ==> final(self).counters().balanced(),
            match publish {
                Some(state) => {
                    &&& outcome matches Ok(PersistentGnmFrameOutcome::Solved(report))
                    &&& report.published
                    &&& old(self).stored() is Some
                    &&& state.source() == old(self).stored()->0.source()
                    &&& state.state().same(old(self).stored()->0.state())
                },
                None => !(outcome matches Ok(PersistentGnmFrameOutcome::Solved(report))
                    && report.published && old(self).stored() is Some),
            },
    {
        let latency: u64 = if measurement.elapsed_micros > u64::MAX as u128 {
            u64::MAX
        } else {
            measurement.elapsed_micros as u64
        };
        self.metrics.last_fit_latency_micros = latency;
        if latency >= self.metrics.max_fit_latency_micros {
            self.metrics.max_fit_latency_micros = latency;
        }
        self.metrics.replaced_during_fit =
        self.metrics.replaced_during_fit + measurement.overwritten_after.saturating_sub(
            measurement.overwritten_before,
        );
        match outcome {
            Ok(PersistentGnmFrameOutcome::SkippedUncalibrated) => {
                self.metrics.skipped_uncalibrated_frames =
                self.metrics.skipped_uncalibrated_frames + 1;
                None
            },
            Ok(PersistentGnmFrameOutcome::NoObservation { .. }) => {
                self.metrics.no_observation_frames = self.metrics.no_observation_frames + 1;
                None
            },
            Ok(PersistentGnmFrameOutcome::Solved(report)) => self.record_solve(report),
            Err(PersistentGnmFitterError::Contract(_)) => {
                self.metrics.contract_errors = self.metrics.contract_errors + 1;
                None
            },
            Err(PersistentGnmFitterError::MissingWarmStartState { .. }) => {
                self.metrics.contract_errors = self.metrics.contract_errors + 1;
                None
            },
            Err(PersistentGnmFitterError::Solve(_)) => {
                self.metrics.solve_errors = self.metrics.solve_errors + 1;
                None
            },
            Err(PersistentGnmFitterError::Lifecycle(_)) => {
                self.metrics.internal_errors = self.metrics.internal_errors + 1;
                None
            },
            Err(PersistentGnmFitterError::UnexpectedLifecycleAction { .. }) => {
                self.metrics.internal_errors = self.metrics.internal_errors + 1;
                None
            },
        }
    }

    fn record_solve(&mut self, report: GnmSolvedFrameReport) -> (publish: Option<GnmFaceState>)
        requires
            old(self).counters().countable(),
        ensures
            final(self).stored() == old(self).stored(),
            final(self).generation() == old(self).generation(),
            final(self).counters() == counted(
                old(self).counters(),
                Ok(PersistentGnmFrameOutcome::Solved(report)),
                old(self).stored() is Some,
            ),
            match publish {
                Some(state) => {
                    &&& report.published
                    &&& old(self).stored() is Some
                    &&& state.source() == old(self).stored()->0.source()
                    &&& state.state().same(old(self).stored()->0.state())
                },
                None => !(report.published && old(self).stored() is Some),
            },
    {
        self.metrics.solved_frames = self.metrics.solved_frames + 1;
        self.metrics.last_fit_iterations = report.iterations;
        let publish = if report.published {
            match self.fitter.validated() {
                Some(validated) => Some(
                    GnmFaceState {
                        stamp: validated.stamp(),
                        dynamic: validated.dynamic().duplicate(),
                    },
                ),
                None => None,
            }
        } else {
            None
        };
        if publish.is_some() {
            self.metrics.published_frames = self.metrics.published_frames + 1;
        } else {
            self.metrics.invalid_fits = self.metrics.invalid_fits + 1;
        }
        publish
    }

    /// Records that the output slot refused a state.
    pub fn publish_refused(&mut self)
        requires
            old(self).counters().internal_errors < u64::MAX,
        ensures
            final(self).stored() == old(self).stored(),
            final(self).generation() == old(self).generation(),
            final(self).counters() == (GnmFitterWorkerMetrics {
                internal_errors: (old(self).counters().internal_errors + 1) as u64,
                ..old(self).counters()
            }),
    {
        self.metrics.internal_errors = self.metrics.internal_errors + 1;
    }
}

/// Every solve is counted once, as published or as invalid, whatever the
/// outcomes of the frames are.
pub proof fn lemma_solves_stay_balanced(
    metrics: GnmFitterWorkerMetrics,
    measurement: FitMeasurement,
    outcome: Result<PersistentGnmFrameOutcome, PersistentGnmFitterError>,
    stored: bool,
)
    requires
        metrics.balanced(),
        metrics.countable(),
    ensures
        counted(timed(metrics, measurement), outcome, stored).balanced(),
{
}

/// The largest latency never falls, and is at least the last one.
pub proof fn lemma_largest_latency_grows(
    metrics: GnmFitterWorkerMetrics,
    measurement: FitMeasurement,
    outcome: Result<PersistentGnmFrameOutcome, PersistentGnmFitterError>,
    stored: bool,
)
    ensures
        ({
            let next = counted(timed(metrics, measurement), outcome, stored);
            &&& metrics.max_fit_latency_micros <= next.max_fit_latency_micros
            &&& next.last_fit_latency_micros <= next.max_fit_latency_micros
        }),
{
}

} // verus!
