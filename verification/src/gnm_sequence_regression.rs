//! Deterministic synthetic-sequence regression harness for the persistent GNM
//! fitter.
//!
//! The harness synthesizes dense observations along known GNM trajectories and
//! drives the same lifecycle and bounded-solve building blocks as the persistent
//! tracker under four configurations on the identical sequence:
//!
//! - [`SequenceFitMode::Cold`]: every solve starts from neutral dynamics plus
//!   rigid recovery against the current observation; no cross-frame reuse.
//! - [`SequenceFitMode::WarmStart`]: the lifecycle directive decides, so a valid
//!   previous state seeds the optimizer.
//! - [`SequenceFitMode::FixedTemporal`]: warm start plus a fixed bounded temporal
//!   penalty.
//! - [`SequenceFitMode::AdaptiveTemporal`]: warm start plus temporal weights that
//!   the adaptive strength policy produces per frame.
//!
//! There is no randomness and no clock access, so the same scenario, mode and
//! solver answers always give an equal [`SequenceRunReport`]. The lifecycle, the
//! solver and the strength policy run outside: each step takes what they answered
//! and says what comes next.

use vstd::prelude::*;
use vstd::string::*;

use crate::binary::{Binary32, Binary64};
use crate::gnm_fitter_contract::{usable_status, GnmDynamicState, GnmFitterContractError};
use crate::gnm_model::{
    DenseObservationStatus, DenseProjection, GnmDenseObservation, GnmFrameStamp, GnmReprojectionError,
};
use crate::gnm_persistent_fitter::{
    block_fault, dynamic_from_solver_output, is_solver_state, projection_of_dynamic, GnmFitInitialization,
    GnmFitOutcome, InitialDynamicValues, PersistentGnmAction, PersistentGnmLifecycleError, SolveStart,
    SolverOutcome,
};
use crate::gnm_sequence_fixture::{fixed_strengths, even_weights, TemporalGroupWeights};
use crate::linear_map::{all_finite, copy_numbers};
use crate::matrix::{sum_all, total};
use crate::text::{append_decimal, decimal};

verus! {

/// Fewest frames that the latency metrics need.
pub const MIN_FRAME_COUNT: usize = 12;

/// Smallest frame rate that the adaptive policy accepts (`4.0`).
pub const MIN_FPS_BITS: u64 = 0x4010_0000_0000_0000;

/// Microseconds per second (`1.0e6`).
pub const MICROS_PER_SECOND_BITS: u64 = 0x412e_8480_0000_0000;

/// Known synthetic trajectory driven by the harness.
#[derive(Clone, Copy, Debug, PartialEq, Eq, Structural)]
pub enum SequenceTrajectory {
    /// Constant expression and constant pose.
    Static,
    /// Expression ramps slowly from neutral to a strong target.
    SlowRamp,
    /// Expression holds a strong target and releases quickly.
    FastRelease,
    /// Low baseline expression with one short strong pulse (blink-like).
    BlinkPulse,
    /// Slow yaw ramp combined with an expression ramp.
    HeadPoseAndExpression,
}

/// Solver configuration under which one scenario run executes.
#[derive(Clone, Copy, Debug, PartialEq, Eq, Structural)]
pub enum SequenceFitMode {
    /// Neutral initialization every frame; no cross-frame reuse.
    Cold,
    /// Lifecycle-directed warm start from the previous valid state.
    WarmStart,
    /// Warm start plus a fixed bounded temporal penalty.
    FixedTemporal,
    /// Warm start plus adaptively weighted temporal penalties.
    AdaptiveTemporal,
}

/// Anomalies injected into a scenario timeline.
#[derive(Clone, Copy, Debug, PartialEq)]
pub struct SequenceAnomalies {
    /// Frame index receiving a geometrically displaced (outlier) observation.
    pub outlier_frame: Option<usize>,
    /// First frame of an observation dropout, if any.
    pub dropout_start_frame: Option<usize>,
    /// Number of consecutive dropped frames starting at the dropout start.
    pub dropout_length: usize,
    /// Extra timeline gap in microseconds inserted once after the last dropout
    /// frame. Values above the lifecycle reuse bound force a reacquisition and a
    /// temporal history reset.
    pub extra_gap_after_dropout_micros: u64,
}

/// No anomaly.
pub open spec fn no_anomalies() -> SequenceAnomalies {
    SequenceAnomalies {
        outlier_frame: None,
        dropout_start_frame: None,
        dropout_length: 0,
        extra_gap_after_dropout_micros: 0,
    }
}

impl Default for SequenceAnomalies {
    fn default() -> (anomalies: Self)
        ensures
            anomalies == no_anomalies(),
    {
        SequenceAnomalies {
            outlier_frame: None,
            dropout_start_frame: None,
            dropout_length: 0,
            extra_gap_after_dropout_micros: 0,
        }
    }
}

impl SequenceAnomalies {
    /// The frame after the last dropped one.
    pub open spec fn dropout_end(self) -> int {
        match self.dropout_start_frame {
            Some(start) => if start + self.dropout_length > usize::MAX {
                usize::MAX as int
            } else {
                start + self.dropout_length
            },
            None => 0,
        }
    }

    /// Whether a frame is dropped.
    pub open spec fn drops(self, index: int) -> bool {
        self.dropout_start_frame is Some && self.dropout_start_frame->0 <= index
            < self.dropout_end()
    }

    /// Whether a frame lies after the last of at least one dropped frame.
    pub open spec fn past_dropout(self, index: int) -> bool {
        self.dropout_start_frame is Some && self.dropout_start_frame->0 < self.dropout_end()
            <= index
    }

    /// The timeline gap before a frame.
    pub open spec fn gap_before(self, index: int) -> u64 {
        if self.past_dropout(index) {
            self.extra_gap_after_dropout_micros
        } else {
            0
        }
    }
}

/// Why a scenario or what came of it is not usable.
#[derive(Clone, Copy, Debug, PartialEq)]
pub enum ScenarioFault {
    /// Too few frames.
    FrameCount(usize),
    /// The frame rate is not finite or too low.
    FrameRate(Binary64),
    /// Frame count or frame rate of a run out of bounds.
    Bounds,
    /// The model rejected an identity or expression.
    State,
    /// The coverage policy constants are invalid.
    CoveragePolicy,
    /// No frame was published.
    NothingPublished,
    /// The solved pose does not form a dynamic block.
    PublishedPose(GnmFitterContractError),
    /// The solved camera does not form a dynamic block.
    PublishedCamera(GnmFitterContractError),
}

impl ScenarioFault {
    /// The message of the fault; `reason` is the frame rate in decimals, or the
    /// message of the model's own error.
    pub open spec fn text(self, reason: Seq<char>) -> Seq<char> {
        match self {
            ScenarioFault::FrameCount(count) => "frame_count "@ + decimal(count as nat)
                + " must be at least 12"@,
            ScenarioFault::FrameRate(_) => "fps "@ + reason + " must be finite and at least 4"@,
            ScenarioFault::Bounds => "frame_count must be >= 12 and fps finite >= 4"@,
            ScenarioFault::State => reason,
            ScenarioFault::CoveragePolicy => "coverage policy constants are invalid"@,
            ScenarioFault::NothingPublished => "no frames were published; cannot build a report"@,
            ScenarioFault::PublishedPose(error) => "published pose rejected: "@ + error.text(),
            ScenarioFault::PublishedCamera(error) => "published camera rejected: "@ + error.text(),
        }
    }

    /// The message of the fault.
    pub fn message(&self, reason: &str) -> (message: String)
        ensures
            message@ == self.text(reason@),
    {
        match self {
            ScenarioFault::FrameCount(count) => {
                let mut message = "frame_count ".to_owned();
                append_decimal(&mut message, *count as u64);
                message.append(" must be at least 12");
                message
            },
            ScenarioFault::FrameRate(_) => {
                let mut message = "fps ".to_owned();
                message.append(reason);
                message.append(" must be finite and at least 4");
                message
            },
            ScenarioFault::Bounds => "frame_count must be >= 12 and fps finite >= 4".to_owned(),
            ScenarioFault::State => reason.to_owned(),
            ScenarioFault::CoveragePolicy => "coverage policy constants are invalid".to_owned(),
            ScenarioFault::NothingPublished => {
                "no frames were published; cannot build a report".to_owned()
            },
            ScenarioFault::PublishedPose(error) => {
                let mut message = "published pose rejected: ".to_owned();
                let inner = error.message();
                message.append(inner.as_str());
                message
            },
            ScenarioFault::PublishedCamera(error) => {
                let mut message = "published camera rejected: ".to_owned();
                let inner = error.message();
                message.append(inner.as_str());
                message
            },
        }
    }
}

/// Typed failure of one scenario run.
#[derive(Clone, Copy, Debug, PartialEq)]
pub enum SequenceRegressionError {
    /// Scenario parameters violated the harness contract.
    InvalidScenario(ScenarioFault),
    /// The pinned GNM model schema rejected the synthetic fixture.
    Model(&'static str),
    /// Observation synthesis or contract validation failed.
    Synthesis(GnmReprojectionError),
    /// The lifecycle rejected an event; indicates harness/lifecycle drift.
    Lifecycle(PersistentGnmLifecycleError),
    /// The bounded solve failed.
    Solve(GnmReprojectionError),
    /// The adaptive temporal policy rejected its configuration or input.
    AdaptivePolicy(&'static str),
    /// A lifecycle directive referenced state the harness does not hold, which
    /// means harness bookkeeping drifted from the lifecycle.
    Bookkeeping {
        /// Source frame being processed when the drift appeared.
        stamp: GnmFrameStamp,
    },
}

impl SequenceRegressionError {
    /// The message of the error; `reason` is the message of what it carries (see
    /// [`ScenarioFault::text`] for a fault).
    pub open spec fn text(self, reason: Seq<char>) -> Seq<char> {
        match self {
            SequenceRegressionError::InvalidScenario(fault) => "invalid scenario: "@ + fault.text(
                reason,
            ),
            SequenceRegressionError::Model(_) => "synthetic model: "@ + reason,
            SequenceRegressionError::Synthesis(_) => "observation synthesis: "@ + reason,
            SequenceRegressionError::Lifecycle(_) => "lifecycle: "@ + reason,
            SequenceRegressionError::Solve(_) => "bounded solve: "@ + reason,
            SequenceRegressionError::AdaptivePolicy(_) => "adaptive policy: "@ + reason,
            SequenceRegressionError::Bookkeeping { stamp } => {
                "lifecycle directed warm start from source "@ + decimal(stamp.source_seq as nat)
                    + " but the harness holds no matching state"@
            },
        }
    }

    /// The message of the error.
    pub fn message(&self, reason: &str) -> (message: String)
        ensures
            message@ == self.text(reason@),
    {
        match self {
            SequenceRegressionError::InvalidScenario(fault) => {
                let mut message = "invalid scenario: ".to_owned();
                let inner = fault.message(reason);
                message.append(inner.as_str());
                message
            },
            SequenceRegressionError::Model(_) => prefixed("synthetic model: ", reason),
            SequenceRegressionError::Synthesis(_) => prefixed("observation synthesis: ", reason),
            SequenceRegressionError::Lifecycle(_) => prefixed("lifecycle: ", reason),
            SequenceRegressionError::Solve(_) => prefixed("bounded solve: ", reason),
            SequenceRegressionError::AdaptivePolicy(_) => prefixed("adaptive policy: ", reason),
            SequenceRegressionError::Bookkeeping { stamp } => {
                let mut message = "lifecycle directed warm start from source ".to_owned();
                append_decimal(&mut message, stamp.source_seq);
                message.append(" but the harness holds no matching state");
                message
            },
        }
    }
}

fn prefixed(prefix: &str, reason: &str) -> (message: String)
    ensures
        message@ == prefix@ + reason@,
{
    let mut message = prefix.to_owned();
    message.append(reason);
    message
}

/// Full specification of one synthetic sequence run.
#[derive(Clone, Copy, Debug, PartialEq)]
pub struct SequenceScenario {
    /// Trajectory driving the ground-truth states.
    pub trajectory: SequenceTrajectory,
    /// Number of source frames in the sequence.
    pub frame_count: usize,
    /// Nominal source frame rate in hertz; inter-frame time is `1 / fps`.
    pub fps: Binary64,
    /// Injected anomalies.
    pub anomalies: SequenceAnomalies,
}

/// A frame rate that the harness can run at.
pub open spec fn rate_usable(fps: Binary64) -> bool {
    fps.finite() && !fps.less(Binary64 { bits: MIN_FPS_BITS })
}

fn is_rate_usable(fps: Binary64) -> (usable: bool)
    ensures
        usable == rate_usable(fps),
{
    fps.is_finite() && !fps.is_less(Binary64::from_bits(MIN_FPS_BITS))
}

impl SequenceScenario {
    /// Creates a clean (anomaly-free) scenario.
    ///
    /// # Errors
    ///
    /// Rejects a frame count below the minimum required by the latency metrics,
    /// and a frame rate that is not finite or below four.
    pub fn new(trajectory: SequenceTrajectory, frame_count: usize, fps: Binary64) -> (result: Result<
        Self,
        SequenceRegressionError,
    >)
        ensures
            match result {
                Ok(scenario) => {
                    &&& frame_count >= MIN_FRAME_COUNT
                    &&& rate_usable(fps)
                    &&& scenario == (SequenceScenario {
                        trajectory,
                        frame_count,
                        fps,
                        anomalies: no_anomalies(),
                    })
                },
                Err(error) => {
                    if frame_count < MIN_FRAME_COUNT {
                        error == SequenceRegressionError::InvalidScenario(
                            ScenarioFault::FrameCount(frame_count),
                        )
                    } else {
                        &&& !rate_usable(fps)
                        &&& error == SequenceRegressionError::InvalidScenario(
                            ScenarioFault::FrameRate(fps),
                        )
                    }
                },
            },
    {
        if frame_count < MIN_FRAME_COUNT {
            return Err(
                SequenceRegressionError::InvalidScenario(ScenarioFault::FrameCount(frame_count)),
            );
        }
        if !is_rate_usable(fps) {
            return Err(SequenceRegressionError::InvalidScenario(ScenarioFault::FrameRate(fps)));
        }
        Ok(
            SequenceScenario {
                trajectory,
                frame_count,
                fps,
                anomalies: SequenceAnomalies::default(),
            },
        )
    }

    /// A run may start: enough frames at a usable rate.
    pub open spec fn runnable(self) -> bool {
        self.frame_count >= MIN_FRAME_COUNT && rate_usable(self.fps)
    }

    /// Microseconds between two frames.
    pub open spec fn frame_delta(self) -> u64 {
        Binary64 { bits: MICROS_PER_SECOND_BITS }.over(self.fps).rounded()
    }

    /// Capture time of a frame.
    pub open spec fn captured_at(self, index: int) -> u64 {
        let nominal = saturating_product(index, self.frame_delta() as int);
        saturating_total(nominal as int, self.anomalies.gap_before(index) as int)
    }
}

/// The product, or the largest integer where it does not fit.
pub open spec fn saturating_product(left: int, right: int) -> u64 {
    if left * right > u64::MAX {
        u64::MAX
    } else {
        (left * right) as u64
    }
}

/// The sum, or the largest integer where it does not fit.
pub open spec fn saturating_total(left: int, right: int) -> u64 {
    if left + right > u64::MAX {
        u64::MAX
    } else {
        (left + right) as u64
    }
}

/// Where the head is, and how far its mouth channel is driven.
#[derive(Clone, Copy, Debug, PartialEq)]
pub struct SequenceTruth {
    /// Yaw, pitch and roll.
    pub yaw_pitch_roll: [Binary32; 3],
    /// Driven expression channel.
    pub mouth: Binary32,
}

/// The binary32 number with these bits.
pub open spec fn number(bits: u32) -> Binary32 {
    Binary32 { bits }
}

/// How far through the sequence a frame lies.
pub open spec fn progress_of(index: int, frame_count: int) -> Binary32 {
    let last: nat = if frame_count <= 2 {
        1
    } else {
        (frame_count - 1) as nat
    };
    Binary32::of_integer(index as nat).over(Binary32::of_integer(last))
}

/// The middle of the pulse: four tenths of the sequence.
pub open spec fn pulse_center(frame_count: int) -> Binary32 {
    Binary32::of_integer(frame_count as nat).times(number(0x3ecc_cccd))
}

/// Logarithm of the pulse at a frame: a bell of width three.
pub open spec fn pulse_logarithm(index: int, frame_count: int) -> Binary32 {
    let offset = Binary32::of_integer(index as nat).minus(pulse_center(frame_count)).over(
        number(0x4040_0000),
    );
    offset.times(offset).negated()
}

/// How far the release has gone: six frames long after the hold.
pub open spec fn release_progress(frames: int) -> Binary32 {
    let share = Binary32::of_integer(frames as nat).over(number(0x40c0_0000));
    if number(0x3f80_0000).less(share) {
        number(0x3f80_0000)
    } else {
        share
    }
}

/// The driven channel at a frame; `pulse` is the exponential of
/// [`pulse_logarithm`].
pub open spec fn mouth_at(
    trajectory: SequenceTrajectory,
    index: int,
    frame_count: int,
    pulse: Binary32,
) -> Binary32 {
    let progress = progress_of(index, frame_count);
    match trajectory {
        SequenceTrajectory::Static => number(0x3f00_0000),
        SequenceTrajectory::SlowRamp => progress.times(number(0x3f4c_cccd)),
        SequenceTrajectory::FastRelease => {
            let hold_end = pulse_center(frame_count).rounded();
            if index < hold_end {
                number(0x3f4c_cccd)
            } else {
                number(0x3f4c_cccd).minus(
                    number(0x3f33_3333).times(release_progress(index - hold_end)),
                )
            }
        },
        SequenceTrajectory::BlinkPulse => number(0x3e19_999a).plus(
            number(0x3f40_0000).times(pulse),
        ),
        SequenceTrajectory::HeadPoseAndExpression => number(0x3e4c_cccd).plus(
            number(0x3f00_0000).times(progress),
        ),
    }
}

/// Yaw, pitch and roll at a frame.
pub open spec fn pose_at(trajectory: SequenceTrajectory, index: int, frame_count: int) -> Seq<
    Binary32,
> {
    if trajectory == SequenceTrajectory::HeadPoseAndExpression {
        seq![
            number(0xbe19_999a).plus(number(0x3e99_999a).times(progress_of(index, frame_count))),
            number(0xbda3_d70a),
            number(0x3d23_d70a),
        ]
    } else {
        seq![number(0x3e19_999a), number(0xbdcc_cccd), number(0x3d4c_cccd)]
    }
}

/// The logarithm of the pulse of a blink trajectory at a frame.
pub fn pulse_exponent(index: usize, frame_count: usize) -> (exponent: Binary32)
    ensures
        exponent == pulse_logarithm(index as int, frame_count as int),
{
    let center = Binary32::from_integer(frame_count as u64).product(
        Binary32::from_bits(0x3ecc_cccd),
    );
    let offset = Binary32::from_integer(index as u64).difference(center).quotient(
        Binary32::from_bits(0x4040_0000),
    );
    offset.product(offset).neg()
}

/// Ground truth for one frame: rigid pose and the driven expression channel.
/// `pulse` is the exponential of [`pulse_exponent`], which only a blink
/// trajectory reads.
pub fn truth_at(
    trajectory: SequenceTrajectory,
    index: usize,
    frame_count: usize,
    pulse: Binary32,
) -> (truth: SequenceTruth)
    ensures
        truth.yaw_pitch_roll@ == pose_at(trajectory, index as int, frame_count as int),
        truth.mouth == mouth_at(trajectory, index as int, frame_count as int, pulse),
{
    let last: u64 = if frame_count <= 2 {
        1
    } else {
        frame_count as u64 - 1
    };
    let progress = Binary32::from_integer(index as u64).quotient(Binary32::from_integer(last));
    let strong = Binary32::from_bits(0x3f4c_cccd);
    let steady: [Binary32; 3] = [
        Binary32::from_bits(0x3e19_999a),
        Binary32::from_bits(0xbdcc_cccd),
        Binary32::from_bits(0x3d4c_cccd),
    ];
    assert(steady@ =~= seq![number(0x3e19_999a), number(0xbdcc_cccd), number(0x3d4c_cccd)]);
    match trajectory {
        SequenceTrajectory::Static => SequenceTruth {
            yaw_pitch_roll: steady,
            mouth: Binary32::from_bits(0x3f00_0000),
        },
        SequenceTrajectory::SlowRamp => SequenceTruth {
            yaw_pitch_roll: steady,
            mouth: progress.product(strong),
        },
        SequenceTrajectory::FastRelease => {
            let hold_end: u64 = Binary32::from_integer(frame_count as u64).product(
                Binary32::from_bits(0x3ecc_cccd),
            ).round();
            let at: u64 = index as u64;
            let mouth = if at < hold_end {
                strong
            } else {
                let one = Binary32::from_bits(0x3f80_0000);
                let share = Binary32::from_integer(at - hold_end).quotient(
                    Binary32::from_bits(0x40c0_0000),
                );
                let release = if one.is_less(share) {
                    one
                } else {
                    share
                };
                strong.difference(Binary32::from_bits(0x3f33_3333).product(release))
            };
            SequenceTruth { yaw_pitch_roll: steady, mouth }
        },
        SequenceTrajectory::BlinkPulse => SequenceTruth {
            yaw_pitch_roll: steady,
            mouth: Binary32::from_bits(0x3e19_999a).sum(
                Binary32::from_bits(0x3f40_0000).product(pulse),
            ),
        },
        SequenceTrajectory::HeadPoseAndExpression => {
            let yaw = Binary32::from_bits(0xbe19_999a).sum(
                Binary32::from_bits(0x3e99_999a).product(progress),
            );
            let moving: [Binary32; 3] = [
                yaw,
                Binary32::from_bits(0xbda3_d70a),
                Binary32::from_bits(0x3d23_d70a),
            ];
            assert(moving@ =~= pose_at(trajectory, index as int, frame_count as int));
            SequenceTruth {
                yaw_pitch_roll: moving,
                mouth: Binary32::from_bits(0x3e4c_cccd).sum(
                    Binary32::from_bits(0x3f00_0000).product(progress),
                ),
            }
        },
    }
}

/// How the observation of a frame is made.
#[derive(Clone, Copy, Debug, PartialEq)]
pub enum ObservationPlan {
    /// Unusable: every landmark is missing.
    Missing,
    /// The synthetic head, driven as the truth says, seen through a projection.
    Projected(DenseProjection),
}

/// Whether a frame counts as observed: its coverage is valid or degraded.
pub fn is_observation_available(observation: &GnmDenseObservation) -> (available: bool)
    ensures
        available == usable_status(observation.status),
{
    match observation.status {
        DenseObservationStatus::Valid => true,
        DenseObservationStatus::Degraded => true,
        DenseObservationStatus::Insufficient => false,
    }
}

/// One frame of the timeline.
#[derive(Clone, Copy, Debug, PartialEq)]
pub struct SequenceFrame {
    /// Source frame.
    pub stamp: GnmFrameStamp,
    /// Ground truth.
    pub truth: SequenceTruth,
    /// Observation.
    pub plan: ObservationPlan,
}

/// The stamp of a frame: sequences count from one.
pub open spec fn stamp_of(scenario: SequenceScenario, index: int) -> GnmFrameStamp {
    GnmFrameStamp {
        source_seq: (index + 1) as u64,
        captured_at_micros: scenario.captured_at(index),
    }
}

/// The projection is the head at `pose`, or displaced from there.
pub open spec fn is_view(projection: DenseProjection, pose: Seq<Binary32>, displaced: bool) -> bool {
    &&& projection.yaw_pitch_roll@ == (if displaced {
        seq![
            pose[0].plus(number(0x3e80_0000)),
            pose[1].plus(number(0x3d4c_cccd)),
            pose[2].minus(number(0x3cf5_c28f)),
        ]
    } else {
        pose
    })
    &&& projection.translation@ == seq![
        if displaced {
            number(0x3d8f_5c29)
        } else {
            number(0x3ca3_d70a)
        },
        number(0xbcf5_c28f),
        number(0x3f19_999a),
    ]
    &&& projection.focal == number(0x3fa6_6666)
    &&& projection.principal_point@ == seq![number(0x3f00_0000), number(0x3f00_0000)]
}

fn view_of(pose: [Binary32; 3], displaced: bool) -> (result: Result<
    DenseProjection,
    GnmReprojectionError,
>)
    ensures
        match result {
            Ok(projection) => is_view(projection, pose@, displaced) && projection.usable(),
            Err(error) => {
                &&& error == GnmReprojectionError::InvalidProjection(
                    "projection must be finite with a positive focal length",
                )
                &&& exists|projection: DenseProjection| #[trigger]
                    is_view(projection, pose@, displaced) && !projection.usable()
            },
        },
{
    let angles: [Binary32; 3] = if displaced {
        [
            pose[0].sum(Binary32::from_bits(0x3e80_0000)),
            pose[1].sum(Binary32::from_bits(0x3d4c_cccd)),
            pose[2].difference(Binary32::from_bits(0x3cf5_c28f)),
        ]
    } else {
        pose
    };
    let lateral = if displaced {
        Binary32::from_bits(0x3d8f_5c29)
    } else {
        Binary32::from_bits(0x3ca3_d70a)
    };
    let translation: [Binary32; 3] = [
        lateral,
        Binary32::from_bits(0xbcf5_c28f),
        Binary32::from_bits(0x3f19_999a),
    ];
    let center: [Binary32; 2] = [Binary32::from_bits(0x3f00_0000), Binary32::from_bits(0x3f00_0000)];
    let focal = Binary32::from_bits(0x3fa6_6666);
    proof {
        let projection = DenseProjection {
            yaw_pitch_roll: angles,
            translation,
            focal,
            principal_point: center,
        };
        if displaced {
            assert(angles@ =~= seq![
                pose@[0].plus(number(0x3e80_0000)),
                pose@[1].plus(number(0x3d4c_cccd)),
                pose@[2].minus(number(0x3cf5_c28f)),
            ]);
        }
        assert(translation@ =~= seq![
            if displaced {
                number(0x3d8f_5c29)
            } else {
                number(0x3ca3_d70a)
            },
            number(0xbcf5_c28f),
            number(0x3f19_999a),
        ]);
        assert(center@ =~= seq![number(0x3f00_0000), number(0x3f00_0000)]);
        assert(is_view(projection, pose@, displaced));
    }
    DenseProjection::new(angles, translation, focal, center)
}

/// The plan of a frame.
pub open spec fn is_planned(
    scenario: SequenceScenario,
    index: usize,
    pulse: Binary32,
    result: Result<SequenceFrame, SequenceRegressionError>,
) -> bool {
    let pose = pose_at(scenario.trajectory, index as int, scenario.frame_count as int);
    let displaced = scenario.anomalies.outlier_frame == Some(index);
    match result {
        Ok(frame) => {
            &&& frame.stamp == stamp_of(scenario, index as int)
            &&& frame.truth.yaw_pitch_roll@ == pose
            &&& frame.truth.mouth == mouth_at(
                scenario.trajectory,
                index as int,
                scenario.frame_count as int,
                pulse,
            )
            &&& match frame.plan {
                ObservationPlan::Missing => scenario.anomalies.drops(index as int),
                ObservationPlan::Projected(projection) => {
                    &&& !scenario.anomalies.drops(index as int)
                    &&& is_view(projection, pose, displaced)
                    &&& projection.usable()
                },
            }
        },
        Err(error) => {
            &&& !scenario.anomalies.drops(index as int)
            &&& error == SequenceRegressionError::Synthesis(
                GnmReprojectionError::InvalidProjection(
                    "projection must be finite with a positive focal length",
                ),
            )
            &&& exists|projection: DenseProjection| #[trigger]
                is_view(projection, pose, displaced) && !projection.usable()
        },
    }
}

impl SequenceScenario {
    /// Capture time of a frame.
    fn capture_time(&self, index: usize) -> (micros: u64)
        ensures
            micros == self.captured_at(index as int),
    {
        let delta: u64 = Binary64::from_bits(MICROS_PER_SECOND_BITS).quotient(self.fps).round();
        let nominal: u64 = match (index as u64).checked_mul(delta) {
            Some(nominal) => nominal,
            None => u64::MAX,
        };
        let gap: u64 = match self.anomalies.dropout_start_frame {
            Some(start) => {
                let end: usize = start.saturating_add(self.anomalies.dropout_length);
                if start < end && end <= index {
                    self.anomalies.extra_gap_after_dropout_micros
                } else {
                    0
                }
            },
            None => 0,
        };
        nominal.saturating_add(gap)
    }

    /// Whether a frame is dropped.
    fn is_dropped(&self, index: usize) -> (dropped: bool)
        ensures
            dropped == self.anomalies.drops(index as int),
    {
        match self.anomalies.dropout_start_frame {
            Some(start) => {
                let end: usize = start.saturating_add(self.anomalies.dropout_length);
                start <= index && index < end
            },
            None => false,
        }
    }

    /// Plans one frame; `pulse` is the exponential of [`pulse_exponent`].
    ///
    /// # Errors
    ///
    /// Rejects a frame whose projection is not usable.
    pub fn plan_frame(&self, index: usize, pulse: Binary32) -> (result: Result<
        SequenceFrame,
        SequenceRegressionError,
    >)
        requires
            index < self.frame_count,
        ensures
            is_planned(*self, index, pulse, result),
    {
        let stamp = GnmFrameStamp {
            source_seq: index as u64 + 1,
            captured_at_micros: self.capture_time(index),
        };
        let truth = truth_at(self.trajectory, index, self.frame_count, pulse);
        if self.is_dropped(index) {
            return Ok(SequenceFrame { stamp, truth, plan: ObservationPlan::Missing });
        }
        let displaced = match self.anomalies.outlier_frame {
            Some(outlier) => outlier == index,
            None => false,
        };
        assert(displaced == (self.anomalies.outlier_frame == Some(index)));
        assert(truth.yaw_pitch_roll@ == pose_at(
            self.trajectory,
            index as int,
            self.frame_count as int,
        ));
        match view_of(truth.yaw_pitch_roll, displaced) {
            Ok(projection) => Ok(
                SequenceFrame { stamp, truth, plan: ObservationPlan::Projected(projection) },
            ),
            Err(error) => Err(SequenceRegressionError::Synthesis(error)),
        }
    }
}

/// Owned temporal-history entry for one published valid state.
#[derive(Clone, Debug, PartialEq)]
pub struct HistoryEntry {
    /// Source frame.
    pub stamp: GnmFrameStamp,
    /// Expression coefficients.
    pub expression: Vec<Binary32>,
    /// Joint rotations one after the other, then the global translation.
    pub joints: Vec<Binary32>,
    /// Yaw, pitch and roll.
    pub head_pose: [Binary32; 3],
    /// Camera translation.
    pub translation: [Binary32; 3],
}

/// The first `n` rotations one after the other.
pub open spec fn flattened(rotations: Seq<[Binary32; 3]>, n: int) -> Seq<Binary32>
    decreases n,
{
    if n <= 0 {
        Seq::empty()
    } else {
        flattened(rotations, n - 1) + rotations[n - 1]@
    }
}

impl HistoryEntry {
    /// The entry holds a dynamic state.
    pub open spec fn holds(self, stamp: GnmFrameStamp, dynamic: GnmDynamicState) -> bool {
        &&& self.stamp == stamp
        &&& self.expression@ == dynamic.expression.values@
        &&& self.joints@ == flattened(
            dynamic.joints.rotations@,
            dynamic.joints.rotations@.len() as int,
        ) + dynamic.joints.translation@
        &&& self.head_pose == dynamic.rigid_pose.angles()
        &&& self.translation == dynamic.camera.offset()
    }

    /// Copies a dynamic state.
    pub fn from_dynamic(stamp: GnmFrameStamp, dynamic: &GnmDynamicState) -> (entry: Self)
        ensures
            entry.holds(stamp, *dynamic),
    {
        let mut joints: Vec<Binary32> = Vec::new();
        for i in 0..dynamic.joints.rotations.len()
            invariant
                joints@ == flattened(dynamic.joints.rotations@, i as int),
        {
            let rotation: [Binary32; 3] = dynamic.joints.rotations[i];
            joints.push(rotation[0]);
            joints.push(rotation[1]);
            joints.push(rotation[2]);
            assert(joints@ =~= flattened(dynamic.joints.rotations@, (i + 1) as int));
        }
        joints.push(dynamic.joints.translation[0]);
        joints.push(dynamic.joints.translation[1]);
        joints.push(dynamic.joints.translation[2]);
        assert(joints@ =~= flattened(
            dynamic.joints.rotations@,
            dynamic.joints.rotations@.len() as int,
        ) + dynamic.joints.translation@);
        HistoryEntry {
            stamp,
            expression: copy_numbers(&dynamic.expression.values),
            joints,
            head_pose: dynamic.rigid_pose.yaw_pitch_roll(),
            translation: dynamic.camera.translation(),
        }
    }
}

/// A published state with its source frame.
#[derive(Clone, Debug, PartialEq)]
pub struct PublishedState {
    /// Source frame.
    pub stamp: GnmFrameStamp,
    /// Dynamic state.
    pub dynamic: GnmDynamicState,
}

/// State of the adaptive strength policy.
#[derive(Clone, Copy, Debug, PartialEq, Eq, Structural)]
pub struct AdaptiveTemporalState {
    /// Strengths that the policy arrived at.
    pub weights: TemporalGroupWeights,
}

/// Input of the adaptive strength policy. Observations count as healthy, and
/// report no quality.
#[derive(Clone, Copy, Debug, PartialEq, Eq, Structural)]
pub struct AdaptiveTemporalInput {
    /// Nominal time between frames in seconds.
    pub dt_seconds: Binary64,
    /// Expression motion in units per second.
    pub expression_motion: Binary64,
    /// Rigid motion in units per second.
    pub rigid_motion: Binary64,
}

/// Where the strengths of the temporal penalty come from.
#[derive(Clone, Copy, Debug, PartialEq, Eq, Structural)]
pub enum PenaltyStrength {
    /// No temporal penalty.
    Off,
    /// Given strengths.
    Fixed(TemporalGroupWeights),
    /// The strengths that the adaptive policy answers on this input; see
    /// [`RunState::adaptive_advanced`].
    Adaptive(AdaptiveTemporalInput),
}

/// Times between the published states of the history.
#[derive(Clone, Copy, Debug, PartialEq)]
pub struct TemporalHistoryTiming {
    /// From the last published state to this frame, in seconds.
    pub dt_seconds: Binary64,
    /// Between the last two published states, in seconds.
    pub previous_dt_seconds: Option<Binary64>,
}

/// A bounded solve that has to run.
#[derive(Clone, Debug, PartialEq)]
pub struct DirectedSolve {
    /// Source frame.
    pub stamp: GnmFrameStamp,
    /// Initial values.
    pub start: SolveStart,
    /// Strengths of the temporal penalty.
    pub strength: PenaltyStrength,
    /// Timing of the history that the penalty is built on; without it the solve
    /// runs without temporal energy.
    pub timing: Option<TemporalHistoryTiming>,
}

/// What comes next for a frame.
#[derive(Clone, Debug, PartialEq)]
pub enum SequenceStep {
    /// The frame is done.
    Done,
    /// Run one bounded solve, then call [`RunState::solve_finished`].
    Solve(DirectedSolve),
}

/// One published frame retained for report computation.
#[derive(Clone, Copy, Debug, PartialEq)]
pub struct ObservedSample {
    /// Source frame sequence.
    pub source_seq: u64,
    /// Iterations that the solve took.
    pub iterations: usize,
    /// Fitted expression channel.
    pub expression_channel0: Binary32,
    /// Fitted pose.
    pub yaw_pitch_roll: [Binary32; 3],
    /// True expression channel.
    pub truth_expression_channel0: Binary32,
    /// True pose.
    pub truth_yaw_pitch_roll: [Binary32; 3],
}

/// Mutable state threaded through the run loop.
#[derive(Debug)]
pub struct RunState {
    /// Last published state.
    pub published: Option<PublishedState>,
    /// Last entry of the temporal history.
    pub history_previous: Option<HistoryEntry>,
    /// Entry before the last.
    pub history_previous_previous: Option<HistoryEntry>,
    /// State of the adaptive policy.
    pub adaptive_state: Option<AdaptiveTemporalState>,
    /// Published frames.
    pub samples: Vec<ObservedSample>,
    /// Frames whose observation was unusable.
    pub no_observation_frames: usize,
    /// Temporal history resets forced by long gaps.
    pub temporal_history_resets: usize,
}

/// Seconds from one time to another; none where the second lies before.
pub open spec fn seconds_between(earlier: u64, later: u64) -> Binary64 {
    let micros: nat = if later < earlier {
        0
    } else {
        (later - earlier) as nat
    };
    Binary64::of_integer(micros).over(Binary64 { bits: MICROS_PER_SECOND_BITS })
}

fn elapsed_seconds(earlier: u64, later: u64) -> (seconds: Binary64)
    ensures
        seconds == seconds_between(earlier, later),
{
    Binary64::from_integer(later.saturating_sub(earlier)).quotient(
        Binary64::from_bits(MICROS_PER_SECOND_BITS),
    )
}

/// Absolute differences of two lists, as far as both go.
pub open spec fn changes(now: Seq<Binary32>, before: Seq<Binary32>) -> Seq<Binary64> {
    let count = if now.len() < before.len() {
        now.len()
    } else {
        before.len()
    };
    Seq::new(count, |i: int| now[i].minus(before[i]).absolute().widened())
}

fn list_changes(now: &[Binary32], before: &[Binary32]) -> (list: Vec<Binary64>)
    ensures
        list@ == changes(now@, before@),
{
    let count: usize = if now.len() < before.len() {
        now.len()
    } else {
        before.len()
    };
    let mut list: Vec<Binary64> = Vec::new();
    for i in 0..count
        invariant
            count <= now@.len(),
            count <= before@.len(),
            list@.len() == i,
            forall|j: int|
                0 <= j < i ==> #[trigger] list@[j] == now@[j].minus(
                    before@[j],
                ).absolute().widened(),
    {
        list.push(now[i].difference(before[i]).abs().widen());
    }
    assert(list@ =~= changes(now@, before@));
    list
}

/// The larger of two numbers; a NaN gives way.
pub open spec fn larger(left: Binary64, right: Binary64) -> Binary64 {
    if left.nan() || left.less(right) {
        right
    } else {
        left
    }
}

/// The largest of the first `n` numbers, at least zero.
pub open spec fn largest_of(numbers: Seq<Binary64>, n: int) -> Binary64
    decreases n,
{
    if n <= 0 {
        Binary64 { bits: 0 }
    } else {
        larger(largest_of(numbers, n - 1), numbers[n - 1])
    }
}

fn find_largest(numbers: &Vec<Binary64>) -> (largest: Binary64)
    ensures
        largest == largest_of(numbers@, numbers@.len() as int),
{
    let mut largest = Binary64::zero();
    for i in 0..numbers.len()
        invariant
            largest == largest_of(numbers@, i as int),
    {
        if largest.is_nan() || largest.is_less(numbers[i]) {
            largest = numbers[i];
        }
    }
    largest
}

/// Expression and rigid motion between the last two published states, in units
/// per second; none without two states or without time between them.
pub open spec fn motions(
    current: Option<HistoryEntry>,
    previous: Option<HistoryEntry>,
) -> (Binary64, Binary64) {
    let still = (Binary64 { bits: 0 }, Binary64 { bits: 0 });
    if current is None || previous is None {
        still
    } else {
        let now = current->0;
        let before = previous->0;
        let dt = seconds_between(before.stamp.captured_at_micros, now.stamp.captured_at_micros);
        if dt.at_most(Binary64 { bits: 0 }) || !dt.finite() {
            still
        } else {
            let poses = changes(now.head_pose@, before.head_pose@);
            (
                total(changes(now.expression@, before.expression@)).over(dt),
                largest_of(poses, poses.len() as int).over(dt),
            )
        }
    }
}

/// Input of the adaptive policy.
pub open spec fn adaptive_input(
    fps: Binary64,
    current: Option<HistoryEntry>,
    previous: Option<HistoryEntry>,
) -> AdaptiveTemporalInput {
    AdaptiveTemporalInput {
        dt_seconds: Binary64 { bits: 0x3ff0_0000_0000_0000 }.over(fps),
        expression_motion: motions(current, previous).0,
        rigid_motion: motions(current, previous).1,
    }
}

/// Where the strengths come from in a mode.
pub open spec fn strength_of(state: RunState, mode: SequenceFitMode, fps: Binary64) -> PenaltyStrength {
    match mode {
        SequenceFitMode::Cold | SequenceFitMode::WarmStart => PenaltyStrength::Off,
        SequenceFitMode::FixedTemporal => PenaltyStrength::Fixed(
            even_weights(Binary64 { bits: 0x3fe0_0000_0000_0000 }),
        ),
        SequenceFitMode::AdaptiveTemporal => PenaltyStrength::Adaptive(
            adaptive_input(fps, state.history_previous, state.history_previous_previous),
        ),
    }
}

/// The timing of the history that a penalty is built on.
pub open spec fn timing_of(
    state: RunState,
    strength: PenaltyStrength,
    stamp: GnmFrameStamp,
) -> Option<TemporalHistoryTiming> {
    if strength is Off || state.history_previous is None {
        None
    } else {
        let previous = state.history_previous->0.stamp.captured_at_micros;
        Some(
            TemporalHistoryTiming {
                dt_seconds: seconds_between(previous, stamp.captured_at_micros),
                previous_dt_seconds: match state.history_previous_previous {
                    Some(entry) => Some(seconds_between(entry.stamp.captured_at_micros, previous)),
                    None => None,
                },
            },
        )
    }
}

/// The directive that a mode follows: a cold run never reuses a state.
pub open spec fn effective(
    mode: SequenceFitMode,
    initialization: GnmFitInitialization,
) -> GnmFitInitialization {
    if mode == SequenceFitMode::Cold {
        GnmFitInitialization::ReinitializeDynamicState
    } else {
        initialization
    }
}

/// The published state is the one that a warm start names.
pub open spec fn holds_source(state: RunState, source: GnmFrameStamp) -> bool {
    state.published is Some && state.published->0.stamp == source
}

/// What comes next once a solve was directed.
pub open spec fn is_directed(
    state: RunState,
    stamp: GnmFrameStamp,
    mode: SequenceFitMode,
    fps: Binary64,
    initialization: GnmFitInitialization,
    result: Result<SequenceStep, SequenceRegressionError>,
) -> bool {
    match (initialization, result) {
        (
            GnmFitInitialization::PreviousValid { source },
            Err(error),
        ) => !holds_source(state, source) && error == (SequenceRegressionError::Bookkeeping {
            stamp,
        }),
        (_, Ok(SequenceStep::Solve(solve))) => {
            &&& solve.stamp == stamp
            &&& solve.strength == strength_of(state, mode, fps)
            &&& solve.timing == timing_of(state, solve.strength, stamp)
            &&& match initialization {
                GnmFitInitialization::PreviousValid { source } => {
                    &&& holds_source(state, source)
                    &&& solve.start is Warm
                    &&& solve.start->Warm_0.repeats(state.published->0.dynamic)
                },
                _ => solve.start == SolveStart::Recovered,
            }
        },
        _ => false,
    }
}

/// What comes next once the lifecycle answered a source frame.
pub open spec fn is_step(
    state: RunState,
    stamp: GnmFrameStamp,
    mode: SequenceFitMode,
    fps: Binary64,
    decision: Result<PersistentGnmAction, PersistentGnmLifecycleError>,
    result: Result<SequenceStep, SequenceRegressionError>,
) -> bool {
    match decision {
        Err(error) => result == Err::<SequenceStep, _>(SequenceRegressionError::Lifecycle(error)),
        Ok(PersistentGnmAction::SkipUncalibratedFrame)
        | Ok(PersistentGnmAction::NoObservation { .. }) => {
            result == Ok::<_, SequenceRegressionError>(SequenceStep::Done)
        },
        Ok(PersistentGnmAction::StartFit { initialization }) => is_directed(
            state,
            stamp,
            mode,
            fps,
            effective(mode, initialization),
            result,
        ),
        _ => result == Err::<SequenceStep, _>(SequenceRegressionError::Bookkeeping { stamp }),
    }
}

/// The state after a source frame: a frame without an observation is counted,
/// and clears everything where the lifecycle says so.
pub open spec fn is_state_after(
    before: RunState,
    decision: Result<PersistentGnmAction, PersistentGnmLifecycleError>,
    after: RunState,
) -> bool {
    match decision {
        Ok(PersistentGnmAction::NoObservation { dynamic_state_cleared }) => {
            &&& after.no_observation_frames == before.no_observation_frames + 1
            &&& after.samples == before.samples
            &&& after.temporal_history_resets == before.temporal_history_resets
            &&& if dynamic_state_cleared {
                &&& after.published is None
                &&& after.history_previous is None
                &&& after.history_previous_previous is None
                &&& after.adaptive_state is None
            } else {
                &&& after.published == before.published
                &&& after.history_previous == before.history_previous
                &&& after.history_previous_previous == before.history_previous_previous
                &&& after.adaptive_state == before.adaptive_state
            }
        },
        _ => after == before,
    }
}

/// Nothing is held or retained any more, except what was counted and sampled,
/// and the adaptive policy's state.
pub open spec fn is_lost(before: RunState, after: RunState) -> bool {
    &&& after.published is None
    &&& after.history_previous is None
    &&& after.history_previous_previous is None
    &&& after.adaptive_state == before.adaptive_state
    &&& after.samples == before.samples
    &&& after.no_observation_frames == before.no_observation_frames
    &&& after.temporal_history_resets == before.temporal_history_resets
}

/// The fitted channel: the first expression coefficient.
pub open spec fn first_channel(expression: Seq<Binary32>) -> Binary32 {
    if expression.len() == 0 {
        number(0x7fc0_0000)
    } else {
        expression[0]
    }
}

/// The sample of a published solve.
pub open spec fn sample_of(
    stamp: GnmFrameStamp,
    truth: SequenceTruth,
    outcome: SolverOutcome,
) -> ObservedSample {
    ObservedSample {
        source_seq: stamp.source_seq,
        iterations: outcome.iterations,
        expression_channel0: first_channel(outcome.expression.values@),
        yaw_pitch_roll: outcome.projection.yaw_pitch_roll,
        truth_expression_channel0: truth.mouth,
        truth_yaw_pitch_roll: truth.yaw_pitch_roll,
    }
}

/// The history without stale entries.
pub open spec fn kept_history(before: RunState, reset: bool) -> Option<HistoryEntry> {
    if reset {
        None
    } else {
        before.history_previous
    }
}

/// What a published solve leaves behind.
pub open spec fn is_recorded(
    before: RunState,
    stamp: GnmFrameStamp,
    truth: SequenceTruth,
    outcome: SolverOutcome,
    reset: bool,
    after: RunState,
) -> bool {
    &&& after.published is Some
    &&& after.published->0.stamp == stamp
    &&& is_solver_state(
        outcome.projection,
        outcome.expression,
        outcome.joints,
        after.published->0.dynamic,
    )
    &&& after.history_previous is Some
    &&& after.history_previous->0.holds(stamp, after.published->0.dynamic)
    &&& after.history_previous_previous == kept_history(before, reset)
    &&& after.adaptive_state == before.adaptive_state
    &&& after.samples@ == before.samples@.push(sample_of(stamp, truth, outcome))
    &&& after.no_observation_frames == before.no_observation_frames
    &&& after.temporal_history_resets == before.temporal_history_resets + (if reset {
        1int
    } else {
        0
    })
}

/// The solved projection does not form dynamic blocks.
pub open spec fn publication_fault(projection: DenseProjection) -> Option<ScenarioFault> {
    match block_fault(projection) {
        None => None,
        Some(error) => if !all_finite(projection.yaw_pitch_roll@) {
            Some(ScenarioFault::PublishedPose(error))
        } else {
            Some(ScenarioFault::PublishedCamera(error))
        },
    }
}

/// What a published solve leaves behind whose projection is rejected.
pub open spec fn is_rejected_publication(before: RunState, reset: bool, after: RunState) -> bool {
    &&& after.published == before.published
    &&& after.history_previous == kept_history(before, reset)
    &&& after.history_previous_previous == (if reset {
        None
    } else {
        before.history_previous_previous
    })
    &&& after.adaptive_state == before.adaptive_state
    &&& after.samples == before.samples
    &&& after.no_observation_frames == before.no_observation_frames
    &&& after.temporal_history_resets == before.temporal_history_resets + (if reset {
        1int
    } else {
        0
    })
}

/// How a frame ends once the lifecycle answered the verdict on its solve.
pub open spec fn is_finished(
    before: RunState,
    stamp: GnmFrameStamp,
    truth: SequenceTruth,
    outcome: SolverOutcome,
    reset: bool,
    decision: Result<PersistentGnmAction, PersistentGnmLifecycleError>,
    result: Result<(), SequenceRegressionError>,
    after: RunState,
) -> bool {
    match decision {
        Err(error) => {
            &&& result == Err::<(), _>(SequenceRegressionError::Lifecycle(error))
            &&& after == before
        },
        Ok(PersistentGnmAction::PublishCurrentFit) => match publication_fault(outcome.projection) {
            None => result is Ok && is_recorded(before, stamp, truth, outcome, reset, after),
            Some(fault) => {
                &&& result == Err::<(), _>(SequenceRegressionError::InvalidScenario(fault))
                &&& is_rejected_publication(before, reset, after)
            },
        },
        Ok(PersistentGnmAction::RejectInvalidFit) => result is Ok && after == before,
        Ok(PersistentGnmAction::RejectInvalidFitAndLose) => result is Ok && is_lost(before, after),
        _ => {
            &&& result == Err::<(), _>(SequenceRegressionError::Bookkeeping { stamp })
            &&& after == before
        },
    }
}

/// The verdict on a solve.
pub fn fit_outcome(outcome: &SolverOutcome) -> (verdict: GnmFitOutcome)
    ensures
        verdict == (if outcome.valid {
            GnmFitOutcome::Valid
        } else {
            GnmFitOutcome::Invalid
        }),
{
    if outcome.valid {
        GnmFitOutcome::Valid
    } else {
        GnmFitOutcome::Invalid
    }
}

impl RunState {
    /// Starts a run.
    ///
    /// # Errors
    ///
    /// Rejects a scenario with too few frames or an unusable frame rate.
    pub fn start(scenario: &SequenceScenario) -> (result: Result<Self, SequenceRegressionError>)
        ensures
            match result {
                Ok(state) => {
                    &&& scenario.runnable()
                    &&& state.published is None
                    &&& state.history_previous is None
                    &&& state.history_previous_previous is None
                    &&& state.adaptive_state is None
                    &&& state.samples@ == Seq::<ObservedSample>::empty()
                    &&& state.no_observation_frames == 0
                    &&& state.temporal_history_resets == 0
                },
                Err(error) => {
                    &&& !scenario.runnable()
                    &&& error == SequenceRegressionError::InvalidScenario(ScenarioFault::Bounds)
                },
            },
    {
        if scenario.frame_count < MIN_FRAME_COUNT || !is_rate_usable(scenario.fps) {
            return Err(SequenceRegressionError::InvalidScenario(ScenarioFault::Bounds));
        }
        Ok(
            RunState {
                published: None,
                history_previous: None,
                history_previous_previous: None,
                adaptive_state: None,
                samples: Vec::new(),
                no_observation_frames: 0,
                temporal_history_resets: 0,
            },
        )
    }

    fn adaptive_request(&self, fps: Binary64) -> (input: AdaptiveTemporalInput)
        ensures
            input == adaptive_input(fps, self.history_previous, self.history_previous_previous),
    {
        let one = Binary64::from_bits(0x3ff0_0000_0000_0000);
        let zero = Binary64::zero();
        let dt_seconds = one.quotient(fps);
        let still = AdaptiveTemporalInput {
            dt_seconds,
            expression_motion: zero,
            rigid_motion: zero,
        };
        match (&self.history_previous, &self.history_previous_previous) {
            (Some(now), Some(before)) => {
                let dt = elapsed_seconds(
                    before.stamp.captured_at_micros,
                    now.stamp.captured_at_micros,
                );
                if dt.is_at_most(zero) || !dt.is_finite() {
                    return still;
                }
                let expression = list_changes(
                    now.expression.as_slice(),
                    before.expression.as_slice(),
                );
                let pose = list_changes(now.head_pose.as_slice(), before.head_pose.as_slice());
                AdaptiveTemporalInput {
                    dt_seconds,
                    expression_motion: sum_all(&expression).quotient(dt),
                    rigid_motion: find_largest(&pose).quotient(dt),
                }
            },
            _ => still,
        }
    }

    fn timing(&self, stamp: GnmFrameStamp) -> (timing: Option<TemporalHistoryTiming>)
        ensures
            forall|strength: PenaltyStrength|
                !(strength is Off) ==> #[trigger] timing_of(*self, strength, stamp) == timing,
    {
        match &self.history_previous {
            None => None,
            Some(previous) => {
                let dt_seconds = elapsed_seconds(
                    previous.stamp.captured_at_micros,
                    stamp.captured_at_micros,
                );
                let previous_dt_seconds = match &self.history_previous_previous {
                    Some(entry) => Some(
                        elapsed_seconds(
                            entry.stamp.captured_at_micros,
                            previous.stamp.captured_at_micros,
                        ),
                    ),
                    None => None,
                };
                Some(TemporalHistoryTiming { dt_seconds, previous_dt_seconds })
            },
        }
    }

    /// Directs the bounded solve of an admitted frame: where it starts from and
    /// which temporal penalty it carries.
    ///
    /// # Errors
    ///
    /// Fails closed where a warm start names a state that is not held.
    pub fn solve_directed_frame(
        &self,
        stamp: GnmFrameStamp,
        mode: SequenceFitMode,
        fps: Binary64,
        initialization: GnmFitInitialization,
    ) -> (result: Result<SequenceStep, SequenceRegressionError>)
        ensures
            is_directed(*self, stamp, mode, fps, initialization, result),
    {
        let start = match initialization {
            GnmFitInitialization::NeutralFirstFit
            | GnmFitInitialization::ReinitializeDynamicState => SolveStart::Recovered,
            GnmFitInitialization::PreviousValid { source } => match &self.published {
                Some(published) if published.stamp == source => {
                    match projection_of_dynamic(&published.dynamic) {
                        Ok(projection) => SolveStart::Warm(
                            InitialDynamicValues {
                                expression: published.dynamic.expression.duplicate(),
                                joints: published.dynamic.joints.duplicate(),
                                projection,
                            },
                        ),
                        Err(error) => {
                            return Err(SequenceRegressionError::Solve(error));
                        },
                    }
                },
                _ => {
                    return Err(SequenceRegressionError::Bookkeeping { stamp });
                },
            },
        };
        let strength = match mode {
            SequenceFitMode::Cold | SequenceFitMode::WarmStart => PenaltyStrength::Off,
            SequenceFitMode::FixedTemporal => PenaltyStrength::Fixed(fixed_strengths()),
            SequenceFitMode::AdaptiveTemporal => PenaltyStrength::Adaptive(
                self.adaptive_request(fps),
            ),
        };
        let timing = match strength {
            PenaltyStrength::Off => None,
            _ => self.timing(stamp),
        };
        Ok(SequenceStep::Solve(DirectedSolve { stamp, start, strength, timing }))
    }

    /// Admits one frame under the lifecycle's answer to it and, when directed,
    /// asks for exactly one bounded solve under the requested configuration.
    ///
    /// # Errors
    ///
    /// Propagates lifecycle failures, and fails closed on a directive that the
    /// harness cannot follow.
    pub fn step_frame(
        &mut self,
        stamp: GnmFrameStamp,
        mode: SequenceFitMode,
        fps: Binary64,
        decision: Result<PersistentGnmAction, PersistentGnmLifecycleError>,
    ) -> (result: Result<SequenceStep, SequenceRegressionError>)
        requires
            old(self).no_observation_frames < usize::MAX,
        ensures
            is_step(*old(self), stamp, mode, fps, decision, result),
            is_state_after(*old(self), decision, *final(self)),
    {
        let action = match decision {
            Ok(action) => action,
            Err(error) => {
                return Err(SequenceRegressionError::Lifecycle(error));
            },
        };
        match action {
            PersistentGnmAction::SkipUncalibratedFrame => Ok(SequenceStep::Done),
            PersistentGnmAction::NoObservation { dynamic_state_cleared } => {
                self.no_observation_frames = self.no_observation_frames + 1;
                if dynamic_state_cleared {
                    self.published = None;
                    self.history_previous = None;
                    self.history_previous_previous = None;
                    self.adaptive_state = None;
                }
                Ok(SequenceStep::Done)
            },
            PersistentGnmAction::StartFit { initialization } => {
                let followed = match mode {
                    SequenceFitMode::Cold => GnmFitInitialization::ReinitializeDynamicState,
                    _ => initialization,
                };
                self.solve_directed_frame(stamp, mode, fps, followed)
            },
            _ => Err(SequenceRegressionError::Bookkeeping { stamp }),
        }
    }

    /// Keeps what the adaptive policy answered, and gives its strengths.
    ///
    /// # Errors
    ///
    /// Propagates the policy's failure.
    pub fn adaptive_advanced(&mut self, answer: Result<AdaptiveTemporalState, &'static str>) -> (result:
        Result<TemporalGroupWeights, SequenceRegressionError>)
        ensures
            match answer {
                Ok(next) => {
                    &&& result == Ok::<_, SequenceRegressionError>(next.weights)
                    &&& *final(self) == (RunState { adaptive_state: Some(next), ..*old(self) })
                },
                Err(error) => {
                    &&& result == Err::<TemporalGroupWeights, _>(
                        SequenceRegressionError::AdaptivePolicy(error),
                    )
                    &&& *final(self) == *old(self)
                },
            },
    {
        match answer {
            Ok(next) => {
                self.adaptive_state = Some(next);
                Ok(next.weights)
            },
            Err(error) => Err(SequenceRegressionError::AdaptivePolicy(error)),
        }
    }

    /// Applies the lifecycle's answer to the verdict on a solve, and records the
    /// sample when it is published. `history_reset_required` says that the
    /// penalty could not be built because of a long gap: stale history is dropped
    /// then.
    ///
    /// # Errors
    ///
    /// Propagates lifecycle failures, and rejects a published projection that
    /// does not form dynamic blocks.
    pub fn solve_finished(
        &mut self,
        stamp: GnmFrameStamp,
        truth: SequenceTruth,
        outcome: SolverOutcome,
        history_reset_required: bool,
        decision: Result<PersistentGnmAction, PersistentGnmLifecycleError>,
    ) -> (result: Result<(), SequenceRegressionError>)
        requires
            old(self).temporal_history_resets < usize::MAX,
        ensures
            is_finished(
                *old(self),
                stamp,
                truth,
                outcome,
                history_reset_required,
                decision,
                result,
                *final(self),
            ),
    {
        let action = match decision {
            Ok(action) => action,
            Err(error) => {
                return Err(SequenceRegressionError::Lifecycle(error));
            },
        };
        match action {
            PersistentGnmAction::PublishCurrentFit => {},
            PersistentGnmAction::RejectInvalidFitAndLose => {
                self.published = None;
                self.history_previous = None;
                self.history_previous_previous = None;
                return Ok(());
            },
            PersistentGnmAction::RejectInvalidFit => {
                return Ok(());
            },
            _ => {
                return Err(SequenceRegressionError::Bookkeeping { stamp });
            },
        }
        if history_reset_required {
            self.temporal_history_resets = self.temporal_history_resets + 1;
            self.history_previous = None;
            self.history_previous_previous = None;
        }
        let fitted = if outcome.expression.values.len() == 0 {
            Binary32::from_bits(0x7fc0_0000)
        } else {
            outcome.expression.values[0]
        };
        let pose = outcome.projection.yaw_pitch_roll;
        let pose_finite = pose[0].is_finite() && pose[1].is_finite() && pose[2].is_finite();
        assert(pose_finite == all_finite(pose@)) by {
            if pose_finite {
                assert(forall|i: int| 0 <= i < 3 ==> (#[trigger] pose@[i]).finite());
            } else {
                assert(!pose@[0].finite() || !pose@[1].finite() || !pose@[2].finite());
            }
        }
        let iterations: usize = outcome.iterations;
        match dynamic_from_solver_output(&outcome.projection, outcome.expression, outcome.joints) {
            Err(error) => {
                let fault = if pose_finite {
                    ScenarioFault::PublishedCamera(error)
                } else {
                    ScenarioFault::PublishedPose(error)
                };
                Err(SequenceRegressionError::InvalidScenario(fault))
            },
            Ok(dynamic) => {
                self.samples.push(
                    ObservedSample {
                        source_seq: stamp.source_seq,
                        iterations,
                        expression_channel0: fitted,
                        yaw_pitch_roll: pose,
                        truth_expression_channel0: truth.mouth,
                        truth_yaw_pitch_roll: truth.yaw_pitch_roll,
                    },
                );
                let entry = HistoryEntry::from_dynamic(stamp, &dynamic);
                self.history_previous_previous = self.history_previous.take();
                self.history_previous = Some(entry);
                self.published = Some(PublishedState { stamp, dynamic });
                Ok(())
            },
        }
    }
}

/// Aggregated result of one deterministic scenario run.
#[derive(Clone, Copy, Debug, PartialEq)]
pub struct SequenceRunReport {
    /// Trajectory that was driven.
    pub trajectory: SequenceTrajectory,
    /// Configuration the run executed under.
    pub mode: SequenceFitMode,
    /// Frames admitted with a usable observation and solved.
    pub solved_frames: usize,
    /// Frames whose observation was unusable (dropout path).
    pub no_observation_frames: usize,
    /// Sum of block-coordinate iterations over all solved frames.
    pub total_iterations: u64,
    /// Mean iterations per solved frame.
    pub mean_iterations: Binary64,
    /// Mean absolute channel-0 expression error versus truth.
    pub mean_expression_error: Binary64,
    /// Absolute channel-0 expression error on the final solved frame.
    pub final_expression_error: Binary64,
    /// Mean Euler-angle L2 error (radians) versus truth.
    pub mean_pose_error_rad: Binary64,
    /// RMS of the fitted channel-0 time derivative in units per second; lower
    /// means smoother tracking.
    pub expression_jitter_per_second: Binary64,
    /// Frames between the truth and the fitted signal crossing the ramp threshold
    /// (slow ramp only).
    pub onset_latency_frames: Option<Binary64>,
    /// Frames between the truth and the fitted signal crossing the release
    /// threshold (fast release only).
    pub release_latency_frames: Option<Binary64>,
    /// Maximum fitted channel-0 value (blink pulse only).
    pub pulse_peak_expression: Option<Binary64>,
    /// Temporal history resets forced by long gaps.
    pub temporal_history_resets: usize,
}

/// Iterations of the first `n` samples.
pub open spec fn iteration_total(samples: Seq<ObservedSample>, n: int) -> nat
    decreases n,
{
    if n <= 0 {
        0
    } else {
        iteration_total(samples, n - 1) + samples[n - 1].iterations as nat
    }
}

/// Absolute expression error of a sample.
pub open spec fn expression_error(sample: ObservedSample) -> Binary64 {
    sample.expression_channel0.minus(sample.truth_expression_channel0).absolute().widened()
}

/// Expression errors of the samples.
pub open spec fn expression_errors(samples: Seq<ObservedSample>) -> Seq<Binary64> {
    Seq::new(samples.len(), |i: int| expression_error(samples[i]))
}

/// Error of one angle.
pub open spec fn angle_error(sample: ObservedSample, axis: int) -> Binary64 {
    sample.yaw_pitch_roll@[axis].minus(sample.truth_yaw_pitch_roll@[axis]).widened()
}

/// Euler-angle error of a sample.
pub open spec fn pose_error(sample: ObservedSample) -> Binary64 {
    let yaw = angle_error(sample, 0);
    let pitch = angle_error(sample, 1);
    let roll = angle_error(sample, 2);
    yaw.times(yaw).plus(pitch.times(pitch)).plus(roll.times(roll)).root()
}

/// Euler-angle errors of the samples.
pub open spec fn pose_errors(samples: Seq<ObservedSample>) -> Seq<Binary64> {
    Seq::new(samples.len(), |i: int| pose_error(samples[i]))
}

/// Nominal time between two samples.
pub open spec fn sample_gap(first: ObservedSample, second: ObservedSample, fps: Binary64) -> Binary64 {
    let frames: nat = if second.source_seq < first.source_seq {
        0
    } else {
        (second.source_seq - first.source_seq) as nat
    };
    Binary64::of_integer(frames).over(fps)
}

/// Sample `n` has a derivative: time passed since the one before.
pub open spec fn has_derivative(samples: Seq<ObservedSample>, fps: Binary64, n: int) -> bool {
    !sample_gap(samples[n - 1], samples[n], fps).at_most(Binary64 { bits: 0 })
}

/// Time derivative of the fitted channel at sample `n`.
pub open spec fn derivative(samples: Seq<ObservedSample>, fps: Binary64, n: int) -> Binary64 {
    samples[n].expression_channel0.minus(samples[n - 1].expression_channel0).widened().over(
        sample_gap(samples[n - 1], samples[n], fps),
    )
}

/// Sum of the squared derivatives up to sample `n`.
pub open spec fn jitter_sum(samples: Seq<ObservedSample>, fps: Binary64, n: int) -> Binary64
    decreases n,
{
    if n <= 0 {
        Binary64 { bits: 0 }
    } else if has_derivative(samples, fps, n) {
        let slope = derivative(samples, fps, n);
        jitter_sum(samples, fps, n - 1).plus(slope.times(slope))
    } else {
        jitter_sum(samples, fps, n - 1)
    }
}

/// Number of derivatives up to sample `n`.
pub open spec fn jitter_terms(samples: Seq<ObservedSample>, fps: Binary64, n: int) -> nat
    decreases n,
{
    if n <= 0 {
        0
    } else if has_derivative(samples, fps, n) {
        jitter_terms(samples, fps, n - 1) + 1
    } else {
        jitter_terms(samples, fps, n - 1)
    }
}

/// RMS of the derivative; none without a derivative.
pub open spec fn jitter(samples: Seq<ObservedSample>, fps: Binary64) -> Binary64 {
    let last = samples.len() - 1;
    let terms = jitter_terms(samples, fps, last);
    if terms > 0 {
        jitter_sum(samples, fps, last).over(Binary64::of_integer(terms)).root()
    } else {
        Binary64 { bits: 0 }
    }
}

/// The signal of a sample has crossed the threshold, upward or downward.
pub open spec fn crossed(
    sample: ObservedSample,
    truth: bool,
    threshold: Binary32,
    upward: bool,
) -> bool {
    let signal = if truth {
        sample.truth_expression_channel0
    } else {
        sample.expression_channel0
    };
    if upward {
        threshold.at_most(signal)
    } else {
        signal.at_most(threshold)
    }
}

/// The position is the first from `n` on whose signal has crossed.
pub open spec fn first_crossing(
    samples: Seq<ObservedSample>,
    truth: bool,
    threshold: Binary32,
    upward: bool,
    n: int,
) -> Option<int>
    decreases samples.len() - n,
{
    if n >= samples.len() {
        None
    } else if crossed(samples[n], truth, threshold, upward) {
        Some(n)
    } else {
        first_crossing(samples, truth, threshold, upward, n + 1)
    }
}

/// Frames from the truth's crossing to the fitted one.
pub open spec fn crossing_latency(
    samples: Seq<ObservedSample>,
    threshold: Binary32,
    upward: bool,
) -> Option<Binary64> {
    match (
        first_crossing(samples, true, threshold, upward, 0),
        first_crossing(samples, false, threshold, upward, 0),
    ) {
        (Some(truth), Some(fitted)) => Some(
            Binary64::of_integer(fitted as nat).minus(Binary64::of_integer(truth as nat)),
        ),
        _ => None,
    }
}

/// The greatest fitted value of the first `n` samples in the total order.
pub open spec fn peak_of(samples: Seq<ObservedSample>, n: int) -> Binary64
    decreases n,
{
    let value = samples[n - 1].expression_channel0.widened();
    if n <= 1 {
        value
    } else if peak_of(samples, n - 1).total_rank() > value.total_rank() {
        peak_of(samples, n - 1)
    } else {
        value
    }
}

/// The report of a run.
pub open spec fn report_of_run(
    scenario: SequenceScenario,
    mode: SequenceFitMode,
    state: RunState,
) -> SequenceRunReport {
    let samples = state.samples@;
    let count = Binary64::of_integer(samples.len());
    let iterations = iteration_total(samples, samples.len() as int);
    SequenceRunReport {
        trajectory: scenario.trajectory,
        mode,
        solved_frames: samples.len() as usize,
        no_observation_frames: state.no_observation_frames,
        total_iterations: iterations as u64,
        mean_iterations: Binary64::of_integer(iterations).over(count),
        mean_expression_error: total(expression_errors(samples)).over(count),
        final_expression_error: expression_error(samples.last()),
        mean_pose_error_rad: total(pose_errors(samples)).over(count),
        expression_jitter_per_second: jitter(samples, scenario.fps),
        onset_latency_frames: if scenario.trajectory == SequenceTrajectory::SlowRamp {
            crossing_latency(samples, number(0x3ecc_cccd), true)
        } else {
            None
        },
        release_latency_frames: if scenario.trajectory == SequenceTrajectory::FastRelease {
            crossing_latency(samples, number(0x3ee6_6666), false)
        } else {
            None
        },
        pulse_peak_expression: if scenario.trajectory == SequenceTrajectory::BlinkPulse {
            Some(peak_of(samples, samples.len() as int))
        } else {
            None
        },
        temporal_history_resets: state.temporal_history_resets,
    }
}

fn sum_iterations(samples: &Vec<ObservedSample>) -> (sum: u64)
    requires
        iteration_total(samples@, samples@.len() as int) <= u64::MAX,
    ensures
        sum == iteration_total(samples@, samples@.len() as int),
{
    let mut sum: u64 = 0;
    for i in 0..samples.len()
        invariant
            iteration_total(samples@, samples@.len() as int) <= u64::MAX,
            sum == iteration_total(samples@, i as int),
    {
        proof {
            lemma_iterations_grow(samples@, (i + 1) as int, samples@.len() as int);
        }
        sum = sum + samples[i].iterations as u64;
    }
    sum
}

proof fn lemma_iterations_grow(samples: Seq<ObservedSample>, less: int, more: int)
    requires
        0 <= less <= more,
    ensures
        iteration_total(samples, less) <= iteration_total(samples, more),
    decreases more - less,
{
    if less < more {
        lemma_iterations_grow(samples, less, more - 1);
    }
}

fn list_expression_errors(samples: &Vec<ObservedSample>) -> (errors: Vec<Binary64>)
    ensures
        errors@ == expression_errors(samples@),
{
    let mut errors: Vec<Binary64> = Vec::new();
    for i in 0..samples.len()
        invariant
            errors@.len() == i,
            forall|j: int| 0 <= j < i ==> #[trigger] errors@[j] == expression_error(samples@[j]),
    {
        let sample = samples[i];
        errors.push(
            sample.expression_channel0.difference(sample.truth_expression_channel0).abs().widen(),
        );
    }
    assert(errors@ =~= expression_errors(samples@));
    errors
}

fn list_pose_errors(samples: &Vec<ObservedSample>) -> (errors: Vec<Binary64>)
    ensures
        errors@ == pose_errors(samples@),
{
    let mut errors: Vec<Binary64> = Vec::new();
    for i in 0..samples.len()
        invariant
            errors@.len() == i,
            forall|j: int| 0 <= j < i ==> #[trigger] errors@[j] == pose_error(samples@[j]),
    {
        let sample = samples[i];
        let yaw = sample.yaw_pitch_roll[0].difference(sample.truth_yaw_pitch_roll[0]).widen();
        let pitch = sample.yaw_pitch_roll[1].difference(sample.truth_yaw_pitch_roll[1]).widen();
        let roll = sample.yaw_pitch_roll[2].difference(sample.truth_yaw_pitch_roll[2]).widen();
        errors.push(
            yaw.product(yaw).sum(pitch.product(pitch)).sum(roll.product(roll)).square_root(),
        );
    }
    assert(errors@ =~= pose_errors(samples@));
    errors
}

fn measure_jitter(samples: &Vec<ObservedSample>, fps: Binary64) -> (result: Binary64)
    requires
        samples@.len() > 0,
    ensures
        result == jitter(samples@, fps),
{
    let zero = Binary64::zero();
    let mut sum = zero;
    let mut terms: u64 = 0;
    for n in 1..samples.len()
        invariant
            zero == (Binary64 { bits: 0 }),
            samples@.len() > 0,
            sum == jitter_sum(samples@, fps, n - 1),
            terms == jitter_terms(samples@, fps, n - 1),
            terms < n,
    {
        let first = samples[n - 1];
        let second = samples[n];
        let dt = Binary64::from_integer(
            second.source_seq.saturating_sub(first.source_seq),
        ).quotient(fps);
        if !dt.is_at_most(zero) {
            let slope = second.expression_channel0.difference(
                first.expression_channel0,
            ).widen().quotient(dt);
            sum = sum.sum(slope.product(slope));
            terms = terms + 1;
        }
    }
    if terms > 0 {
        sum.quotient(Binary64::from_integer(terms)).square_root()
    } else {
        zero
    }
}

fn find_crossing(
    samples: &Vec<ObservedSample>,
    truth: bool,
    threshold: Binary32,
    upward: bool,
) -> (position: Option<usize>)
    ensures
        match position {
            Some(position) => first_crossing(samples@, truth, threshold, upward, 0) == Some(
                position as int,
            ),
            None => first_crossing(samples@, truth, threshold, upward, 0) is None,
        },
{
    for n in 0..samples.len()
        invariant
            first_crossing(samples@, truth, threshold, upward, 0) == first_crossing(
                samples@,
                truth,
                threshold,
                upward,
                n as int,
            ),
    {
        let signal = if truth {
            samples[n].truth_expression_channel0
        } else {
            samples[n].expression_channel0
        };
        let over = if upward {
            threshold.is_at_most(signal)
        } else {
            signal.is_at_most(threshold)
        };
        if over {
            return Some(n);
        }
    }
    None
}

fn measure_latency(samples: &Vec<ObservedSample>, threshold: Binary32, upward: bool) -> (latency:
    Option<Binary64>)
    ensures
        latency == crossing_latency(samples@, threshold, upward),
{
    let truth = find_crossing(samples, true, threshold, upward);
    let fitted = find_crossing(samples, false, threshold, upward);
    match (truth, fitted) {
        (Some(truth), Some(fitted)) => Some(
            Binary64::from_integer(fitted as u64).difference(Binary64::from_integer(truth as u64)),
        ),
        _ => None,
    }
}

fn find_peak(samples: &Vec<ObservedSample>) -> (peak: Binary64)
    requires
        samples@.len() > 0,
    ensures
        peak == peak_of(samples@, samples@.len() as int),
{
    let mut peak = samples[0].expression_channel0.widen();
    for n in 1..samples.len()
        invariant
            samples@.len() > 0,
            peak == peak_of(samples@, n as int),
    {
        let value = samples[n].expression_channel0.widen();
        if peak.total_order() <= value.total_order() {
            peak = value;
        }
    }
    peak
}

/// Aggregates the collected samples into the deterministic report.
///
/// # Errors
///
/// Rejects a run in which no frame was published.
pub fn finalize_report(
    scenario: &SequenceScenario,
    mode: SequenceFitMode,
    state: &RunState,
) -> (result: Result<SequenceRunReport, SequenceRegressionError>)
    requires
        iteration_total(state.samples@, state.samples@.len() as int) <= u64::MAX,
    ensures
        match result {
            Ok(report) => {
                &&& state.samples@.len() > 0
                &&& report == report_of_run(*scenario, mode, *state)
            },
            Err(error) => {
                &&& state.samples@.len() == 0
                &&& error == SequenceRegressionError::InvalidScenario(
                    ScenarioFault::NothingPublished,
                )
            },
        },
{
    let samples = &state.samples;
    if samples.len() == 0 {
        return Err(SequenceRegressionError::InvalidScenario(ScenarioFault::NothingPublished));
    }
    let solved_frames: usize = samples.len();
    let count = Binary64::from_integer(solved_frames as u64);
    let total_iterations: u64 = sum_iterations(samples);
    let errors = list_expression_errors(samples);
    let poses = list_pose_errors(samples);
    let onset_latency_frames = match scenario.trajectory {
        SequenceTrajectory::SlowRamp => measure_latency(
            samples,
            Binary32::from_bits(0x3ecc_cccd),
            true,
        ),
        _ => None,
    };
    let release_latency_frames = match scenario.trajectory {
        SequenceTrajectory::FastRelease => measure_latency(
            samples,
            Binary32::from_bits(0x3ee6_6666),
            false,
        ),
        _ => None,
    };
    let pulse_peak_expression = match scenario.trajectory {
        SequenceTrajectory::BlinkPulse => Some(find_peak(samples)),
        _ => None,
    };
    Ok(
        SequenceRunReport {
            trajectory: scenario.trajectory,
            mode,
            solved_frames,
            no_observation_frames: state.no_observation_frames,
            total_iterations,
            mean_iterations: Binary64::from_integer(total_iterations).quotient(count),
            mean_expression_error: sum_all(&errors).quotient(count),
            final_expression_error: errors[solved_frames - 1],
            mean_pose_error_rad: sum_all(&poses).quotient(count),
            expression_jitter_per_second: measure_jitter(samples, scenario.fps),
            onset_latency_frames,
            release_latency_frames,
            pulse_peak_expression,
            temporal_history_resets: state.temporal_history_resets,
        },
    )
}

/// A cold run reuses nothing across frames: whatever the lifecycle directs, a
/// solve starts from neutral values with a recovered pose and carries no temporal
/// penalty.
pub proof fn lemma_cold_runs_reuse_nothing(
    state: RunState,
    stamp: GnmFrameStamp,
    fps: Binary64,
    decision: Result<PersistentGnmAction, PersistentGnmLifecycleError>,
    solve: DirectedSolve,
)
    requires
        is_step(
            state,
            stamp,
            SequenceFitMode::Cold,
            fps,
            decision,
            Ok(SequenceStep::Solve(solve)),
        ),
    ensures
        solve.start == SolveStart::Recovered,
        solve.strength == PenaltyStrength::Off,
        solve.timing is None,
{
}

/// A long gap drops stale history: after a published frame that required a
/// reset, the history holds that frame alone, and the next frame's penalty sees no
/// earlier interval.
pub proof fn lemma_reset_forgets_stale_history(
    before: RunState,
    stamp: GnmFrameStamp,
    truth: SequenceTruth,
    outcome: SolverOutcome,
    after: RunState,
    strength: PenaltyStrength,
    next: GnmFrameStamp,
)
    requires
        is_recorded(before, stamp, truth, outcome, true, after),
    ensures
        after.history_previous_previous is None,
        after.temporal_history_resets == before.temporal_history_resets + 1,
        timing_of(after, strength, next) matches Some(timing) ==> timing.previous_dt_seconds is None,
{
}

/// Only a published solve adds a sample or replaces the published state.
pub proof fn lemma_only_publication_is_recorded(
    before: RunState,
    stamp: GnmFrameStamp,
    truth: SequenceTruth,
    outcome: SolverOutcome,
    reset: bool,
    decision: Result<PersistentGnmAction, PersistentGnmLifecycleError>,
    result: Result<(), SequenceRegressionError>,
    after: RunState,
)
    requires
        is_finished(before, stamp, truth, outcome, reset, decision, result, after),
        decision != Ok::<PersistentGnmAction, PersistentGnmLifecycleError>(
            PersistentGnmAction::PublishCurrentFit,
        ),
    ensures
        after.samples == before.samples,
        after.published == before.published || after.published is None,
{
}

/// The timeline never runs backwards.
pub proof fn lemma_timeline_is_ordered(scenario: SequenceScenario, earlier: int, later: int)
    requires
        0 <= earlier <= later,
    ensures
        scenario.captured_at(earlier) <= scenario.captured_at(later),
{
    let delta = scenario.frame_delta() as int;
    assert(earlier * delta <= later * delta) by (nonlinear_arith)
        requires
            earlier <= later,
            delta >= 0,
    ;
}

} // verus!
