//! Loss hold, eased neutral return, and reacquisition blend for face
//! tracking.
//!
//! When the face is lost, the last frame is held, then its authority and its
//! expressions ease to zero along the shared loss timeline. When the face
//! reappears, a timed blend reconnects the tracked frames from wherever the
//! return had reached. The head's rotation and translation are interpolated by
//! the caller: [`LossRecovery::request`] says between which frames, and
//! [`LossRecovery::update`] takes the result and decides the step.

use vstd::arithmetic::power2::pow2;
use vstd::prelude::*;

use crate::arithmetic::lemma_times_one_32;
use crate::arithmetic_laws::lemma_one_times;
use crate::arkit::{in_unit_range, Arkit52Coefficients, ONE_BITS};
use crate::avatar::{
    lerp, lerp_of, AvatarControlFrame, ExpressionCoefficients, GazeSignal, GazeTrackingState, HeadPose,
    HeadTranslationSignal, TrackingState,
};
use crate::binary::Binary32;
use crate::clock::{Duration, MonoTimeNs, MAX_SPAN_NANOS};
use crate::loss_blend::{
    acquire_factor, acquire_factor_of, is_config_error, lemma_loss_factor_falls, lemma_loss_factor_is_a_share,
    loss_factor_of, loss_return_factor, return_progress, LossBlendConfigError, LossBlendProfile,
};
use crate::loss_rounding::lemma_loss_factor_can_rise;
use crate::unit_range::{
    is_share, lemma_share_keeps_finite, lemma_shares_keep_order, lemma_signed_factor_enlarges_nothing,
};

verus! {

/// Bit pattern of 0.02: the smallest head-rotation gap, in radians, that is
/// blended away on reacquisition.
pub const REACQUIRE_MIN_HEAD_GAP_BITS: u32 = 0x3ca3_d70a;

/// Bit pattern of 0.15: the smallest expression gap that is blended away.
pub const REACQUIRE_MIN_EXPRESSION_GAP_BITS: u32 = 0x3e19_999a;

/// Bit pattern of 0.20: the smallest gaze gap that is blended away.
pub const REACQUIRE_MIN_GAZE_GAP_BITS: u32 = 0x3e4c_cccd;

/// Error of constructing a [`LossRecovery`].
#[derive(Clone, Copy, Debug, PartialEq)]
pub struct LossRecoveryConfigError(pub LossBlendConfigError);

/// Current phase of the loss-recovery state machine.
#[derive(Clone, Copy, Debug, PartialEq)]
pub enum RecoveryState {
    /// No synthetic motion is in progress; pass tracked frames through.
    Idle,
    /// Returning from the loss pose to neutral along the loss timeline.
    Returning {
        /// Frame at the start of the loss episode.
        from: AvatarControlFrame,
        /// Time spent in the return phase.
        elapsed: Duration,
    },
    /// Blending from a loss-related pose to newly tracked frames.
    Recovering {
        /// Pose at the start of the recovery blend.
        from: AvatarControlFrame,
        /// Time spent in the recovery phase.
        elapsed: Duration,
    },
}

/// Head motion between the start pose and the tracked frame.
#[derive(Clone, Copy, Debug, PartialEq, Eq, Structural)]
pub struct HeadBlend {
    /// Angle between the two head rotations, in radians.
    pub gap: Binary32,
    /// Head rotation interpolated along the shorter arc.
    pub head: HeadPose,
    /// Interpolated head translation.
    pub head_translation: HeadTranslationSignal,
}

/// A rotation, by the four components of its quaternion.
#[derive(Clone, Copy, Debug, PartialEq, Eq, Structural)]
pub struct RotationParts {
    /// Real part.
    pub w: Binary32,
    /// First imaginary part.
    pub i: Binary32,
    /// Second imaginary part.
    pub j: Binary32,
    /// Third imaginary part.
    pub k: Binary32,
}

impl RotationParts {
    /// The inner product with `other`.
    pub open spec fn dot(self, other: Self) -> Binary32 {
        self.w.times(other.w).plus(self.i.times(other.i)).plus(self.j.times(other.j)).plus(
            self.k.times(other.k),
        )
    }

    /// Every component with its sign flipped: the same rotation.
    pub open spec fn opposite(self) -> Self {
        RotationParts {
            w: self.w.negated(),
            i: self.i.negated(),
            j: self.j.negated(),
            k: self.k.negated(),
        }
    }
}

/// Returns `target` or its opposite, whichever is closer to `current`.
pub fn choose_shortest_arc(current: RotationParts, target: RotationParts) -> (chosen: RotationParts)
    ensures
        chosen == if current.dot(target).less(Binary32 { bits: 0 }) {
            target.opposite()
        } else {
            target
        },
{
    let dot = current.w.product(target.w).sum(current.i.product(target.i)).sum(
        current.j.product(target.j),
    ).sum(current.k.product(target.k));
    if dot.is_less(Binary32::zero()) {
        RotationParts {
            w: target.w.neg(),
            i: target.i.neg(),
            j: target.j.neg(),
            k: target.k.neg(),
        }
    } else {
        target
    }
}

/// What a step needs computed.
#[derive(Clone, Copy, Debug, PartialEq)]
pub enum RecoveryRequest {
    /// No head motion.
    Nothing,
    /// [`HeadBlend`] from this frame toward the tracked one.
    Blend {
        /// Start pose.
        from: AvatarControlFrame,
        /// Interpolation factor.
        factor: Binary32,
    },
}

/// Holds the last observed pose when a face is lost, eases the pose's
/// authority back to neutral along the shared loss timeline, and blends back
/// to tracked frames on reacquire.
#[derive(Clone, Copy, Debug, PartialEq)]
pub struct LossRecovery {
    /// Timing.
    pub params: LossBlendProfile,
    /// Current phase.
    pub state: RecoveryState,
    /// Most recent tracked frame.
    pub last_valid: Option<AvatarControlFrame>,
    /// Most recent published frame.
    pub last_output: Option<AvatarControlFrame>,
}

/// Sum of two spans, cut off at the longest span.
pub open spec fn span_after(elapsed: nat, dt: nat) -> nat {
    if elapsed + dt <= MAX_SPAN_NANOS {
        elapsed + dt
    } else {
        MAX_SPAN_NANOS as nat
    }
}

/// Some coefficient differs by more than the expression threshold.
pub open spec fn expressions_differ(a: Seq<Binary32>, b: Seq<Binary32>) -> bool {
    exists|i: int|
        0 <= i < a.len() && (Binary32 { bits: REACQUIRE_MIN_EXPRESSION_GAP_BITS }).less(
            (#[trigger] a[i]).minus(b[i]).absolute(),
        )
}

/// The gaze directions differ; signals without an observation do not count.
pub open spec fn gazes_differ(from: GazeSignal, to: GazeSignal) -> bool {
    let threshold = Binary32 { bits: REACQUIRE_MIN_GAZE_GAP_BITS };
    &&& !(from.state is Unavailable)
    &&& !(to.state is Unavailable)
    &&& threshold.less(from.horizontal.minus(to.horizontal).absolute()) || threshold.less(
        from.vertical.minus(to.vertical).absolute(),
    )
}

/// The first tracked frame after a loss is far enough from the last output to
/// be blended in.
pub open spec fn should_blend(
    last_output: Option<AvatarControlFrame>,
    target: AvatarControlFrame,
    head_gap: Binary32,
) -> bool {
    match last_output {
        None => false,
        Some(from) => from.state.lost() && ((Binary32 { bits: REACQUIRE_MIN_HEAD_GAP_BITS }).less(
            head_gap,
        ) || expressions_differ(from.expressions.listed(), target.expressions.listed())
            || gazes_differ(from.gaze, target.gaze)),
    }
}

/// Availability of a blended gaze.
pub open spec fn blended_gaze_state(
    from: GazeTrackingState,
    to: GazeTrackingState,
    t: Binary32,
) -> GazeTrackingState {
    if (Binary32 { bits: ONE_BITS }).at_most(t) {
        to
    } else if from is Observed && to is Observed {
        GazeTrackingState::Observed
    } else {
        GazeTrackingState::Degraded
    }
}

/// The number cut to `0..=1`.
pub open spec fn unit_clamped(number: Binary32) -> Binary32 {
    number.clamped(Binary32 { bits: 0 }, Binary32 { bits: ONE_BITS })
}

/// The gaze between two gazes.
pub open spec fn blended_gaze(from: GazeSignal, to: GazeSignal, factor: Binary32) -> GazeSignal {
    let t = unit_clamped(factor);
    GazeSignal::of(
        lerp_of(from.horizontal, to.horizontal, t),
        lerp_of(from.vertical, to.vertical, t),
        lerp_of(from.confidence, to.confidence, t),
        blended_gaze_state(from.state, to.state, t),
    )
}

/// Every detailed coefficient times `factor`, cut to `0..=1`.
pub open spec fn scaled_face(values: Seq<Binary32>, factor: Binary32) -> Seq<Binary32> {
    Seq::new(values.len(), |i: int| unit_clamped(values[i].times(factor)))
}

/// Every detailed coefficient interpolated, cut to `0..=1`.
pub open spec fn mixed_face(
    from: Seq<Binary32>,
    to: Seq<Binary32>,
    t: Binary32,
) -> Seq<Binary32> {
    Seq::new(
        from.len(),
        |i: int| unit_clamped(from[i].plus(to[i].minus(from[i]).times(t))),
    )
}

/// Blend of two optional coefficient sets; a missing side counts as zero.
pub open spec fn is_blended_face(
    from: Option<Arkit52Coefficients>,
    to: Option<Arkit52Coefficients>,
    factor: Binary32,
    blended: Option<Arkit52Coefficients>,
) -> bool {
    let t = unit_clamped(factor);
    match (from, to) {
        (None, None) => blended is None,
        (Some(a), Some(b)) => blended is Some && blended->0@ == mixed_face(a@, b@, t),
        (Some(a), None) => {
            &&& blended is Some
            &&& blended->0@ == scaled_face(a@, (Binary32 { bits: ONE_BITS }).minus(t))
        },
        (None, Some(b)) => blended is Some && blended->0@ == scaled_face(b@, t),
    }
}

/// The frame between `from` and `to`; it stays an observation of `from`.
pub open spec fn is_blended_frame(
    from: AvatarControlFrame,
    to: AvatarControlFrame,
    t: Binary32,
    inputs: StepInputs,
    frame: AvatarControlFrame,
) -> bool {
    &&& frame.source_seq == from.source_seq
    &&& frame.captured_at == from.captured_at
    &&& frame.produced_at == inputs.produced_at
    &&& frame.confidence == lerp_of(from.confidence, to.confidence, t)
    &&& frame.state == inputs.state
    &&& frame.head == inputs.head.head
    &&& frame.head_translation == inputs.head.head_translation
    &&& frame.gaze == blended_gaze(from.gaze, to.gaze, t)
    &&& frame.expressions == from.expressions.lerped(to.expressions, t)
    &&& is_blended_face(from.detailed_face, to.detailed_face, t, frame.detailed_face)
}

/// The held frame with its authority times `factor`: pose, translation and
/// gaze direction stay, confidence and expressions fade.
pub open spec fn is_held_frame(
    origin: AvatarControlFrame,
    factor: Binary32,
    inputs: StepInputs,
    frame: AvatarControlFrame,
) -> bool {
    let f = unit_clamped(factor);
    &&& frame.source_seq == origin.source_seq
    &&& frame.captured_at == origin.captured_at
    &&& frame.produced_at == inputs.produced_at
    &&& frame.confidence == origin.confidence.times(f)
    &&& frame.state == inputs.state
    &&& frame.head == origin.head
    &&& frame.head_translation == origin.head_translation
    &&& frame.gaze == GazeSignal::of(
        origin.gaze.horizontal,
        origin.gaze.vertical,
        origin.gaze.confidence.times(f),
        origin.gaze.state,
    )
    &&& frame.expressions == origin.expressions.scaled_by(f)
    &&& match origin.detailed_face {
        None => frame.detailed_face is None,
        Some(coefficients) => {
            &&& frame.detailed_face is Some
            &&& frame.detailed_face->0@ == scaled_face(coefficients@, f)
        },
    }
}

/// A frame that is fully neutral in head pose and expressions.
pub open spec fn neutral_frame_of(
    base: AvatarControlFrame,
    produced_at: MonoTimeNs,
    state: TrackingState,
) -> AvatarControlFrame {
    AvatarControlFrame {
        source_seq: base.source_seq,
        captured_at: base.captured_at,
        produced_at,
        confidence: Binary32 { bits: 0 },
        state,
        head: HeadPose {
            yaw_rad: Binary32 { bits: 0 },
            pitch_rad: Binary32 { bits: 0 },
            roll_rad: Binary32 { bits: 0 },
        },
        head_translation: HeadTranslationSignal::none(),
        gaze: GazeSignal {
            horizontal: Binary32 { bits: 0 },
            vertical: Binary32 { bits: 0 },
            confidence: Binary32 { bits: 0 },
            state: GazeTrackingState::Degraded,
        },
        expressions: ExpressionCoefficients::neutral(),
        detailed_face: None,
    }
}

/// The blend toward `to` after `elapsed`: finished frames pass through.
pub open spec fn blends_in(
    next: RecoveryState,
    output: Option<AvatarControlFrame>,
    from: AvatarControlFrame,
    to: AvatarControlFrame,
    elapsed: nat,
    inputs: StepInputs,
    params: LossBlendProfile,
) -> bool {
    let t = acquire_factor_of(elapsed, params);
    if (Binary32 { bits: ONE_BITS }).at_most(t) {
        next is Idle && output == Some(to)
    } else {
        &&& next matches RecoveryState::Recovering { from: start, elapsed: spent }
        &&& start == from
        &&& spent@ == elapsed
        &&& output is Some
        &&& is_blended_frame(from, to, t, inputs, output->0)
    }
}

/// The return of `from` after `elapsed`: held, eased, then released.
pub open spec fn eases_back(
    next: RecoveryState,
    output: Option<AvatarControlFrame>,
    from: AvatarControlFrame,
    elapsed: nat,
    inputs: StepInputs,
    params: LossBlendProfile,
) -> bool {
    let factor = loss_factor_of(elapsed, params);
    &&& output is Some
    &&& if factor.at_most(Binary32 { bits: 0 }) {
        next is Idle && is_held_frame(from, Binary32 { bits: 0 }, inputs, output->0)
    } else {
        &&& next matches RecoveryState::Returning { from: start, elapsed: spent }
        &&& start == from
        &&& spent@ == elapsed
        &&& is_held_frame(from, factor, inputs, output->0)
    }
}

/// The start of a return from the last output, or else the last valid frame.
pub open spec fn starts_return(
    next: RecoveryState,
    output: Option<AvatarControlFrame>,
    origin: Option<AvatarControlFrame>,
    inputs: StepInputs,
) -> bool {
    match origin {
        None => next is Idle && output is None,
        Some(frame) => {
            if frame.confidence.at_most(Binary32 { bits: 0 }) {
                &&& next is Idle
                &&& output == Some(neutral_frame_of(frame, inputs.produced_at, inputs.state))
            } else {
                let held = AvatarControlFrame {
                    state: inputs.state,
                    produced_at: inputs.produced_at,
                    ..frame
                };
                &&& next matches RecoveryState::Returning { from: start, elapsed: spent }
                &&& start == held
                &&& spent@ == 0
                &&& output == Some(held)
            }
        },
    }
}

/// Everything one step is given.
#[derive(Clone, Copy, Debug, PartialEq)]
pub struct StepInputs {
    /// External tracking state.
    pub state: TrackingState,
    /// Time since the last step.
    pub dt: Duration,
    /// Latest valid tracked frame, if any.
    pub observed: Option<AvatarControlFrame>,
    /// Time to stamp on a produced frame.
    pub produced_at: MonoTimeNs,
    /// Head motion, where [`LossRecovery::request`] asks for it.
    pub head: HeadBlend,
}

impl LossRecovery {
    /// While the return runs, the loss frame had authority, and the last output is that
    /// frame with its authority eased by the time spent.
    pub open spec fn consistent(self) -> bool {
        self.state matches RecoveryState::Returning { from, elapsed } ==> {
            &&& !from.confidence.at_most(Binary32 { bits: 0 })
            &&& self.last_output matches Some(last)
            &&& last.source_seq == from.source_seq
            &&& last.captured_at == from.captured_at
            &&& last.confidence == from.confidence.times(
                unit_clamped(loss_factor_of(elapsed@, self.params)),
            ) || (elapsed@ == 0 && last.confidence == from.confidence)
        }
    }
}

/// The frame a return starts from.
pub open spec fn return_origin(machine: LossRecovery, inputs: StepInputs) -> Option<
    AvatarControlFrame,
> {
    if machine.last_output is Some {
        machine.last_output
    } else if inputs.observed is Some {
        inputs.observed
    } else {
        machine.last_valid
    }
}

/// The phase table: what a step does to the phase and what it publishes.
pub open spec fn is_step(
    machine: LossRecovery,
    inputs: StepInputs,
    next: RecoveryState,
    output: Option<AvatarControlFrame>,
) -> bool {
    match (inputs.observed, machine.state) {
        (Some(target), RecoveryState::Idle) if inputs.state.acquired() => {
            if should_blend(machine.last_output, target, inputs.head.gap) {
                blends_in(
                    next,
                    output,
                    machine.last_output->0,
                    target,
                    span_after(0, inputs.dt@),
                    inputs,
                    machine.params,
                )
            } else {
                next is Idle && output == Some(target)
            }
        },
        (Some(target), RecoveryState::Returning { .. }) if inputs.state.acquired() => blends_in(
            next,
            output,
            match machine.last_output {
                Some(frame) => frame,
                None => target,
            },
            target,
            span_after(0, inputs.dt@),
            inputs,
            machine.params,
        ),
        (Some(target), RecoveryState::Recovering { from, elapsed }) if inputs.state.acquired() =>
            blends_in(
            next,
            output,
            from,
            target,
            span_after(elapsed@, inputs.dt@),
            inputs,
            machine.params,
        ),
        (None, RecoveryState::Returning { from, elapsed }) if inputs.state.lost() => eases_back(
            next,
            output,
            from,
            span_after(elapsed@, inputs.dt@),
            inputs,
            machine.params,
        ),
        (None, _) if inputs.state.lost() => starts_return(
            next,
            output,
            return_origin(machine, inputs),
            inputs,
        ),
        _ => next == machine.state && output == machine.last_output,
    }
}

/// Whether some coefficient differs by more than the expression threshold.
fn has_expression_gap(a: &ExpressionCoefficients, b: &ExpressionCoefficients) -> (differ: bool)
    ensures
        differ == expressions_differ(a.listed(), b.listed()),
{
    let threshold = Binary32::from_bits(REACQUIRE_MIN_EXPRESSION_GAP_BITS);
    let left = a.to_array();
    let right = b.to_array();
    for i in 0..16usize
        invariant
            left@ == a.listed(),
            right@ == b.listed(),
            threshold == (Binary32 { bits: REACQUIRE_MIN_EXPRESSION_GAP_BITS }),
            forall|j: int|
                0 <= j < i ==> !threshold.less((#[trigger] left@[j]).minus(right@[j]).absolute()),
    {
        if threshold.is_less(left[i].difference(right[i]).abs()) {
            assert(threshold.less(left@[i as int].minus(right@[i as int]).absolute()));
            return true;
        }
    }
    false
}

/// Whether the gaze directions differ.
fn has_gaze_gap(from: &GazeSignal, to: &GazeSignal) -> (differ: bool)
    ensures
        differ == gazes_differ(*from, *to),
{
    let threshold = Binary32::from_bits(REACQUIRE_MIN_GAZE_GAP_BITS);
    from.is_available() && to.is_available() && (threshold.is_less(
        from.horizontal.difference(to.horizontal).abs(),
    ) || threshold.is_less(from.vertical.difference(to.vertical).abs()))
}

/// The number cut to `0..=1`.
fn clamp_unit(number: Binary32) -> (clamped: Binary32)
    ensures
        clamped == unit_clamped(number),
{
    number.clamp(Binary32::zero(), Binary32::from_bits(ONE_BITS))
}

/// Scales every channel, cut to `0..=1`.
fn scale_detailed_face(coefficients: &Arkit52Coefficients, factor: Binary32) -> (scaled:
    Arkit52Coefficients)
    ensures
        scaled@ == scaled_face(coefficients@, factor),
{
    let mut values: [Binary32; 52] = [Binary32 { bits: 0 }; 52];
    for i in 0..52usize
        invariant
            forall|j: int|
                0 <= j < i ==> #[trigger] values@[j] == unit_clamped(
                    coefficients@[j].times(factor),
                ),
    {
        values[i] = clamp_unit(coefficients.values[i].product(factor));
    }
    assert(values@ =~= scaled_face(coefficients@, factor));
    Arkit52Coefficients { values }
}

/// Interpolates every channel, cut to `0..=1`.
fn mix_detailed_face(from: &Arkit52Coefficients, to: &Arkit52Coefficients, t: Binary32) -> (mixed:
    Arkit52Coefficients)
    ensures
        mixed@ == mixed_face(from@, to@, t),
{
    let mut values: [Binary32; 52] = [Binary32 { bits: 0 }; 52];
    for i in 0..52usize
        invariant
            forall|j: int|
                0 <= j < i ==> #[trigger] values@[j] == unit_clamped(
                    from@[j].plus(to@[j].minus(from@[j]).times(t)),
                ),
    {
        values[i] =
        clamp_unit(
            from.values[i].sum(to.values[i].difference(from.values[i]).product(t)),
        );
    }
    assert(values@ =~= mixed_face(from@, to@, t));
    Arkit52Coefficients { values }
}

/// Blends two optional coefficient sets, so that both acquiring and releasing
/// the detailed face stay continuous.
fn blend_detailed_face(
    from: &Option<Arkit52Coefficients>,
    to: &Option<Arkit52Coefficients>,
    factor: Binary32,
) -> (blended: Option<Arkit52Coefficients>)
    ensures
        is_blended_face(*from, *to, factor, blended),
{
    let t = clamp_unit(factor);
    match (from, to) {
        (None, None) => None,
        (Some(a), Some(b)) => Some(mix_detailed_face(a, b, t)),
        (Some(a), None) => Some(
            scale_detailed_face(a, Binary32::from_bits(ONE_BITS).difference(t)),
        ),
        (None, Some(b)) => Some(scale_detailed_face(b, t)),
    }
}

/// Blends two gazes.
fn blend_gaze(from: &GazeSignal, to: &GazeSignal, factor: Binary32) -> (gaze: GazeSignal)
    ensures
        gaze == blended_gaze(*from, *to, factor),
{
    let t = clamp_unit(factor);
    let state = if Binary32::from_bits(ONE_BITS).is_at_most(t) {
        to.state
    } else {
        match (from.state, to.state) {
            (GazeTrackingState::Observed, GazeTrackingState::Observed) =>
                GazeTrackingState::Observed,
            _ => GazeTrackingState::Degraded,
        }
    };
    GazeSignal::with_state(
        lerp(from.horizontal, to.horizontal, t),
        lerp(from.vertical, to.vertical, t),
        lerp(from.confidence, to.confidence, t),
        state,
    )
}

/// Builds the frame between two frames.
fn blend_frames(
    from: &AvatarControlFrame,
    to: &AvatarControlFrame,
    t: Binary32,
    inputs: &StepInputs,
) -> (frame: AvatarControlFrame)
    ensures
        is_blended_frame(*from, *to, t, *inputs, frame),
{
    AvatarControlFrame {
        source_seq: from.source_seq,
        captured_at: from.captured_at,
        produced_at: inputs.produced_at,
        confidence: lerp(from.confidence, to.confidence, t),
        state: inputs.state,
        head: inputs.head.head,
        head_translation: inputs.head.head_translation,
        gaze: blend_gaze(&from.gaze, &to.gaze, t),
        expressions: from.expressions.blend(&to.expressions, t),
        detailed_face: blend_detailed_face(&from.detailed_face, &to.detailed_face, t),
    }
}

/// Builds the synthetic frame of a return.
fn held_frame(origin: &AvatarControlFrame, factor: Binary32, inputs: &StepInputs) -> (frame:
    AvatarControlFrame)
    ensures
        is_held_frame(*origin, factor, *inputs, frame),
{
    let f = clamp_unit(factor);
    AvatarControlFrame {
        source_seq: origin.source_seq,
        captured_at: origin.captured_at,
        produced_at: inputs.produced_at,
        confidence: origin.confidence.product(f),
        state: inputs.state,
        head: origin.head,
        head_translation: origin.head_translation,
        gaze: GazeSignal::with_state(
            origin.gaze.horizontal,
            origin.gaze.vertical,
            origin.gaze.confidence.product(f),
            origin.gaze.state,
        ),
        expressions: origin.expressions.scale(f),
        detailed_face: match &origin.detailed_face {
            None => None,
            Some(coefficients) => Some(scale_detailed_face(coefficients, f)),
        },
    }
}

/// Builds a frame that is fully neutral in head pose and expressions.
fn neutral_frame(base: &AvatarControlFrame, produced_at: MonoTimeNs, state: TrackingState) -> (frame:
    AvatarControlFrame)
    ensures
        frame == neutral_frame_of(*base, produced_at, state),
{
    AvatarControlFrame {
        source_seq: base.source_seq,
        captured_at: base.captured_at,
        produced_at,
        confidence: Binary32::zero(),
        state,
        head: HeadPose {
            yaw_rad: Binary32::zero(),
            pitch_rad: Binary32::zero(),
            roll_rad: Binary32::zero(),
        },
        head_translation: HeadTranslationSignal::unavailable(),
        gaze: GazeSignal::with_state(
            Binary32::zero(),
            Binary32::zero(),
            Binary32::zero(),
            GazeTrackingState::Degraded,
        ),
        expressions: ExpressionCoefficients::default(),
        detailed_face: None,
    }
}

/// Advances the reacquisition blend toward the latest tracked target.
fn advance_recovery(
    from: AvatarControlFrame,
    to: AvatarControlFrame,
    elapsed: Duration,
    inputs: &StepInputs,
    params: &LossBlendProfile,
) -> (step: (RecoveryState, Option<AvatarControlFrame>))
    ensures
        blends_in(step.0, step.1, from, to, span_after(elapsed@, inputs.dt@), *inputs, *params),
{
    let elapsed = elapsed.saturating_add(&inputs.dt);
    let t = acquire_factor(elapsed, params);
    if Binary32::from_bits(ONE_BITS).is_at_most(t) {
        (RecoveryState::Idle, Some(to))
    } else {
        let blended = blend_frames(&from, &to, t, inputs);
        (RecoveryState::Recovering { from, elapsed }, Some(blended))
    }
}

/// Advances the return to neutral one frame.
///
/// The authority of the held loss frame decays along the shared loss timeline.
/// At zero the last frame publishes zeros, so that the avatar releases every
/// detailed coefficient before the coefficients are dropped.
fn advance_return(
    from: AvatarControlFrame,
    elapsed: Duration,
    inputs: &StepInputs,
    params: &LossBlendProfile,
) -> (step: (RecoveryState, Option<AvatarControlFrame>))
    ensures
        eases_back(step.0, step.1, from, span_after(elapsed@, inputs.dt@), *inputs, *params),
{
    let elapsed = elapsed.saturating_add(&inputs.dt);
    let factor = loss_return_factor(elapsed, params);
    if factor.is_at_most(Binary32::zero()) {
        (RecoveryState::Idle, Some(held_frame(&from, Binary32::zero(), inputs)))
    } else {
        let eased = held_frame(&from, factor, inputs);
        (RecoveryState::Returning { from, elapsed }, Some(eased))
    }
}

impl LossRecovery {
    /// Creates a new [`LossRecovery`] with the given parameters.
    ///
    /// # Errors
    ///
    /// Returns [`LossRecoveryConfigError`] if the parameters are invalid.
    pub fn new(params: LossBlendProfile) -> (result: Result<Self, LossRecoveryConfigError>)
        ensures
            result is Ok <==> params.valid(),
            match result {
                Ok(machine) => {
                    &&& machine.params == params
                    &&& machine.state is Idle
                    &&& machine.last_valid is None
                    &&& machine.last_output is None
                    &&& machine.consistent()
                },
                Err(error) => is_config_error(params, error.0),
            },
    {
        match params.validate() {
            Ok(_) => Ok(
                LossRecovery {
                    params,
                    state: RecoveryState::Idle,
                    last_valid: None,
                    last_output: None,
                },
            ),
            Err(error) => Err(LossRecoveryConfigError(error)),
        }
    }

    /// Returns the configured parameters.
    pub fn params(&self) -> (params: &LossBlendProfile)
        ensures
            *params == self.params,
    {
        &self.params
    }

    /// Returns `true` while returning to neutral.
    pub fn is_returning(&self) -> (returning: bool)
        ensures
            returning == (self.state is Returning),
    {
        matches!(self.state, RecoveryState::Returning { .. })
    }

    /// Returns `true` while blending back to a tracked frame.
    pub fn is_recovering(&self) -> (recovering: bool)
        ensures
            recovering == (self.state is Recovering),
    {
        matches!(self.state, RecoveryState::Recovering { .. })
    }

    /// Says which head motion the next step needs.
    pub fn request(
        &self,
        state: TrackingState,
        dt: Duration,
        observed: Option<AvatarControlFrame>,
    ) -> (request: RecoveryRequest)
        ensures
            match (observed, self.state) {
                (Some(target), RecoveryState::Idle) if state.acquired() => {
                    if self.last_output is Some && self.last_output->0.state.lost() {
                        request == (RecoveryRequest::Blend {
                            from: self.last_output->0,
                            factor: acquire_factor_of(span_after(0, dt@), self.params),
                        })
                    } else {
                        request is Nothing
                    }
                },
                (Some(target), RecoveryState::Returning { .. }) if state.acquired() => request == (
                RecoveryRequest::Blend {
                    from: match self.last_output {
                        Some(frame) => frame,
                        None => target,
                    },
                    factor: acquire_factor_of(span_after(0, dt@), self.params),
                }),
                (Some(target), RecoveryState::Recovering { from, elapsed })
                    if state.acquired() => request == (RecoveryRequest::Blend {
                    from,
                    factor: acquire_factor_of(span_after(elapsed@, dt@), self.params),
                }),
                _ => request is Nothing,
            },
    {
        if let Some(target) = observed {
            if !state.is_acquired() {
                return RecoveryRequest::Nothing;
            }
            match self.state {
                RecoveryState::Idle => match self.last_output {
                    Some(from) if from.state.is_lost() => RecoveryRequest::Blend {
                        from,
                        factor: acquire_factor(
                            Duration::zero().saturating_add(&dt),
                            &self.params,
                        ),
                    },
                    _ => RecoveryRequest::Nothing,
                },
                RecoveryState::Returning { .. } => RecoveryRequest::Blend {
                    from: match self.last_output {
                        Some(frame) => frame,
                        None => target,
                    },
                    factor: acquire_factor(Duration::zero().saturating_add(&dt), &self.params),
                },
                RecoveryState::Recovering { from, elapsed } => RecoveryRequest::Blend {
                    from,
                    factor: acquire_factor(elapsed.saturating_add(&dt), &self.params),
                },
            }
        } else {
            RecoveryRequest::Nothing
        }
    }

    /// Decides whether the first tracked frame after a loss episode starts a
    /// recovery blend instead of passing through directly.
    fn should_blend_on_reacquire(&self, target: &AvatarControlFrame, head_gap: Binary32) -> (blend:
        bool)
        ensures
            blend == should_blend(self.last_output, *target, head_gap),
    {
        match self.last_output {
            None => false,
            Some(from) => from.state.is_lost() && (Binary32::from_bits(
                REACQUIRE_MIN_HEAD_GAP_BITS,
            ).is_less(head_gap) || has_expression_gap(&from.expressions, &target.expressions)
                || has_gaze_gap(&from.gaze, &target.gaze)),
        }
    }

    /// Starts the return-to-neutral phase from the most recent output.
    ///
    /// When the previous episode already decayed fully, static neutral frames
    /// keep being emitted, so that a finished episode never restarts its
    /// timeline.
    fn start_return(&self, inputs: &StepInputs) -> (step: (
        RecoveryState,
        Option<AvatarControlFrame>,
    ))
        ensures
            starts_return(
                step.0,
                step.1,
                if self.last_output is Some {
                    self.last_output
                } else {
                    self.last_valid
                },
                *inputs,
            ),
    {
        let origin = match self.last_output {
            Some(frame) => frame,
            None => match self.last_valid {
                Some(frame) => frame,
                None => {
                    return (RecoveryState::Idle, None);
                },
            },
        };
        if origin.confidence.is_at_most(Binary32::zero()) {
            return (
                RecoveryState::Idle,
                Some(neutral_frame(&origin, inputs.produced_at, inputs.state)),
            );
        }
        let mut frame = origin;
        frame.state = inputs.state;
        frame.produced_at = inputs.produced_at;
        (RecoveryState::Returning { from: frame, elapsed: Duration::zero() }, Some(frame))
    }

    /// Updates the recovery logic and returns the synthetic or tracked frame
    /// to publish.
    ///
    /// The returned frame reuses the source sequence and capture timestamp of
    /// the frame it started from during the return and the recovery blend, so
    /// that a stale observation is not published as a new frame.
    pub fn update(&mut self, inputs: &StepInputs) -> (output: Option<AvatarControlFrame>)
        ensures
            is_step(*old(self), *inputs, final(self).state, output),
            final(self).params == old(self).params,
            final(self).last_valid == if inputs.observed is Some {
                inputs.observed
            } else {
                old(self).last_valid
            },
            final(self).last_output == if output is Some {
                output
            } else {
                old(self).last_output
            },
            old(self).consistent() ==> final(self).consistent(),
    {
        if inputs.observed.is_some() {
            self.last_valid = inputs.observed;
        }
        let (next, output) = match (inputs.observed, self.state) {
            (Some(target), RecoveryState::Idle) if inputs.state.is_acquired() => {
                if self.should_blend_on_reacquire(&target, inputs.head.gap) {
                    match self.last_output {
                        Some(from) => advance_recovery(
                            from,
                            target,
                            Duration::zero(),
                            inputs,
                            &self.params,
                        ),
                        None => (RecoveryState::Idle, Some(target)),
                    }
                } else {
                    (RecoveryState::Idle, Some(target))
                }
            },
            (Some(target), RecoveryState::Returning { .. }) if inputs.state.is_acquired() => {
                let from = match self.last_output {
                    Some(frame) => frame,
                    None => target,
                };
                advance_recovery(from, target, Duration::zero(), inputs, &self.params)
            },
            (Some(target), RecoveryState::Recovering { from, elapsed })
                if inputs.state.is_acquired() => {
                advance_recovery(from, target, elapsed, inputs, &self.params)
            },
            (None, RecoveryState::Returning { from, elapsed }) if inputs.state.is_lost() => {
                advance_return(from, elapsed, inputs, &self.params)
            },
            (None, _) if inputs.state.is_lost() => self.start_return(inputs),
            _ => (self.state, self.last_output),
        };
        self.state = next;
        if output.is_some() {
            self.last_output = output;
        }
        output
    }
}

/// Synthetic frames are never published as new observations: they keep the
/// source frame and capture time of the frame their phase started from.
pub proof fn lemma_synthetic_frames_keep_their_source(
    machine: LossRecovery,
    inputs: StepInputs,
    next: RecoveryState,
    output: Option<AvatarControlFrame>,
)
    requires
        is_step(machine, inputs, next, output),
    ensures
        machine.state is Returning && inputs.observed is None && inputs.state.lost() ==> {
            &&& output is Some
            &&& output->0.source_seq == machine.state->Returning_from.source_seq
            &&& output->0.captured_at == machine.state->Returning_from.captured_at
            &&& output->0.head == machine.state->Returning_from.head
        },
        next is Recovering && inputs.observed is Some && inputs.state.acquired() ==> {
            &&& output is Some
            &&& output->0.source_seq == next->Recovering_from.source_seq
            &&& output->0.captured_at == next->Recovering_from.captured_at
        },
{
}

/// A finished return never restarts its timeline: while the face stays lost,
/// every step publishes a frame without authority, fully neutral in head pose, gaze
/// and expressions.
pub proof fn lemma_finished_return_stays_neutral(
    machine: LossRecovery,
    inputs: StepInputs,
    next: RecoveryState,
    output: Option<AvatarControlFrame>,
)
    requires
        is_step(machine, inputs, next, output),
        machine.state is Idle,
        machine.last_output is Some,
        machine.last_output->0.confidence.at_most(Binary32 { bits: 0 }),
        inputs.observed is None,
        inputs.state.lost(),
    ensures
        next is Idle,
        output is Some,
        output == Some(neutral_frame_of(machine.last_output->0, inputs.produced_at, inputs.state)),
        output->0.confidence == (Binary32 { bits: 0 }),
        output->0.head == (HeadPose {
            yaw_rad: Binary32 { bits: 0 },
            pitch_rad: Binary32 { bits: 0 },
            roll_rad: Binary32 { bits: 0 },
        }),
        output->0.expressions == ExpressionCoefficients::neutral(),
        output->0.detailed_face is None,
{
}

/// A running return keeps advancing: state flips between the lost states
/// neither restart the hold nor lose time, and the last step leaves exact zeros.
pub proof fn lemma_running_return_keeps_advancing(
    machine: LossRecovery,
    inputs: StepInputs,
    next: RecoveryState,
    output: Option<AvatarControlFrame>,
)
    requires
        is_step(machine, inputs, next, output),
        machine.state is Returning,
        machine.state->Returning_from.finite(),
        inputs.observed is None,
        inputs.state.lost(),
    ensures
        next is Idle || (next is Returning && next->Returning_from == machine.state->Returning_from
            && next->Returning_elapsed@ == span_after(
            machine.state->Returning_elapsed@,
            inputs.dt@,
        )),
        next is Idle ==> {
            &&& output->0.confidence.magnitude() == 0
            &&& output->0.gaze.confidence.magnitude() == 0
            &&& forall|i: int|
                0 <= i < 16 ==> (#[trigger] output->0.expressions.listed()[i]).magnitude() == 0
            &&& output->0.detailed_face is Some ==> forall|i: int|
                0 <= i < 52 ==> (#[trigger] output->0.detailed_face->0@[i]).magnitude() == 0
        },
{
    let from = machine.state->Returning_from;
    let zero = Binary32 { bits: 0 };
    if next is Idle {
        assert forall|i: int| 0 <= i < 16 implies (#[trigger] output->0.expressions.listed()[i]).magnitude()
            == 0 by {
            assert(from.expressions.listed()[i].finite());
            assert(output->0.expressions.listed()[i] == from.expressions.listed()[i].times(zero));
        }
    }
    if next is Idle && from.detailed_face is Some {
        assert forall|i: int| 0 <= i < 52 implies (#[trigger] output->0.detailed_face->0@[i]).magnitude()
            == 0 by {
            assert(from.detailed_face->0@[i].finite());
        }
    }
}

/// A running recovery keeps advancing toward the tracked frames, and ends by passing
/// one through.
pub proof fn lemma_running_recovery_keeps_advancing(
    machine: LossRecovery,
    inputs: StepInputs,
    next: RecoveryState,
    output: Option<AvatarControlFrame>,
)
    requires
        is_step(machine, inputs, next, output),
        machine.state is Recovering,
        inputs.observed is Some,
        inputs.state.acquired(),
    ensures
        next is Idle ==> output == inputs.observed,
        next is Idle || (next is Recovering && next->Recovering_from
            == machine.state->Recovering_from && next->Recovering_elapsed@ == span_after(
            machine.state->Recovering_elapsed@,
            inputs.dt@,
        )),
        span_after(machine.state->Recovering_elapsed@, inputs.dt@) >= machine.params.acquire@
            ==> next is Idle,
{
}

/// During the return nothing is larger than in the loss frame: authority only fades.
pub proof fn lemma_return_only_fades(
    machine: LossRecovery,
    inputs: StepInputs,
    next: RecoveryState,
    output: Option<AvatarControlFrame>,
)
    requires
        is_step(machine, inputs, next, output),
        machine.params.valid(),
        machine.state is Returning,
        machine.state->Returning_from.finite(),
        inputs.observed is None,
        inputs.state.lost(),
    ensures
        output is Some,
        output->0.confidence.magnitude() <= machine.state->Returning_from.confidence.magnitude(),
        forall|i: int|
            0 <= i < 16 ==> (#[trigger] output->0.expressions.listed()[i]).magnitude()
                <= machine.state->Returning_from.expressions.listed()[i].magnitude(),
{
    let from = machine.state->Returning_from;
    let elapsed = span_after(machine.state->Returning_elapsed@, inputs.dt@);
    lemma_loss_factor_is_a_share(elapsed, machine.params);
    let factor = if next is Idle {
        Binary32 { bits: 0 }
    } else {
        loss_factor_of(elapsed, machine.params)
    };
    lemma_share_fades(from.confidence, factor);
    assert forall|i: int| 0 <= i < 16 implies (#[trigger] output->0.expressions.listed()[i]).magnitude()
        <= from.expressions.listed()[i].magnitude() by {
        lemma_share_fades(from.expressions.listed()[i], factor);
        assert(output->0.expressions.listed()[i] == from.expressions.listed()[i].times(factor));
    }
}

/// Rounding lifts the loss factor over this step: the eased return is running, and
/// its factor after the step exceeds the one before it. That takes a step of less
/// than `3 / 4096` of the return (see
/// [`lemma_loss_factor_falls`](crate::loss_blend::lemma_loss_factor_falls)).
pub open spec fn rounding_lifts(machine: LossRecovery, inputs: StepInputs) -> bool {
    &&& machine.state matches RecoveryState::Returning { elapsed, .. }
    &&& loss_factor_of(elapsed@, machine.params).less(
        loss_factor_of(span_after(elapsed@, inputs.dt@), machine.params),
    )
}

/// While the face stays lost, nothing stale looks new and authority never grows: each
/// output keeps the source frame and capture time of the output before it, and its
/// confidence is at most that one's. The one exception is a step over which rounding
/// lifts the loss factor: [`lemma_authority_can_grow_by_a_rounding`] shows one. There
/// too the confidence is at most the lost frame's.
pub proof fn lemma_authority_never_grows_while_lost(
    machine: LossRecovery,
    inputs: StepInputs,
    next: RecoveryState,
    output: Option<AvatarControlFrame>,
)
    requires
        is_step(machine, inputs, next, output),
        machine.params.valid(),
        machine.consistent(),
        machine.last_output is Some,
        in_unit_range(machine.last_output->0.confidence),
        inputs.observed is None,
        inputs.state.lost(),
    ensures
        output is Some,
        output->0.source_seq == machine.last_output->0.source_seq,
        output->0.captured_at == machine.last_output->0.captured_at,
        output->0.produced_at == inputs.produced_at,
        output->0.state == inputs.state,
        0 <= output->0.confidence.rank(),
        output->0.confidence.rank() <= machine.last_output->0.confidence.rank() || rounding_lifts(
            machine,
            inputs,
        ),
        machine.state is Returning ==> output->0.confidence.rank()
            <= machine.state->Returning_from.confidence.rank(),
{
    let last = machine.last_output->0;
    if let RecoveryState::Returning { from, elapsed } = machine.state {
        let spent = span_after(elapsed@, inputs.dt@);
        let before = loss_factor_of(elapsed@, machine.params);
        let after = loss_factor_of(spent, machine.params);
        lemma_loss_factor_is_a_share(elapsed@, machine.params);
        lemma_loss_factor_is_a_share(spent, machine.params);
        let factor = unit_clamped(
            if after.at_most(Binary32 { bits: 0 }) {
                Binary32 { bits: 0 }
            } else {
                after
            },
        );
        let one = Binary32 { bits: ONE_BITS };
        assert(output->0.confidence == from.confidence.times(factor));
        assert(from.confidence.finite());
        lemma_times_one_32(from.confidence);
        lemma_shares_keep_order(from.confidence, factor, one);
        if last.confidence == from.confidence.times(before) && !rounding_lifts(machine, inputs) {
            lemma_shares_keep_order(from.confidence, factor, before);
        }
    }
}

/// Authority never grows over a step of at least `3 / 4096` of the return, nor over one
/// that starts in the hold or runs past the end: there rounding lifts nothing.
pub proof fn lemma_frame_steps_lift_nothing(machine: LossRecovery, inputs: StepInputs)
    requires
        machine.params.valid(),
        machine.state matches RecoveryState::Returning { elapsed, .. } ==> {
            let spent = span_after(elapsed@, inputs.dt@);
            ||| elapsed@ <= machine.params.hold@
            ||| spent >= machine.params.hold@ + machine.params.return_duration@
            ||| 4096 * (return_progress(spent, machine.params).units() - return_progress(
                elapsed@,
                machine.params,
            ).units()) >= 3 * pow2(149)
        },
    ensures
        !rounding_lifts(machine, inputs),
{
    if let RecoveryState::Returning { elapsed, .. } = machine.state {
        let spent = span_after(elapsed@, inputs.dt@);
        if elapsed@ <= spent {
            lemma_loss_factor_falls(elapsed@, spent, machine.params);
        }
    }
}

/// Authority can grow by a rounding: with full confidence and a return of one second,
/// within 64 nanoseconds shortly before its end the confidence goes from one to two
/// sixteen-millionths.
pub proof fn lemma_authority_can_grow_by_a_rounding(
    machine: LossRecovery,
    inputs: StepInputs,
    next: RecoveryState,
    output: Option<AvatarControlFrame>,
)
    requires
        is_step(machine, inputs, next, output),
        machine.consistent(),
        machine.params.return_duration@ == 1_000_000_000,
        machine.params.hold@ <= 1_000_000_000,
        machine.state is Returning,
        machine.state->Returning_elapsed@ == machine.params.hold@ + 999_827_328,
        machine.state->Returning_from.confidence == (Binary32 { bits: ONE_BITS }),
        inputs.dt@ == 64,
        inputs.observed is None,
        inputs.state.lost(),
    ensures
        rounding_lifts(machine, inputs),
        machine.last_output->0.confidence == (Binary32 { bits: 0x3380_0000 }),
        output->0.confidence == (Binary32 { bits: 0x3400_0000 }),
        machine.last_output->0.confidence.less(output->0.confidence),
{
    lemma_loss_factor_can_rise(machine.params);
    lemma_one_times(Binary32 { bits: 0x3380_0000 });
    lemma_one_times(Binary32 { bits: 0x3400_0000 });
}

proof fn lemma_share_fades(number: Binary32, factor: Binary32)
    requires
        number.finite(),
        is_share(factor),
    ensures
        number.times(factor).magnitude() <= number.magnitude(),
{
    lemma_share_keeps_finite(number, factor);
    lemma_signed_factor_enlarges_nothing(number, factor);
}

/// While the hold lasts, the loss frame's own pose, confidence, gaze, expressions and
/// detailed coefficients are published.
pub proof fn lemma_hold_publishes_the_loss_frame(
    machine: LossRecovery,
    inputs: StepInputs,
    next: RecoveryState,
    output: Option<AvatarControlFrame>,
)
    requires
        is_step(machine, inputs, next, output),
        machine.state is Returning,
        machine.state->Returning_from.finite(),
        inputs.observed is None,
        inputs.state.lost(),
        span_after(machine.state->Returning_elapsed@, inputs.dt@) <= machine.params.hold@,
    ensures
        next is Returning,
        output is Some,
        output->0.confidence == machine.state->Returning_from.confidence,
        output->0.head == machine.state->Returning_from.head,
        output->0.head_translation == machine.state->Returning_from.head_translation,
        !(machine.state->Returning_from.gaze.state is Unavailable) ==> output->0.gaze
            == machine.state->Returning_from.gaze,
        output->0.expressions == machine.state->Returning_from.expressions,
        match machine.state->Returning_from.detailed_face {
            None => output->0.detailed_face is None,
            Some(face) => output->0.detailed_face is Some && output->0.detailed_face->0@ == face@,
        },
{
    let from = machine.state->Returning_from;
    let one = Binary32 { bits: ONE_BITS };
    lemma_times_one_32(from.confidence);
    lemma_times_one_32(from.gaze.confidence);
    assert forall|i: int| 0 <= i < 16 implies (#[trigger] from.expressions.listed()[i]).times(one)
        == from.expressions.listed()[i] by {
        lemma_times_one_32(from.expressions.listed()[i]);
    }
    let kept = from.expressions.scaled_by(one);
    assert forall|i: int| 0 <= i < 16 implies kept.listed()[i] == from.expressions.listed()[i] by {
        assert(kept.listed()[i] == from.expressions.listed()[i].times(one));
    }
    from.expressions.lemma_listed_is_injective(kept);
    if let Some(face) = from.detailed_face {
        assert forall|i: int| 0 <= i < 52 implies scaled_face(face@, one)[i] == face@[i] by {
            lemma_times_one_32(face@[i]);
        }
        assert(scaled_face(face@, one) =~= face@);
    }
}

} // verus!
