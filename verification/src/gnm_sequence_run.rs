//! Whole runs of the sequence harness: what the steps of a run amount to, and that a
//! run repeats.
//!
//! A run is driven from outside: the lifecycle, the synthesis, the solver and the
//! strength policy answer, and the steps of [`RunState`] decide. Nothing else enters:
//! neither chance nor a clock.

use vstd::prelude::*;

use crate::binary::{Binary32, Binary64};
use crate::gnm_fitter_contract::GnmDynamicState;
use crate::gnm_model::{DenseProjection, GnmFrameStamp, GnmReprojectionError};
use crate::gnm_persistent_fitter::{
    projection_form, PersistentGnmAction, PersistentGnmLifecycleError, SolveStart, SolverOutcome,
};
use crate::gnm_sequence_regression::{
    is_finished, is_planned, is_state_after, is_step, is_view, motions, pose_at, report_of_run,
    AdaptiveTemporalState, DirectedSolve, HistoryEntry, PublishedState, RunState,
    SequenceFitMode, SequenceFrame, SequenceRegressionError, SequenceScenario, SequenceStep,
};

verus! {

/// What the outside answers while one frame runs. Answers that a frame does not ask
/// for do not matter.
pub struct FrameAnswers {
    /// The exponential of the frame's pulse exponent.
    pub pulse: Binary32,
    /// Whether the observation could be made.
    pub observation: Result<(), SequenceRegressionError>,
    /// The lifecycle's answer to the frame.
    pub admission: Result<PersistentGnmAction, PersistentGnmLifecycleError>,
    /// Whether the initial values could be had.
    pub start: Result<(), SequenceRegressionError>,
    /// The strength policy's answer.
    pub policy: Result<AdaptiveTemporalState, &'static str>,
    /// The solver's answer.
    pub solve: Result<SolverOutcome, GnmReprojectionError>,
    /// Whether the history was too old for the solve.
    pub reset: bool,
    /// The lifecycle's answer to the verdict.
    pub verdict: Result<PersistentGnmAction, PersistentGnmLifecycleError>,
}

/// How one frame ran.
pub struct FrameTrace {
    /// The state before the frame.
    pub before: RunState,
    /// The frame's plan.
    pub plan: Result<SequenceFrame, SequenceRegressionError>,
    /// What came next once the frame was admitted.
    pub step: Result<SequenceStep, SequenceRegressionError>,
    /// The state once the frame was admitted.
    pub admitted: RunState,
    /// The state once the strength policy has answered.
    pub advanced: RunState,
    /// How the frame ended.
    pub result: Result<(), SequenceRegressionError>,
    /// The state after the frame.
    pub after: RunState,
}

/// A directed solve runs to its end.
pub open spec fn solves(trace: FrameTrace, solve: DirectedSolve, answers: FrameAnswers) -> bool {
    let frame = trace.plan->Ok_0;
    if let Err(error) = answers.start {
        trace.result == Err::<(), _>(error) && trace.after == trace.admitted
    } else if solve.strength is Adaptive && answers.policy is Err {
        &&& trace.result == Err::<(), _>(
            SequenceRegressionError::AdaptivePolicy(answers.policy->Err_0),
        )
        &&& trace.after == trace.admitted
    } else {
        &&& trace.advanced == (if solve.strength is Adaptive {
            RunState { adaptive_state: Some(answers.policy->Ok_0), ..trace.admitted }
        } else {
            trace.admitted
        })
        &&& match answers.solve {
            Err(error) => {
                &&& trace.result == Err::<(), _>(SequenceRegressionError::Solve(error))
                &&& trace.after == trace.advanced
            },
            Ok(outcome) => is_finished(
                trace.advanced,
                frame.stamp,
                frame.truth,
                outcome,
                answers.reset,
                answers.verdict,
                trace.result,
                trace.after,
            ),
        }
    }
}

/// The frame ran as the step contracts say.
pub open spec fn is_frame(
    scenario: SequenceScenario,
    mode: SequenceFitMode,
    index: usize,
    answers: FrameAnswers,
    trace: FrameTrace,
) -> bool {
    &&& is_planned(scenario, index, answers.pulse, trace.plan)
    &&& match trace.plan {
        Err(error) => trace.result == Err::<(), _>(error) && trace.after == trace.before,
        Ok(frame) => match answers.observation {
            Err(error) => trace.result == Err::<(), _>(error) && trace.after == trace.before,
            Ok(_) => {
                &&& is_step(
                    trace.before,
                    frame.stamp,
                    mode,
                    scenario.fps,
                    answers.admission,
                    trace.step,
                )
                &&& is_state_after(trace.before, answers.admission, trace.admitted)
                &&& match trace.step {
                    Err(error) => {
                        &&& trace.result == Err::<(), _>(error)
                        &&& trace.after == trace.admitted
                    },
                    Ok(SequenceStep::Done) => trace.result is Ok && trace.after == trace.admitted,
                    Ok(SequenceStep::Solve(solve)) => solves(trace, solve, answers),
                }
            },
        },
    }
}

/// A state that a run starts from.
pub open spec fn is_start(state: RunState) -> bool {
    &&& state.published is None
    &&& state.history_previous is None
    &&& state.history_previous_previous is None
    &&& state.adaptive_state is None
    &&& state.samples@.len() == 0
    &&& state.no_observation_frames == 0
    &&& state.temporal_history_resets == 0
}

/// The frames of a run, one after the other; only the last may have failed.
pub open spec fn is_run(
    scenario: SequenceScenario,
    mode: SequenceFitMode,
    answers: Seq<FrameAnswers>,
    run: Seq<FrameTrace>,
) -> bool {
    &&& answers.len() == run.len() <= scenario.frame_count
    &&& run.len() > 0 ==> is_start(run[0].before)
    &&& forall|i: int|
        0 <= i < run.len() ==> is_frame(scenario, mode, i as usize, answers[i], #[trigger] run[i])
    &&& forall|i: int|
        0 < i < run.len() ==> (#[trigger] run[i]).before == run[i - 1].after && run[i
            - 1].result is Ok
}

/// Equal numbers in two dynamic states.
pub open spec fn same_dynamic(left: GnmDynamicState, right: GnmDynamicState) -> bool {
    &&& left.expression.values@ == right.expression.values@
    &&& left.joints.rotations@ == right.joints.rotations@
    &&& left.joints.translation == right.joints.translation
    &&& projection_form(left) == projection_form(right)
}

/// Equal numbers in two published states.
pub open spec fn same_published(left: Option<PublishedState>, right: Option<PublishedState>) -> bool {
    match (left, right) {
        (None, None) => true,
        (Some(left), Some(right)) => left.stamp == right.stamp && same_dynamic(
            left.dynamic,
            right.dynamic,
        ),
        _ => false,
    }
}

/// Equal numbers in two history entries.
pub open spec fn same_entry(left: Option<HistoryEntry>, right: Option<HistoryEntry>) -> bool {
    match (left, right) {
        (None, None) => true,
        (Some(left), Some(right)) => {
            &&& left.stamp == right.stamp
            &&& left.expression@ == right.expression@
            &&& left.joints@ == right.joints@
            &&& left.head_pose == right.head_pose
            &&& left.translation == right.translation
        },
        _ => false,
    }
}

/// Equal numbers in two states.
pub open spec fn same_state(left: RunState, right: RunState) -> bool {
    &&& same_published(left.published, right.published)
    &&& same_entry(left.history_previous, right.history_previous)
    &&& same_entry(left.history_previous_previous, right.history_previous_previous)
    &&& left.adaptive_state == right.adaptive_state
    &&& left.samples@ == right.samples@
    &&& left.no_observation_frames == right.no_observation_frames
    &&& left.temporal_history_resets == right.temporal_history_resets
}

/// Equal numbers in two solver outcomes.
pub open spec fn same_outcome(left: SolverOutcome, right: SolverOutcome) -> bool {
    &&& left.valid == right.valid
    &&& left.status == right.status
    &&& left.iterations == right.iterations
    &&& left.objective == right.objective
    &&& left.projection == right.projection
    &&& left.expression.values@ == right.expression.values@
    &&& left.joints.rotations@ == right.joints.rotations@
    &&& left.joints.translation == right.joints.translation
}

/// Equal answers.
pub open spec fn same_answers(left: FrameAnswers, right: FrameAnswers) -> bool {
    &&& left.pulse == right.pulse
    &&& left.observation == right.observation
    &&& left.admission == right.admission
    &&& left.start == right.start
    &&& left.policy == right.policy
    &&& match (left.solve, right.solve) {
        (Ok(left), Ok(right)) => same_outcome(left, right),
        (Err(left), Err(right)) => left == right,
        _ => false,
    }
    &&& left.reset == right.reset
    &&& left.verdict == right.verdict
}

/// Equal questions to the solver and the strength policy.
pub open spec fn same_question(left: DirectedSolve, right: DirectedSolve) -> bool {
    &&& left.stamp == right.stamp
    &&& left.strength == right.strength
    &&& left.timing == right.timing
    &&& match (left.start, right.start) {
        (SolveStart::Warm(left), SolveStart::Warm(right)) => {
            &&& left.expression.values@ == right.expression.values@
            &&& left.joints.rotations@ == right.joints.rotations@
            &&& left.joints.translation == right.joints.translation
            &&& left.projection == right.projection
        },
        (left, right) => left == right,
    }
}

/// Equal steps: the same end, or the same question.
pub open spec fn same_step(
    left: Result<SequenceStep, SequenceRegressionError>,
    right: Result<SequenceStep, SequenceRegressionError>,
) -> bool {
    match (left, right) {
        (Err(left), Err(right)) => left == right,
        (Ok(SequenceStep::Done), Ok(SequenceStep::Done)) => true,
        (Ok(SequenceStep::Solve(left)), Ok(SequenceStep::Solve(right))) => same_question(left, right),
        _ => false,
    }
}

/// Motion goes by the numbers of the history.
proof fn lemma_motions_repeat(left: RunState, right: RunState)
    requires
        same_state(left, right),
    ensures
        motions(left.history_previous, left.history_previous_previous) == motions(
            right.history_previous,
            right.history_previous_previous,
        ),
{
}

/// Equal states ask equal questions.
proof fn lemma_step_repeats(
    left: RunState,
    right: RunState,
    stamp: GnmFrameStamp,
    mode: SequenceFitMode,
    fps: Binary64,
    decision: Result<PersistentGnmAction, PersistentGnmLifecycleError>,
    left_step: Result<SequenceStep, SequenceRegressionError>,
    right_step: Result<SequenceStep, SequenceRegressionError>,
)
    requires
        same_state(left, right),
        is_step(left, stamp, mode, fps, decision, left_step),
        is_step(right, stamp, mode, fps, decision, right_step),
    ensures
        same_step(left_step, right_step),
{
    lemma_motions_repeat(left, right);
}

/// Equal scenarios plan equal frames.
proof fn lemma_plan_repeats(
    scenario: SequenceScenario,
    index: usize,
    pulse: Binary32,
    left: Result<SequenceFrame, SequenceRegressionError>,
    right: Result<SequenceFrame, SequenceRegressionError>,
)
    requires
        is_planned(scenario, index, pulse, left),
        is_planned(scenario, index, pulse, right),
    ensures
        left == right,
{
    let pose = pose_at(scenario.trajectory, index as int, scenario.frame_count as int);
    let displaced = scenario.anomalies.outlier_frame == Some(index);
    assert forall|a: DenseProjection, b: DenseProjection|
        #[trigger] is_view(a, pose, displaced) && #[trigger] is_view(b, pose, displaced) implies a
        == b by {
        assert(a.yaw_pitch_roll =~= b.yaw_pitch_roll);
        assert(a.translation =~= b.translation);
        assert(a.principal_point =~= b.principal_point);
    }
    if left is Ok && right is Ok {
        assert(left->Ok_0.truth.yaw_pitch_roll =~= right->Ok_0.truth.yaw_pitch_roll);
    }
}

/// Equal frames end alike.
proof fn lemma_end_repeats(left: FrameTrace, right: FrameTrace, a: FrameAnswers, b: FrameAnswers)
    requires
        same_answers(a, b),
        left.plan == right.plan,
        same_state(left.admitted, right.admitted),
        left.step matches Ok(SequenceStep::Solve(solve)) && solves(left, solve, a),
        right.step matches Ok(SequenceStep::Solve(solve)) && solves(right, solve, b),
        same_step(left.step, right.step),
    ensures
        left.result == right.result,
        same_state(left.after, right.after),
{
    if let (Ok(one), Ok(other)) = (left.result, right.result) {
        assert(one == other);
    }
}

/// One frame repeats: from equal states, on equal answers, it asks the same questions,
/// ends the same way, and leaves equal states.
pub proof fn lemma_frame_repeats(
    scenario: SequenceScenario,
    mode: SequenceFitMode,
    index: usize,
    left: FrameTrace,
    right: FrameTrace,
    left_answers: FrameAnswers,
    right_answers: FrameAnswers,
)
    requires
        is_frame(scenario, mode, index, left_answers, left),
        is_frame(scenario, mode, index, right_answers, right),
        same_state(left.before, right.before),
        same_answers(left_answers, right_answers),
    ensures
        left.plan == right.plan,
        left.plan is Ok && left_answers.observation is Ok ==> same_step(left.step, right.step),
        left.result == right.result,
        same_state(left.after, right.after),
{
    lemma_plan_repeats(scenario, index, left_answers.pulse, left.plan, right.plan);
    if left.plan is Ok && left_answers.observation is Ok {
        let frame = left.plan->Ok_0;
        lemma_step_repeats(
            left.before,
            right.before,
            frame.stamp,
            mode,
            scenario.fps,
            left_answers.admission,
            left.step,
            right.step,
        );
        assert(same_state(left.admitted, right.admitted));
        if left.step matches Ok(SequenceStep::Solve(solve)) {
            lemma_end_repeats(left, right, left_answers, right_answers);
        }
    }
    if let (Ok(one), Ok(other)) = (left.result, right.result) {
        assert(one == other);
    }
}

/// A whole run repeats: equal scenarios, modes and outside answers lead through equal
/// states to equal ends, and to equal reports.
pub proof fn lemma_run_repeats(
    scenario: SequenceScenario,
    mode: SequenceFitMode,
    left_answers: Seq<FrameAnswers>,
    right_answers: Seq<FrameAnswers>,
    left: Seq<FrameTrace>,
    right: Seq<FrameTrace>,
    n: int,
)
    requires
        is_run(scenario, mode, left_answers, left),
        is_run(scenario, mode, right_answers, right),
        0 <= n < left.len(),
        n < right.len(),
        forall|i: int| 0 <= i <= n ==> same_answers(#[trigger] left_answers[i], right_answers[i]),
    ensures
        left[n].result == right[n].result,
        same_state(left[n].after, right[n].after),
        report_of_run(scenario, mode, left[n].after) == report_of_run(
            scenario,
            mode,
            right[n].after,
        ),
    decreases n,
{
    if n > 0 {
        lemma_run_repeats(
            scenario,
            mode,
            left_answers,
            right_answers,
            left,
            right,
            n - 1,
        );
    }
    assert(same_answers(left_answers[n], right_answers[n]));
    if n == 0 {
        assert(left[n].before.samples@ =~= right[n].before.samples@);
    }
    assert(same_state(left[n].before, right[n].before));
    lemma_frame_repeats(
        scenario,
        mode,
        n as usize,
        left[n],
        right[n],
        left_answers[n],
        right_answers[n],
    );
}

} // verus!
