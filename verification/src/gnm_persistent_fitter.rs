//! Warm-start connection between the persistent GNM lifecycle directives and
//! the bounded single-frame solver.
//!
//! A lifecycle initialization directive selects the solver's initial values,
//! exactly one bounded solve runs, and its outcome goes back through the
//! lifecycle, so that publication of a new valid dynamic state stays
//! lifecycle-gated. The lifecycle and the solver run outside: each function here
//! takes what they answered and says what comes next.
//!
//! Warm-start semantics are intentionally narrow:
//! - Only [`GnmFitInitialization::PreviousValid`] reuses the stored validated
//!   dynamic state, and only as optimizer initial values.
//! - An invalid solve never replaces the stored previous valid state, and
//!   long-gap reacquisition never reuses old expression/joint values.

use vstd::prelude::*;
use vstd::string::*;

use crate::binary::Binary32;
use crate::gnm_fitter_contract::{
    camera_fault, GnmCameraBlock, GnmDynamicState, GnmFitterContractError, GnmRigidPoseBlock,
};
use crate::gnm_model::{
    DenseProjection, GnmExpressionState, GnmFrameStamp, GnmJointState, GnmModel, GnmReprojectionError,
};
use crate::linear_map::all_finite;
use crate::text::{append_decimal, decimal};

verus! {

/// How a solve is to be initialized.
#[derive(Clone, Copy, Debug, PartialEq, Eq, Structural)]
pub enum GnmFitInitialization {
    /// First fit after calibration: neutral values.
    NeutralFirstFit,
    /// Values of the last valid frame.
    PreviousValid {
        /// Source frame of those values.
        source: GnmFrameStamp,
    },
    /// Neutral values with a pose recovered from the observation.
    ReinitializeDynamicState,
}

/// What the lifecycle decided on an event.
#[derive(Clone, Copy, Debug, PartialEq, Eq, Structural)]
pub enum PersistentGnmAction {
    /// Dynamic state was reset.
    ResetDynamicState,
    /// No calibration exists.
    SkipUncalibratedFrame,
    /// No usable observation.
    NoObservation {
        /// Whether stale dynamic state was cleared.
        dynamic_state_cleared: bool,
    },
    /// Run one bounded solve.
    StartFit {
        /// How to initialize it.
        initialization: GnmFitInitialization,
    },
    /// The fit is the new valid state.
    PublishCurrentFit,
    /// The fit is invalid; the previous valid state stays.
    RejectInvalidFit,
    /// The fit is invalid, and the previous valid state is lost.
    RejectInvalidFitAndLose,
}

/// The lifecycle rejected an event.
#[derive(Clone, Copy, Debug, PartialEq, Eq, Structural)]
pub enum PersistentGnmLifecycleError {
    /// The source sequence was admitted before.
    DuplicateSourceSequence {
        /// The sequence.
        source_seq: u64,
    },
    /// The capture time lies before an admitted one.
    RegressedTimestamp {
        /// The capture time.
        captured_at_micros: u64,
    },
    /// A fit is pending where none may be, or the other way round.
    PendingFitViolation,
}

/// Verdict on a completed solve, as the lifecycle is told it.
#[derive(Clone, Copy, Debug, PartialEq, Eq, Structural)]
pub enum GnmFitOutcome {
    /// The solve is valid.
    Valid,
    /// The solve is invalid.
    Invalid,
}

/// Completion classification of the bounded solver.
#[derive(Clone, Copy, Debug, PartialEq, Eq, Structural)]
pub enum SingleFrameFitStatus {
    /// The solve converged.
    Converged,
    /// The iteration budget ran out.
    MaxIterationsReached,
    /// The residual is too large or not finite.
    Rejected,
}

/// Fail-closed error for one persistent fitter step.
#[derive(Clone, Copy, Debug, PartialEq)]
pub enum PersistentGnmFitterError {
    /// The lifecycle rejected the event (duplicate/regressed source, pending
    /// fit ownership violation).
    Lifecycle(PersistentGnmLifecycleError),
    /// A dynamic-state or contract validation failed.
    Contract(GnmFitterContractError),
    /// The numerical solver rejected its inputs or failed deterministically.
    Solve(GnmReprojectionError),
    /// The lifecycle directed a warm start from a previous valid state but no
    /// matching validated dynamic state is stored.
    MissingWarmStartState {
        /// Source frame whose validated state was expected.
        source: GnmFrameStamp,
    },
    /// The lifecycle emitted an action that cannot originate from the event
    /// this fitter sent.
    UnexpectedLifecycleAction {
        /// Impossible action reported by the lifecycle.
        action: PersistentGnmAction,
        /// Source frame being processed when it happened.
        stamp: GnmFrameStamp,
    },
}

/// The action as its name with its fields.
pub open spec fn action_text(action: PersistentGnmAction) -> Seq<char> {
    match action {
        PersistentGnmAction::ResetDynamicState => "ResetDynamicState"@,
        PersistentGnmAction::SkipUncalibratedFrame => "SkipUncalibratedFrame"@,
        PersistentGnmAction::NoObservation { dynamic_state_cleared } => {
            if dynamic_state_cleared {
                "NoObservation { dynamic_state_cleared: true }"@
            } else {
                "NoObservation { dynamic_state_cleared: false }"@
            }
        },
        PersistentGnmAction::StartFit { initialization } => match initialization {
            GnmFitInitialization::NeutralFirstFit => {
                "StartFit { initialization: NeutralFirstFit }"@
            },
            GnmFitInitialization::PreviousValid { source } => {
                "StartFit { initialization: PreviousValid { source: GnmFrameStamp { source_seq: "@
                    + decimal(source.source_seq as nat) + ", captured_at_micros: "@ + decimal(
                    source.captured_at_micros as nat,
                ) + " } } }"@
            },
            GnmFitInitialization::ReinitializeDynamicState => {
                "StartFit { initialization: ReinitializeDynamicState }"@
            },
        },
        PersistentGnmAction::PublishCurrentFit => "PublishCurrentFit"@,
        PersistentGnmAction::RejectInvalidFit => "RejectInvalidFit"@,
        PersistentGnmAction::RejectInvalidFitAndLose => "RejectInvalidFitAndLose"@,
    }
}

fn append_action(text: &mut String, action: PersistentGnmAction)
    ensures
        final(text)@ == old(text)@ + action_text(action),
{
    match action {
        PersistentGnmAction::ResetDynamicState => text.append("ResetDynamicState"),
        PersistentGnmAction::SkipUncalibratedFrame => text.append("SkipUncalibratedFrame"),
        PersistentGnmAction::NoObservation { dynamic_state_cleared } => {
            if dynamic_state_cleared {
                text.append("NoObservation { dynamic_state_cleared: true }")
            } else {
                text.append("NoObservation { dynamic_state_cleared: false }")
            }
        },
        PersistentGnmAction::StartFit { initialization } => match initialization {
            GnmFitInitialization::NeutralFirstFit => {
                text.append("StartFit { initialization: NeutralFirstFit }")
            },
            GnmFitInitialization::PreviousValid { source } => {
                text.append(
                    "StartFit { initialization: PreviousValid { source: GnmFrameStamp { source_seq: ",
                );
                append_decimal(text, source.source_seq);
                text.append(", captured_at_micros: ");
                append_decimal(text, source.captured_at_micros);
                text.append(" } } }");
                assert(text@ =~= old(text)@ + action_text(action));
            },
            GnmFitInitialization::ReinitializeDynamicState => {
                text.append("StartFit { initialization: ReinitializeDynamicState }")
            },
        },
        PersistentGnmAction::PublishCurrentFit => text.append("PublishCurrentFit"),
        PersistentGnmAction::RejectInvalidFit => text.append("RejectInvalidFit"),
        PersistentGnmAction::RejectInvalidFitAndLose => text.append("RejectInvalidFitAndLose"),
    }
}

impl PersistentGnmFitterError {
    /// The message of the error; `reason` is the message of a lifecycle or
    /// solver error that it carries.
    pub open spec fn text(self, reason: Seq<char>) -> Seq<char> {
        match self {
            PersistentGnmFitterError::Lifecycle(_) => "GNM lifecycle: "@ + reason,
            PersistentGnmFitterError::Contract(error) => "GNM fitter contract: "@ + error.text(),
            PersistentGnmFitterError::Solve(_) => "GNM single-frame solve: "@ + reason,
            PersistentGnmFitterError::MissingWarmStartState { source } => {
                "warm start directed from source "@ + decimal(source.source_seq as nat)
                    + " but no matching validated dynamic state is stored"@
            },
            PersistentGnmFitterError::UnexpectedLifecycleAction { action, stamp } => {
                "lifecycle emitted impossible action "@ + action_text(action) + " for source "@
                    + decimal(stamp.source_seq as nat)
            },
        }
    }

    /// The message of the error; `reason` is the message of a lifecycle or
    /// solver error that it carries.
    pub fn message(&self, reason: &str) -> (message: String)
        ensures
            message@ == self.text(reason@),
    {
        match self {
            PersistentGnmFitterError::Lifecycle(_) => {
                let mut message = "GNM lifecycle: ".to_owned();
                message.append(reason);
                message
            },
            PersistentGnmFitterError::Contract(error) => {
                let mut message = "GNM fitter contract: ".to_owned();
                let inner = error.message();
                message.append(inner.as_str());
                message
            },
            PersistentGnmFitterError::Solve(_) => {
                let mut message = "GNM single-frame solve: ".to_owned();
                message.append(reason);
                message
            },
            PersistentGnmFitterError::MissingWarmStartState { source } => {
                let mut message = "warm start directed from source ".to_owned();
                append_decimal(&mut message, source.source_seq);
                message.append(" but no matching validated dynamic state is stored");
                message
            },
            PersistentGnmFitterError::UnexpectedLifecycleAction { action, stamp } => {
                let mut message = "lifecycle emitted impossible action ".to_owned();
                append_action(&mut message, *action);
                message.append(" for source ");
                append_decimal(&mut message, stamp.source_seq);
                message
            },
        }
    }
}

/// Stored last-valid dynamic state together with its exact source frame.
#[derive(Clone, Debug, PartialEq)]
pub struct GnmValidatedDynamicFrame {
    stamp: GnmFrameStamp,
    dynamic: GnmDynamicState,
}

impl GnmValidatedDynamicFrame {
    /// The source frame.
    pub closed spec fn source(self) -> GnmFrameStamp {
        self.stamp
    }

    /// The dynamic state.
    pub closed spec fn state(self) -> GnmDynamicState {
        self.dynamic
    }

    /// Returns the source frame this state was fitted on.
    pub fn stamp(&self) -> (stamp: GnmFrameStamp)
        ensures
            stamp == self.source(),
    {
        self.stamp
    }

    /// Returns the validated dynamic state (read-only).
    pub fn dynamic(&self) -> (dynamic: &GnmDynamicState)
        ensures
            *dynamic == self.state(),
    {
        &self.dynamic
    }
}

/// Report of one completed bounded solve driven by a lifecycle directive.
#[derive(Clone, Copy, Debug, PartialEq, Eq, Structural)]
pub struct GnmSolvedFrameReport {
    /// Initialization directive the solve started from.
    pub initialization: GnmFitInitialization,
    /// Solver completion classification.
    pub status: SingleFrameFitStatus,
    /// Iterations actually spent by the block-coordinate loop.
    pub iterations: usize,
    /// Combined objective at the final state when finite.
    pub objective: Binary32,
    /// Whether the solved state was published as the new validated state.
    pub published: bool,
}

/// Outcome of one frame.
#[derive(Clone, Copy, Debug, PartialEq, Eq, Structural)]
pub enum PersistentGnmFrameOutcome {
    /// Frame skipped because no fixed identity/calibration exists yet.
    SkippedUncalibrated,
    /// No usable observation was available; no solve was attempted.
    NoObservation {
        /// Whether stale dynamic state crossed the reuse-age limit so both
        /// the lifecycle authority and the stored warm-start frame cleared.
        dynamic_state_cleared: bool,
    },
    /// One bounded solve ran to completion under the lifecycle directive.
    Solved(GnmSolvedFrameReport),
}

/// Initial values handed to the bounded solver for one frame.
#[derive(Clone, Debug, PartialEq)]
pub struct InitialDynamicValues {
    /// Expression coefficients.
    pub expression: GnmExpressionState,
    /// Joint rotations and translation.
    pub joints: GnmJointState,
    /// Pose and camera.
    pub projection: DenseProjection,
}

impl InitialDynamicValues {
    /// The values are those of a dynamic state.
    pub open spec fn repeats(self, dynamic: GnmDynamicState) -> bool {
        &&& self.expression.values@ == dynamic.expression.values@
        &&& self.joints.rotations@ == dynamic.joints.rotations@
        &&& self.joints.translation == dynamic.joints.translation
        &&& self.projection == projection_form(dynamic)
    }
}

impl InitialDynamicValues {
    /// Expression and joints are the model's neutral ones.
    pub open spec fn at_rest(self, model: GnmModel) -> bool {
        &&& self.expression.values@ == Seq::new(
            model.expression_dimension as nat,
            |i: int| Binary32 { bits: 0 },
        )
        &&& self.joints.resting(model.joint_count as nat)
    }
}

/// The model's neutral expression.
fn neutral_expression(model: &GnmModel) -> (expression: GnmExpressionState)
    ensures
        expression.values@ == Seq::new(
            model.expression_dimension as nat,
            |i: int| Binary32 { bits: 0 },
        ),
{
    let mut values: Vec<Binary32> = Vec::new();
    for i in 0..model.expression_dimension
        invariant
            values@ =~= Seq::new(i as nat, |j: int| Binary32 { bits: 0 }),
    {
        values.push(Binary32::zero());
    }
    GnmExpressionState { values }
}

/// Builds neutral expression and joints around `fitted`, a projection that frames
/// the neutral surface, whatever is observed.
///
/// Used by [`GnmFitInitialization::NeutralFirstFit`].
///
/// # Errors
///
/// Passes the failure to frame the surface on.
pub fn neutral_initial_values(
    model: &GnmModel,
    fitted: Result<DenseProjection, GnmReprojectionError>,
) -> (result: Result<InitialDynamicValues, GnmReprojectionError>)
    ensures
        match (fitted, result) {
            (Ok(projection), Ok(values)) => values.projection == projection && values.at_rest(
                *model,
            ),
            (Err(error), Err(reported)) => reported == error,
            _ => false,
        },
{
    match fitted {
        Ok(projection) => Ok(
            InitialDynamicValues {
                expression: neutral_expression(model),
                joints: GnmJointState::neutral(model.joint_count),
                projection,
            },
        ),
        Err(error) => Err(error),
    }
}

/// Builds neutral expression and joints around `recovered`, the projection that
/// the current observation gives for the neutral state, which `fitted` frames.
///
/// Used by [`GnmFitInitialization::ReinitializeDynamicState`]: expression and
/// joint history is discarded while pose evidence comes from the fresh observation
/// only.
///
/// # Errors
///
/// Passes the failure to frame the surface on, then the failure to recover a pose.
pub fn reinitialized_initial_values(
    model: &GnmModel,
    fitted: Result<DenseProjection, GnmReprojectionError>,
    recovered: Result<DenseProjection, GnmReprojectionError>,
) -> (result: Result<InitialDynamicValues, GnmReprojectionError>)
    ensures
        match result {
            Ok(values) => {
                &&& fitted is Ok
                &&& recovered == Ok::<_, GnmReprojectionError>(values.projection)
                &&& values.at_rest(*model)
            },
            Err(error) => if fitted is Err {
                fitted == Err::<DenseProjection, _>(error)
            } else {
                recovered == Err::<DenseProjection, _>(error)
            },
        },
{
    let neutral = match neutral_initial_values(model, fitted) {
        Ok(neutral) => neutral,
        Err(error) => {
            return Err(error);
        },
    };
    match recovered {
        Ok(projection) => Ok(
            InitialDynamicValues {
                expression: neutral.expression,
                joints: neutral.joints,
                projection,
            },
        ),
        Err(error) => Err(error),
    }
}

/// Where a solve starts from.
#[derive(Clone, Debug, PartialEq)]
pub enum SolveStart {
    /// Neutral expression and joints, with a projection that frames the neutral
    /// surface.
    Neutral,
    /// The stored values of the last valid frame.
    Warm(InitialDynamicValues),
    /// Neutral expression and joints, with a pose recovered from the observation.
    Recovered,
}

/// A solve that was started.
#[derive(Clone, Copy, Debug, PartialEq, Eq, Structural)]
pub struct StartedFit {
    /// Source frame.
    pub stamp: GnmFrameStamp,
    /// Directive that it was started under.
    pub initialization: GnmFitInitialization,
}

/// What the bounded solver returned.
#[derive(Clone, Debug, PartialEq)]
pub struct SolverOutcome {
    /// Whether the solver judges the result valid.
    pub valid: bool,
    /// Completion classification.
    pub status: SingleFrameFitStatus,
    /// Iterations spent.
    pub iterations: usize,
    /// Final objective.
    pub objective: Binary32,
    /// Final pose and camera.
    pub projection: DenseProjection,
    /// Final expression.
    pub expression: GnmExpressionState,
    /// Final joints.
    pub joints: GnmJointState,
}

/// What follows once the lifecycle has been told the verdict on a solve.
#[derive(Clone, Debug, PartialEq)]
pub enum Resolution {
    /// The verdict is invalid, and the step fails.
    Fail(PersistentGnmFitterError),
    /// The verdict is invalid, and the solve is reported as unpublished.
    Unpublished(GnmSolvedFrameReport),
    /// The verdict is valid; the state is stored if the lifecycle publishes it.
    Publish(GnmDynamicState, GnmSolvedFrameReport),
}

/// A verdict that the lifecycle has to be told.
#[derive(Clone, Debug, PartialEq)]
pub struct PendingReport {
    /// Source frame.
    pub stamp: GnmFrameStamp,
    /// What follows.
    pub resolution: Resolution,
}

impl PendingReport {
    /// The verdict.
    pub open spec fn verdict(self) -> GnmFitOutcome {
        if self.resolution is Publish {
            GnmFitOutcome::Valid
        } else {
            GnmFitOutcome::Invalid
        }
    }

    /// The verdict that the lifecycle has to be told.
    pub fn outcome(&self) -> (outcome: GnmFitOutcome)
        ensures
            outcome == self.verdict(),
    {
        match self.resolution {
            Resolution::Publish(_, _) => GnmFitOutcome::Valid,
            _ => GnmFitOutcome::Invalid,
        }
    }
}

/// What comes next for a frame.
#[derive(Debug, PartialEq)]
pub enum FitStep {
    /// The frame is done.
    Done(Result<PersistentGnmFrameOutcome, PersistentGnmFitterError>),
    /// Run one bounded solve, then call [`finish_solve`].
    Solve(StartedFit, SolveStart),
    /// Tell the lifecycle the verdict, then call
    /// [`PersistentGnmFitter::fit_reported`].
    Report(PendingReport),
}

/// The projection that a dynamic state stands for.
pub open spec fn projection_form(dynamic: GnmDynamicState) -> DenseProjection {
    DenseProjection {
        yaw_pitch_roll: dynamic.rigid_pose.angles(),
        translation: dynamic.camera.offset(),
        focal: dynamic.camera.focal_length(),
        principal_point: dynamic.camera.center(),
    }
}

/// Converts a validated dynamic state back into the solver's projection form.
///
/// The stored blocks were validated on construction, so that this always
/// succeeds.
///
/// # Errors
///
/// None is reachable.
pub fn projection_of_dynamic(dynamic: &GnmDynamicState) -> (result: Result<
    DenseProjection,
    GnmReprojectionError,
>)
    ensures
        result == Ok::<_, GnmReprojectionError>(projection_form(*dynamic)),
{
    let yaw_pitch_roll = dynamic.rigid_pose.yaw_pitch_roll();
    let translation = dynamic.camera.translation();
    let focal = dynamic.camera.focal();
    let principal_point = dynamic.camera.principal_point();
    DenseProjection::new(yaw_pitch_roll, translation, focal, principal_point)
}

/// The dynamic state has the solver's values.
pub open spec fn is_solver_state(
    projection: DenseProjection,
    expression: GnmExpressionState,
    joints: GnmJointState,
    dynamic: GnmDynamicState,
) -> bool {
    &&& dynamic.expression == expression
    &&& dynamic.joints == joints
    &&& projection_form(dynamic) == projection
}

/// Why a projection does not form dynamic blocks, if it does not.
pub open spec fn block_fault(projection: DenseProjection) -> Option<GnmFitterContractError> {
    if !all_finite(projection.yaw_pitch_roll@) {
        Some(GnmFitterContractError::NonFiniteDynamicValue("rigid_yaw_pitch_roll"))
    } else {
        camera_fault(projection.translation@, projection.focal, projection.principal_point@)
    }
}

/// Converts solver output into the validated dynamic-state contract form.
///
/// # Errors
///
/// Rejects a projection that does not form dynamic blocks.
pub fn dynamic_from_solver_output(
    projection: &DenseProjection,
    expression: GnmExpressionState,
    joints: GnmJointState,
) -> (result: Result<GnmDynamicState, GnmFitterContractError>)
    ensures
        match result {
            Ok(dynamic) => {
                &&& block_fault(*projection) is None
                &&& is_solver_state(*projection, expression, joints, dynamic)
            },
            Err(error) => block_fault(*projection) == Some(error),
        },
{
    let rigid_pose = match GnmRigidPoseBlock::new(projection.yaw_pitch_roll) {
        Ok(rigid_pose) => rigid_pose,
        Err(error) => {
            return Err(error);
        },
    };
    let camera = match GnmCameraBlock::new(
        projection.translation,
        projection.focal,
        projection.principal_point,
    ) {
        Ok(camera) => camera,
        Err(error) => {
            return Err(error);
        },
    };
    Ok(GnmDynamicState { expression, joints, rigid_pose, camera })
}

/// The report of a solve.
pub open spec fn report_of(
    started: StartedFit,
    outcome: SolverOutcome,
    published: bool,
) -> GnmSolvedFrameReport {
    GnmSolvedFrameReport {
        initialization: started.initialization,
        status: outcome.status,
        iterations: outcome.iterations,
        objective: outcome.objective,
        published,
    }
}

/// The verdict owed after a solve.
pub open spec fn is_verdict(
    started: StartedFit,
    model: GnmModel,
    solved: Result<SolverOutcome, GnmReprojectionError>,
    report: PendingReport,
) -> bool {
    &&& report.stamp == started.stamp
    &&& match solved {
        Err(error) => report.resolution == Resolution::Fail(PersistentGnmFitterError::Solve(error)),
        Ok(outcome) => {
            if !outcome.valid {
                report.resolution == Resolution::Unpublished(report_of(started, outcome, false))
            } else if block_fault(outcome.projection) is Some {
                report.resolution == Resolution::Fail(
                    PersistentGnmFitterError::Contract(block_fault(outcome.projection)->0),
                )
            } else {
                match report.resolution {
                    Resolution::Publish(dynamic, published) => {
                        &&& is_solver_state(
                            outcome.projection,
                            outcome.expression,
                            outcome.joints,
                            dynamic,
                        )
                        &&& dynamic.fault(model) is None
                        &&& published == report_of(started, outcome, true)
                    },
                    Resolution::Fail(PersistentGnmFitterError::Contract(error)) => exists|
                        dynamic: GnmDynamicState,
                    |
                        #[trigger] is_solver_state(
                            outcome.projection,
                            outcome.expression,
                            outcome.joints,
                            dynamic,
                        ) && dynamic.fault(model) == Some(error),
                    _ => false,
                }
            }
        },
    }
}

/// Judges what the solver returned; a failure to build initial values counts as
/// a failed solve.
pub fn finish_solve(
    started: StartedFit,
    model: &GnmModel,
    solved: Result<SolverOutcome, GnmReprojectionError>,
) -> (report: PendingReport)
    ensures
        is_verdict(started, *model, solved, report),
{
    let stamp = started.stamp;
    let outcome = match solved {
        Ok(outcome) => outcome,
        Err(error) => {
            return PendingReport {
                stamp,
                resolution: Resolution::Fail(PersistentGnmFitterError::Solve(error)),
            };
        },
    };
    let mut report = GnmSolvedFrameReport {
        initialization: started.initialization,
        status: outcome.status,
        iterations: outcome.iterations,
        objective: outcome.objective,
        published: false,
    };
    if !outcome.valid {
        return PendingReport { stamp, resolution: Resolution::Unpublished(report) };
    }
    match dynamic_from_solver_output(&outcome.projection, outcome.expression, outcome.joints) {
        Err(error) => PendingReport {
            stamp,
            resolution: Resolution::Fail(PersistentGnmFitterError::Contract(error)),
        },
        Ok(dynamic) => match dynamic.validate(model) {
            Err(error) => {
                assert(is_solver_state(
                    outcome.projection,
                    outcome.expression,
                    outcome.joints,
                    dynamic,
                ));
                PendingReport {
                    stamp,
                    resolution: Resolution::Fail(PersistentGnmFitterError::Contract(error)),
                }
            },
            Ok(_) => {
                report.published = true;
                PendingReport { stamp, resolution: Resolution::Publish(dynamic, report) }
            },
        },
    }
}

/// Persistent GNM fitter: the last lifecycle-validated dynamic frame, used
/// exclusively as warm-start initial values.
///
/// The fitter never stores fixed identity; identity is read-only input.
pub struct PersistentGnmFitter {
    validated: Option<GnmValidatedDynamicFrame>,
}

/// The result of a frame after the lifecycle answered the verdict.
pub open spec fn reported_result(
    report: PendingReport,
    decision: Result<PersistentGnmAction, PersistentGnmLifecycleError>,
) -> Result<PersistentGnmFrameOutcome, PersistentGnmFitterError> {
    match decision {
        Err(error) => Err(PersistentGnmFitterError::Lifecycle(error)),
        Ok(action) => match report.resolution {
            Resolution::Fail(error) => Err(error),
            Resolution::Unpublished(solved) => Ok(PersistentGnmFrameOutcome::Solved(solved)),
            Resolution::Publish(_, solved) => Ok(
                PersistentGnmFrameOutcome::Solved(
                    GnmSolvedFrameReport {
                        published: action == PersistentGnmAction::PublishCurrentFit,
                        ..solved
                    },
                ),
            ),
        },
    }
}

/// The stored frame after the lifecycle answered the verdict.
pub open spec fn is_stored_after(
    before: Option<GnmValidatedDynamicFrame>,
    report: PendingReport,
    decision: Result<PersistentGnmAction, PersistentGnmLifecycleError>,
    after: Option<GnmValidatedDynamicFrame>,
) -> bool {
    match decision {
        Err(_) => after == before,
        Ok(action) => match report.resolution {
            Resolution::Publish(dynamic, _) => {
                if action == PersistentGnmAction::PublishCurrentFit {
                    after is Some && after->0.source() == report.stamp && after->0.state()
                        == dynamic
                } else {
                    after is None
                }
            },
            _ => {
                if action == PersistentGnmAction::RejectInvalidFitAndLose {
                    after is None
                } else {
                    after == before
                }
            },
        },
    }
}

/// The stored frame is the one that a warm start names.
pub open spec fn is_warm(stored: Option<GnmValidatedDynamicFrame>, source: GnmFrameStamp) -> bool {
    stored is Some && stored->0.source() == source
}

/// What comes next once a fit was directed.
pub open spec fn is_started(
    stored: Option<GnmValidatedDynamicFrame>,
    stamp: GnmFrameStamp,
    initialization: GnmFitInitialization,
    step: FitStep,
) -> bool {
    match initialization {
        GnmFitInitialization::NeutralFirstFit => {
            step == FitStep::Solve(StartedFit { stamp, initialization }, SolveStart::Neutral)
        },
        GnmFitInitialization::ReinitializeDynamicState => {
            step == FitStep::Solve(StartedFit { stamp, initialization }, SolveStart::Recovered)
        },
        GnmFitInitialization::PreviousValid { source } => {
            if is_warm(stored, source) {
                match step {
                    FitStep::Solve(started, SolveStart::Warm(values)) => {
                        &&& started == (StartedFit { stamp, initialization })
                        &&& values.repeats(stored->0.state())
                    },
                    _ => false,
                }
            } else {
                step == FitStep::Report(
                    PendingReport {
                        stamp,
                        resolution: Resolution::Fail(
                            PersistentGnmFitterError::MissingWarmStartState { source },
                        ),
                    },
                )
            }
        },
    }
}

/// What comes next once the lifecycle answered a source frame.
pub open spec fn is_admission(
    stored: Option<GnmValidatedDynamicFrame>,
    stamp: GnmFrameStamp,
    decision: Result<PersistentGnmAction, PersistentGnmLifecycleError>,
    step: FitStep,
) -> bool {
    match decision {
        Err(error) => step == FitStep::Done(Err(PersistentGnmFitterError::Lifecycle(error))),
        Ok(action) => match action {
            PersistentGnmAction::SkipUncalibratedFrame => {
                step == FitStep::Done(Ok(PersistentGnmFrameOutcome::SkippedUncalibrated))
            },
            PersistentGnmAction::NoObservation { dynamic_state_cleared } => {
                step == FitStep::Done(
                    Ok(PersistentGnmFrameOutcome::NoObservation { dynamic_state_cleared }),
                )
            },
            PersistentGnmAction::StartFit { initialization } => is_started(
                stored,
                stamp,
                initialization,
                step,
            ),
            _ => step == FitStep::Done(
                Err(PersistentGnmFitterError::UnexpectedLifecycleAction { action, stamp }),
            ),
        },
    }
}

impl PersistentGnmFitter {
    /// The stored frame.
    pub closed spec fn stored(self) -> Option<GnmValidatedDynamicFrame> {
        self.validated
    }

    /// Creates a fitter without a stored frame.
    pub fn new() -> (fitter: Self)
        ensures
            fitter.stored() is None,
    {
        PersistentGnmFitter { validated: None }
    }

    /// Returns the stored last-valid dynamic frame, if any.
    pub fn validated(&self) -> (validated: Option<&GnmValidatedDynamicFrame>)
        ensures
            match validated {
                Some(frame) => self.stored() == Some(*frame),
                None => self.stored() is None,
            },
    {
        match &self.validated {
            Some(frame) => Some(frame),
            None => None,
        }
    }

    /// Applies the lifecycle's answer to the explicit calibration-ready event
    /// and clears all dynamic tracker state.
    ///
    /// # Errors
    ///
    /// Propagates lifecycle failures.
    pub fn calibration_ready(&mut self, decision: Result<(), PersistentGnmLifecycleError>) -> (result:
        Result<(), PersistentGnmFitterError>)
        ensures
            match decision {
                Ok(_) => result is Ok && final(self).stored() is None,
                Err(error) => {
                    &&& result == Err::<(), _>(PersistentGnmFitterError::Lifecycle(error))
                    &&& final(self).stored() == old(self).stored()
                },
            },
    {
        match decision {
            Ok(_) => {
                self.validated = None;
                Ok(())
            },
            Err(error) => Err(PersistentGnmFitterError::Lifecycle(error)),
        }
    }

    /// Applies the lifecycle's answer to the explicit calibration-invalidated
    /// event and clears all dynamic tracker state.
    ///
    /// # Errors
    ///
    /// Propagates lifecycle failures.
    pub fn calibration_invalidated(
        &mut self,
        decision: Result<(), PersistentGnmLifecycleError>,
    ) -> (result: Result<(), PersistentGnmFitterError>)
        ensures
            match decision {
                Ok(_) => result is Ok && final(self).stored() is None,
                Err(error) => {
                    &&& result == Err::<(), _>(PersistentGnmFitterError::Lifecycle(error))
                    &&& final(self).stored() == old(self).stored()
                },
            },
    {
        match decision {
            Ok(_) => {
                self.validated = None;
                Ok(())
            },
            Err(error) => Err(PersistentGnmFitterError::Lifecycle(error)),
        }
    }

    /// Admits one source frame under the lifecycle's answer to it.
    ///
    /// If anything fails after a solve was started, the pending fit is reported
    /// as invalid first, so that lifecycle ownership stays consistent, and the
    /// typed failure is returned after that.
    pub fn fit_frame(
        &mut self,
        stamp: GnmFrameStamp,
        decision: Result<PersistentGnmAction, PersistentGnmLifecycleError>,
    ) -> (step: FitStep)
        ensures
            is_admission(old(self).stored(), stamp, decision, step),
            final(self).stored() == (if decision
                == Ok::<PersistentGnmAction, PersistentGnmLifecycleError>(
                PersistentGnmAction::NoObservation { dynamic_state_cleared: true },
            ) {
                None
            } else {
                old(self).stored()
            }),
    {
        let action = match decision {
            Ok(action) => action,
            Err(error) => {
                return FitStep::Done(Err(PersistentGnmFitterError::Lifecycle(error)));
            },
        };
        match action {
            PersistentGnmAction::SkipUncalibratedFrame => FitStep::Done(
                Ok(PersistentGnmFrameOutcome::SkippedUncalibrated),
            ),
            PersistentGnmAction::NoObservation { dynamic_state_cleared } => {
                if dynamic_state_cleared {
                    self.validated = None;
                }
                FitStep::Done(Ok(PersistentGnmFrameOutcome::NoObservation { dynamic_state_cleared }))
            },
            PersistentGnmAction::StartFit { initialization } => self.solve_started_frame(
                stamp,
                initialization,
            ),
            _ => FitStep::Done(
                Err(PersistentGnmFitterError::UnexpectedLifecycleAction { action, stamp }),
            ),
        }
    }

    /// Selects where the bounded solve of an admitted frame starts from.
    pub fn solve_started_frame(
        &self,
        stamp: GnmFrameStamp,
        initialization: GnmFitInitialization,
    ) -> (step: FitStep)
        ensures
            is_started(self.stored(), stamp, initialization, step),
    {
        let started = StartedFit { stamp, initialization };
        match initialization {
            GnmFitInitialization::NeutralFirstFit => FitStep::Solve(started, SolveStart::Neutral),
            GnmFitInitialization::ReinitializeDynamicState => FitStep::Solve(
                started,
                SolveStart::Recovered,
            ),
            GnmFitInitialization::PreviousValid { source } => {
                match self.previous_valid_initial_values(source) {
                    Ok(values) => FitStep::Solve(started, SolveStart::Warm(values)),
                    Err(error) => FitStep::Report(
                        PendingReport { stamp, resolution: Resolution::Fail(error) },
                    ),
                }
            },
        }
    }

    /// Copies the stored validated frame named by a `PreviousValid` directive
    /// as solver initial values.
    ///
    /// # Errors
    ///
    /// Fails closed where that frame is not the stored one.
    pub fn previous_valid_initial_values(&self, source: GnmFrameStamp) -> (result: Result<
        InitialDynamicValues,
        PersistentGnmFitterError,
    >)
        ensures
            match result {
                Ok(values) => is_warm(self.stored(), source) && values.repeats(
                    self.stored()->0.state(),
                ),
                Err(error) => !is_warm(self.stored(), source) && error == (
                PersistentGnmFitterError::MissingWarmStartState { source }),
            },
    {
        match &self.validated {
            Some(frame) if frame.stamp == source => {
                match projection_of_dynamic(&frame.dynamic) {
                    Ok(projection) => Ok(
                        InitialDynamicValues {
                            expression: frame.dynamic.expression.duplicate(),
                            joints: frame.dynamic.joints.duplicate(),
                            projection,
                        },
                    ),
                    Err(error) => Err(PersistentGnmFitterError::Solve(error)),
                }
            },
            _ => Err(PersistentGnmFitterError::MissingWarmStartState { source }),
        }
    }

    /// Applies the lifecycle's answer to the verdict on a solve, and ends the
    /// frame.
    ///
    /// # Errors
    ///
    /// Returns the failure that the solve ended in, or the lifecycle's.
    pub fn fit_reported(
        &mut self,
        report: PendingReport,
        decision: Result<PersistentGnmAction, PersistentGnmLifecycleError>,
    ) -> (result: Result<PersistentGnmFrameOutcome, PersistentGnmFitterError>)
        ensures
            result == reported_result(report, decision),
            is_stored_after(old(self).stored(), report, decision, final(self).stored()),
    {
        let action = match decision {
            Ok(action) => action,
            Err(error) => {
                return Err(PersistentGnmFitterError::Lifecycle(error));
            },
        };
        let lost = action == PersistentGnmAction::RejectInvalidFitAndLose;
        match report.resolution {
            Resolution::Fail(error) => {
                if lost {
                    self.validated = None;
                }
                Err(error)
            },
            Resolution::Unpublished(solved) => {
                if lost {
                    self.validated = None;
                }
                Ok(PersistentGnmFrameOutcome::Solved(solved))
            },
            Resolution::Publish(dynamic, solved) => {
                let published = action == PersistentGnmAction::PublishCurrentFit;
                if published {
                    self.validated =
                    Some(GnmValidatedDynamicFrame { stamp: report.stamp, dynamic });
                } else {
                    self.validated = None;
                }
                Ok(
                    PersistentGnmFrameOutcome::Solved(
                        GnmSolvedFrameReport {
                            initialization: solved.initialization,
                            status: solved.status,
                            iterations: solved.iterations,
                            objective: solved.objective,
                            published,
                        },
                    ),
                )
            },
        }
    }
}

/// An invalid solve never replaces the previous valid state: whatever the
/// lifecycle answers, the stored frame stays or goes.
pub proof fn lemma_invalid_solve_stores_nothing(
    before: Option<GnmValidatedDynamicFrame>,
    report: PendingReport,
    decision: Result<PersistentGnmAction, PersistentGnmLifecycleError>,
    after: Option<GnmValidatedDynamicFrame>,
)
    requires
        report.verdict() == GnmFitOutcome::Invalid,
        is_stored_after(before, report, decision, after),
    ensures
        after == before || after is None,
{
}

/// Publication is lifecycle-gated: a frame is reported as published exactly where
/// the lifecycle answered a valid verdict with its publish action, and only then
/// is a new state stored.
pub proof fn lemma_publication_is_lifecycle_gated(
    before: Option<GnmValidatedDynamicFrame>,
    report: PendingReport,
    decision: Result<PersistentGnmAction, PersistentGnmLifecycleError>,
    after: Option<GnmValidatedDynamicFrame>,
)
    requires
        is_stored_after(before, report, decision, after),
    ensures
        after != before && after is Some ==> {
            &&& report.verdict() == GnmFitOutcome::Valid
            &&& decision == Ok::<PersistentGnmAction, PersistentGnmLifecycleError>(
                PersistentGnmAction::PublishCurrentFit,
            )
            &&& after->0.source() == report.stamp
            &&& reported_result(report, decision) matches Ok(
                PersistentGnmFrameOutcome::Solved(solved),
            ) && solved.published
        },
{
}

/// Long-gap reacquisition never hands the solver old expression or joint values:
/// only a warm start from the named frame does.
pub proof fn lemma_only_warm_starts_reuse_state(
    stored: Option<GnmValidatedDynamicFrame>,
    stamp: GnmFrameStamp,
    initialization: GnmFitInitialization,
    started: StartedFit,
    values: InitialDynamicValues,
)
    requires
        is_started(
            stored,
            stamp,
            initialization,
            FitStep::Solve(started, SolveStart::Warm(values)),
        ),
    ensures
        initialization is PreviousValid,
        is_warm(stored, initialization->source),
        values.repeats(stored->0.state()),
{
}

} // verus!
