//! Fixed settings and the synthetic head of the sequence regression harness.

use vstd::prelude::*;

use crate::binary::{Binary32, Binary64};
use crate::gnm_arkit_projector::AnatomicalSide;
use crate::gnm_model::{gnm_head_v3_version, head_v3, DenseMappingVersion, GnmExpressionState, GnmModel};
use crate::landmark_basis::LANDMARK_COUNT;

verus! {

/// Vertices of the synthetic head.
pub const SYNTHETIC_VERTEX_COUNT: usize = 64;

/// Coordinates of the synthetic head.
pub const SYNTHETIC_COORDINATE_COUNT: usize = 192;

/// Landmark of the first vertex.
pub const SYNTHETIC_FIRST_LANDMARK: usize = 10;

/// A full turn in radians.
pub const TAU_BITS: u32 = 0x40c9_0fdb;

/// Three.
pub const THREE_BITS: u32 = 0x4040_0000;

/// Lateral radius of the synthetic head (`0.10`).
pub const HEAD_RADIUS_X_BITS: u32 = 0x3dcc_cccd;

/// Vertical radius of the synthetic head (`0.12`).
pub const HEAD_RADIUS_Y_BITS: u32 = 0x3df5_c28f;

/// Depth amplitude of the synthetic head (`0.05`).
pub const HEAD_DEPTH_BITS: u32 = 0x3d4c_cccd;

/// Vertical travel of the mouth channel (`-0.04`).
pub const MOUTH_TRAVEL_BITS: u32 = 0xbd23_d70a;

/// Lateral travel of the eyelid channel (`0.03`).
pub const EYELID_TRAVEL_BITS: u32 = 0x3cf5_c28f;

/// One.
pub const UNIT_BITS: u32 = 0x3f80_0000;

/// Budget and tolerance of the bounded solver.
#[derive(Clone, Copy, Debug, PartialEq, Eq, Structural)]
pub struct RegressionSolverConfig {
    /// Largest number of block-coordinate iterations.
    pub max_iterations: usize,
    /// Convergence tolerance.
    pub tolerance: Binary64,
}

/// Bounded solver budget shared by every regression run.
///
/// Iterations are themselves a reported comparison metric, so the budget is a
/// fixed constant well below the production bound.
pub fn regression_solver_config() -> (config: RegressionSolverConfig)
    ensures
        config.max_iterations == 16,
        config.tolerance == (Binary64 { bits: 0x3eb0_c6f7_a0b5_ed8d }),
{
    RegressionSolverConfig {
        max_iterations: 16,
        tolerance: Binary64::from_bits(0x3eb0_c6f7_a0b5_ed8d),
    }
}

/// Ages that the lifecycle tolerates.
#[derive(Clone, Copy, Debug, PartialEq, Eq, Structural)]
pub struct RegressionLifecycleConfig {
    /// Age up to which a valid state seeds the optimizer.
    pub warm_start_age_micros: u64,
    /// Age up to which dynamic state is reused at all.
    pub reuse_age_micros: u64,
    /// Invalid fits in a row that lose the state.
    pub invalid_fit_limit: u32,
}

/// Lifecycle configuration shared by all runs: three-frame warm-start window
/// at 60 fps and a 250 ms dynamic reuse age.
pub fn regression_lifecycle_config() -> (config: RegressionLifecycleConfig)
    ensures
        config == (RegressionLifecycleConfig {
            warm_start_age_micros: 50_000,
            reuse_age_micros: 250_000,
            invalid_fit_limit: 3,
        }),
{
    RegressionLifecycleConfig {
        warm_start_age_micros: 50_000,
        reuse_age_micros: 250_000,
        invalid_fit_limit: 3,
    }
}

/// What a dense observation has to cover.
#[derive(Clone, Copy, Debug, PartialEq, Eq, Structural)]
pub struct CoveragePolicy {
    /// Points that are asked for.
    pub required_points: usize,
    /// Share that is asked for.
    pub required_share: Binary64,
}

/// Coverage policy shared by all runs: two points, and a share of `0.75`.
pub fn coverage_policy() -> (policy: CoveragePolicy)
    ensures
        policy == (CoveragePolicy {
            required_points: 2,
            required_share: Binary64 { bits: 0x3fe8_0000_0000_0000 },
        }),
{
    CoveragePolicy {
        required_points: 2,
        required_share: Binary64::from_bits(0x3fe8_0000_0000_0000),
    }
}

/// Units that the temporal penalties of the groups are measured in.
#[derive(Clone, Debug, PartialEq)]
pub struct TemporalScales {
    /// One unit per expression coefficient.
    pub expression: Vec<Binary32>,
    /// One unit per joint coordinate, the translation's after the rotations'.
    pub joints: Vec<Binary32>,
    /// One unit per head angle.
    pub head_pose: [Binary32; 3],
    /// One unit per translation axis.
    pub translation: [Binary32; 3],
}

/// Bit pattern of `0.2`, the unit of head angles and translations.
pub const RIGID_SCALE_BITS: u32 = 0x3e4c_cccd;

/// Units shared by all runs: one for expressions and joints, and `0.2` for the head,
/// so that the shared penalty band gives curvature of the same order.
pub fn temporal_scales(model: &GnmModel) -> (scales: TemporalScales)
    requires
        3 * (model.joint_count + 1) <= usize::MAX,
    ensures
        scales.expression@ == copies(
            Binary32 { bits: UNIT_BITS },
            model.expression_dimension as nat,
        ),
        scales.joints@ == copies(
            Binary32 { bits: UNIT_BITS },
            (3 * (model.joint_count + 1)) as nat,
        ),
        scales.head_pose@ == copies(Binary32 { bits: RIGID_SCALE_BITS }, 3),
        scales.translation@ == copies(Binary32 { bits: RIGID_SCALE_BITS }, 3),
{
    let rigid = Binary32::from_bits(RIGID_SCALE_BITS);
    let one = Binary32::from_bits(UNIT_BITS);
    let scales = TemporalScales {
        expression: repeat(one, model.expression_dimension),
        joints: repeat(one, 3 * (model.joint_count + 1)),
        head_pose: [rigid, rigid, rigid],
        translation: [rigid, rigid, rigid],
    };
    assert(scales.head_pose@ =~= copies(rigid, 3));
    assert(scales.translation@ =~= copies(rigid, 3));
    scales
}

/// Longest time step, in seconds, that a temporal penalty spans: `0.25`.
pub fn longest_penalty_step() -> (seconds: Binary64)
    ensures
        seconds == (Binary64 { bits: 0x3fd0_0000_0000_0000 }),
{
    Binary64::from_bits(0x3fd0_0000_0000_0000)
}

/// A landmark that was not seen.
pub open spec fn missing_point() -> Seq<Binary32> {
    seq![Binary32 { bits: 0x7fc0_0000 }, Binary32 { bits: 0x7fc0_0000 }]
}

/// The landmarks of a frame without a usable observation: every coordinate is a NaN.
pub fn missing_landmarks() -> (landmarks: Vec<[Binary32; 2]>)
    ensures
        landmarks@.len() == LANDMARK_COUNT,
        forall|i: int| 0 <= i < LANDMARK_COUNT ==> (#[trigger] landmarks@[i])@ == missing_point(),
{
    let missing = Binary32::from_bits(0x7fc0_0000);
    let mut landmarks: Vec<[Binary32; 2]> = Vec::new();
    for i in 0..LANDMARK_COUNT
        invariant
            missing == (Binary32 { bits: 0x7fc0_0000 }),
            landmarks@.len() == i,
            forall|j: int| 0 <= j < i ==> (#[trigger] landmarks@[j])@ == missing_point(),
    {
        let point: [Binary32; 2] = [missing, missing];
        assert(point@ =~= missing_point());
        landmarks.push(point);
    }
    landmarks
}

/// The expression that drives the synthetic head: its first coefficient, with the
/// others at rest.
pub fn driven_expression(model: &GnmModel, mouth: Binary32) -> (expression: GnmExpressionState)
    ensures
        expression.values@ == Seq::new(
            model.expression_dimension as nat,
            |i: int|
                if i == 0 {
                    mouth
                } else {
                    Binary32 { bits: 0 }
                },
        ),
{
    let mut values = repeat(Binary32::zero(), model.expression_dimension);
    if values.len() > 0 {
        values.set(0, mouth);
    }
    let expression = GnmExpressionState { values };
    assert(expression.values@ =~= Seq::new(
        model.expression_dimension as nat,
        |i: int|
            if i == 0 {
                mouth
            } else {
                Binary32 { bits: 0 }
            },
    ));
    expression
}

/// Bounds of the velocity and acceleration penalties of one group.
#[derive(Clone, Copy, Debug, PartialEq, Eq, Structural)]
pub struct GroupLambdaRange {
    /// Smallest velocity penalty.
    pub velocity_min: Binary64,
    /// Largest velocity penalty.
    pub velocity_max: Binary64,
    /// Smallest acceleration penalty.
    pub acceleration_min: Binary64,
    /// Largest acceleration penalty.
    pub acceleration_max: Binary64,
}

/// Penalty bounds of every group.
#[derive(Clone, Copy, Debug, PartialEq, Eq, Structural)]
pub struct TemporalLambdaRanges {
    /// Expression coefficients.
    pub expression: GroupLambdaRange,
    /// Joints.
    pub joints: GroupLambdaRange,
    /// Head pose.
    pub head_pose: GroupLambdaRange,
    /// Translation.
    pub translation: GroupLambdaRange,
}

/// The band of the expression and joint groups: `1e-6` to `1e-4` and `1e-8` to
/// `1e-6`.
pub open spec fn soft_range() -> GroupLambdaRange {
    GroupLambdaRange {
        velocity_min: Binary64 { bits: 0x3eb0_c6f7_a0b5_ed8d },
        velocity_max: Binary64 { bits: 0x3f1a_36e2_eb1c_432d },
        acceleration_min: Binary64 { bits: 0x3e45_798e_e230_8c3a },
        acceleration_max: Binary64 { bits: 0x3eb0_c6f7_a0b5_ed8d },
    }
}

/// The band of the rigid groups: `1e-8` to `1e-6` and `1e-10` to `1e-8`.
pub open spec fn rigid_range() -> GroupLambdaRange {
    GroupLambdaRange {
        velocity_min: Binary64 { bits: 0x3e45_798e_e230_8c3a },
        velocity_max: Binary64 { bits: 0x3eb0_c6f7_a0b5_ed8d },
        acceleration_min: Binary64 { bits: 0x3ddb_7cdf_d9d7_bdbb },
        acceleration_max: Binary64 { bits: 0x3e45_798e_e230_8c3a },
    }
}

/// Explicit bounded lambda ranges for the regression temporal penalties.
///
/// The fixture's dense curvature is of order `0.1` for expression channels and
/// of order `3` for rigid yaw, so each group gets a band whose top stays below
/// its own dense curvature.
pub fn temporal_lambda_ranges() -> (ranges: TemporalLambdaRanges)
    ensures
        ranges == (TemporalLambdaRanges {
            expression: soft_range(),
            joints: soft_range(),
            head_pose: rigid_range(),
            translation: rigid_range(),
        }),
{
    let soft = GroupLambdaRange {
        velocity_min: Binary64::from_bits(0x3eb0_c6f7_a0b5_ed8d),
        velocity_max: Binary64::from_bits(0x3f1a_36e2_eb1c_432d),
        acceleration_min: Binary64::from_bits(0x3e45_798e_e230_8c3a),
        acceleration_max: Binary64::from_bits(0x3eb0_c6f7_a0b5_ed8d),
    };
    let rigid = GroupLambdaRange {
        velocity_min: Binary64::from_bits(0x3e45_798e_e230_8c3a),
        velocity_max: Binary64::from_bits(0x3eb0_c6f7_a0b5_ed8d),
        acceleration_min: Binary64::from_bits(0x3ddb_7cdf_d9d7_bdbb),
        acceleration_max: Binary64::from_bits(0x3e45_798e_e230_8c3a),
    };
    TemporalLambdaRanges { expression: soft, joints: soft, head_pose: rigid, translation: rigid }
}

/// Strength of the temporal penalty of every group.
#[derive(Clone, Copy, Debug, PartialEq, Eq, Structural)]
pub struct TemporalGroupWeights {
    /// Expression coefficients.
    pub expression: Binary64,
    /// Joints.
    pub joints: Binary64,
    /// Head pose.
    pub head_pose: Binary64,
    /// Translation.
    pub translation: Binary64,
}

/// The same strength in every group.
pub open spec fn even_weights(strength: Binary64) -> TemporalGroupWeights {
    TemporalGroupWeights {
        expression: strength,
        joints: strength,
        head_pose: strength,
        translation: strength,
    }
}

/// Constant mid-range strengths of the fixed temporal mode.
pub fn fixed_strengths() -> (weights: TemporalGroupWeights)
    ensures
        weights == even_weights(Binary64 { bits: 0x3fe0_0000_0000_0000 }),
{
    let half = Binary64::from_bits(0x3fe0_0000_0000_0000);
    TemporalGroupWeights { expression: half, joints: half, head_pose: half, translation: half }
}

/// Settings of the adaptive strength policy.
#[derive(Clone, Copy, Debug, PartialEq, Eq, Structural)]
pub struct AdaptiveTemporalConfig {
    /// Strengths at rest.
    pub static_weights: TemporalGroupWeights,
    /// Strengths under motion.
    pub active_weights: TemporalGroupWeights,
    /// Strengths under degraded observations.
    pub degraded_weights: TemporalGroupWeights,
    /// Expression motion that starts to weaken, in units per second.
    pub expression_motion_start: Binary64,
    /// Expression motion that weakens fully.
    pub expression_motion_full: Binary64,
    /// Rigid motion that starts to weaken, in units per second.
    pub rigid_motion_start: Binary64,
    /// Rigid motion that weakens fully.
    pub rigid_motion_full: Binary64,
    /// Quality that starts to count as degraded.
    pub quality_degraded_start: Binary64,
    /// Quality that counts as fully degraded; below the start.
    pub quality_degraded_full: Binary64,
    /// Largest strengthening per second.
    pub strengthen_per_second: Binary64,
    /// Largest weakening per second.
    pub weaken_per_second: Binary64,
    /// Largest accepted time step in seconds.
    pub max_dt_seconds: Binary64,
}

/// The settings: strengths `0.9` at rest and under degraded observations, and
/// `0.15` for expressions and `0.3` for the other groups under motion.
pub open spec fn adaptive_settings() -> AdaptiveTemporalConfig {
    let strong = even_weights(Binary64 { bits: 0x3fec_cccc_cccc_cccd });
    let soft = Binary64 { bits: 0x3fd3_3333_3333_3333 };
    AdaptiveTemporalConfig {
        static_weights: strong,
        active_weights: TemporalGroupWeights {
            expression: Binary64 { bits: 0x3fc3_3333_3333_3333 },
            joints: soft,
            head_pose: soft,
            translation: soft,
        },
        degraded_weights: strong,
        expression_motion_start: Binary64 { bits: 0x3fa9_9999_9999_999a },
        expression_motion_full: Binary64 { bits: 0x3fe3_3333_3333_3333 },
        rigid_motion_start: Binary64 { bits: 0x3f94_7ae1_47ae_147b },
        rigid_motion_full: Binary64 { bits: 0x3fe0_0000_0000_0000 },
        quality_degraded_start: Binary64 { bits: 0x3fe6_6666_6666_6666 },
        quality_degraded_full: soft,
        strengthen_per_second: Binary64 { bits: 0x4008_0000_0000_0000 },
        weaken_per_second: Binary64 { bits: 0x4018_0000_0000_0000 },
        max_dt_seconds: Binary64 { bits: 0x3fd0_0000_0000_0000 },
    }
}

/// Adaptive policy configuration of the adaptive temporal mode.
pub fn adaptive_policy_config() -> (config: AdaptiveTemporalConfig)
    ensures
        config == adaptive_settings(),
{
    let high = Binary64::from_bits(0x3fec_cccc_cccc_cccd);
    let strong = TemporalGroupWeights {
        expression: high,
        joints: high,
        head_pose: high,
        translation: high,
    };
    let soft = Binary64::from_bits(0x3fd3_3333_3333_3333);
    AdaptiveTemporalConfig {
        static_weights: strong,
        active_weights: TemporalGroupWeights {
            expression: Binary64::from_bits(0x3fc3_3333_3333_3333),
            joints: soft,
            head_pose: soft,
            translation: soft,
        },
        degraded_weights: strong,
        expression_motion_start: Binary64::from_bits(0x3fa9_9999_9999_999a),
        expression_motion_full: Binary64::from_bits(0x3fe3_3333_3333_3333),
        rigid_motion_start: Binary64::from_bits(0x3f94_7ae1_47ae_147b),
        rigid_motion_full: Binary64::from_bits(0x3fe0_0000_0000_0000),
        quality_degraded_start: Binary64::from_bits(0x3fe6_6666_6666_6666),
        quality_degraded_full: soft,
        strengthen_per_second: Binary64::from_bits(0x4008_0000_0000_0000),
        weaken_per_second: Binary64::from_bits(0x4018_0000_0000_0000),
        max_dt_seconds: Binary64::from_bits(0x3fd0_0000_0000_0000),
    }
}

/// The angle of a vertex: its share of a full turn.
pub open spec fn vertex_angle(vertex: int) -> Binary32 {
    Binary32::of_integer(vertex as nat).over(Binary32::of_integer(64)).times(
        Binary32 { bits: TAU_BITS },
    )
}

/// Angles whose sine or cosine places one vertex.
#[derive(Clone, Copy, Debug, PartialEq, Eq, Structural)]
pub struct VertexAngles {
    /// The angle of the vertex.
    pub angle: Binary32,
    /// Three times that angle.
    pub tripled: Binary32,
}

/// Sines and cosines of one vertex.
#[derive(Clone, Copy, Debug, PartialEq, Eq, Structural)]
pub struct VertexCircle {
    /// Cosine of the angle.
    pub cosine: Binary32,
    /// Sine of the angle.
    pub sine: Binary32,
    /// Sine of three times the angle.
    pub tripled_sine: Binary32,
}

/// The angles of every vertex of the synthetic head.
pub fn synthetic_vertex_angles() -> (angles: Vec<VertexAngles>)
    ensures
        angles@.len() == SYNTHETIC_VERTEX_COUNT,
        forall|i: int|
            0 <= i < SYNTHETIC_VERTEX_COUNT ==> #[trigger] angles@[i] == (VertexAngles {
                angle: vertex_angle(i),
                tripled: Binary32 { bits: THREE_BITS }.times(vertex_angle(i)),
            }),
{
    let count = Binary32::from_integer(64);
    let turn = Binary32::from_bits(TAU_BITS);
    let three = Binary32::from_bits(THREE_BITS);
    let mut angles: Vec<VertexAngles> = Vec::new();
    for i in 0..SYNTHETIC_VERTEX_COUNT
        invariant
            count == Binary32::of_integer(64),
            turn == (Binary32 { bits: TAU_BITS }),
            three == (Binary32 { bits: THREE_BITS }),
            angles@.len() == i,
            forall|j: int|
                0 <= j < i ==> #[trigger] angles@[j] == (VertexAngles {
                    angle: vertex_angle(j),
                    tripled: Binary32 { bits: THREE_BITS }.times(vertex_angle(j)),
                }),
    {
        let angle = Binary32::from_integer(i as u64).quotient(count).product(turn);
        angles.push(VertexAngles { angle, tripled: three.product(angle) });
    }
    angles
}

/// Arrays of the synthetic head model, before the model's own validation.
#[derive(Clone, Debug, PartialEq)]
pub struct SyntheticHead {
    /// Template vertices, three coordinates each.
    pub template_vertices: Vec<Binary32>,
    /// Template joints, three coordinates each.
    pub template_joints: Vec<Binary32>,
    /// Vertex travel per identity coefficient.
    pub vertex_identity_basis: Vec<Binary32>,
    /// Joint travel per identity coefficient.
    pub joint_identity_basis: Vec<Binary32>,
    /// Vertex travel per expression coefficient.
    pub expression_basis: Vec<Binary32>,
    /// Parent of each joint.
    pub joint_parent_indices: Vec<i32>,
    /// Weight of each vertex on each joint.
    pub skinning_weights: Vec<Binary32>,
}

/// Coordinate `axis` of a vertex.
pub open spec fn template_coordinate(circle: VertexCircle, axis: int) -> Binary32 {
    if axis == 0 {
        Binary32 { bits: HEAD_RADIUS_X_BITS }.times(circle.cosine)
    } else if axis == 1 {
        Binary32 { bits: HEAD_RADIUS_Y_BITS }.times(circle.sine)
    } else {
        Binary32 { bits: HEAD_DEPTH_BITS }.times(circle.tripled_sine)
    }
}

/// Entry `at` of the expression basis: the mouth channel moves every even vertex
/// vertically, the eyelid channel every odd one laterally, so that expression
/// cannot be absorbed by a rigid camera translation.
pub open spec fn basis_entry(at: int) -> Binary32 {
    let coordinate = at % 192;
    let vertex = coordinate / 3;
    if at < 192 && coordinate % 3 == 1 && vertex % 2 == 0 {
        Binary32 { bits: MOUTH_TRAVEL_BITS }
    } else if 192 <= at < 384 && coordinate % 3 == 0 && vertex % 2 == 1 {
        Binary32 { bits: EYELID_TRAVEL_BITS }
    } else {
        Binary32 { bits: 0 }
    }
}

/// So many copies of a number.
pub open spec fn copies(number: Binary32, count: nat) -> Seq<Binary32> {
    Seq::new(count, |i: int| number)
}

fn repeat(number: Binary32, count: usize) -> (numbers: Vec<Binary32>)
    ensures
        numbers@ == copies(number, count as nat),
{
    let mut numbers: Vec<Binary32> = Vec::new();
    for i in 0..count
        invariant
            numbers@ == copies(number, i as nat),
    {
        numbers.push(number);
        assert(numbers@ =~= copies(number, (i + 1) as nat));
    }
    numbers
}

fn template_vertices(circles: &Vec<VertexCircle>) -> (vertices: Vec<Binary32>)
    requires
        circles@.len() == SYNTHETIC_VERTEX_COUNT,
    ensures
        vertices@ == Seq::new(
            SYNTHETIC_COORDINATE_COUNT as nat,
            |i: int| template_coordinate(circles@[i / 3], i % 3),
        ),
{
    let radius_x = Binary32::from_bits(HEAD_RADIUS_X_BITS);
    let radius_y = Binary32::from_bits(HEAD_RADIUS_Y_BITS);
    let depth = Binary32::from_bits(HEAD_DEPTH_BITS);
    let mut vertices: Vec<Binary32> = Vec::new();
    for i in 0..SYNTHETIC_VERTEX_COUNT
        invariant
            circles@.len() == SYNTHETIC_VERTEX_COUNT,
            radius_x == (Binary32 { bits: HEAD_RADIUS_X_BITS }),
            radius_y == (Binary32 { bits: HEAD_RADIUS_Y_BITS }),
            depth == (Binary32 { bits: HEAD_DEPTH_BITS }),
            vertices@.len() == 3 * i,
            forall|j: int|
                0 <= j < 3 * i ==> #[trigger] vertices@[j] == template_coordinate(
                    circles@[j / 3],
                    j % 3,
                ),
    {
        vertices.push(radius_x.product(circles[i].cosine));
        vertices.push(radius_y.product(circles[i].sine));
        vertices.push(depth.product(circles[i].tripled_sine));
    }
    assert(vertices@ =~= Seq::new(
        SYNTHETIC_COORDINATE_COUNT as nat,
        |i: int| template_coordinate(circles@[i / 3], i % 3),
    ));
    vertices
}

/// The small deterministic head model of the harness, out of the sines and
/// cosines of [`synthetic_vertex_angles`] and the schema's dimensions.
pub fn synthetic_head_model(
    circles: &Vec<VertexCircle>,
    identity_dimension: usize,
    expression_dimension: usize,
) -> (head: SyntheticHead)
    requires
        circles@.len() == SYNTHETIC_VERTEX_COUNT,
        expression_dimension >= 2,
        expression_dimension * 192 <= usize::MAX,
        identity_dimension * 192 <= usize::MAX,
    ensures
        head.template_vertices@ == Seq::new(
            SYNTHETIC_COORDINATE_COUNT as nat,
            |i: int| template_coordinate(circles@[i / 3], i % 3),
        ),
        head.template_joints@ == copies(Binary32 { bits: 0 }, 3),
        head.vertex_identity_basis@ == copies(
            Binary32 { bits: 0 },
            (identity_dimension * 192) as nat,
        ),
        head.joint_identity_basis@ == copies(Binary32 { bits: 0 }, (identity_dimension * 3) as nat),
        head.expression_basis@ == Seq::new(
            (expression_dimension * 192) as nat,
            |i: int| basis_entry(i),
        ),
        head.joint_parent_indices@ == seq![-1i32],
        head.skinning_weights@ == copies(Binary32 { bits: UNIT_BITS }, 64),
{
    let zero = Binary32::zero();
    let mouth = Binary32::from_bits(MOUTH_TRAVEL_BITS);
    let eyelid = Binary32::from_bits(EYELID_TRAVEL_BITS);
    let template = template_vertices(circles);
    let length: usize = expression_dimension * SYNTHETIC_COORDINATE_COUNT;
    let mut expression_basis: Vec<Binary32> = Vec::new();
    for at in 0..length
        invariant
            zero == (Binary32 { bits: 0 }),
            mouth == (Binary32 { bits: MOUTH_TRAVEL_BITS }),
            eyelid == (Binary32 { bits: EYELID_TRAVEL_BITS }),
            expression_basis@ == Seq::new(at as nat, |i: int| basis_entry(i)),
    {
        let coordinate: usize = at % SYNTHETIC_COORDINATE_COUNT;
        let vertex: usize = coordinate / 3;
        let entry = if at < SYNTHETIC_COORDINATE_COUNT && coordinate % 3 == 1 && vertex % 2 == 0 {
            mouth
        } else if SYNTHETIC_COORDINATE_COUNT <= at && at < 2 * SYNTHETIC_COORDINATE_COUNT
            && coordinate % 3 == 0 && vertex % 2 == 1 {
            eyelid
        } else {
            zero
        };
        expression_basis.push(entry);
        assert(expression_basis@ =~= Seq::new((at + 1) as nat, |i: int| basis_entry(i)));
    }
    let mut joint_parent_indices: Vec<i32> = Vec::new();
    joint_parent_indices.push(-1);
    assert(joint_parent_indices@ =~= seq![-1i32]);
    SyntheticHead {
        template_vertices: template,
        template_joints: repeat(zero, 3),
        vertex_identity_basis: repeat(zero, identity_dimension * SYNTHETIC_COORDINATE_COUNT),
        joint_identity_basis: repeat(zero, identity_dimension * 3),
        expression_basis,
        joint_parent_indices,
        skinning_weights: repeat(Binary32::from_bits(UNIT_BITS), SYNTHETIC_VERTEX_COUNT),
    }
}

/// Face region of a correspondence.
#[derive(Clone, Copy, Debug, PartialEq, Eq, Structural)]
pub enum FaceRegion {
    /// The nose.
    Nose,
    /// The face contour.
    Contour,
    /// Anything else.
    Other,
}

/// One landmark and the vertex that it observes, of full weight and high
/// reliability.
#[derive(Clone, Copy, Debug, PartialEq, Eq, Structural)]
pub struct SyntheticCorrespondence {
    /// Landmark.
    pub mediapipe_index: usize,
    /// Vertex.
    pub vertex_index: usize,
    /// Region.
    pub region: FaceRegion,
    /// Side.
    pub anatomical_side: AnatomicalSide,
    /// Weight.
    pub base_weight: Binary32,
}

/// Correspondence of a vertex: regions and sides alternate in threes.
pub open spec fn correspondence_of(vertex: int) -> SyntheticCorrespondence {
    SyntheticCorrespondence {
        mediapipe_index: (SYNTHETIC_FIRST_LANDMARK + vertex) as usize,
        vertex_index: vertex as usize,
        region: if vertex % 3 == 0 {
            FaceRegion::Nose
        } else if vertex % 3 == 1 {
            FaceRegion::Contour
        } else {
            FaceRegion::Other
        },
        anatomical_side: if vertex % 3 == 0 {
            AnatomicalSide::Midline
        } else if vertex % 3 == 1 {
            AnatomicalSide::Right
        } else {
            AnatomicalSide::Left
        },
        base_weight: Binary32 { bits: UNIT_BITS },
    }
}

/// Vertex-to-landmark correspondences of the synthetic head.
#[derive(Clone, Debug, PartialEq)]
pub struct SyntheticMapping {
    /// Version of the correspondences.
    pub version: DenseMappingVersion,
    /// One row per vertex.
    pub rows: Vec<SyntheticCorrespondence>,
}

/// Vertex-to-landmark correspondence table matching [`synthetic_head_model`].
pub fn synthetic_mapping() -> (mapping: SyntheticMapping)
    ensures
        mapping.version == (DenseMappingVersion { schema_revision: 1, model_version: head_v3() }),
        mapping.rows@ == Seq::new(
            SYNTHETIC_VERTEX_COUNT as nat,
            |vertex: int| correspondence_of(vertex),
        ),
{
    let base_weight = Binary32::from_bits(UNIT_BITS);
    let mut rows: Vec<SyntheticCorrespondence> = Vec::new();
    for index in 0..SYNTHETIC_VERTEX_COUNT
        invariant
            base_weight == (Binary32 { bits: UNIT_BITS }),
            rows@ == Seq::new(index as nat, |vertex: int| correspondence_of(vertex)),
    {
        let third: usize = index % 3;
        let (region, anatomical_side) = if third == 0 {
            (FaceRegion::Nose, AnatomicalSide::Midline)
        } else if third == 1 {
            (FaceRegion::Contour, AnatomicalSide::Right)
        } else {
            (FaceRegion::Other, AnatomicalSide::Left)
        };
        rows.push(
            SyntheticCorrespondence {
                mediapipe_index: SYNTHETIC_FIRST_LANDMARK + index,
                vertex_index: index,
                region,
                anatomical_side,
                base_weight,
            },
        );
        assert(rows@ =~= Seq::new((index + 1) as nat, |vertex: int| correspondence_of(vertex)));
    }
    SyntheticMapping {
        version: DenseMappingVersion { schema_revision: 1, model_version: gnm_head_v3_version() },
        rows,
    }
}

} // verus!
