//! Pure reduced-state temporal prediction and fixed gain selection.

use vstd::prelude::*;

use crate::arkit::{
    all_in_unit_range, arkit52_with_zero_tongue, arkit_non_tongue_values, in_unit_range,
    is_in_unit_range, with_zero_tongue, Arkit52Coefficients, Arkit52ValueError, ONE_BITS,
};
use crate::arithmetic::lemma_plus_zero_keeps_value_32;
use crate::binary::{Binary32, Binary64};
use crate::content_hash::{
    fnv1a, fnv_of, put_texts, put_u32, put_u64, text_list_bytes, u32_bytes, u64_bytes,
};
use crate::linear_map::{all_finite, copy_numbers, is_all_finite};
use crate::matrix::lemma_position_fits;
use crate::observable_basis::GnmModelError;
use crate::reduced_gnm::GnmReducedExpressionBasis;
use crate::takes::{same_takes, sorted_takes, strictly_ordered};
use crate::weighted_mean::{
    lemma_narrow_fraction, lemma_square_without_sign, lemma_sum_without_sign,
    lemma_weighted_mean_is_a_fraction, lemma_wide_fraction,
};

verus! {

/// Reduced temporal artifact schema.
pub const REDUCED_TEMPORAL_ARTIFACT_SCHEMA_VERSION: u32 = 1;

/// Microseconds per second as a binary32 number (`1_000_000.0`).
pub const MICROS_BITS: u32 = 0x4974_2400;

/// First lower-face row of the expression.
pub const LOWER_FACE_START: usize = 200;

/// Iris row of the expression.
pub const IRIS_ROW: usize = 350;

/// One alpha-beta filter gain pair.
#[derive(Clone, Copy, Debug, PartialEq, Eq, Structural)]
pub struct AlphaBetaGain {
    /// Position correction fraction.
    pub alpha: Binary32,
    /// Velocity correction fraction.
    pub beta: Binary32,
}

/// Responsive fixed preset: `0.90` and `0.20`.
pub open spec fn responsive() -> AlphaBetaGain {
    AlphaBetaGain { alpha: Binary32 { bits: 0x3f66_6666 }, beta: Binary32 { bits: 0x3e4c_cccd } }
}

/// Balanced fixed preset: `0.70` and `0.10`.
pub open spec fn balanced() -> AlphaBetaGain {
    AlphaBetaGain { alpha: Binary32 { bits: 0x3f33_3333 }, beta: Binary32 { bits: 0x3dcc_cccd } }
}

/// Smooth fixed preset: `0.50` and `0.05`.
pub open spec fn smooth() -> AlphaBetaGain {
    AlphaBetaGain { alpha: Binary32 { bits: 0x3f00_0000 }, beta: Binary32 { bits: 0x3d4c_cccd } }
}

/// Responsive fixed preset.
pub fn responsive_gain() -> (gain: AlphaBetaGain)
    ensures
        gain == responsive(),
{
    AlphaBetaGain {
        alpha: Binary32::from_bits(0x3f66_6666),
        beta: Binary32::from_bits(0x3e4c_cccd),
    }
}

/// Balanced fixed preset.
pub fn balanced_gain() -> (gain: AlphaBetaGain)
    ensures
        gain == balanced(),
{
    AlphaBetaGain {
        alpha: Binary32::from_bits(0x3f33_3333),
        beta: Binary32::from_bits(0x3dcc_cccd),
    }
}

/// Smooth fixed preset.
pub fn smooth_gain() -> (gain: AlphaBetaGain)
    ensures
        gain == smooth(),
{
    AlphaBetaGain {
        alpha: Binary32::from_bits(0x3f00_0000),
        beta: Binary32::from_bits(0x3d4c_cccd),
    }
}

/// Per-coordinate reduced alpha-beta gains.
#[derive(Clone, Debug, PartialEq)]
pub struct ReducedAlphaBetaGains {
    /// Position gains in basis-column order.
    pub alpha: Vec<Binary32>,
    /// Velocity gains in basis-column order.
    pub beta: Vec<Binary32>,
}

/// Source-space gains projected through basis-column energy.
#[derive(Clone, Copy, Debug, PartialEq, Eq, Structural)]
pub struct SourceGroupGains {
    /// Shared left/right-eye gain.
    pub eye: AlphaBetaGain,
    /// Lower-face gain.
    pub lower_face: AlphaBetaGain,
    /// Iris gain.
    pub iris: AlphaBetaGain,
}

/// Reduced expression coefficients; every one is finite.
#[derive(Debug, PartialEq)]
pub struct GnmReducedExpressionState {
    values: Vec<Binary32>,
}

impl View for GnmReducedExpressionState {
    type V = Seq<Binary32>;

    closed spec fn view(&self) -> Seq<Binary32> {
        self.values@
    }
}

impl Clone for GnmReducedExpressionState {
    fn clone(&self) -> (copy: Self)
        ensures
            copy@ == self@,
    {
        proof {
            use_type_invariant(self);
        }
        GnmReducedExpressionState { values: copy_numbers(&self.values) }
    }
}

impl GnmReducedExpressionState {
    #[verifier::type_invariant]
    spec fn usable(self) -> bool {
        all_finite(self.values@)
    }

    /// Accepts finite coefficients, as many as the rank.
    ///
    /// # Errors
    ///
    /// Rejects another number of coefficients, and one that is not finite.
    pub fn new(values: Vec<Binary32>, rank: usize) -> (result: Result<Self, GnmModelError>)
        ensures
            match result {
                Ok(state) => {
                    &&& values@.len() == rank
                    &&& all_finite(values@)
                    &&& state@ == values@
                },
                Err(GnmModelError::ExpressionDimension { actual }) => {
                    &&& values@.len() != rank
                    &&& actual == values@.len()
                },
                Err(GnmModelError::NonFiniteExpression) => {
                    &&& values@.len() == rank
                    &&& !all_finite(values@)
                },
            },
    {
        if values.len() != rank {
            return Err(GnmModelError::ExpressionDimension { actual: values.len() });
        }
        if !is_all_finite(values.as_slice()) {
            return Err(GnmModelError::NonFiniteExpression);
        }
        Ok(GnmReducedExpressionState { values })
    }

    /// The coefficients.
    pub fn values(&self) -> (values: &Vec<Binary32>)
        ensures
            values@ == self@,
            all_finite(values@),
    {
        proof {
            use_type_invariant(self);
        }
        &self.values
    }
}

/// Accepted reduced state and its causal velocity estimate.
#[derive(Clone, Debug, PartialEq)]
pub struct ReducedTemporalState {
    /// Source timestamp at which the state was corrected.
    pub corrected_at_micros: u64,
    /// Corrected reduced position.
    pub position: GnmReducedExpressionState,
    /// Reduced velocity per second.
    pub velocity_per_second: Vec<Binary32>,
}

/// A direct observation used for causal secant prediction.
#[derive(Clone, Copy, Debug, PartialEq)]
pub struct TimestampedDirectCoefficients {
    /// Source timestamp.
    pub timestamp_micros: u64,
    /// Direct MediaPipe coefficients.
    pub coefficients: Arkit52Coefficients,
}

/// One fixed gain candidate's training-side validation metrics.
#[derive(Clone, Copy, Debug, PartialEq)]
pub struct TemporalCandidateMetrics {
    /// Eye and iris preset.
    pub eye_preset: AlphaBetaGain,
    /// Lower-face preset.
    pub lower_face_preset: AlphaBetaGain,
    /// Hybrid macro 51-channel value MAE.
    pub h_macro_mae: Binary64,
    /// Hybrid missed blink count.
    pub h_missed_blinks: usize,
    /// Direct missed blink count on the same validation frames.
    pub d_missed_blinks: usize,
    /// Hybrid median absolute onset timing error in milliseconds.
    pub h_onset_error_ms: Option<Binary64>,
    /// Direct counterpart.
    pub d_onset_error_ms: Option<Binary64>,
    /// Hybrid median absolute peak timing error in milliseconds.
    pub h_peak_error_ms: Option<Binary64>,
    /// Direct counterpart.
    pub d_peak_error_ms: Option<Binary64>,
    /// Hybrid median absolute peak attenuation.
    pub h_peak_attenuation: Option<Binary64>,
    /// Direct counterpart.
    pub d_peak_attenuation: Option<Binary64>,
}

/// Both are measured, and the first is not larger.
pub open spec fn not_worse(hybrid: Option<Binary64>, direct: Option<Binary64>) -> bool {
    hybrid is Some && direct is Some && hybrid->0.at_most(direct->0)
}

fn is_not_worse(hybrid: Option<Binary64>, direct: Option<Binary64>) -> (result: bool)
    ensures
        result == not_worse(hybrid, direct),
{
    match (hybrid, direct) {
        (Some(hybrid), Some(direct)) => hybrid.is_at_most(direct),
        _ => false,
    }
}

impl TemporalCandidateMetrics {
    /// All four mandatory blink constraints hold.
    pub open spec fn meets_constraints(self) -> bool {
        &&& self.h_missed_blinks <= self.d_missed_blinks
        &&& not_worse(self.h_onset_error_ms, self.d_onset_error_ms)
        &&& not_worse(self.h_peak_error_ms, self.d_peak_error_ms)
        &&& not_worse(self.h_peak_attenuation, self.d_peak_attenuation)
    }

    /// Whether all four mandatory blink constraints hold.
    pub fn admissible(&self) -> (admissible: bool)
        ensures
            admissible == self.meets_constraints(),
    {
        self.h_missed_blinks <= self.d_missed_blinks && is_not_worse(
            self.h_onset_error_ms,
            self.d_onset_error_ms,
        ) && is_not_worse(self.h_peak_error_ms, self.d_peak_error_ms) && is_not_worse(
            self.h_peak_attenuation,
            self.d_peak_attenuation,
        )
    }
}

/// Provenance shared by all nine gain candidates.
#[derive(Clone, Debug, PartialEq)]
pub struct ReducedTemporalProvenance {
    /// Selected teacher-aligned basis hash.
    pub basis_content_hash: u64,
    /// Selected H decoder hash.
    pub decoder_content_hash: u64,
    /// Maximum allowed render prediction horizon.
    pub max_prediction_horizon_micros: u64,
    /// Outer-training takes only.
    pub training_takes: Vec<String>,
}

/// Selected reduced temporal gain artifact.
#[derive(Clone, Debug, PartialEq)]
pub struct ReducedTemporalArtifact {
    /// Artifact schema.
    pub schema_version: u32,
    /// Teacher-aligned basis hash.
    pub basis_content_hash: u64,
    /// H decoder hash.
    pub decoder_content_hash: u64,
    /// Selected eye/iris preset.
    pub eye_preset: AlphaBetaGain,
    /// Selected lower-face preset.
    pub lower_face_preset: AlphaBetaGain,
    /// Maximum render prediction horizon.
    pub max_prediction_horizon_micros: u64,
    /// Training-only take ids.
    pub training_takes: Vec<String>,
    /// All nine validation results.
    pub validation_metrics: Vec<TemporalCandidateMetrics>,
    /// Stable FNV-1a content hash over the preceding fields.
    pub content_hash: u64,
}

/// Typed reduced temporal failure.
#[derive(Clone, Copy, Debug, PartialEq)]
pub enum ReducedTemporalError {
    /// State/gain dimensions differ.
    DimensionMismatch {
        /// Field name.
        field: &'static str,
        /// Expected dimension.
        expected: usize,
        /// Actual dimension.
        actual: usize,
    },
    /// Gain/state number is invalid.
    InvalidNumeric(&'static str),
    /// Source timestamps are not strictly increasing.
    TimestampOrder,
    /// Requested timestamp precedes the corrected/current state.
    PastTarget,
    /// Requested prediction crosses the explicit horizon.
    PredictionHorizon {
        /// Requested horizon.
        actual_micros: u64,
        /// Configured maximum.
        maximum_micros: u64,
    },
    /// None of the fixed nine candidates meets the blink constraints.
    NoAdmissibleTemporalGains,
    /// Candidate set differs from the fixed three-by-three grid.
    InvalidCandidateGrid,
    /// ARKit output validation failed.
    Arkit(Arkit52ValueError),
}

/// Both fractions lie in `0..=1`.
pub open spec fn gain_usable(gain: AlphaBetaGain) -> bool {
    in_unit_range(gain.alpha) && in_unit_range(gain.beta)
}

fn valid_gain(gain: AlphaBetaGain) -> (valid: bool)
    ensures
        valid == gain_usable(gain),
{
    is_in_unit_range(gain.alpha) && is_in_unit_range(gain.beta)
}

/// The preset of a column or row of the grid.
pub open spec fn preset(i: int) -> AlphaBetaGain {
    if i == 0 {
        responsive()
    } else if i == 1 {
        balanced()
    } else {
        smooth()
    }
}

/// The fixed eye-by-lower-face grid.
pub open spec fn gain_grid() -> Seq<(AlphaBetaGain, AlphaBetaGain)> {
    Seq::new(9, |i: int| (preset(i / 3), preset(i % 3)))
}

/// The fixed eye-by-lower-face three-by-three gain grid.
pub fn reduced_temporal_gain_grid() -> (grid: [(AlphaBetaGain, AlphaBetaGain); 9])
    ensures
        grid@ == gain_grid(),
{
    let r = responsive_gain();
    let b = balanced_gain();
    let s = smooth_gain();
    let grid: [(AlphaBetaGain, AlphaBetaGain); 9] = [
        (r, r),
        (r, b),
        (r, s),
        (b, r),
        (b, b),
        (b, s),
        (s, r),
        (s, b),
        (s, s),
    ];
    assert(grid@ =~= gain_grid());
    grid
}

/// Squared entry of a row and column.
pub open spec fn entry_energy(values: Seq<Binary32>, rank: int, row: int, column: int) -> Binary64 {
    let entry = values[row * rank + column].widened();
    entry.times(entry)
}

/// Energy of a column over the rows from `first` up to `last`.
pub open spec fn rows_energy(
    values: Seq<Binary32>,
    rank: int,
    column: int,
    first: int,
    last: int,
) -> Binary64
    decreases last - first,
{
    if last <= first {
        Binary64 { bits: 0 }
    } else {
        rows_energy(values, rank, column, first, last - 1).plus(
            entry_energy(values, rank, last - 1, column),
        )
    }
}

/// The smaller of two integers.
pub open spec fn lesser(left: int, right: int) -> int {
    if left < right {
        left
    } else {
        right
    }
}

/// Eye, lower-face and iris energy of a column.
pub open spec fn group_energy(basis: GnmReducedExpressionBasis, column: int) -> (
    Binary64,
    Binary64,
    Binary64,
) {
    let values = basis.values_row_major@;
    let rank = basis.rank as int;
    let rows = values.len() as int / rank;
    (
        rows_energy(values, rank, column, 0, lesser(200, rows)),
        rows_energy(values, rank, column, 200, lesser(350, rows)),
        rows_energy(values, rank, column, 350, lesser(351, rows)),
    )
}

/// The energy of a column over all groups.
pub open spec fn column_energy(basis: GnmReducedExpressionBasis, column: int) -> Binary64 {
    let (eye, lower, iris) = group_energy(basis, column);
    eye.plus(lower).plus(iris)
}

/// A column can share out gains.
pub open spec fn energy_usable(total: Binary64) -> bool {
    total.finite() && !total.at_most(Binary64 { bits: 0 })
}

/// Mean of three group values weighted by the energy of a column.
pub open spec fn energy_mean(
    basis: GnmReducedExpressionBasis,
    column: int,
    eye_value: Binary32,
    lower_value: Binary32,
    iris_value: Binary32,
) -> Binary32 {
    let (eye, lower, iris) = group_energy(basis, column);
    eye.times(eye_value.widened()).plus(lower.times(lower_value.widened())).plus(
        iris.times(iris_value.widened()),
    ).over(column_energy(basis, column)).narrowed()
}

/// Position gain of a column.
pub open spec fn column_alpha(
    basis: GnmReducedExpressionBasis,
    source: SourceGroupGains,
    column: int,
) -> Binary32 {
    energy_mean(basis, column, source.eye.alpha, source.lower_face.alpha, source.iris.alpha)
}

/// Velocity gain of a column.
pub open spec fn column_beta(
    basis: GnmReducedExpressionBasis,
    source: SourceGroupGains,
    column: int,
) -> Binary32 {
    energy_mean(basis, column, source.eye.beta, source.lower_face.beta, source.iris.beta)
}

/// Every group gain is usable.
pub open spec fn sources_usable(source: SourceGroupGains) -> bool {
    gain_usable(source.eye) && gain_usable(source.lower_face) && gain_usable(source.iris)
}

fn sum_energy(
    values: &Vec<Binary32>,
    rank: usize,
    column: usize,
    first: usize,
    last: usize,
    Ghost(rows): Ghost<int>,
) -> (energy: Binary64)
    requires
        column < rank,
        rows * rank <= values@.len(),
        last <= rows,
    ensures
        energy == rows_energy(values@, rank as int, column as int, first as int, last as int),
{
    let mut energy = Binary64::zero();
    let mut row: usize = first;
    assert(values.len() == values@.len());
    while row < last
        invariant
            column < rank,
            rows * rank <= values@.len(),
            values@.len() <= usize::MAX,
            last <= rows,
            first <= row,
            first <= last ==> row <= last,
            first > last ==> row == first,
            energy == rows_energy(values@, rank as int, column as int, first as int, row as int),
        decreases last - row,
    {
        proof {
            lemma_position_fits(row as int, column as int, rows, rank as int);
        }
        let entry = values[row * rank + column].widen();
        energy = energy.sum(entry.product(entry));
        row = row + 1;
    }
    energy
}

fn measure_groups(basis: &GnmReducedExpressionBasis, column: usize) -> (groups: (
    Binary64,
    Binary64,
    Binary64,
))
    requires
        column < basis.rank,
    ensures
        groups == group_energy(*basis, column as int),
{
    let values = &basis.values_row_major;
    let rank: usize = basis.rank;
    let rows: usize = values.len() / rank;
    proof {
        assert(rows * rank <= values@.len()) by (nonlinear_arith)
            requires
                rows == values@.len() / rank as nat,
                rank > 0,
        ;
    }
    let eye_end: usize = if rows > 200 {
        200
    } else {
        rows
    };
    let lower_end: usize = if rows > 350 {
        350
    } else {
        rows
    };
    let iris_end: usize = if rows > 351 {
        351
    } else {
        rows
    };
    let eye = sum_energy(values, rank, column, 0, eye_end, Ghost(rows as int));
    let lower = sum_energy(values, rank, column, 200, lower_end, Ghost(rows as int));
    let iris = sum_energy(values, rank, column, 350, iris_end, Ghost(rows as int));
    (eye, lower, iris)
}

/// The energy of a group carries no sign.
proof fn lemma_energy_without_sign(
    values: Seq<Binary32>,
    rank: int,
    column: int,
    first: int,
    last: int,
)
    ensures
        !rows_energy(values, rank, column, first, last).negative(),
    decreases last - first,
{
    if last > first {
        lemma_energy_without_sign(values, rank, column, first, last - 1);
        let entry = values[(last - 1) * rank + column].widened();
        lemma_square_without_sign(entry);
        lemma_sum_without_sign(
            rows_energy(values, rank, column, first, last - 1),
            entry.times(entry),
        );
    }
}

fn share(
    groups: (Binary64, Binary64, Binary64),
    total: Binary64,
    eye_value: Binary32,
    lower_value: Binary32,
    iris_value: Binary32,
) -> (value: Binary32)
    requires
        !groups.0.negative(),
        !groups.1.negative(),
        !groups.2.negative(),
        total == groups.0.plus(groups.1).plus(groups.2),
        energy_usable(total),
        in_unit_range(eye_value),
        in_unit_range(lower_value),
        in_unit_range(iris_value),
    ensures
        value == groups.0.times(eye_value.widened()).plus(
            groups.1.times(lower_value.widened()),
        ).plus(groups.2.times(iris_value.widened())).over(total).narrowed(),
        in_unit_range(value),
{
    let eye = eye_value.widen();
    let lower = lower_value.widen();
    let iris = iris_value.widen();
    let mean = groups.0.product(eye).sum(groups.1.product(lower)).sum(
        groups.2.product(iris),
    ).quotient(total);
    let value = mean.narrow();
    proof {
        lemma_wide_fraction(eye_value, eye);
        lemma_wide_fraction(lower_value, lower);
        lemma_wide_fraction(iris_value, iris);
        lemma_weighted_mean_is_a_fraction(groups, (eye, lower, iris));
        lemma_narrow_fraction(mean, value);
    }
    value
}

/// Projects source-group gains into each basis column by squared energy. The
/// projected gains are usable again: each lies in `0..=1`.
///
/// # Errors
///
/// Rejects gains outside `0..=1`, and a basis with a column without energy.
pub fn project_source_group_gains(basis: &GnmReducedExpressionBasis, source: SourceGroupGains) -> (result:
    Result<ReducedAlphaBetaGains, ReducedTemporalError>)
    ensures
        match result {
            Ok(gains) => {
                &&& sources_usable(source)
                &&& forall|column: int|
                    0 <= column < basis.rank ==> energy_usable(
                        #[trigger] column_energy(*basis, column),
                    )
                &&& gains.alpha@ == Seq::new(
                    basis.rank as nat,
                    |column: int| column_alpha(*basis, source, column),
                )
                &&& gains.beta@ == Seq::new(
                    basis.rank as nat,
                    |column: int| column_beta(*basis, source, column),
                )
                &&& gains_usable(gains)
            },
            Err(error) => {
                if !sources_usable(source) {
                    error == ReducedTemporalError::InvalidNumeric("source gain")
                } else {
                    &&& error == ReducedTemporalError::InvalidNumeric("basis column energy")
                    &&& exists|column: int|
                        0 <= column < basis.rank && !energy_usable(
                            #[trigger] column_energy(*basis, column),
                        )
                }
            },
        },
{
    if !valid_gain(source.eye) || !valid_gain(source.lower_face) || !valid_gain(source.iris) {
        return Err(ReducedTemporalError::InvalidNumeric("source gain"));
    }
    let zero = Binary64::zero();
    let mut alpha: Vec<Binary32> = Vec::new();
    let mut beta: Vec<Binary32> = Vec::new();
    for column in 0..basis.rank
        invariant
            zero == (Binary64 { bits: 0 }),
            sources_usable(source),
            forall|c: int| 0 <= c < column ==> energy_usable(#[trigger] column_energy(*basis, c)),
            alpha@ == Seq::new(column as nat, |c: int| column_alpha(*basis, source, c)),
            beta@ == Seq::new(column as nat, |c: int| column_beta(*basis, source, c)),
            forall|c: int| 0 <= c < column ==> in_unit_range(#[trigger] alpha@[c]),
            forall|c: int| 0 <= c < column ==> in_unit_range(#[trigger] beta@[c]),
    {
        let groups = measure_groups(basis, column);
        let total = groups.0.sum(groups.1).sum(groups.2);
        assert(total == column_energy(*basis, column as int));
        if !total.is_finite() || total.is_at_most(zero) {
            return Err(ReducedTemporalError::InvalidNumeric("basis column energy"));
        }
        proof {
            let values = basis.values_row_major@;
            let rank = basis.rank as int;
            let rows = values.len() as int / rank;
            lemma_energy_without_sign(values, rank, column as int, 0, lesser(200, rows));
            lemma_energy_without_sign(values, rank, column as int, 200, lesser(350, rows));
            lemma_energy_without_sign(values, rank, column as int, 350, lesser(351, rows));
        }
        alpha.push(
            share(groups, total, source.eye.alpha, source.lower_face.alpha, source.iris.alpha),
        );
        beta.push(
            share(groups, total, source.eye.beta, source.lower_face.beta, source.iris.beta),
        );
        assert(alpha@ =~= Seq::new(
            (column + 1) as nat,
            |c: int| column_alpha(*basis, source, c),
        ));
        assert(beta@ =~= Seq::new((column + 1) as nat, |c: int| column_beta(*basis, source, c)));
    }
    Ok(ReducedAlphaBetaGains { alpha, beta })
}

/// Initializes a zero-velocity temporal state from one accepted observation.
pub fn initialize_reduced_temporal_state(
    observed_at_micros: u64,
    observed: GnmReducedExpressionState,
) -> (state: ReducedTemporalState)
    ensures
        state.corrected_at_micros == observed_at_micros,
        state.position == observed,
        state.velocity_per_second@ == Seq::new(
            observed@.len(),
            |i: int| Binary32 { bits: 0 },
        ),
{
    let count: usize = observed.values().len();
    let mut velocity_per_second: Vec<Binary32> = Vec::new();
    for i in 0..count
        invariant
            velocity_per_second@ == Seq::new(i as nat, |j: int| Binary32 { bits: 0 }),
    {
        velocity_per_second.push(Binary32::zero());
        assert(velocity_per_second@ =~= Seq::new((i + 1) as nat, |j: int| Binary32 { bits: 0 }));
    }
    ReducedTemporalState {
        corrected_at_micros: observed_at_micros,
        position: observed,
        velocity_per_second,
    }
}

/// Seconds of so many microseconds.
pub open spec fn micro_seconds(micros: int) -> Binary32 {
    Binary32::of_integer(micros as nat).over(Binary32 { bits: MICROS_BITS })
}

fn seconds_of_micros(micros: u64) -> (seconds: Binary32)
    ensures
        seconds == micro_seconds(micros as int),
{
    Binary32::from_integer(micros).quotient(Binary32::from_bits(MICROS_BITS))
}

/// Position and velocity of one coordinate after a correction.
pub open spec fn corrected(
    position: Binary32,
    velocity: Binary32,
    observed: Binary32,
    alpha: Binary32,
    beta: Binary32,
    dt: Binary32,
) -> (Binary32, Binary32) {
    let predicted = position.plus(dt.times(velocity));
    let innovation = observed.minus(predicted);
    (
        predicted.plus(alpha.times(innovation)),
        velocity.plus(beta.over(dt).times(innovation)),
    )
}

/// Coordinate `i` after a correction.
pub open spec fn corrected_at(
    previous: ReducedTemporalState,
    observed_at: u64,
    observed: Seq<Binary32>,
    gains: ReducedAlphaBetaGains,
    i: int,
) -> (Binary32, Binary32) {
    corrected(
        previous.position@[i],
        previous.velocity_per_second@[i],
        observed[i],
        gains.alpha@[i],
        gains.beta@[i],
        micro_seconds(observed_at - previous.corrected_at_micros),
    )
}

/// Positions after a correction.
pub open spec fn corrected_positions(
    previous: ReducedTemporalState,
    observed_at: u64,
    observed: Seq<Binary32>,
    gains: ReducedAlphaBetaGains,
) -> Seq<Binary32> {
    Seq::new(
        previous.position@.len(),
        |i: int| corrected_at(previous, observed_at, observed, gains, i).0,
    )
}

/// Velocities after a correction.
pub open spec fn corrected_velocities(
    previous: ReducedTemporalState,
    observed_at: u64,
    observed: Seq<Binary32>,
    gains: ReducedAlphaBetaGains,
) -> Seq<Binary32> {
    Seq::new(
        previous.position@.len(),
        |i: int| corrected_at(previous, observed_at, observed, gains, i).1,
    )
}

/// Every coordinate gain is usable.
pub open spec fn gains_usable(gains: ReducedAlphaBetaGains) -> bool {
    forall|i: int|
        0 <= i < lesser(gains.alpha@.len() as int, gains.beta@.len() as int) ==> gain_usable(
            AlphaBetaGain { alpha: #[trigger] gains.alpha@[i], beta: gains.beta@[i] },
        )
}

/// A dimension that differs.
pub open spec fn dimension(field: &'static str, expected: nat, actual: nat) -> ReducedTemporalError {
    ReducedTemporalError::DimensionMismatch {
        field,
        expected: expected as usize,
        actual: actual as usize,
    }
}

/// Why a correction is refused before anything is computed, if it is.
pub open spec fn correction_fault(
    previous: ReducedTemporalState,
    observed_at: u64,
    observed: Seq<Binary32>,
    gains: ReducedAlphaBetaGains,
) -> Option<ReducedTemporalError> {
    let rank = previous.position@.len();
    if observed.len() != rank {
        Some(dimension("observed", rank, observed.len()))
    } else if previous.velocity_per_second@.len() != rank {
        Some(dimension("velocity", rank, previous.velocity_per_second@.len()))
    } else if gains.alpha@.len() != rank {
        Some(dimension("alpha", rank, gains.alpha@.len()))
    } else if gains.beta@.len() != rank {
        Some(dimension("beta", rank, gains.beta@.len()))
    } else if observed_at <= previous.corrected_at_micros {
        Some(ReducedTemporalError::TimestampOrder)
    } else if !gains_usable(gains) {
        Some(ReducedTemporalError::InvalidNumeric("reduced gain"))
    } else {
        None
    }
}

fn are_gains_usable(gains: &ReducedAlphaBetaGains) -> (usable: bool)
    requires
        gains.alpha@.len() == gains.beta@.len(),
    ensures
        usable == gains_usable(*gains),
{
    for i in 0..gains.alpha.len()
        invariant
            gains.alpha@.len() == gains.beta@.len(),
            forall|j: int|
                0 <= j < i ==> gain_usable(
                    AlphaBetaGain { alpha: #[trigger] gains.alpha@[j], beta: gains.beta@[j] },
                ),
    {
        if !valid_gain(AlphaBetaGain { alpha: gains.alpha[i], beta: gains.beta[i] }) {
            assert(!gain_usable(
                AlphaBetaGain { alpha: gains.alpha@[i as int], beta: gains.beta@[i as int] },
            ));
            return false;
        }
    }
    true
}

/// Applies one causal per-coordinate alpha-beta correction.
///
/// # Errors
///
/// Rejects dimensions that differ, an observation that is not newer, gains
/// outside `0..=1`, and a corrected position that is not finite.
pub fn correct_reduced_temporal_state(
    previous: &ReducedTemporalState,
    observed_at_micros: u64,
    observed: &GnmReducedExpressionState,
    gains: &ReducedAlphaBetaGains,
) -> (result: Result<ReducedTemporalState, ReducedTemporalError>)
    ensures
        ({
            let fault = correction_fault(*previous, observed_at_micros, observed@, *gains);
            let positions = corrected_positions(*previous, observed_at_micros, observed@, *gains);
            match result {
                Ok(state) => {
                    &&& fault is None
                    &&& all_finite(positions)
                    &&& state.corrected_at_micros == observed_at_micros
                    &&& state.position@ == positions
                    &&& state.velocity_per_second@ == corrected_velocities(
                        *previous,
                        observed_at_micros,
                        observed@,
                        *gains,
                    )
                },
                Err(error) => {
                    if fault is Some {
                        fault == Some(error)
                    } else {
                        &&& !all_finite(positions)
                        &&& error == ReducedTemporalError::InvalidNumeric("corrected state")
                    }
                },
            }
        }),
{
    let before = previous.position.values();
    let seen = observed.values();
    let rank: usize = before.len();
    if seen.len() != rank {
        return Err(
            ReducedTemporalError::DimensionMismatch {
                field: "observed",
                expected: rank,
                actual: seen.len(),
            },
        );
    }
    if previous.velocity_per_second.len() != rank {
        return Err(
            ReducedTemporalError::DimensionMismatch {
                field: "velocity",
                expected: rank,
                actual: previous.velocity_per_second.len(),
            },
        );
    }
    if gains.alpha.len() != rank {
        return Err(
            ReducedTemporalError::DimensionMismatch {
                field: "alpha",
                expected: rank,
                actual: gains.alpha.len(),
            },
        );
    }
    if gains.beta.len() != rank {
        return Err(
            ReducedTemporalError::DimensionMismatch {
                field: "beta",
                expected: rank,
                actual: gains.beta.len(),
            },
        );
    }
    if observed_at_micros <= previous.corrected_at_micros {
        return Err(ReducedTemporalError::TimestampOrder);
    }
    if !are_gains_usable(gains) {
        return Err(ReducedTemporalError::InvalidNumeric("reduced gain"));
    }
    let dt = seconds_of_micros(observed_at_micros - previous.corrected_at_micros);
    let mut position: Vec<Binary32> = Vec::new();
    let mut velocity: Vec<Binary32> = Vec::new();
    for i in 0..rank
        invariant
            rank == before@.len(),
            before@ == previous.position@,
            seen@ == observed@,
            seen@.len() == rank,
            previous.velocity_per_second@.len() == rank,
            gains.alpha@.len() == rank,
            gains.beta@.len() == rank,
            dt == micro_seconds(observed_at_micros - previous.corrected_at_micros),
            position@.len() == i,
            velocity@.len() == i,
            forall|j: int|
                0 <= j < i ==> #[trigger] position@[j] == corrected_at(
                    *previous,
                    observed_at_micros,
                    observed@,
                    *gains,
                    j,
                ).0,
            forall|j: int|
                0 <= j < i ==> #[trigger] velocity@[j] == corrected_at(
                    *previous,
                    observed_at_micros,
                    observed@,
                    *gains,
                    j,
                ).1,
    {
        let speed = previous.velocity_per_second[i];
        let predicted = before[i].sum(dt.product(speed));
        let innovation = seen[i].difference(predicted);
        position.push(predicted.sum(gains.alpha[i].product(innovation)));
        velocity.push(speed.sum(gains.beta[i].quotient(dt).product(innovation)));
    }
    assert(position@ =~= corrected_positions(*previous, observed_at_micros, observed@, *gains));
    assert(velocity@ =~= corrected_velocities(*previous, observed_at_micros, observed@, *gains));
    match GnmReducedExpressionState::new(position, rank) {
        Ok(position) => Ok(
            ReducedTemporalState {
                corrected_at_micros: observed_at_micros,
                position,
                velocity_per_second: velocity,
            },
        ),
        Err(_) => Err(ReducedTemporalError::InvalidNumeric("corrected state")),
    }
}

/// Why a prediction from `from` to `target` is refused, if it is.
pub open spec fn horizon_fault(from: u64, target: u64, maximum: u64) -> Option<ReducedTemporalError> {
    if target < from {
        Some(ReducedTemporalError::PastTarget)
    } else if target - from > maximum {
        Some(
            ReducedTemporalError::PredictionHorizon {
                actual_micros: (target - from) as u64,
                maximum_micros: maximum,
            },
        )
    } else {
        None
    }
}

fn horizon_of(from: u64, target: u64, maximum: u64) -> (result: Result<u64, ReducedTemporalError>)
    ensures
        match result {
            Ok(horizon) => horizon_fault(from, target, maximum) is None && horizon == target - from,
            Err(error) => horizon_fault(from, target, maximum) == Some(error),
        },
{
    if target < from {
        return Err(ReducedTemporalError::PastTarget);
    }
    let horizon: u64 = target - from;
    if horizon > maximum {
        return Err(
            ReducedTemporalError::PredictionHorizon {
                actual_micros: horizon,
                maximum_micros: maximum,
            },
        );
    }
    Ok(horizon)
}

/// Positions after a span without observation.
pub open spec fn drifted(state: ReducedTemporalState, micros: int) -> Seq<Binary32> {
    Seq::new(
        state.position@.len(),
        |i: int|
            state.position@[i].plus(micro_seconds(micros).times(state.velocity_per_second@[i])),
    )
}

/// Predicts the reduced state at a render timestamp without hold or clamping.
///
/// # Errors
///
/// Rejects a target before the state or past the horizon, a velocity of another
/// dimension, and a predicted position that is not finite.
pub fn sample_reduced_state_at(
    state: &ReducedTemporalState,
    target_micros: u64,
    max_prediction_horizon_micros: u64,
) -> (result: Result<GnmReducedExpressionState, ReducedTemporalError>)
    ensures
        ({
            let fault = horizon_fault(
                state.corrected_at_micros,
                target_micros,
                max_prediction_horizon_micros,
            );
            let rank = state.position@.len();
            let positions = drifted(*state, target_micros - state.corrected_at_micros);
            match result {
                Ok(sampled) => {
                    &&& fault is None
                    &&& state.velocity_per_second@.len() == rank
                    &&& all_finite(positions)
                    &&& sampled@ == positions
                },
                Err(error) => {
                    if fault is Some {
                        fault == Some(error)
                    } else if state.velocity_per_second@.len() != rank {
                        error == dimension("velocity", rank, state.velocity_per_second@.len())
                    } else {
                        &&& !all_finite(positions)
                        &&& error == ReducedTemporalError::InvalidNumeric("sampled state")
                    }
                },
            }
        }),
{
    let horizon: u64 = match horizon_of(
        state.corrected_at_micros,
        target_micros,
        max_prediction_horizon_micros,
    ) {
        Ok(horizon) => horizon,
        Err(error) => {
            return Err(error);
        },
    };
    let position = state.position.values();
    let rank: usize = position.len();
    if state.velocity_per_second.len() != rank {
        return Err(
            ReducedTemporalError::DimensionMismatch {
                field: "velocity",
                expected: rank,
                actual: state.velocity_per_second.len(),
            },
        );
    }
    let dt = seconds_of_micros(horizon);
    let mut values: Vec<Binary32> = Vec::new();
    for i in 0..rank
        invariant
            position@ == state.position@,
            position@.len() == rank,
            state.velocity_per_second@.len() == rank,
            dt == micro_seconds(horizon as int),
            values@.len() == i,
            forall|j: int|
                0 <= j < i ==> #[trigger] values@[j] == state.position@[j].plus(
                    micro_seconds(horizon as int).times(state.velocity_per_second@[j]),
                ),
    {
        values.push(position[i].sum(dt.product(state.velocity_per_second[i])));
    }
    assert(values@ =~= drifted(*state, target_micros - state.corrected_at_micros));
    match GnmReducedExpressionState::new(values, rank) {
        Ok(sampled) => Ok(sampled),
        Err(_) => Err(ReducedTemporalError::InvalidNumeric("sampled state")),
    }
}

/// The line through two values, clamped to `0..=1`.
pub open spec fn secant(
    before: Binary32,
    now: Binary32,
    source_dt: Binary32,
    target_dt: Binary32,
) -> Binary32 {
    now.plus(now.minus(before).over(source_dt).times(target_dt)).clamped(
        Binary32 { bits: 0 },
        Binary32 { bits: ONE_BITS },
    )
}

/// Secant-predicted non-tongue values.
pub open spec fn secant_values(
    previous: TimestampedDirectCoefficients,
    current: TimestampedDirectCoefficients,
    target: u64,
) -> Seq<Binary32> {
    Seq::new(
        51,
        |i: int|
            secant(
                previous.coefficients@[i],
                current.coefficients@[i],
                micro_seconds(current.timestamp_micros - previous.timestamp_micros),
                micro_seconds(target - current.timestamp_micros),
            ),
    )
}

/// Why a secant prediction is refused before anything is computed, if it is.
pub open spec fn secant_fault(
    previous: TimestampedDirectCoefficients,
    current: TimestampedDirectCoefficients,
    target: u64,
    maximum: u64,
) -> Option<ReducedTemporalError> {
    if previous.timestamp_micros >= current.timestamp_micros {
        Some(ReducedTemporalError::TimestampOrder)
    } else {
        horizon_fault(current.timestamp_micros, target, maximum)
    }
}

/// Secant-predicts direct non-tongue coefficients at a render timestamp.
///
/// # Errors
///
/// Rejects observations out of order, a target before the current one or past the
/// horizon, and a prediction that is not a number.
pub fn sample_direct_coefficients_at(
    previous: &TimestampedDirectCoefficients,
    current: &TimestampedDirectCoefficients,
    target_micros: u64,
    max_prediction_horizon_micros: u64,
) -> (result: Result<Arkit52Coefficients, ReducedTemporalError>)
    ensures
        ({
            let fault = secant_fault(
                *previous,
                *current,
                target_micros,
                max_prediction_horizon_micros,
            );
            let values = secant_values(*previous, *current, target_micros);
            match result {
                Ok(coefficients) => {
                    &&& fault is None
                    &&& coefficients.valid()
                    &&& coefficients@ == with_zero_tongue(values)
                },
                Err(error) => {
                    if fault is Some {
                        fault == Some(error)
                    } else {
                        &&& error matches ReducedTemporalError::Arkit(
                            Arkit52ValueError::NonFinite { channel },
                        )
                        &&& channel < 51
                        &&& all_in_unit_range(values.take(channel as int))
                        &&& !values[channel as int].finite()
                    }
                },
            }
        }),
{
    if previous.timestamp_micros >= current.timestamp_micros {
        return Err(ReducedTemporalError::TimestampOrder);
    }
    let horizon: u64 = match horizon_of(
        current.timestamp_micros,
        target_micros,
        max_prediction_horizon_micros,
    ) {
        Ok(horizon) => horizon,
        Err(error) => {
            return Err(error);
        },
    };
    let source_dt = seconds_of_micros(current.timestamp_micros - previous.timestamp_micros);
    let target_dt = seconds_of_micros(horizon);
    let before = arkit_non_tongue_values(&previous.coefficients);
    let now = arkit_non_tongue_values(&current.coefficients);
    let zero = Binary32::zero();
    let one = Binary32::from_bits(ONE_BITS);
    let mut predicted: Vec<Binary32> = Vec::new();
    for i in 0..51usize
        invariant
            before@.len() == 51,
            now@.len() == 51,
            zero == (Binary32 { bits: 0 }),
            one == (Binary32 { bits: ONE_BITS }),
            predicted@.len() == i,
            forall|j: int|
                0 <= j < i ==> #[trigger] predicted@[j] == secant(
                    before@[j],
                    now@[j],
                    source_dt,
                    target_dt,
                ),
    {
        predicted.push(
            now[i].sum(now[i].difference(before[i]).quotient(source_dt).product(target_dt)).clamp(
                zero,
                one,
            ),
        );
    }
    assert(predicted@ =~= secant_values(*previous, *current, target_micros));
    match arkit52_with_zero_tongue(&predicted) {
        Ok(coefficients) => Ok(coefficients),
        Err(error) => {
            proof {
                let channel = match error {
                    Arkit52ValueError::NonFinite { channel } => channel,
                    Arkit52ValueError::OutOfRange { channel } => channel,
                };
                lemma_clamped_is_inside_or_nan(
                    now@[channel as int].plus(
                        now@[channel as int].minus(before@[channel as int]).over(source_dt).times(
                            target_dt,
                        ),
                    ),
                );
            }
            Err(ReducedTemporalError::Arkit(error))
        },
    }
}

/// A clamped number lies inside the range, unless it is not a number.
proof fn lemma_clamped_is_inside_or_nan(number: Binary32)
    ensures
        ({
            let clamped = number.clamped(Binary32 { bits: 0 }, Binary32 { bits: ONE_BITS });
            in_unit_range(clamped) || clamped.nan()
        }),
{
}

/// The candidate is of this grid pair.
pub open spec fn of_pair(
    candidate: TemporalCandidateMetrics,
    pair: (AlphaBetaGain, AlphaBetaGain),
) -> bool {
    candidate.eye_preset == pair.0 && candidate.lower_face_preset == pair.1
}

/// How many of the first `n` candidates are of a grid pair.
pub open spec fn pair_count(
    candidates: Seq<TemporalCandidateMetrics>,
    pair: (AlphaBetaGain, AlphaBetaGain),
    n: int,
) -> nat
    decreases n,
{
    if n <= 0 {
        0
    } else if of_pair(candidates[n - 1], pair) {
        pair_count(candidates, pair, n - 1) + 1
    } else {
        pair_count(candidates, pair, n - 1)
    }
}

/// The candidates are the nine pairs of the grid, each once.
pub open spec fn is_grid(candidates: Seq<TemporalCandidateMetrics>) -> bool {
    &&& candidates.len() == 9
    &&& forall|g: int|
        0 <= g < 9 ==> pair_count(candidates, #[trigger] gain_grid()[g], 9) == 1
}

fn same_gain(left: AlphaBetaGain, right: AlphaBetaGain) -> (same: bool)
    ensures
        same == (left == right),
{
    left.alpha.bits == right.alpha.bits && left.beta.bits == right.beta.bits
}

fn count_pair(candidates: &[TemporalCandidateMetrics], pair: (AlphaBetaGain, AlphaBetaGain)) -> (count:
    usize)
    requires
        candidates@.len() == 9,
    ensures
        count == pair_count(candidates@, pair, 9),
{
    let mut count: usize = 0;
    for i in 0..9usize
        invariant
            candidates@.len() == 9,
            count == pair_count(candidates@, pair, i as int),
            count <= i,
    {
        if same_gain(candidates[i].eye_preset, pair.0) && same_gain(
            candidates[i].lower_face_preset,
            pair.1,
        ) {
            count = count + 1;
        }
    }
    count
}

fn fixed_grid(candidates: &[TemporalCandidateMetrics]) -> (fixed: bool)
    ensures
        fixed == is_grid(candidates@),
{
    if candidates.len() != 9 {
        return false;
    }
    let grid = reduced_temporal_gain_grid();
    for g in 0..9usize
        invariant
            candidates@.len() == 9,
            grid@ == gain_grid(),
            forall|h: int|
                0 <= h < g ==> pair_count(candidates@, #[trigger] gain_grid()[h], 9) == 1,
    {
        let count: usize = count_pair(candidates, grid[g]);
        if count != 1 {
            assert(pair_count(candidates@, gain_grid()[g as int], 9) != 1);
            return false;
        }
    }
    true
}

/// A metric is missing or finite.
pub open spec fn finite_or_missing(value: Option<Binary64>) -> bool {
    value is Some ==> value->0.finite()
}

fn is_finite_or_missing(value: Option<Binary64>) -> (result: bool)
    ensures
        result == finite_or_missing(value),
{
    match value {
        Some(value) => value.is_finite(),
        None => true,
    }
}

/// Every measured metric is finite.
pub open spec fn metrics_finite(candidate: TemporalCandidateMetrics) -> bool {
    &&& candidate.h_macro_mae.finite()
    &&& finite_or_missing(candidate.h_onset_error_ms)
    &&& finite_or_missing(candidate.d_onset_error_ms)
    &&& finite_or_missing(candidate.h_peak_error_ms)
    &&& finite_or_missing(candidate.d_peak_error_ms)
    &&& finite_or_missing(candidate.h_peak_attenuation)
    &&& finite_or_missing(candidate.d_peak_attenuation)
}

fn finite_metrics(candidate: &TemporalCandidateMetrics) -> (finite: bool)
    ensures
        finite == metrics_finite(*candidate),
{
    candidate.h_macro_mae.is_finite() && is_finite_or_missing(candidate.h_onset_error_ms)
        && is_finite_or_missing(candidate.d_onset_error_ms) && is_finite_or_missing(
        candidate.h_peak_error_ms,
    ) && is_finite_or_missing(candidate.d_peak_error_ms) && is_finite_or_missing(
        candidate.h_peak_attenuation,
    ) && is_finite_or_missing(candidate.d_peak_attenuation)
}

/// Every candidate's measured metrics are finite.
pub open spec fn all_metrics_finite(candidates: Seq<TemporalCandidateMetrics>) -> bool {
    forall|i: int| 0 <= i < candidates.len() ==> metrics_finite(#[trigger] candidates[i])
}

fn are_metrics_finite(candidates: &[TemporalCandidateMetrics]) -> (finite: bool)
    ensures
        finite == all_metrics_finite(candidates@),
{
    for i in 0..candidates.len()
        invariant
            forall|j: int| 0 <= j < i ==> metrics_finite(#[trigger] candidates@[j]),
    {
        if !finite_metrics(&candidates[i]) {
            assert(!metrics_finite(candidates@[i as int]));
            return false;
        }
    }
    true
}

/// A smaller error is better; of equal errors, the more responsive presets are, eye
/// before lower face and position before velocity.
pub open spec fn better(left: TemporalCandidateMetrics, right: TemporalCandidateMetrics) -> bool {
    let error_l = left.h_macro_mae.total_rank();
    let error_r = right.h_macro_mae.total_rank();
    let eye_alpha_l = left.eye_preset.alpha.total_rank();
    let eye_alpha_r = right.eye_preset.alpha.total_rank();
    let eye_beta_l = left.eye_preset.beta.total_rank();
    let eye_beta_r = right.eye_preset.beta.total_rank();
    let lower_alpha_l = left.lower_face_preset.alpha.total_rank();
    let lower_alpha_r = right.lower_face_preset.alpha.total_rank();
    let lower_beta_l = left.lower_face_preset.beta.total_rank();
    let lower_beta_r = right.lower_face_preset.beta.total_rank();
    if error_l != error_r {
        error_l < error_r
    } else if eye_alpha_l != eye_alpha_r {
        eye_alpha_l > eye_alpha_r
    } else if eye_beta_l != eye_beta_r {
        eye_beta_l > eye_beta_r
    } else if lower_alpha_l != lower_alpha_r {
        lower_alpha_l > lower_alpha_r
    } else {
        lower_beta_l > lower_beta_r
    }
}

fn is_better(left: &TemporalCandidateMetrics, right: &TemporalCandidateMetrics) -> (result: bool)
    ensures
        result == better(*left, *right),
{
    let error_l: i64 = left.h_macro_mae.total_order();
    let error_r: i64 = right.h_macro_mae.total_order();
    if error_l != error_r {
        return error_l < error_r;
    }
    let eye_alpha_l: i64 = left.eye_preset.alpha.total_order();
    let eye_alpha_r: i64 = right.eye_preset.alpha.total_order();
    if eye_alpha_l != eye_alpha_r {
        return eye_alpha_l > eye_alpha_r;
    }
    let eye_beta_l: i64 = left.eye_preset.beta.total_order();
    let eye_beta_r: i64 = right.eye_preset.beta.total_order();
    if eye_beta_l != eye_beta_r {
        return eye_beta_l > eye_beta_r;
    }
    let lower_alpha_l: i64 = left.lower_face_preset.alpha.total_order();
    let lower_alpha_r: i64 = right.lower_face_preset.alpha.total_order();
    if lower_alpha_l != lower_alpha_r {
        return lower_alpha_l > lower_alpha_r;
    }
    let lower_beta_l: i64 = left.lower_face_preset.beta.total_order();
    let lower_beta_r: i64 = right.lower_face_preset.beta.total_order();
    lower_beta_l > lower_beta_r
}

/// The position is the best of the first `n` admissible candidates; of equally good
/// ones the first.
pub open spec fn is_best(candidates: Seq<TemporalCandidateMetrics>, best: int, n: int) -> bool {
    &&& 0 <= best < n
    &&& candidates[best].meets_constraints()
    &&& forall|j: int|
        0 <= j < n && (#[trigger] candidates[j]).meets_constraints() ==> !better(
            candidates[j],
            candidates[best],
        )
    &&& forall|j: int|
        0 <= j < best && (#[trigger] candidates[j]).meets_constraints() ==> better(
            candidates[best],
            candidates[j],
        )
}

/// No candidate meets the blink constraints.
pub open spec fn none_admissible(candidates: Seq<TemporalCandidateMetrics>) -> bool {
    forall|j: int| 0 <= j < candidates.len() ==> !(#[trigger] candidates[j]).meets_constraints()
}

fn find_best(candidates: &[TemporalCandidateMetrics]) -> (best: Option<usize>)
    ensures
        match best {
            Some(best) => is_best(candidates@, best as int, candidates@.len() as int),
            None => none_admissible(candidates@),
        },
{
    let mut best: Option<usize> = None;
    for n in 0..candidates.len()
        invariant
            match best {
                Some(best) => is_best(candidates@, best as int, n as int),
                None => forall|j: int|
                    0 <= j < n ==> !(#[trigger] candidates@[j]).meets_constraints(),
            },
    {
        if candidates[n].admissible() {
            match best {
                None => {
                    best = Some(n);
                },
                Some(held) => {
                    if is_better(&candidates[n], &candidates[held]) {
                        best = Some(n);
                    }
                },
            }
        }
    }
    best
}

/// Bytes of a gain.
pub open spec fn gain_bytes(gain: AlphaBetaGain) -> Seq<u8> {
    u32_bytes(gain.alpha.bits) + u32_bytes(gain.beta.bits)
}

/// Bytes of a metric: a flag, and the number where there is one.
pub open spec fn metric_bytes(value: Option<Binary64>) -> Seq<u8> {
    match value {
        Some(value) => seq![1u8] + u64_bytes(value.bits),
        None => seq![0u8],
    }
}

/// Bytes of a candidate.
pub open spec fn candidate_bytes(candidate: TemporalCandidateMetrics) -> Seq<u8> {
    count_bytes(candidate) + event_bytes(candidate)
}

/// Bytes of the presets, the error and the counts of a candidate.
pub open spec fn count_bytes(candidate: TemporalCandidateMetrics) -> Seq<u8> {
    gain_bytes(candidate.eye_preset) + gain_bytes(candidate.lower_face_preset) + u64_bytes(
        candidate.h_macro_mae.bits,
    ) + u64_bytes(candidate.h_missed_blinks as u64) + u64_bytes(candidate.d_missed_blinks as u64)
}

/// Bytes of the event metrics of a candidate.
pub open spec fn event_bytes(candidate: TemporalCandidateMetrics) -> Seq<u8> {
    metric_bytes(candidate.h_onset_error_ms) + metric_bytes(candidate.d_onset_error_ms)
        + metric_bytes(candidate.h_peak_error_ms) + metric_bytes(candidate.d_peak_error_ms)
        + metric_bytes(candidate.h_peak_attenuation) + metric_bytes(candidate.d_peak_attenuation)
}

/// Bytes of the first `n` candidates.
pub open spec fn candidates_bytes(candidates: Seq<TemporalCandidateMetrics>, n: int) -> Seq<u8>
    decreases n,
{
    if n <= 0 {
        Seq::empty()
    } else {
        candidates_bytes(candidates, n - 1) + candidate_bytes(candidates[n - 1])
    }
}

impl ReducedTemporalArtifact {
    /// The bytes that are hashed: every field but the hash.
    pub open spec fn hashed_bytes(self) -> Seq<u8> {
        u32_bytes(self.schema_version) + u64_bytes(self.basis_content_hash) + u64_bytes(
            self.decoder_content_hash,
        ) + gain_bytes(self.eye_preset) + gain_bytes(self.lower_face_preset) + u64_bytes(
            self.max_prediction_horizon_micros,
        ) + text_list_bytes(self.training_takes@) + candidates_bytes(
            self.validation_metrics@,
            self.validation_metrics@.len() as int,
        )
    }
}

fn put_gain(bytes: &mut Vec<u8>, gain: AlphaBetaGain)
    ensures
        final(bytes)@ == old(bytes)@ + gain_bytes(gain),
{
    put_u32(bytes, gain.alpha.bits);
    put_u32(bytes, gain.beta.bits);
    assert(bytes@ =~= old(bytes)@ + gain_bytes(gain));
}

fn put_metric(bytes: &mut Vec<u8>, value: Option<Binary64>)
    ensures
        final(bytes)@ == old(bytes)@ + metric_bytes(value),
{
    match value {
        Some(value) => {
            bytes.push(1);
            put_u64(bytes, value.bits);
        },
        None => {
            bytes.push(0);
        },
    }
    assert(bytes@ =~= old(bytes)@ + metric_bytes(value));
}

fn put_counts(bytes: &mut Vec<u8>, candidate: &TemporalCandidateMetrics)
    ensures
        final(bytes)@ == old(bytes)@ + count_bytes(*candidate),
{
    put_gain(bytes, candidate.eye_preset);
    put_gain(bytes, candidate.lower_face_preset);
    put_u64(bytes, candidate.h_macro_mae.bits);
    put_u64(bytes, candidate.h_missed_blinks as u64);
    put_u64(bytes, candidate.d_missed_blinks as u64);
    assert(bytes@ =~= old(bytes)@ + count_bytes(*candidate));
}

fn put_events(bytes: &mut Vec<u8>, candidate: &TemporalCandidateMetrics)
    ensures
        final(bytes)@ == old(bytes)@ + event_bytes(*candidate),
{
    put_metric(bytes, candidate.h_onset_error_ms);
    put_metric(bytes, candidate.d_onset_error_ms);
    put_metric(bytes, candidate.h_peak_error_ms);
    put_metric(bytes, candidate.d_peak_error_ms);
    put_metric(bytes, candidate.h_peak_attenuation);
    put_metric(bytes, candidate.d_peak_attenuation);
    assert(bytes@ =~= old(bytes)@ + event_bytes(*candidate));
}

fn put_candidate(bytes: &mut Vec<u8>, candidate: &TemporalCandidateMetrics)
    ensures
        final(bytes)@ == old(bytes)@ + candidate_bytes(*candidate),
{
    put_counts(bytes, candidate);
    put_events(bytes, candidate);
    assert(bytes@ =~= old(bytes)@ + candidate_bytes(*candidate));
}

/// Hash over every field but the hash itself.
pub fn hash_artifact(artifact: &ReducedTemporalArtifact) -> (hash: u64)
    ensures
        hash == fnv_of(artifact.hashed_bytes()),
{
    let mut bytes: Vec<u8> = Vec::new();
    put_u32(&mut bytes, artifact.schema_version);
    put_u64(&mut bytes, artifact.basis_content_hash);
    put_u64(&mut bytes, artifact.decoder_content_hash);
    put_gain(&mut bytes, artifact.eye_preset);
    put_gain(&mut bytes, artifact.lower_face_preset);
    put_u64(&mut bytes, artifact.max_prediction_horizon_micros);
    put_texts(&mut bytes, &artifact.training_takes);
    let ghost head = bytes@;
    for i in 0..artifact.validation_metrics.len()
        invariant
            bytes@ == head + candidates_bytes(artifact.validation_metrics@, i as int),
    {
        put_candidate(&mut bytes, &artifact.validation_metrics[i]);
        assert(bytes@ =~= head + candidates_bytes(artifact.validation_metrics@, (i + 1) as int));
    }
    assert(bytes@ =~= artifact.hashed_bytes());
    fnv1a(&bytes)
}

/// Why no artifact can be selected, if none can.
pub open spec fn selection_fault(
    candidates: Seq<TemporalCandidateMetrics>,
    provenance: ReducedTemporalProvenance,
) -> Option<ReducedTemporalError> {
    if !is_grid(candidates) {
        Some(ReducedTemporalError::InvalidCandidateGrid)
    } else if provenance.max_prediction_horizon_micros == 0 || !all_metrics_finite(candidates) {
        Some(ReducedTemporalError::InvalidNumeric("artifact input"))
    } else if none_admissible(candidates) {
        Some(ReducedTemporalError::NoAdmissibleTemporalGains)
    } else {
        None
    }
}

/// Selects the best admissible candidate from the fixed nine-pair grid.
///
/// # Errors
///
/// Rejects candidates other than the grid, metrics that are not finite, an empty
/// horizon, and a grid without an admissible candidate.
pub fn select_reduced_temporal_artifact(
    candidates: &[TemporalCandidateMetrics],
    provenance: ReducedTemporalProvenance,
) -> (result: Result<ReducedTemporalArtifact, ReducedTemporalError>)
    ensures
        match result {
            Ok(artifact) => {
                &&& selection_fault(candidates@, provenance) is None
                &&& exists|best: int|
                    #![trigger candidates@[best]]
                    {
                        &&& is_best(candidates@, best, 9)
                        &&& artifact.eye_preset == candidates@[best].eye_preset
                        &&& artifact.lower_face_preset == candidates@[best].lower_face_preset
                    }
                &&& artifact.schema_version == REDUCED_TEMPORAL_ARTIFACT_SCHEMA_VERSION
                &&& artifact.basis_content_hash == provenance.basis_content_hash
                &&& artifact.decoder_content_hash == provenance.decoder_content_hash
                &&& artifact.max_prediction_horizon_micros
                    == provenance.max_prediction_horizon_micros
                &&& strictly_ordered(artifact.training_takes@)
                &&& same_takes(artifact.training_takes@, provenance.training_takes@)
                &&& artifact.validation_metrics@ == candidates@
                &&& artifact.content_hash == fnv_of(artifact.hashed_bytes())
            },
            Err(error) => selection_fault(candidates@, provenance) == Some(error),
        },
{
    if !fixed_grid(candidates) {
        return Err(ReducedTemporalError::InvalidCandidateGrid);
    }
    if provenance.max_prediction_horizon_micros == 0 || !are_metrics_finite(candidates) {
        return Err(ReducedTemporalError::InvalidNumeric("artifact input"));
    }
    let best: usize = match find_best(candidates) {
        Some(best) => best,
        None => {
            return Err(ReducedTemporalError::NoAdmissibleTemporalGains);
        },
    };
    let selected = candidates[best];
    let mut validation_metrics: Vec<TemporalCandidateMetrics> = Vec::new();
    for i in 0..candidates.len()
        invariant
            validation_metrics@ =~= candidates@.take(i as int),
    {
        validation_metrics.push(candidates[i]);
    }
    assert(candidates@.take(candidates@.len() as int) =~= candidates@);
    let mut artifact = ReducedTemporalArtifact {
        schema_version: REDUCED_TEMPORAL_ARTIFACT_SCHEMA_VERSION,
        basis_content_hash: provenance.basis_content_hash,
        decoder_content_hash: provenance.decoder_content_hash,
        eye_preset: selected.eye_preset,
        lower_face_preset: selected.lower_face_preset,
        max_prediction_horizon_micros: provenance.max_prediction_horizon_micros,
        training_takes: sorted_takes(&provenance.training_takes),
        validation_metrics,
        content_hash: 0,
    };
    let hash: u64 = hash_artifact(&artifact);
    let ghost hashed = artifact.hashed_bytes();
    artifact.content_hash = hash;
    assert(artifact.hashed_bytes() == hashed);
    assert(is_best(candidates@, best as int, 9));
    Ok(artifact)
}

/// Without gains a correction is the prediction alone: the position drifts and the
/// velocity stays.
pub proof fn lemma_no_gain_keeps_the_prediction(
    position: Binary32,
    velocity: Binary32,
    observed: Binary32,
    dt: Binary32,
)
    requires
        velocity.finite(),
        dt.finite(),
        dt.positive(),
        position.plus(dt.times(velocity)).finite(),
        observed.minus(position.plus(dt.times(velocity))).finite(),
    ensures
        ({
            let none = Binary32 { bits: 0 };
            let after = corrected(position, velocity, observed, none, none, dt);
            &&& after.0.same_number(position.plus(dt.times(velocity)))
            &&& after.1.same_number(velocity)
        }),
{
    let none = Binary32 { bits: 0 };
    let predicted = position.plus(dt.times(velocity));
    let innovation = observed.minus(predicted);
    lemma_plus_zero_keeps_value_32(predicted, none.times(innovation));
    lemma_plus_zero_keeps_value_32(velocity, none.over(dt).times(innovation));
}

/// Sampling at the time of the state gives its position back.
pub proof fn lemma_sampling_at_the_state_gives_it_back(state: ReducedTemporalState, i: int)
    requires
        0 <= i < state.position@.len(),
        state.position@[i].finite(),
        state.velocity_per_second@[i].finite(),
    ensures
        drifted(state, 0)[i].same_number(state.position@[i]),
{
    let velocity = state.velocity_per_second@[i];
    lemma_plus_zero_keeps_value_32(state.position@[i], micro_seconds(0).times(velocity));
}

/// The best candidate is the only one: a grid selects one gain pair.
pub proof fn lemma_selection_is_unique(
    candidates: Seq<TemporalCandidateMetrics>,
    left: int,
    right: int,
    n: int,
)
    requires
        is_best(candidates, left, n),
        is_best(candidates, right, n),
    ensures
        left == right,
{
    if left < right {
        assert(better(candidates[right], candidates[left]));
    } else if right < left {
        assert(better(candidates[left], candidates[right]));
    }
}

} // verus!
