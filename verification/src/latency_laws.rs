//! What the reported latencies mean: how many samples the fitted channel reaches a
//! level later than the truth does.

use vstd::arithmetic::power2::{
    lemma2_to64, lemma2_to64_rest, lemma_pow2_adds, lemma_pow2_pos, pow2,
};
use vstd::prelude::*;

use crate::arithmetic::{lemma_infinity_64, lemma_nearest_of_exact_64, lemma_sign_of_units_64};
use crate::binary::{magnitude_units, Binary32, Binary64};
use crate::gnm_sequence_regression::{
    first_crossing, report_of_run, ObservedSample, RunState, SequenceFitMode, SequenceScenario,
};
use crate::rounding::lemma_units_of_scaled;
use crate::rounding_error::lemma_leading_place;

verus! {

/// Bit pattern of 0.4, the level of a ramp's onset.
pub const ONSET_LEVEL_BITS: u32 = 0x3ecc_cccd;

/// Bit pattern of 0.45, the level of a release.
pub const RELEASE_LEVEL_BITS: u32 = 0x3ee6_6666;

/// The binary64 number is this whole number.
pub open spec fn is_whole(number: Binary64, whole: int) -> bool {
    number.finite() && number.units() == whole * pow2(1074)
}

/// Whole numbers below two to the fifty-third are exact.
pub proof fn lemma_small_whole(n: nat)
    requires
        n < 0x20_0000_0000_0000,
    ensures
        is_whole(Binary64::of_integer(n), n as int),
        !Binary64::of_integer(n).negative(),
{
    lemma2_to64();
    lemma2_to64_rest();
    lemma_infinity_64();
    lemma_pow2_pos(1074);
    let unit = pow2(1074);
    if n == 0 {
        lemma_sign_of_units_64(Binary64 { bits: 0 });
        assert(0 * unit == 0) by (nonlinear_arith);
    } else {
        let m = lemma_whole_magnitude(n);
        lemma_nearest_of_exact_64(m, 1);
        assert((n * unit) * 1 == n * unit) by (nonlinear_arith);
    }
}

/// The magnitude of a whole number.
proof fn lemma_whole_magnitude(n: nat) -> (m: nat)
    requires
        0 < n < 0x20_0000_0000_0000,
    ensures
        m < 0x7ff0_0000_0000_0000,
        magnitude_units(m, 52) == n * pow2(1074),
{
    lemma2_to64();
    lemma2_to64_rest();
    let k = lemma_leading_place(n, 53);
    let j = (52 - k) as nat;
    let scale = (1074 - j) as nat;
    let q = n * pow2(j);
    lemma_pow2_adds(k, j);
    lemma_pow2_pos(j);
    assert(pow2(52) <= q < 2 * pow2(52)) by (nonlinear_arith)
        requires
            q == n * pow2(j),
            pow2(k) <= n < 2 * pow2(k),
            pow2(k) * pow2(j) == pow2(52),
            pow2(j) > 0,
    ;
    lemma_units_of_scaled(scale, q, 52);
    lemma_pow2_adds(j, scale);
    assert(q * pow2(scale) == n * pow2(1074)) by (nonlinear_arith)
        requires
            q == n * pow2(j),
            pow2(j) * pow2(scale) == pow2(1074),
    ;
    assert(scale * pow2(52) + q < 0x7ff0_0000_0000_0000) by (nonlinear_arith)
        requires
            pow2(52) == 0x10_0000_0000_0000,
            scale <= 1074,
            q < 2 * pow2(52),
    ;
    scale * pow2(52) + q
}

/// Differences of whole numbers below two to the fifty-third are exact.
pub proof fn lemma_whole_difference(left: Binary64, right: Binary64, a: nat, b: nat)
    requires
        is_whole(left, a as int),
        is_whole(right, b as int),
        a < 0x20_0000_0000_0000,
        b < 0x20_0000_0000_0000,
    ensures
        is_whole(left.minus(right), a - b),
{
    let unit = pow2(1074) as int;
    lemma_infinity_64();
    let opposite = right.negated();
    assert(opposite.units() == -right.units());
    assert(a * unit + -(b * unit) == (a - b) * unit) by (nonlinear_arith);
    let exact = (a - b) * unit;
    lemma_pow2_pos(1074);
    if a > b {
        let m = lemma_whole_magnitude((a - b) as nat);
        lemma_nearest_of_exact_64(m, 1);
        assert(exact > 0) by (nonlinear_arith)
            requires
                exact == (a - b) * unit,
                a > b,
                unit > 0,
        ;
        assert((exact as nat) * 1 == exact) by (nonlinear_arith)
            requires
                exact >= 0,
        ;
    } else if a < b {
        let m = lemma_whole_magnitude((b - a) as nat);
        lemma_nearest_of_exact_64(m, 1);
        assert(exact < 0 && -exact == (b - a) * unit) by (nonlinear_arith)
            requires
                exact == (a - b) * unit,
                a < b,
                unit > 0,
        ;
        assert(((-exact) as nat) * 1 == -exact) by (nonlinear_arith)
            requires
                exact <= 0,
        ;
    } else {
        assert(exact == 0) by (nonlinear_arith)
            requires
                exact == (a - b) * unit,
                a == b,
        ;
        lemma_sign_of_units_64(Binary64 { bits: 0 });
    }
}

/// The value has arrived at the level: from below when `upward`, else from above.
pub open spec fn arrived(value: Binary32, level: Binary32, upward: bool) -> bool {
    !value.nan() && !level.nan() && (if upward {
        level.rank() <= value.rank()
    } else {
        value.rank() <= level.rank()
    })
}

/// The truth first arrives at sample `p`.
pub open spec fn truth_arrives(
    samples: Seq<ObservedSample>,
    level: Binary32,
    upward: bool,
    p: int,
) -> bool {
    &&& 0 <= p < samples.len()
    &&& arrived(samples[p].truth_expression_channel0, level, upward)
    &&& forall|i: int|
        0 <= i < p ==> !arrived((#[trigger] samples[i]).truth_expression_channel0, level, upward)
}

/// The fitted channel first arrives at sample `q`.
pub open spec fn fit_arrives(
    samples: Seq<ObservedSample>,
    level: Binary32,
    upward: bool,
    q: int,
) -> bool {
    &&& 0 <= q < samples.len()
    &&& arrived(samples[q].expression_channel0, level, upward)
    &&& forall|i: int|
        0 <= i < q ==> !arrived((#[trigger] samples[i]).expression_channel0, level, upward)
}

/// The latency that is reported for the samples of a run with this trajectory.
pub open spec fn reported_latency(
    scenario: SequenceScenario,
    mode: SequenceFitMode,
    state: RunState,
    upward: bool,
) -> Option<Binary64> {
    if upward {
        report_of_run(scenario, mode, state).onset_latency_frames
    } else {
        report_of_run(scenario, mode, state).release_latency_frames
    }
}

/// The run is one for which the latency is reported, and this is its level.
pub open spec fn has_latency(scenario: SequenceScenario, upward: bool, level: Binary32) -> bool {
    if upward {
        scenario.trajectory is SlowRamp && level.bits == ONSET_LEVEL_BITS
    } else {
        scenario.trajectory is FastRelease && level.bits == RELEASE_LEVEL_BITS
    }
}

proof fn lemma_truth_crossing(
    samples: Seq<ObservedSample>,
    level: Binary32,
    upward: bool,
    n: int,
    p: int,
)
    requires
        0 <= n <= p,
        truth_arrives(samples, level, upward, p),
    ensures
        first_crossing(samples, true, level, upward, n) == Some(p),
    decreases p - n,
{
    if n < p {
        lemma_truth_crossing(samples, level, upward, n + 1, p);
    }
}

proof fn lemma_fit_crossing(
    samples: Seq<ObservedSample>,
    level: Binary32,
    upward: bool,
    n: int,
    q: int,
)
    requires
        0 <= n <= q,
        fit_arrives(samples, level, upward, q),
    ensures
        first_crossing(samples, false, level, upward, n) == Some(q),
    decreases q - n,
{
    if n < q {
        lemma_fit_crossing(samples, level, upward, n + 1, q);
    }
}

proof fn lemma_no_truth_crossing(samples: Seq<ObservedSample>, level: Binary32, upward: bool, n: int)
    requires
        0 <= n,
        forall|i: int|
            0 <= i < samples.len() ==> !arrived(
                (#[trigger] samples[i]).truth_expression_channel0,
                level,
                upward,
            ),
    ensures
        first_crossing(samples, true, level, upward, n) is None,
    decreases samples.len() - n,
{
    if n < samples.len() {
        lemma_no_truth_crossing(samples, level, upward, n + 1);
    }
}

proof fn lemma_no_fit_crossing(samples: Seq<ObservedSample>, level: Binary32, upward: bool, n: int)
    requires
        0 <= n,
        forall|i: int|
            0 <= i < samples.len() ==> !arrived(
                (#[trigger] samples[i]).expression_channel0,
                level,
                upward,
            ),
    ensures
        first_crossing(samples, false, level, upward, n) is None,
    decreases samples.len() - n,
{
    if n < samples.len() {
        lemma_no_fit_crossing(samples, level, upward, n + 1);
    }
}

/// The latency is the distance from the truth's arrival to the fit's: where the truth
/// first reaches the level at sample `p` and the fitted channel at sample `q`, the
/// report says `q - p`.
pub proof fn lemma_latency_is_the_distance_of_arrivals(
    scenario: SequenceScenario,
    mode: SequenceFitMode,
    state: RunState,
    upward: bool,
    level: Binary32,
    p: int,
    q: int,
)
    requires
        has_latency(scenario, upward, level),
        state.samples@.len() <= 0x20_0000_0000_0000,
        truth_arrives(state.samples@, level, upward, p),
        fit_arrives(state.samples@, level, upward, q),
    ensures
        reported_latency(scenario, mode, state, upward) is Some,
        is_whole(reported_latency(scenario, mode, state, upward)->0, q - p),
{
    let samples = state.samples@;
    lemma_truth_crossing(samples, level, upward, 0, p);
    lemma_fit_crossing(samples, level, upward, 0, q);
    lemma_small_whole(p as nat);
    lemma_small_whole(q as nat);
    lemma_whole_difference(
        Binary64::of_integer(q as nat),
        Binary64::of_integer(p as nat),
        q as nat,
        p as nat,
    );
}

/// There is no latency where one of the two never arrives, nor for another trajectory.
pub proof fn lemma_no_arrival_has_no_latency(
    scenario: SequenceScenario,
    mode: SequenceFitMode,
    state: RunState,
    upward: bool,
    level: Binary32,
)
    requires
        has_latency(scenario, upward, level) ==> (forall|i: int|
            0 <= i < state.samples@.len() ==> !arrived(
                (#[trigger] state.samples@[i]).truth_expression_channel0,
                level,
                upward,
            )) || (forall|i: int|
            0 <= i < state.samples@.len() ==> !arrived(
                (#[trigger] state.samples@[i]).expression_channel0,
                level,
                upward,
            )),
        level.bits == (if upward {
            ONSET_LEVEL_BITS
        } else {
            RELEASE_LEVEL_BITS
        }),
    ensures
        reported_latency(scenario, mode, state, upward) is None,
{
    let samples = state.samples@;
    if has_latency(scenario, upward, level) {
        if forall|i: int|
            0 <= i < samples.len() ==> !arrived(
                (#[trigger] samples[i]).truth_expression_channel0,
                level,
                upward,
            ) {
            lemma_no_truth_crossing(samples, level, upward, 0);
        } else {
            lemma_no_fit_crossing(samples, level, upward, 0);
        }
    }
}

/// The fitted channel is the truth `d` samples later; before that it has not arrived.
pub open spec fn is_delayed(
    samples: Seq<ObservedSample>,
    level: Binary32,
    upward: bool,
    d: int,
) -> bool {
    &&& 0 <= d
    &&& forall|i: int|
        0 <= i < d && i < samples.len() ==> !arrived(
            (#[trigger] samples[i]).expression_channel0,
            level,
            upward,
        )
    &&& forall|i: int|
        d <= i < samples.len() ==> (#[trigger] samples[i]).expression_channel0 == samples[i
            - d].truth_expression_channel0
}

/// A fit that is the truth delayed by `d` samples has a latency of `d`.
pub proof fn lemma_delay_is_the_latency(
    scenario: SequenceScenario,
    mode: SequenceFitMode,
    state: RunState,
    upward: bool,
    level: Binary32,
    p: int,
    d: int,
)
    requires
        has_latency(scenario, upward, level),
        state.samples@.len() <= 0x20_0000_0000_0000,
        is_delayed(state.samples@, level, upward, d),
        truth_arrives(state.samples@, level, upward, p),
        p + d < state.samples@.len(),
    ensures
        reported_latency(scenario, mode, state, upward) is Some,
        is_whole(reported_latency(scenario, mode, state, upward)->0, d),
{
    let samples = state.samples@;
    assert forall|i: int| 0 <= i < p + d implies !arrived(
        (#[trigger] samples[i]).expression_channel0,
        level,
        upward,
    ) by {
        if d <= i {
            assert(!arrived(samples[i - d].truth_expression_channel0, level, upward));
        }
    }
    assert(samples[p + d].expression_channel0 == samples[p].truth_expression_channel0);
    lemma_latency_is_the_distance_of_arrivals(scenario, mode, state, upward, level, p, p + d);
}

} // verus!
