//! What the report of a run and its ground truth say: errors are distances from the
//! truth, and the truth follows its trajectory.

use vstd::arithmetic::div_mod::lemma_fundamental_div_mod_converse;
use vstd::arithmetic::power2::{
    lemma2_to64, lemma2_to64_rest, lemma_pow2_adds, lemma_pow2_pos, pow2,
};
use vstd::prelude::*;

use crate::arithmetic::lemma_infinity_64;
use crate::arithmetic_laws::{lemma_integer_is_plain, plain};
use crate::binary::{magnitude_units, Binary32, Binary64};
use crate::closeness::{
    abs_of, lemma_half_least_is_tiny, lemma_integer_parts, lemma_product_near_64, lemma_product_parts,
    lemma_quotient_parts, lemma_sum_near_64, lemma_sum_parts, lemma_value_32, value_64,
};
use crate::gnm_sequence_regression::{
    angle_error, changes, derivative, expression_errors, has_derivative, iteration_total, jitter, jitter_sum,
    jitter_terms, largest_of, motions, mouth_at, number, peak_of, pose_at, pose_error, progress_of, pulse_center, pulse_logarithm,
    release_progress, report_of_run, sample_gap, seconds_between, HistoryEntry, ObservedSample, RunState,
    SequenceFitMode, SequenceScenario, SequenceTrajectory,
};
use crate::mean_laws::{
    lemma_count_value, lemma_mean_is_close, lemma_moderate_sum_is_finite, lemma_parts_64, lemma_tiny_64, real_mean,
};
use crate::metric_laws::{
    is_about, lemma_difference_term, lemma_distance_term, lemma_moderate_product_is_finite, lemma_root_value,
    lemma_signed_value, lemma_widened_value,
};
use crate::prediction_laws::{lemma_abs_of_product, lemma_close_rate, lemma_number_is_finite};
use crate::rounding_error::{
    half_least_32, half_least_64, lemma_half_least, lemma_quotient, lemma_real_product, value_32,
};

verus! {

/// The distance of a fitted expression from the true one.
pub open spec fn missed(sample: ObservedSample) -> real {
    abs_of(value_32(sample.expression_channel0) - value_32(sample.truth_expression_channel0))
}

/// The fitted and true expressions lie between minus one and one.
pub open spec fn moderate(samples: Seq<ObservedSample>) -> bool {
    forall|i: int|
        0 <= i < samples.len() ==> (#[trigger] samples[i]).expression_channel0.magnitude() <= 0x3f80_0000
            && samples[i].truth_expression_channel0.magnitude() <= 0x3f80_0000
}

/// The expression errors of a report are distances from the truth: their mean over all
/// samples, and that of the last sample.
pub proof fn lemma_reported_errors_are_distances(
    scenario: SequenceScenario,
    mode: SequenceFitMode,
    state: RunState,
)
    requires
        0 < state.samples@.len() <= 0x100_0000,
        moderate(state.samples@),
    ensures
        ({
            let samples = state.samples@;
            let report = report_of_run(scenario, mode, state);
            &&& is_about(
                report.mean_expression_error,
                real_mean(|i: int| missed(samples[i]), samples.len() as int),
            )
            &&& is_about(report.final_expression_error, missed(samples[samples.len() - 1]))
        }),
{
    let samples = state.samples@;
    let numbers = expression_errors(samples);
    let values = |i: int| missed(samples[i]);
    let slack = 1 as real / 0x40_0000 as real;
    assert forall|i: int| 0 <= i < numbers.len() implies (#[trigger] numbers[i]).finite() && abs_of(
        value_64(numbers[i]),
    ) <= 8 as real && abs_of(value_64(numbers[i]) - values(i)) <= slack by {
        lemma_distance_term(samples[i].expression_channel0, samples[i].truth_expression_channel0);
    }
    lemma_mean_is_close(numbers, values, slack);
    let last = samples[samples.len() - 1];
    lemma_distance_term(last.expression_channel0, last.truth_expression_channel0);
}

/// The peak of a report is the largest fitted value: it is reached, and nothing lies
/// above it.
pub proof fn lemma_peak_is_the_largest_value(samples: Seq<ObservedSample>, n: int)
    requires
        1 <= n <= samples.len(),
    ensures
        exists|i: int|
            0 <= i < n && peak_of(samples, n) == (#[trigger] samples[i]).expression_channel0.widened(),
        forall|i: int|
            0 <= i < n ==> (#[trigger] samples[i]).expression_channel0.widened().total_rank() <= peak_of(
                samples,
                n,
            ).total_rank(),
    decreases n,
{
    if n > 1 {
        lemma_peak_is_the_largest_value(samples, n - 1);
    }
    let value = samples[n - 1].expression_channel0.widened();
    assert(samples[n - 1].expression_channel0.widened() == value);
}

/// Solves that all take the same iterations take that many on the mean.
pub proof fn lemma_even_iterations_are_their_mean(
    scenario: SequenceScenario,
    mode: SequenceFitMode,
    state: RunState,
    each: nat,
)
    requires
        0 < state.samples@.len() <= 0x100_0000,
        each <= 0x100_0000,
        forall|i: int| 0 <= i < state.samples@.len() ==> (#[trigger] state.samples@[i]).iterations == each,
    ensures
        ({
            let report = report_of_run(scenario, mode, state);
            &&& report.total_iterations == each * state.samples@.len()
            &&& report.solved_frames == state.samples@.len()
        }),
{
    let samples = state.samples@;
    let n = samples.len() as int;
    lemma_even_total(samples, each, n);
    assert(each * n <= 0x100_0000 * 0x100_0000) by (nonlinear_arith)
        requires
            0 <= each <= 0x100_0000,
            0 <= n <= 0x100_0000,
    ;
}

proof fn lemma_even_total(samples: Seq<ObservedSample>, each: nat, n: int)
    requires
        0 <= n <= samples.len(),
        forall|i: int| 0 <= i < samples.len() ==> (#[trigger] samples[i]).iterations == each,
    ensures
        iteration_total(samples, n) == each * n,
    decreases n,
{
    if n > 0 {
        lemma_even_total(samples, each, n - 1);
        assert(samples[n - 1].iterations == each);
        assert(each * n == each * (n - 1) + each) by (nonlinear_arith);
    } else {
        assert(each * 0 == 0) by (nonlinear_arith);
    }
}

/// How far through a sequence a frame lies.
pub open spec fn exact_progress(index: int, frame_count: int) -> real {
    index as real / (frame_count - 1) as real
}

/// The progress of a frame is its share of the sequence, up to roundings.
pub proof fn lemma_progress_is_the_share(index: int, frame_count: int)
    requires
        2 <= frame_count <= u64::MAX,
        0 <= index < frame_count,
    ensures
        ({
            let progress = progress_of(index, frame_count);
            &&& progress.finite()
            &&& !progress.negative()
            &&& 0 as real <= value_32(progress) <= 2 as real
            &&& 0x8_0000 as real * abs_of(value_32(progress) - exact_progress(index, frame_count)) <= 1 as real
        }),
{
    let last = (frame_count - 1) as nat;
    let (a, b) = (Binary32::of_integer(index as nat), Binary32::of_integer(last));
    let progress = progress_of(index, frame_count);
    lemma_number_is_finite(index);
    lemma_number_is_finite(last as int);
    lemma_integer_is_plain(last);
    lemma_integer_is_plain(index as nat);
    crate::arithmetic_laws::lemma_integers_are_monotone(index as nat, last);
    crate::arithmetic_laws::lemma_quotient_is_monotone(a, b, b);
    crate::arithmetic_laws::lemma_quotient_is_plain(a, b);
    crate::unit_range::lemma_self_quotient(b);
    lemma_integer_parts(index as nat);
    lemma_integer_parts(last);
    lemma_quotient_parts(a, b);
    lemma_value_32(progress);
    lemma_value_32(b);
    lemma_half_least();
    lemma_half_least_is_tiny();
    crate::prediction_laws::lemma_unit_value(progress);
    let h = half_least_32();
    let big = 0x1_0000_0000_0000_0000 as real;
    assert(h * big <= 1 as real) by (nonlinear_arith)
        requires
            h * big * big <= 1 as real,
            big >= 1 as real,
            h > 0 as real,
    ;
    assert(value_32(b) > 0 as real);
    lemma_close_rate(value_32(progress), value_32(a), index as real, value_32(b), last as real, h);
}

/// The value of a number between a hundred and twenty-eighth and two, given by its bits.
pub proof fn lemma_constant(bits: u32)
    requires
        0x3c00_0000 <= bits < 0x4000_0000,
    ensures
        number(bits).finite(),
        !number(bits).negative(),
        ({
            let exponent = (bits as int) / 0x80_0000;
            let fraction = (bits as int) % 0x80_0000;
            value_32(number(bits)) * pow2((150 - exponent) as nat) as real == (0x80_0000 + fraction) as real
        }),
{
    lemma2_to64();
    lemma2_to64_rest();
    let exponent = (bits as int) / 0x80_0000;
    let fraction = (bits as int) % 0x80_0000;
    let up = (exponent - 1) as nat;
    let down = (150 - exponent) as nat;
    lemma_pow2_adds(up, down);
    lemma_pow2_pos(up);
    lemma_pow2_pos(149);
    let whole = 0x80_0000 + fraction;
    assert(number(bits).units() == whole * pow2(up));
    lemma_real_product(whole, pow2(up) as int);
    lemma_real_product(pow2(up) as int, pow2(down) as int);
    let (t, u, d, w) = (pow2(149) as real, pow2(up) as real, pow2(down) as real, whole as real);
    let x = value_32(number(bits));
    lemma_quotient(w * u, t);
    assert(x * d == w) by (nonlinear_arith)
        requires
            x * t == w * u,
            t == u * d,
            u > 0 as real,
    ;
}

/// The constants of the trajectories.
proof fn lemma_constants()
    ensures
        0x10_0000 as real * abs_of(10 as real * value_32(number(0x3f4c_cccd)) - 8 as real) <= 1 as real,
        0x10_0000 as real * abs_of(10 as real * value_32(number(0x3f33_3333)) - 7 as real) <= 1 as real,
        0x10_0000 as real * abs_of(10 as real * value_32(number(0x3e4c_cccd)) - 2 as real) <= 1 as real,
        0x10_0000 as real * abs_of(20 as real * value_32(number(0x3e19_999a)) - 3 as real) <= 1 as real,
        0x10_0000 as real * abs_of(10 as real * value_32(number(0x3e99_999a)) - 3 as real) <= 1 as real,
        2 as real * value_32(number(0x3f00_0000)) == 1 as real,
{
    lemma2_to64();
    lemma2_to64_rest();
    assert(pow2(24) == 0x100_0000 && pow2(25) == 0x200_0000 && pow2(26) == 0x400_0000);
    lemma_constant(0x3f4c_cccd);
    assert(value_32(number(0x3f4c_cccd)) * 0x100_0000 as real == 0xcc_cccd as real);
    lemma_constant(0x3f33_3333);
    assert(value_32(number(0x3f33_3333)) * 0x100_0000 as real == 0xb3_3333 as real);
    lemma_constant(0x3e4c_cccd);
    assert(value_32(number(0x3e4c_cccd)) * 0x400_0000 as real == 0xcc_cccd as real);
    lemma_constant(0x3e19_999a);
    assert(value_32(number(0x3e19_999a)) * 0x400_0000 as real == 0x99_999a as real);
    lemma_constant(0x3e99_999a);
    assert(value_32(number(0x3e99_999a)) * 0x200_0000 as real == 0x99_999a as real);
    lemma_constant(0x3f00_0000);
    assert(value_32(number(0x3f00_0000)) * 0x100_0000 as real == 0x80_0000 as real);
}

/// A constant times a share, and a constant more.
proof fn lemma_scaled_share(scale: Binary32, share: Binary32, k: real, exact: real)
    requires
        scale.finite(),
        share.finite(),
        0 as real <= value_32(scale) <= 1 as real,
        0 as real <= k <= 1 as real,
        0x10_0000 as real * abs_of(10 as real * (value_32(scale) - k)) <= 10 as real,
        crate::unit_range::is_share(scale),
        crate::unit_range::is_share(share),
        0 as real <= value_32(share) <= 2 as real,
        0x8_0000 as real * abs_of(value_32(share) - exact) <= 1 as real,
    ensures
        scale.times(share).finite(),
        scale.times(share).magnitude() <= 0x3f80_0000,
        0x1_0000 as real * abs_of(value_32(scale.times(share)) - k * exact) <= 1 as real,
        abs_of(value_32(scale.times(share))) <= 3 as real,
{
    crate::unit_range::lemma_unit_product(scale, share);
    lemma_value_32(scale);
    lemma_value_32(share);
    let product = scale.times(share);
    lemma_product_parts(scale, share);
    lemma_half_least();
    lemma_half_least_is_tiny();
    let h = half_least_32();
    let big = 0x1_0000_0000_0000_0000 as real;
    assert(h * big <= 1 as real) by (nonlinear_arith)
        requires
            h * big * big <= 1 as real,
            big >= 1 as real,
            h > 0 as real,
    ;
    let (s, x, p) = (value_32(scale), value_32(share), value_32(product));
    let (d, e) = (s - k, x - exact);
    assert(s * x - k * exact == d * x + k * e) by (nonlinear_arith)
        requires
            d == s - k,
            e == x - exact,
    ;
    lemma_abs_of_product(d, x);
    lemma_abs_of_product(k, e);
    lemma_abs_of_product(s, x);
    let (ad, ae) = (abs_of(d), abs_of(e));
    assert(ad * x <= 2 as real * ad && k * ae <= ae && s * x <= x) by (nonlinear_arith)
        requires
            0 as real <= x <= 2 as real,
            0 as real <= k <= 1 as real,
            0 as real <= s <= 1 as real,
            ad >= 0 as real,
            ae >= 0 as real,
    ;
    assert(s * x >= 0 as real) by (nonlinear_arith)
        requires
            s >= 0 as real,
            x >= 0 as real,
    ;
}

/// A slow ramp drives the mouth evenly from zero to eight tenths.
pub proof fn lemma_slow_ramp_is_even(index: int, frame_count: int, pulse: Binary32)
    requires
        2 <= frame_count <= u64::MAX,
        0 <= index < frame_count,
    ensures
        ({
            let mouth = mouth_at(SequenceTrajectory::SlowRamp, index, frame_count, pulse);
            let exact = (8 as real / 10 as real) * exact_progress(index, frame_count);
            &&& mouth.finite()
            &&& 0x8000 as real * abs_of(value_32(mouth) - exact) <= 1 as real
        }),
{
    let progress = progress_of(index, frame_count);
    let scale = number(0x3f4c_cccd);
    lemma_progress_is_the_share(index, frame_count);
    lemma_progress_magnitude(index, frame_count);
    lemma_constants();
    lemma_constant(0x3f4c_cccd);
    crate::interpolation::lemma_product_commutes(progress, scale);
    lemma_scaled_share(scale, progress, 8 as real / 10 as real, exact_progress(index, frame_count));
}

proof fn lemma_progress_magnitude(index: int, frame_count: int)
    requires
        2 <= frame_count <= u64::MAX,
        0 <= index < frame_count,
    ensures
        progress_of(index, frame_count).magnitude() <= 0x3f80_0000,
{
    let last = (frame_count - 1) as nat;
    let (a, b) = (Binary32::of_integer(index as nat), Binary32::of_integer(last));
    lemma_number_is_finite(index);
    lemma_number_is_finite(last as int);
    lemma_integer_is_plain(last);
    lemma_integer_is_plain(index as nat);
    crate::arithmetic_laws::lemma_integers_are_monotone(index as nat, last);
    crate::arithmetic_laws::lemma_quotient_is_monotone(a, b, b);
    crate::arithmetic_laws::lemma_quotient_is_plain(a, b);
    crate::unit_range::lemma_self_quotient(b);
}

/// A number more than a product.
proof fn lemma_raised(base: Binary32, product: Binary32, b: real, exact: real)
    requires
        base.magnitude() <= 0x3f80_0000,
        product.magnitude() <= 0x3f80_0000,
        0x4_0000 as real * abs_of(value_32(base) - b) <= 1 as real,
        0x1_0000 as real * abs_of(value_32(product) - exact) <= 1 as real,
    ensures
        base.plus(product).finite(),
        0x8000 as real * abs_of(value_32(base.plus(product)) - (b + exact)) <= 1 as real,
{
    crate::unit_range::lemma_signed_difference(product.negated(), base);
    assert(product.negated().negated() == product);
    lemma_sum_parts(base, product);
    crate::metric_laws::lemma_signed_value(base);
    crate::metric_laws::lemma_signed_value(product);
}

/// A combined movement turns the head evenly from minus to plus fifteen hundredths and
/// opens the mouth evenly from two to seven tenths.
pub proof fn lemma_combined_movement_is_even(index: int, frame_count: int, pulse: Binary32)
    requires
        2 <= frame_count <= u64::MAX,
        0 <= index < frame_count,
    ensures
        ({
            let trajectory = SequenceTrajectory::HeadPoseAndExpression;
            let mouth = mouth_at(trajectory, index, frame_count, pulse);
            let yaw = pose_at(trajectory, index, frame_count)[0];
            let share = exact_progress(index, frame_count);
            &&& mouth.finite() && yaw.finite()
            &&& 0x8000 as real * abs_of(value_32(mouth) - (2 as real / 10 as real + (1 as real / 2 as real) * share))
                <= 1 as real
            &&& 0x8000 as real * abs_of(
                value_32(yaw) - (-(15 as real / 100 as real) + (3 as real / 10 as real) * share),
            ) <= 1 as real
        }),
{
    let progress = progress_of(index, frame_count);
    let share = exact_progress(index, frame_count);
    lemma_progress_is_the_share(index, frame_count);
    lemma_progress_magnitude(index, frame_count);
    lemma_constants();
    lemma_constant(0x3f00_0000);
    lemma_constant(0x3e4c_cccd);
    lemma_constant(0x3e19_999a);
    lemma_constant(0x3e99_999a);
    lemma_scaled_share(number(0x3f00_0000), progress, 1 as real / 2 as real, share);
    lemma_scaled_share(number(0x3e99_999a), progress, 3 as real / 10 as real, share);
    lemma_raised(
        number(0x3e4c_cccd),
        number(0x3f00_0000).times(progress),
        2 as real / 10 as real,
        (1 as real / 2 as real) * share,
    );
    let low = number(0xbe19_999a);
    lemma_value_32(low);
    lemma_value_32(number(0x3e19_999a));
    assert(value_32(low) == -value_32(number(0x3e19_999a)));
    lemma_raised(
        low,
        number(0x3e99_999a).times(progress),
        -(15 as real / 100 as real),
        (3 as real / 10 as real) * share,
    );
}

/// A fast release holds the mouth at eight tenths and then lets it go: from the end of
/// the hold on it only falls, and six frames later it is at one tenth.
pub proof fn lemma_fast_release_falls(earlier: int, later: int, frame_count: int, pulse: Binary32)
    requires
        2 <= frame_count <= u64::MAX,
        0 <= earlier <= later < frame_count,
    ensures
        ({
            let trajectory = SequenceTrajectory::FastRelease;
            let hold = pulse_center(frame_count).rounded();
            let first = mouth_at(trajectory, earlier, frame_count, pulse);
            let second = mouth_at(trajectory, later, frame_count, pulse);
            &&& second.at_most(first)
            &&& earlier < hold ==> first == number(0x3f4c_cccd)
            &&& later >= hold + 6 ==> 0x8000 as real * abs_of(value_32(second) - 1 as real / 10 as real) <= 1 as real
        }),
{
    let hold = pulse_center(frame_count).rounded() as int;
    let (strong, fall) = (number(0x3f4c_cccd), number(0x3f33_3333));
    lemma_constants();
    lemma_constant(0x3f4c_cccd);
    lemma_constant(0x3f33_3333);
    let zero = Binary32 { bits: 0x8000_0000 };
    crate::arithmetic::lemma_plus_zero_32(strong, zero);
    if later >= hold {
        let b = release_progress(later - hold);
        lemma_release(later - hold);
        crate::unit_range::lemma_unit_product(fall, b);
        let drop = fall.times(b);
        crate::arithmetic_laws::lemma_sum_is_monotone(strong, drop.negated(), strong, zero);
        if earlier >= hold {
            let a = release_progress(earlier - hold);
            lemma_release(earlier - hold);
            lemma_release_grows(earlier - hold, later - hold);
            crate::unit_range::lemma_unit_product(fall, a);
            crate::arithmetic_laws::lemma_product_is_monotone(fall, a, fall, b);
            crate::arithmetic_laws::lemma_sum_is_monotone(
                strong,
                drop.negated(),
                strong,
                fall.times(a).negated(),
            );
        }
        if later >= hold + 6 {
            crate::arithmetic::lemma_times_one_32(fall);
            assert(b == number(0x3f80_0000));
            assert(drop == fall);
            lemma_value_32(fall);
            lemma_value_32(fall.negated());
            lemma_raised(
                strong,
                fall.negated(),
                8 as real / 10 as real,
                -(7 as real / 10 as real),
            );
        }
    }
}

/// Six.
proof fn lemma_six()
    ensures
        plain(number(0x40c0_0000)),
        Binary32::of_integer(6) == number(0x40c0_0000),
{
    lemma2_to64();
    lemma2_to64_rest();
    lemma_fundamental_div_mod_converse(0x40c0_0000, pow2(23) as int, 129, 0x40_0000);
    lemma_pow2_adds(21, 128);
    lemma_pow2_pos(149);
    let unit = pow2(149);
    assert((pow2(23) + 0x40_0000) * pow2(128) == 6 * (pow2(21) * pow2(128))) by (nonlinear_arith)
        requires
            pow2(23) + 0x40_0000 == 6 * pow2(21),
    ;
    assert(magnitude_units(0x40c0_0000, 23) == 6 * unit);
    crate::arithmetic::lemma_nearest_of_exact_32(0x40c0_0000, 1);
    assert((6 * unit) * 1 == 6 * unit) by (nonlinear_arith);
    assert(crate::arithmetic::unit_places(23) == 149);
}

/// The release is a share, and whole after six frames.
proof fn lemma_release(frames: int)
    requires
        0 <= frames <= u64::MAX,
    ensures
        crate::unit_range::is_share(release_progress(frames)),
        frames >= 6 ==> release_progress(frames) == number(0x3f80_0000),
{
    let six = number(0x40c0_0000);
    let count = Binary32::of_integer(frames as nat);
    lemma_six();
    lemma_number_is_finite(frames);
    crate::arithmetic_laws::lemma_quotient_is_plain(count, six);
    if frames >= 6 {
        crate::arithmetic_laws::lemma_integers_are_monotone(6, frames as nat);
        crate::arithmetic_laws::lemma_quotient_is_monotone(six, count, six);
        crate::unit_range::lemma_self_quotient(six);
    }
}

/// The release only goes on.
proof fn lemma_release_grows(fewer: int, more: int)
    requires
        0 <= fewer <= more <= u64::MAX,
    ensures
        release_progress(fewer).at_most(release_progress(more)),
{
    let six = number(0x40c0_0000);
    lemma_six();
    lemma_number_is_finite(fewer);
    lemma_number_is_finite(more);
    lemma_release(fewer);
    lemma_release(more);
    let (a, b) = (Binary32::of_integer(fewer as nat), Binary32::of_integer(more as nat));
    crate::arithmetic_laws::lemma_integers_are_monotone(fewer as nat, more as nat);
    crate::arithmetic_laws::lemma_quotient_is_monotone(a, b, six);
}

/// The fitted and true angles lie between minus one and one.
pub open spec fn small_angles(sample: ObservedSample) -> bool {
    forall|axis: int|
        0 <= axis < 3 ==> (#[trigger] sample.yaw_pitch_roll@[axis]).magnitude() <= 0x3f80_0000
            && sample.truth_yaw_pitch_roll@[axis].magnitude() <= 0x3f80_0000
}

/// How far an angle is off.
pub open spec fn turned(sample: ObservedSample, axis: int) -> real {
    value_32(sample.yaw_pitch_roll@[axis]) - value_32(sample.truth_yaw_pitch_roll@[axis])
}

/// The square of an angle error.
proof fn lemma_angle_square(sample: ObservedSample, axis: int)
    requires
        small_angles(sample),
        0 <= axis < 3,
    ensures
        ({
            let error = angle_error(sample, axis);
            let square = error.times(error);
            &&& square.finite()
            &&& abs_of(value_64(square)) <= 8 as real
            &&& 0x8_0000 as real * abs_of(value_64(square) - turned(sample, axis) * turned(sample, axis)) <= 1 as real
        }),
{
    let (a, b) = (sample.yaw_pitch_roll@[axis], sample.truth_yaw_pitch_roll@[axis]);
    let error = angle_error(sample, axis);
    assert(sample.yaw_pitch_roll@[axis].magnitude() <= 0x3f80_0000);
    lemma_difference_term(a, b);
    lemma_widened_value(a.minus(b));
    lemma_signed_value(a);
    lemma_signed_value(b);
    lemma_moderate_product_is_finite(error, error);
    lemma_product_near_64(error, error);
    lemma_tiny_64();
    let (x, y) = (value_64(error), turned(sample, axis));
    let p = value_64(error.times(error));
    lemma_parts_64(abs_of(p - x * x) - half_least_64(), abs_of(p));
    let (d, s) = (x - y, x + y);
    assert(x * x - y * y == d * s) by (nonlinear_arith)
        requires
            d == x - y,
            s == x + y,
    ;
    lemma_abs_of_product(d, s);
    lemma_abs_of_product(x, x);
    let (e, f, z) = (abs_of(d), abs_of(s), abs_of(x));
    assert(e * f <= 5 as real * e) by (nonlinear_arith)
        requires
            f <= 5 as real,
            e >= 0 as real,
    ;
    assert(100 as real * (z * z) <= 441 as real) by (nonlinear_arith)
        requires
            0 as real <= z,
            10 as real * z <= 21 as real,
    ;
}

/// Three numbers and what they stand for.
proof fn lemma_three_sum(x: Binary64, y: Binary64, z: Binary64, p: real, q: real, r: real)
    requires
        x.finite(),
        y.finite(),
        z.finite(),
        abs_of(value_64(x)) <= 8 as real,
        abs_of(value_64(y)) <= 8 as real,
        abs_of(value_64(z)) <= 8 as real,
        0x8_0000 as real * abs_of(value_64(x) - p) <= 1 as real,
        0x8_0000 as real * abs_of(value_64(y) - q) <= 1 as real,
        0x8_0000 as real * abs_of(value_64(z) - r) <= 1 as real,
    ensures
        x.plus(y).plus(z).finite(),
        abs_of(value_64(x.plus(y).plus(z))) <= 30 as real,
        0x2_0000 as real * abs_of(value_64(x.plus(y).plus(z)) - (p + q + r)) <= 1 as real,
{
    let small = 1 as real / 0x8_0000 as real;
    let first = x.plus(y);
    lemma_two_sum(x, y, p, q, small, small);
    lemma_two_sum(first, z, p + q, r, 2 as real * small + 1 as real / 0x100_0000 as real, small);
}

/// Two numbers and what they stand for.
proof fn lemma_two_sum(x: Binary64, y: Binary64, p: real, q: real, e: real, f: real)
    requires
        x.finite(),
        y.finite(),
        abs_of(value_64(x)) <= 20 as real,
        abs_of(value_64(y)) <= 8 as real,
        abs_of(value_64(x) - p) <= e,
        abs_of(value_64(y) - q) <= f,
    ensures
        x.plus(y).finite(),
        abs_of(value_64(x.plus(y))) <= abs_of(value_64(x)) + abs_of(value_64(y)) + 1 as real,
        abs_of(value_64(x.plus(y)) - (p + q)) <= e + f + 1 as real / 0x100_0000 as real,
{
    lemma_moderate_sum_is_finite(x, y);
    lemma_sum_near_64(x, y);
    lemma_parts_64(
        abs_of(value_64(x.plus(y)) - (value_64(x) + value_64(y))),
        abs_of(value_64(x.plus(y))),
    );
    lemma_two_sum_reals(value_64(x.plus(y)), value_64(x), value_64(y), p, q, e, f);
}

proof fn lemma_two_sum_reals(s: real, x: real, y: real, p: real, q: real, e: real, f: real)
    requires
        abs_of(x) <= 20 as real,
        abs_of(y) <= 8 as real,
        abs_of(x - p) <= e,
        abs_of(y - q) <= f,
        0x20_0000_0000_0000 as real * abs_of(s - (x + y)) <= abs_of(s),
    ensures
        abs_of(s) <= abs_of(x) + abs_of(y) + 1 as real,
        abs_of(s - (p + q)) <= e + f + 1 as real / 0x100_0000 as real,
{
    assert(abs_of(s) <= 30 as real);
    assert(0x100_0000 as real * abs_of(s - (x + y)) <= 1 as real);
}

/// The pose error of a sample is the length of what its three angles are off by, wherever
/// the root is not below the normal numbers.
pub proof fn lemma_pose_error_is_the_distance(sample: ObservedSample)
    requires
        small_angles(sample),
        pose_error(sample).finite(),
        pose_error(sample).magnitude() >= 0x10_0000_0000_0000,
    ensures
        ({
            let error = value_64(pose_error(sample));
            let exact = turned(sample, 0) * turned(sample, 0) + turned(sample, 1) * turned(sample, 1) + turned(
                sample,
                2,
            ) * turned(sample, 2);
            &&& error >= 0 as real
            &&& 0x1_0000 as real * abs_of(error * error - exact) <= 1 as real
        }),
{
    let (a, b, c) = (angle_error(sample, 0), angle_error(sample, 1), angle_error(sample, 2));
    lemma_angle_square(sample, 0);
    lemma_angle_square(sample, 1);
    lemma_angle_square(sample, 2);
    let (p, q, r) = (turned(sample, 0), turned(sample, 1), turned(sample, 2));
    let sum = a.times(a).plus(b.times(b)).plus(c.times(c));
    lemma_three_sum(a.times(a), b.times(b), c.times(c), p * p, q * q, r * r);
    assert(pose_error(sample) == sum.root());
    lemma_root_value(sum);
}

/// A fit that stands still has no jitter.
pub proof fn lemma_still_fit_has_no_jitter(samples: Seq<ObservedSample>, fps: Binary64)
    requires
        samples.len() <= 0x100_0000,
        fps.finite(),
        fps.rank() > 0,
        forall|i: int| 0 <= i < samples.len() ==> (#[trigger] samples[i]).expression_channel0.finite(),
        forall|i: int, j: int|
            0 <= i < samples.len() && 0 <= j < samples.len() ==> (#[trigger] samples[i]).expression_channel0
                == (#[trigger] samples[j]).expression_channel0,
        forall|i: int|
            0 < i < samples.len() ==> (#[trigger] sample_gap(samples[i - 1], samples[i], fps)).finite(),
    ensures
        jitter(samples, fps).magnitude() == 0,
{
    let last = samples.len() - 1;
    lemma_still_sum(samples, fps, last);
    lemma_infinity_64();
    lemma_jitter_terms_small(samples, fps, last);
    let terms = jitter_terms(samples, fps, last);
    if terms > 0 {
        lemma_count_value(terms);
    }
}

proof fn lemma_jitter_terms_small(samples: Seq<ObservedSample>, fps: Binary64, n: int)
    ensures
        jitter_terms(samples, fps, n) <= if n <= 0 {
            0
        } else {
            n
        },
    decreases n,
{
    if n > 0 {
        lemma_jitter_terms_small(samples, fps, n - 1);
    }
}

proof fn lemma_still_sum(samples: Seq<ObservedSample>, fps: Binary64, n: int)
    requires
        n < samples.len(),
        forall|i: int| 0 <= i < samples.len() ==> (#[trigger] samples[i]).expression_channel0.finite(),
        forall|i: int, j: int|
            0 <= i < samples.len() && 0 <= j < samples.len() ==> (#[trigger] samples[i]).expression_channel0
                == (#[trigger] samples[j]).expression_channel0,
        forall|i: int|
            0 < i < samples.len() ==> (#[trigger] sample_gap(samples[i - 1], samples[i], fps)).finite(),
    ensures
        jitter_sum(samples, fps, n).magnitude() == 0,
    decreases n,
{
    lemma_infinity_64();
    if n > 0 {
        lemma_still_sum(samples, fps, n - 1);
        let value = samples[n].expression_channel0;
        assert(samples[n - 1].expression_channel0 == samples[n].expression_channel0);
        assert(value.finite());
        crate::arithmetic_laws::lemma_units_of_zero();
        let gap = sample_gap(samples[n - 1], samples[n], fps);
        assert(gap.finite());
        assert(value.minus(value).magnitude() == 0);
        crate::gain_laws::lemma_widened_zero(value.minus(value));
        if has_derivative(samples, fps, n) {
            let slope = derivative(samples, fps, n);
            assert(slope.magnitude() == 0);
            crate::response_laws::lemma_zero_sum(jitter_sum(samples, fps, n - 1), slope.times(slope));
        }
    }
}

/// A head that keeps its pose has no rigid motion, and a face that keeps its expression has
/// no expression motion, whatever the other does.
pub proof fn lemma_stillness_is_no_motion(now: HistoryEntry, before: HistoryEntry)
    requires
        forall|i: int| 0 <= i < now.expression@.len() ==> (#[trigger] now.expression@[i]).finite(),
        forall|i: int| 0 <= i < 3 ==> (#[trigger] now.head_pose@[i]).finite(),
    ensures
        now.expression@ == before.expression@ ==> motions(Some(now), Some(before)).0.magnitude() == 0,
        now.head_pose@ == before.head_pose@ ==> motions(Some(now), Some(before)).1.magnitude() == 0,
        motions(Some(now), None).0.magnitude() == 0,
        motions(None, Some(before)).1.magnitude() == 0,
{
    lemma_infinity_64();
    let dt = seconds_between(before.stamp.captured_at_micros, now.stamp.captured_at_micros);
    if now.expression@ == before.expression@ {
        let list = changes(now.expression@, before.expression@);
        assert forall|i: int| 0 <= i < list.len() implies (#[trigger] list[i]).magnitude() == 0 by {
            lemma_no_change(now.expression@[i]);
        }
        crate::response_laws::lemma_zero_total(list, list.len() as int);
    }
    if now.head_pose@ == before.head_pose@ {
        let list = changes(now.head_pose@, before.head_pose@);
        assert forall|i: int| 0 <= i < list.len() implies (#[trigger] list[i]).magnitude() == 0 by {
            lemma_no_change(now.head_pose@[i]);
        }
        lemma_largest_of_zeros(list, list.len() as int);
    }
}

proof fn lemma_no_change(number: Binary32)
    requires
        number.finite(),
    ensures
        number.minus(number).absolute().widened().magnitude() == 0,
{
    crate::arithmetic_laws::lemma_units_of_zero();
    assert(number.minus(number).magnitude() == 0);
    crate::gain_laws::lemma_widened_zero(number.minus(number).absolute());
}

proof fn lemma_largest_of_zeros(numbers: Seq<Binary64>, n: int)
    requires
        0 <= n <= numbers.len(),
        forall|i: int| 0 <= i < numbers.len() ==> (#[trigger] numbers[i]).magnitude() == 0,
    ensures
        largest_of(numbers, n).magnitude() == 0,
    decreases n,
{
    if n > 0 {
        lemma_largest_of_zeros(numbers, n - 1);
        assert(numbers[n - 1].magnitude() == 0);
    }
}

/// A blink rests at fifteen hundredths and closes by three quarters of its pulse; a static
/// face keeps its mouth half open.
pub proof fn lemma_blink_follows_its_pulse(index: int, frame_count: int, pulse: Binary32)
    requires
        crate::unit_range::is_share(pulse),
    ensures
        ({
            let mouth = mouth_at(SequenceTrajectory::BlinkPulse, index, frame_count, pulse);
            let exact = 15 as real / 100 as real + (3 as real / 4 as real) * value_32(pulse);
            &&& mouth.finite()
            &&& 0x8000 as real * abs_of(value_32(mouth) - exact) <= 1 as real
            &&& 2 as real * value_32(mouth_at(SequenceTrajectory::Static, index, frame_count, pulse)) == 1 as real
        }),
{
    let scale = number(0x3f40_0000);
    lemma2_to64();
    lemma2_to64_rest();
    lemma_constants();
    lemma_constant(0x3f40_0000);
    lemma_constant(0x3e19_999a);
    assert(pow2(24) == 0x100_0000);
    assert(value_32(scale) * 0x100_0000 as real == 0xc0_0000 as real);
    crate::prediction_laws::lemma_unit_value(pulse);
    lemma_scaled_share(scale, pulse, 3 as real / 4 as real, value_32(pulse));
    lemma_raised(
        number(0x3e19_999a),
        scale.times(pulse),
        15 as real / 100 as real,
        (3 as real / 4 as real) * value_32(pulse),
    );
}

/// The pulse is a bell: its logarithm is never above zero, and it falls with the distance of
/// the frame from the middle.
pub proof fn lemma_pulse_is_a_bell(near: int, far: int, frame_count: int)
    requires
        0 <= near < frame_count <= 0x10_0000,
        0 <= far < frame_count,
        bell_distance(near, frame_count).finite(),
        bell_distance(far, frame_count).finite(),
        bell_distance(near, frame_count).magnitude() <= bell_distance(far, frame_count).magnitude(),
        pulse_logarithm(far, frame_count).finite(),
        pulse_logarithm(near, frame_count).finite(),
    ensures
        pulse_logarithm(near, frame_count).rank() <= 0,
        pulse_logarithm(far, frame_count).at_most(pulse_logarithm(near, frame_count)),
        bell_distance(near, frame_count).magnitude() == 0 ==> pulse_logarithm(near, frame_count).magnitude() == 0,
{
    let three = number(0x4040_0000);
    let (a, b) = (bell_distance(near, frame_count), bell_distance(far, frame_count));
    crate::projection_laws::lemma_sized_quotient(a, three);
    crate::projection_laws::lemma_sized_quotient(b, three);
    crate::arithmetic_laws::lemma_quotient_is_monotone(a.absolute(), b.absolute(), three);
    let (x, y) = (a.over(three), b.over(three));
    lemma_square_of_size(x);
    lemma_square_of_size(y);
    crate::prediction_laws::lemma_finite_factor(x, x);
    crate::prediction_laws::lemma_finite_factor(y, y);
    crate::arithmetic_laws::lemma_product_is_plain(x.absolute(), x.absolute());
    crate::arithmetic_laws::lemma_product_is_monotone(x.absolute(), x.absolute(), y.absolute(), y.absolute());
}

/// How far a frame lies from the middle of the pulse.
pub open spec fn bell_distance(index: int, frame_count: int) -> Binary32 {
    Binary32::of_integer(index as nat).minus(pulse_center(frame_count))
}

/// A square does not depend on the sign.
proof fn lemma_square_of_size(number: Binary32)
    ensures
        number.times(number) == number.absolute().times(number.absolute()),
{
}

} // verus!
