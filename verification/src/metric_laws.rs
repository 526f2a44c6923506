//! What the accuracy metrics measure: exact means of what output and teacher differ by.

use vstd::arithmetic::power2::{
    lemma2_to64, lemma2_to64_rest, lemma_pow2_adds, lemma_pow2_pos, pow2,
};
use vstd::prelude::*;

use crate::arithmetic::{lemma_infinity_64, lemma_nearest_of_exact_64, lemma_plus_zero_32};
use crate::arithmetic_laws::{lemma_sum_is_monotone, one};
use crate::arkit::{in_unit_range, ArkitBlendshape};
use crate::binary::{lemma_units_increase, magnitude_units, Binary32, Binary64};
use crate::closeness::{
    abs_of, lemma_difference_parts, lemma_product_near_64, lemma_quotient_near_64, lemma_sum_near_64, lemma_value_32,
    lemma_value_64, value_64,
};
use crate::mean_laws::{
    lemma_count_quotient, lemma_mean_is_close, lemma_moderate_sum_is_finite, lemma_parts_64,
    lemma_running_total_is_close, lemma_tiny_64, lemma_units_of_value, lemma_wide_power, real_mean, real_sum,
    wide_power,
};
use crate::non_tongue_metrics::{
    absolute_cells, absolute_sum, channel_errors, channel_mae, channel_rmse, correlation, deviations,
    difference_error, is_channel_accuracy, is_variant_metrics, magnitudes, neutral_errors, pair_metrics, paired_sum,
    paired_term, products, spread, teacher_values, with_frame_terms, NonTongueVariantMetrics, NEUTRAL_LEVEL_BITS,
    SPREAD_EPSILON_BITS,
};
use crate::prediction_laws::{lemma_abs_of_product, lemma_unit_value};
use crate::rounding::{lemma_nearest_ratio_exists, lemma_nearest_ratio_is_monotone};
use crate::rounding_error::{
    fine_64, half_least_64, lemma_half_least, lemma_quotient, lemma_real_product, lemma_root_error_64, lemma_sizes,
    lemma_widened, size_64, value_32,
};
use crate::unified_ablation::VariantFrame;
use crate::unit_range::lemma_signed_difference;
use crate::weighted_mean::lemma_square_without_sign;

verus! {

/// Every coefficient of the frames lies in its range.
pub open spec fn all_valid(frames: Seq<VariantFrame>) -> bool {
    forall|i: int|
        0 <= i < frames.len() ==> (#[trigger] frames[i]).teacher.valid() && frames[i].output.valid()
}

/// The teacher's value of a channel.
pub open spec fn taught(frame: VariantFrame, c: int) -> real {
    value_32(frame.teacher@[c])
}

/// The output's value of a channel.
pub open spec fn given(frame: VariantFrame, c: int) -> real {
    value_32(frame.output@[c])
}

/// How far the output is above the teacher.
pub open spec fn excess(frame: VariantFrame, c: int) -> real {
    given(frame, c) - taught(frame, c)
}

/// What a metric may be off by: one part in a million.
pub open spec fn is_about(number: Binary64, exact: real) -> bool {
    number.finite() && 0x10_0000 as real * abs_of(value_64(number) - exact) <= 1 as real
}

/// Widening keeps the value.
pub proof fn lemma_widened_value(number: Binary32)
    requires
        number.finite(),
    ensures
        number.widened().finite(),
        value_64(number.widened()) == value_32(number),
{
    lemma_widened(number);
    lemma_pow2_adds(149, 925);
    lemma_pow2_pos(149);
    lemma_pow2_pos(925);
    crate::arithmetic::lemma_infinity_64();
    let u = number.units();
    let (t, k, w) = (pow2(149) as real, pow2(925) as real, pow2(1074) as real);
    lemma_real_product(u, pow2(925) as int);
    lemma_real_product(pow2(149) as int, pow2(925) as int);
    assert((u as real * k) / (t * k) == u as real / t) by (nonlinear_arith)
        requires
            t > 0 as real,
            k > 0 as real,
    ;
}

/// Numbers of one size keep one size when they are widened.
pub proof fn lemma_widened_magnitude(left: Binary32, right: Binary32)
    requires
        left.finite(),
        right.finite(),
        left.magnitude() == right.magnitude(),
    ensures
        left.widened().magnitude() == right.widened().magnitude(),
        left.magnitude() == 0 ==> left.widened().magnitude() == 0,
{
    lemma_widened(left);
    lemma_widened(right);
    crate::arithmetic::lemma_infinity_64();
    let (a, b) = (left.widened().magnitude(), right.widened().magnitude());
    if a < b {
        lemma_units_increase(a as nat, b as nat, 52);
    }
    if b < a {
        lemma_units_increase(b as nat, a as nat, 52);
    }
    if left.magnitude() == 0 {
        crate::gain_laws::lemma_widened_zero(left);
    }
}

/// The difference of two shares.
pub proof fn lemma_difference_term(a: Binary32, b: Binary32)
    requires
        a.magnitude() <= 0x3f80_0000,
        b.magnitude() <= 0x3f80_0000,
    ensures
        a.minus(b).finite(),
        a.minus(b).magnitude() <= 0x4000_0000,
        abs_of(value_32(a.minus(b))) <= 3 as real,
        0x40_0000 as real * abs_of(value_32(a.minus(b)) - (value_32(a) - value_32(b))) <= 1 as real,
{
    lemma_signed_difference(b, a);
    lemma_difference_parts(a, b);
    lemma_signed_value(a);
    lemma_signed_value(b);
}

/// Values of the signed range.
pub proof fn lemma_signed_value(number: Binary32)
    requires
        number.magnitude() <= 0x3f80_0000,
    ensures
        abs_of(value_32(number)) <= 1 as real,
{
    lemma_unit_value(number.absolute());
    lemma_value_32(number);
    lemma_value_32(number.absolute());
}

/// The absolute difference of two shares, widened.
pub proof fn lemma_distance_term(a: Binary32, b: Binary32)
    requires
        a.magnitude() <= 0x3f80_0000,
        b.magnitude() <= 0x3f80_0000,
    ensures
        ({
            let term = a.minus(b).absolute().widened();
            &&& term.finite()
            &&& abs_of(value_64(term)) <= 8 as real
            &&& 0x40_0000 as real * abs_of(value_64(term) - abs_of(value_32(a) - value_32(b))) <= 1 as real
        }),
{
    let difference = a.minus(b);
    lemma_difference_term(a, b);
    lemma_widened_value(difference.absolute());
    lemma_value_32(difference);
    lemma_value_32(difference.absolute());
}

/// The widened error of a channel.
proof fn lemma_error_term(frame: VariantFrame, c: int)
    requires
        frame.teacher.valid(),
        frame.output.valid(),
        0 <= c < 52,
    ensures
        ({
            let error = frame.output@[c].widened().minus(frame.teacher@[c].widened());
            &&& error.finite()
            &&& abs_of(value_64(error)) <= 2 as real
            &&& 0x8_0000_0000_0000 as real * abs_of(value_64(error) - excess(frame, c)) <= 1 as real
            &&& error.absolute().finite()
            &&& value_64(error.absolute()) == abs_of(value_64(error))
            &&& -1 as real <= excess(frame, c) <= 1 as real
        }),
{
    let (o, t) = (frame.output@[c], frame.teacher@[c]);
    assert(in_unit_range(o) && in_unit_range(t));
    lemma_unit_value(o);
    lemma_unit_value(t);
    lemma_widened_value(o);
    lemma_widened_value(t);
    crate::arithmetic::lemma_infinity_64();
    let other = t.widened().negated();
    lemma_value_64(t.widened());
    lemma_value_64(other);
    assert(value_64(other) == -value_64(t.widened()));
    lemma_moderate_sum_is_finite(o.widened(), other);
    lemma_sum_near_64(o.widened(), other);
    let error = o.widened().plus(other);
    lemma_parts_64(abs_of(value_64(error) - excess(frame, c)), abs_of(value_64(error)));
    lemma_value_64(error);
    lemma_value_64(error.absolute());
}

/// The mean absolute error of a channel is the mean distance of output and teacher.
pub proof fn lemma_channel_error_is_the_mean_distance(frames: Seq<VariantFrame>, c: int)
    requires
        all_valid(frames),
        0 < frames.len() <= 0x100_0000,
        0 <= c < 51,
    ensures
        is_about(
            channel_mae(frames, c),
            real_mean(|i: int| abs_of(excess(frames[i], c)), frames.len() as int),
        ),
        abs_of(value_64(channel_mae(frames, c))) <= 8 as real,
{
    let numbers = magnitudes(channel_errors(frames, c));
    let values = |i: int| abs_of(excess(frames[i], c));
    let slack = 1 as real / 0x200_0000 as real;
    assert forall|i: int| 0 <= i < numbers.len() implies (#[trigger] numbers[i]).finite() && abs_of(
        value_64(numbers[i]),
    ) <= 8 as real && abs_of(value_64(numbers[i]) - values(i)) <= slack by {
        assert(frames[i].teacher.valid());
        lemma_error_term(frames[i], c);
    }
    lemma_mean_is_close(numbers, values, slack);
    assert forall|i: int| 0 <= i < frames.len() implies -(1 as real) <= #[trigger] values(i) <= 1 as real by {
        assert(frames[i].teacher.valid());
        lemma_error_term(frames[i], c);
    }
    lemma_mean_is_bounded(values, frames.len() as int, 1 as real);
}

/// A sum of values of a range.
pub proof fn lemma_sum_is_bounded(values: spec_fn(int) -> real, n: int, most: real)
    requires
        0 <= n,
        forall|i: int| 0 <= i < n ==> -most <= #[trigger] values(i) <= most,
    ensures
        -(most * n as real) <= real_sum(values, n) <= most * n as real,
    decreases n,
{
    if n > 0 {
        lemma_sum_is_bounded(values, n - 1, most);
        assert(most * n as real == most * (n - 1) as real + most) by (nonlinear_arith)
            requires
                n as real == (n - 1) as real + 1 as real,
        ;
    } else {
        assert(most * 0 as real == 0 as real) by (nonlinear_arith);
    }
}

/// A mean of values of a range lies in it.
proof fn lemma_mean_is_bounded(values: spec_fn(int) -> real, n: int, most: real)
    requires
        0 < n,
        forall|i: int| 0 <= i < n ==> -most <= #[trigger] values(i) <= most,
    ensures
        -most <= real_mean(values, n) <= most,
{
    lemma_sum_is_bounded(values, n, most);
    let s = real_sum(values, n);
    let k = n as real;
    let m = s / k;
    lemma_quotient(s, k);
    assert(-most <= m <= most) by (nonlinear_arith)
        requires
            m * k == s,
            -(most * k) <= s <= most * k,
            k > 0 as real,
    ;
}

/// The macro error is the mean of the channels' mean distances.
pub proof fn lemma_macro_error_is_the_mean_of_channels(
    frames: Seq<VariantFrame>,
    pairs: Seq<(ArkitBlendshape, ArkitBlendshape)>,
    metrics: NonTongueVariantMetrics,
)
    requires
        all_valid(frames),
        0 < frames.len() <= 0x100_0000,
        is_variant_metrics(frames, pairs, metrics),
    ensures
        metrics.macro_mae.finite(),
        0x8_0000 as real * abs_of(
            value_64(metrics.macro_mae) - real_mean(
                |c: int| real_mean(|i: int| abs_of(excess(frames[i], c)), frames.len() as int),
                51,
            ),
        ) <= 1 as real,
        forall|c: int|
            0 <= c < 51 ==> (#[trigger] metrics.channels@[c]).channel.position() == c && is_about(
                metrics.channels@[c].mae,
                real_mean(|i: int| abs_of(excess(frames[i], c)), frames.len() as int),
            ),
{
    let numbers = Seq::new(51, |c: int| channel_mae(frames, c));
    let values = |c: int| real_mean(|i: int| abs_of(excess(frames[i], c)), frames.len() as int);
    let slack = 1 as real / 0x10_0000 as real;
    assert forall|c: int| 0 <= c < numbers.len() implies (#[trigger] numbers[c]).finite() && abs_of(
        value_64(numbers[c]),
    ) <= 8 as real && abs_of(value_64(numbers[c]) - values(c)) <= slack by {
        lemma_channel_error_is_the_mean_distance(frames, c);
    }
    lemma_mean_is_close(numbers, values, slack);
    assert forall|c: int| 0 <= c < 51 implies (#[trigger] metrics.channels@[c]).channel.position() == c
        && is_about(
        metrics.channels@[c].mae,
        real_mean(|i: int| abs_of(excess(frames[i], c)), frames.len() as int),
    ) by {
        assert(is_channel_accuracy(frames, c, metrics.channels@[c]));
        lemma_channel_error_is_the_mean_distance(frames, c);
    }
}

/// The frames of the first `n` whose teacher is neutral in a channel.
pub open spec fn neutral_frames(frames: Seq<VariantFrame>, c: int, n: int) -> Seq<int>
    decreases n,
{
    if n <= 0 {
        Seq::empty()
    } else if frames[n - 1].teacher@[c].widened().at_most(Binary64 { bits: NEUTRAL_LEVEL_BITS }) {
        neutral_frames(frames, c, n - 1).push(n - 1)
    } else {
        neutral_frames(frames, c, n - 1)
    }
}

proof fn lemma_neutral_errors(frames: Seq<VariantFrame>, c: int, n: int)
    requires
        0 <= n <= frames.len(),
    ensures
        ({
            let listed = neutral_frames(frames, c, n);
            let errors = neutral_errors(teacher_values(frames, c), channel_errors(frames, c), n);
            &&& listed.len() == errors.len() <= n
            &&& forall|k: int|
                0 <= k < listed.len() ==> 0 <= #[trigger] listed[k] < n && errors[k] == channel_errors(
                    frames,
                    c,
                )[listed[k]]
        }),
    decreases n,
{
    if n > 0 {
        lemma_neutral_errors(frames, c, n - 1);
    }
}

/// The neutral bias of a channel is the mean of what the output is above the teacher,
/// over the frames whose teacher is neutral; there is none where no frame is.
pub proof fn lemma_neutral_bias_is_the_mean_excess(
    frames: Seq<VariantFrame>,
    pairs: Seq<(ArkitBlendshape, ArkitBlendshape)>,
    metrics: NonTongueVariantMetrics,
    c: int,
)
    requires
        all_valid(frames),
        0 < frames.len() <= 0x100_0000,
        is_variant_metrics(frames, pairs, metrics),
        0 <= c < 51,
    ensures
        ({
            let listed = neutral_frames(frames, c, frames.len() as int);
            match metrics.channels@[c].neutral_bias {
                None => listed.len() == 0,
                Some(bias) => listed.len() > 0 && is_about(
                    bias,
                    real_mean(|k: int| excess(frames[listed[k]], c), listed.len() as int),
                ),
            }
        }),
{
    let n = frames.len() as int;
    let listed = neutral_frames(frames, c, n);
    let numbers = neutral_errors(teacher_values(frames, c), channel_errors(frames, c), n);
    let values = |k: int| excess(frames[listed[k]], c);
    let slack = 1 as real / 0x200_0000 as real;
    assert(is_channel_accuracy(frames, c, metrics.channels@[c]));
    lemma_neutral_errors(frames, c, n);
    if listed.len() > 0 {
        assert forall|k: int| 0 <= k < numbers.len() implies (#[trigger] numbers[k]).finite() && abs_of(
            value_64(numbers[k]),
        ) <= 8 as real && abs_of(value_64(numbers[k]) - values(k)) <= slack by {
            let i = listed[k];
            assert(frames[i].teacher.valid());
            lemma_error_term(frames[i], c);
        }
        lemma_mean_is_close(numbers, values, slack);
    }
}

/// The difference of two coefficients is a number of the signed range.
pub proof fn lemma_unit_difference(a: Binary32, b: Binary32)
    requires
        in_unit_range(a),
        in_unit_range(b),
    ensures
        a.minus(b).magnitude() <= 0x3f80_0000,
{
    let zero = Binary32 { bits: 0 };
    lemma_signed_difference(b, a);
    lemma_sum_is_monotone(a, b.negated(), one(), zero);
    lemma_sum_is_monotone(zero, one().negated(), a, b.negated());
    lemma_plus_zero_32(one(), zero);
    lemma_plus_zero_32(one().negated(), zero);
    lemma_sum_commutes_with_zero();
}

proof fn lemma_sum_commutes_with_zero()
    ensures
        (Binary32 { bits: 0 }).plus(one().negated()) == one().negated().plus(Binary32 { bits: 0 }),
{
}

/// The difference error of a pair is the mean distance of the output's and the teacher's
/// left-right differences.
pub proof fn lemma_pair_error_is_the_mean_distance(
    frames: Seq<VariantFrame>,
    pair: (ArkitBlendshape, ArkitBlendshape),
)
    requires
        all_valid(frames),
        0 < frames.len() <= 0x100_0000,
    ensures
        ({
            let (l, r) = (pair.0.position(), pair.1.position());
            let metrics = pair_metrics(frames, pair);
            &&& metrics.left == pair.0
            &&& metrics.right == pair.1
            &&& is_about(
                metrics.difference_mae,
                real_mean(
                    |i: int|
                        abs_of(
                            (given(frames[i], l) - given(frames[i], r)) - (taught(frames[i], l) - taught(
                                frames[i],
                                r,
                            )),
                        ),
                    frames.len() as int,
                ),
            )
        }),
{
    let (l, r) = (pair.0.position(), pair.1.position());
    let numbers = Seq::new(frames.len(), |i: int| difference_error(frames[i], pair.0, pair.1));
    let values = |i: int|
        abs_of(
            (given(frames[i], l) - given(frames[i], r)) - (taught(frames[i], l) - taught(frames[i], r)),
        );
    let slack = 3 as real / 0x40_0000 as real;
    pair.0.lemma_positions_are_canonical(pair.1);
    pair.1.lemma_positions_are_canonical(pair.0);
    assert forall|i: int| 0 <= i < numbers.len() implies (#[trigger] numbers[i]).finite() && abs_of(
        value_64(numbers[i]),
    ) <= 8 as real && abs_of(value_64(numbers[i]) - values(i)) <= slack by {
        let frame = frames[i];
        assert(frame.teacher.valid() && frame.output.valid());
        assert(in_unit_range(frame.teacher@[l]) && in_unit_range(frame.teacher@[r]));
        assert(in_unit_range(frame.output@[l]) && in_unit_range(frame.output@[r]));
        let teacher = frame.teacher@[l].minus(frame.teacher@[r]);
        let output = frame.output@[l].minus(frame.output@[r]);
        lemma_unit_difference(frame.teacher@[l], frame.teacher@[r]);
        lemma_unit_difference(frame.output@[l], frame.output@[r]);
        lemma_difference_term(frame.teacher@[l], frame.teacher@[r]);
        lemma_difference_term(frame.output@[l], frame.output@[r]);
        lemma_distance_term(output, teacher);
    }
    lemma_mean_is_close(numbers, values, slack);
}

/// How much farther from the teacher the candidate is than the reference.
pub open spec fn extra_distance(reference: VariantFrame, candidate: VariantFrame, c: int) -> real {
    abs_of(given(candidate, c) - taught(reference, c)) - abs_of(given(reference, c) - taught(reference, c))
}

/// The sum of extra distances over the channels of the first `n` frames.
pub open spec fn extra_sum(reference: Seq<VariantFrame>, candidate: Seq<VariantFrame>, n: int) -> real {
    real_sum(
        |i: int| real_sum(|c: int| extra_distance(reference[i], candidate[i], c), 51),
        n,
    )
}

proof fn lemma_paired_term(reference: VariantFrame, candidate: VariantFrame, c: int)
    requires
        reference.teacher.valid(),
        reference.output.valid(),
        candidate.output.valid(),
        0 <= c < 51,
    ensures
        paired_term(reference, candidate, c).finite(),
        abs_of(value_64(paired_term(reference, candidate, c))) <= 8 as real,
        0x10_0000 as real * abs_of(
            value_64(paired_term(reference, candidate, c)) - extra_distance(reference, candidate, c),
        ) <= 1 as real,
{
    let t = reference.teacher@[c];
    let (far, near) = (candidate.output@[c].minus(t), reference.output@[c].minus(t));
    assert(in_unit_range(t) && in_unit_range(candidate.output@[c]) && in_unit_range(reference.output@[c]));
    lemma_unit_difference(candidate.output@[c], t);
    lemma_unit_difference(reference.output@[c], t);
    lemma_difference_term(candidate.output@[c], t);
    lemma_difference_term(reference.output@[c], t);
    lemma_difference_term(far.absolute(), near.absolute());
    lemma_widened_value(far.absolute().minus(near.absolute()));
    lemma_value_32(far);
    lemma_value_32(near);
    lemma_value_32(far.absolute());
    lemma_value_32(near.absolute());
}

/// One more number on a sum.
proof fn lemma_one_more(before: Binary64, number: Binary64, exact: real, value: real, k: real)
    requires
        before.finite(),
        number.finite(),
        0 as real <= k <= 0x100_0000 as real,
        abs_of(value_64(before)) <= 9 as real * k,
        abs_of(value_64(number)) <= 8 as real,
        0x8_0000 as real * abs_of(value_64(before) - exact) <= k,
        0x10_0000 as real * abs_of(value_64(number) - value) <= 1 as real,
    ensures
        before.plus(number).finite(),
        abs_of(value_64(before.plus(number))) <= 9 as real * (k + 1 as real),
        0x8_0000 as real * abs_of(value_64(before.plus(number)) - (exact + value)) <= k + 1 as real,
{
    lemma_moderate_sum_is_finite(before, number);
    lemma_sum_near_64(before, number);
    let (a, b, s) = (value_64(before), value_64(number), value_64(before.plus(number)));
    lemma_parts_64(abs_of(s - (a + b)), abs_of(s));
}

proof fn lemma_frame_terms(
    start: Binary64,
    exact: real,
    k: real,
    reference: VariantFrame,
    candidate: VariantFrame,
    c: int,
)
    requires
        reference.teacher.valid(),
        reference.output.valid(),
        candidate.output.valid(),
        0 <= c <= 51,
        start.finite(),
        0 as real <= k,
        k + 51 as real <= 0x100_0000 as real,
        abs_of(value_64(start)) <= 9 as real * k,
        0x8_0000 as real * abs_of(value_64(start) - exact) <= k,
    ensures
        ({
            let sum = with_frame_terms(start, reference, candidate, c);
            let added = real_sum(|c: int| extra_distance(reference, candidate, c), c);
            &&& sum.finite()
            &&& abs_of(value_64(sum)) <= 9 as real * (k + c as real)
            &&& 0x8_0000 as real * abs_of(value_64(sum) - (exact + added)) <= k + c as real
        }),
    decreases c,
{
    if c > 0 {
        lemma_frame_terms(start, exact, k, reference, candidate, c - 1);
        lemma_paired_term(reference, candidate, c - 1);
        let added = real_sum(|c: int| extra_distance(reference, candidate, c), c - 1);
        lemma_one_more(
            with_frame_terms(start, reference, candidate, c - 1),
            paired_term(reference, candidate, c - 1),
            exact + added,
            extra_distance(reference, candidate, c - 1),
            k + (c - 1) as real,
        );
    }
}

proof fn lemma_paired_sum(reference: Seq<VariantFrame>, candidate: Seq<VariantFrame>, n: int)
    requires
        reference.len() == candidate.len(),
        all_valid(reference),
        all_valid(candidate),
        0 <= n <= reference.len(),
        n * 51 <= 0x100_0000,
    ensures
        ({
            let sum = paired_sum(reference, candidate, n);
            &&& sum.finite()
            &&& abs_of(value_64(sum)) <= 9 as real * (n * 51) as real
            &&& 0x8_0000 as real * abs_of(value_64(sum) - extra_sum(reference, candidate, n)) <= (n * 51) as real
        }),
    decreases n,
{
    if n > 0 {
        lemma_paired_sum(reference, candidate, n - 1);
        assert(reference[n - 1].teacher.valid());
        assert(candidate[n - 1].teacher.valid());
        lemma_frame_terms(
            paired_sum(reference, candidate, n - 1),
            extra_sum(reference, candidate, n - 1),
            ((n - 1) * 51) as real,
            reference[n - 1],
            candidate[n - 1],
            51,
        );
    } else {
        let zero = Binary64 { bits: 0 };
        crate::arithmetic::lemma_infinity_64();
        lemma_value_64(zero);
        lemma_sizes(Binary32 { bits: 0 }, zero);
    }
}

/// The paired delta is the mean of how much farther from the teacher the candidate is
/// than the reference, over all frames and channels.
pub proof fn lemma_paired_delta_is_the_mean_extra_distance(
    reference: Seq<VariantFrame>,
    candidate: Seq<VariantFrame>,
    delta: Binary64,
)
    requires
        reference.len() == candidate.len(),
        all_valid(reference),
        all_valid(candidate),
        0 < reference.len(),
        reference.len() * 51 <= 0x100_0000,
        delta == paired_sum(reference, candidate, reference.len() as int).over(
            Binary64::of_integer((reference.len() * 51) as nat),
        ),
    ensures
        delta.finite(),
        0x4_0000 as real * abs_of(
            value_64(delta) - extra_sum(reference, candidate, reference.len() as int) / (reference.len() * 51) as real,
        ) <= 1 as real,
{
    let n = (reference.len() * 51) as nat;
    lemma_paired_sum(reference, candidate, reference.len() as int);
    let sum = paired_sum(reference, candidate, reference.len() as int);
    let exact = extra_sum(reference, candidate, reference.len() as int);
    let slack = 1 as real / 0x8_0000 as real;
    assert(0x200_0000 as real * (abs_of(value_64(sum) - exact) - slack * n as real) <= n as real);
    lemma_count_quotient(sum, exact, slack, n);
}

/// The square of a widened error.
proof fn lemma_square_term(frame: VariantFrame, c: int)
    requires
        frame.teacher.valid(),
        frame.output.valid(),
        0 <= c < 52,
    ensures
        ({
            let error = frame.output@[c].widened().minus(frame.teacher@[c].widened());
            let square = error.times(error);
            &&& square.finite()
            &&& !square.negative()
            &&& abs_of(value_64(square)) <= 8 as real
            &&& 0x200_0000 as real * abs_of(value_64(square) - excess(frame, c) * excess(frame, c)) <= 1 as real
        }),
{
    let error = frame.output@[c].widened().minus(frame.teacher@[c].widened());
    lemma_error_term(frame, c);
    lemma_moderate_product_is_finite(error, error);
    lemma_product_near_64(error, error);
    lemma_tiny_64();
    lemma_square_without_sign(error);
    let (x, y) = (value_64(error), excess(frame, c));
    let p = value_64(error.times(error));
    lemma_parts_64(abs_of(p - x * x) - half_least_64(), abs_of(p));
    let d = x - y;
    let s = x + y;
    assert(x * x - y * y == d * s) by (nonlinear_arith)
        requires
            d == x - y,
            s == x + y,
    ;
    lemma_abs_of_product(d, s);
    let (a, b) = (abs_of(d), abs_of(s));
    assert(a * b <= 3 as real * a) by (nonlinear_arith)
        requires
            b <= 3 as real,
            a >= 0 as real,
    ;
    lemma_abs_of_product(x, x);
    let z = abs_of(x);
    assert(z * z <= 4 as real) by (nonlinear_arith)
        requires
            0 as real <= z <= 2 as real,
    ;
}

/// The mean of squares behind the root mean square error.
proof fn lemma_mean_square(frames: Seq<VariantFrame>, c: int)
    requires
        all_valid(frames),
        0 < frames.len() <= 0x100_0000,
        0 <= c < 51,
    ensures
        ({
            let mean = crate::non_tongue_metrics::square_sum(frames, c).over(Binary64::of_integer(frames.len()));
            &&& mean.finite()
            &&& abs_of(value_64(mean)) <= 10 as real
            &&& 0x40_0000 as real * abs_of(
                value_64(mean) - real_mean(
                    |i: int| excess(frames[i], c) * excess(frames[i], c),
                    frames.len() as int,
                ),
            ) <= 1 as real
        }),
{
    let errors = channel_errors(frames, c);
    let numbers = products(errors, errors);
    let values = |i: int| excess(frames[i], c) * excess(frames[i], c);
    let slack = 1 as real / 0x200_0000 as real;
    assert forall|i: int| 0 <= i < numbers.len() implies (#[trigger] numbers[i]).finite() && abs_of(
        value_64(numbers[i]),
    ) <= 8 as real && abs_of(value_64(numbers[i]) - values(i)) <= slack by {
        assert(frames[i].teacher.valid());
        lemma_square_term(frames[i], c);
    }
    lemma_mean_is_close(numbers, values, slack);
}

/// The square of the root mean square error of a channel is the mean of the squared
/// distances of output and teacher, wherever the root is not below the normal numbers.
pub proof fn lemma_root_error_squares_to_the_mean_square(frames: Seq<VariantFrame>, c: int)
    requires
        all_valid(frames),
        0 < frames.len() <= 0x100_0000,
        0 <= c < 51,
        channel_rmse(frames, c).finite(),
        channel_rmse(frames, c).magnitude() >= 0x10_0000_0000_0000,
    ensures
        ({
            let root = value_64(channel_rmse(frames, c));
            let exact = real_mean(
                |i: int| excess(frames[i], c) * excess(frames[i], c),
                frames.len() as int,
            );
            &&& root >= 0 as real
            &&& 0x10_0000 as real * abs_of(root * root - exact) <= 1 as real
        }),
{
    let mean = crate::non_tongue_metrics::square_sum(frames, c).over(Binary64::of_integer(frames.len()));
    lemma_mean_square(frames, c);
    lemma_root_value(mean);
}

/// A root, squared.
pub proof fn lemma_root_value(number: Binary64)
    requires
        number.finite(),
        abs_of(value_64(number)) <= 0x400 as real,
        number.root().finite(),
        number.root().magnitude() >= 0x10_0000_0000_0000,
    ensures
        ({
            let root = value_64(number.root());
            &&& root >= 0 as real
            &&& 0x100_0000 as real * abs_of(root * root - value_64(number)) <= 1 as real
        }),
{
    assert(number.rank() > 0) by {
        crate::arithmetic::lemma_infinity_64();
        if number.magnitude() == 0 {
            assert(number.root().magnitude() == 0);
        }
    }
    lemma_root_error_64(number);
    lemma_value_64(number);
    lemma_value_64(number.root());
    let r = size_64(number.root());
    let m = size_64(number);
    let f = fine_64();
    lemma_quotient(1 as real, 0x20_0000_0000_0000 as real);
    let e = f * r;
    assert(0x20_0000_0000_0000 as real * e == r) by (nonlinear_arith)
        requires
            e == f * r,
            f * 0x20_0000_0000_0000 as real == 1 as real,
    ;
    let (low, high) = (r - e, r + e);
    let square = r * r;
    assert(low * low == square - 2 as real * (r * e) + e * e && high * high == square + 2 as real * (r * e)
        + e * e) by (nonlinear_arith)
        requires
            low == r - e,
            high == r + e,
            square == r * r,
    ;
    assert(0x20_0000_0000_0000 as real * (r * e) == square) by (nonlinear_arith)
        requires
            0x20_0000_0000_0000 as real * e == r,
            square == r * r,
    ;
    assert(0 as real <= e * e <= r * e) by (nonlinear_arith)
        requires
            0 as real <= e <= r,
    ;
}

/// A product of moderate numbers is finite.
pub proof fn lemma_moderate_product_is_finite(left: Binary64, right: Binary64)
    requires
        left.finite(),
        right.finite(),
        abs_of(value_64(left)) <= 0x4000_0000 as real,
        abs_of(value_64(right)) <= 0x4000_0000 as real,
    ensures
        left.times(right).finite(),
{
    lemma2_to64();
    lemma2_to64_rest();
    lemma_infinity_64();
    lemma_wide_power(60);
    lemma_pow2_adds(30, 1074);
    lemma_pow2_adds(1104, 1104);
    lemma_pow2_adds(1134, 1074);
    lemma_pow2_pos(1074);
    lemma_units_of_value(left, 0x4000_0000);
    lemma_units_of_value(right, 0x4000_0000);
    let a = magnitude_units(left.magnitude() as nat, 52);
    let b = magnitude_units(right.magnitude() as nat, 52);
    let unit = pow2(1074);
    assert(a <= pow2(1104) && b <= pow2(1104));
    assert(a * b <= pow2(1104) * pow2(1104)) by (nonlinear_arith)
        requires
            a <= pow2(1104),
            b <= pow2(1104),
    ;
    lemma_nearest_of_exact_64(wide_power(60).magnitude() as nat, unit);
    lemma_nearest_ratio_is_monotone(a * b, pow2(1134) * unit, unit, 52, 2047);
    lemma_nearest_ratio_exists(a * b, unit, 52, 2047);
}

/// The sum of distances over all frames of the first `n` channels.
pub open spec fn distance_sum(frames: Seq<VariantFrame>, n: int) -> real {
    real_sum(
        |c: int| real_sum(|i: int| abs_of(excess(frames[i], c)), frames.len() as int),
        n,
    )
}

proof fn lemma_absolute_cells(frames: Seq<VariantFrame>, n: int)
    requires
        all_valid(frames),
        0 < frames.len(),
        frames.len() * 51 <= 0x100_0000,
        0 <= n <= 51,
    ensures
        ({
            let sum = absolute_cells(frames, n);
            let k = (frames.len() * n) as real;
            &&& sum.finite()
            &&& abs_of(value_64(sum)) <= 2 as real * k
            &&& 0x40_0000 as real * abs_of(value_64(sum) - distance_sum(frames, n)) <= k
        }),
    decreases n,
{
    if n > 0 {
        lemma_absolute_cells(frames, n - 1);
        let c = n - 1;
        let numbers = magnitudes(channel_errors(frames, c));
        let values = |i: int| abs_of(excess(frames[i], c));
        let slack = 1 as real / 0x200_0000 as real;
        assert forall|i: int| 0 <= i < numbers.len() implies (#[trigger] numbers[i]).finite() && abs_of(
            value_64(numbers[i]),
        ) <= 8 as real && abs_of(value_64(numbers[i]) - values(i)) <= slack by {
            assert(frames[i].teacher.valid());
            lemma_error_term(frames[i], c);
        }
        let len = frames.len() as int;
        lemma_running_total_is_close(numbers, values, slack, len);
        let before = absolute_cells(frames, n - 1);
        let number = absolute_sum(frames, c);
        assert(len * n == len * (n - 1) + len) by (nonlinear_arith);
        assert(len * n <= len * 51) by (nonlinear_arith)
            requires
                n <= 51,
                len >= 0,
        ;
        lemma_moderate_sum_is_finite(before, number);
        lemma_sum_near_64(before, number);
        let (a, b, s) = (value_64(before), value_64(number), value_64(before.plus(number)));
        lemma_parts_64(abs_of(s - (a + b)), abs_of(s));
        assert(slack * len as real * 0x200_0000 as real == len as real) by (nonlinear_arith)
            requires
                slack * 0x200_0000 as real == 1 as real,
        ;
        assert(len * (n - 1) <= 50 * len) by (nonlinear_arith)
            requires
                n <= 51,
                len >= 0,
        ;
        assert forall|i: int| 0 <= i < len implies -(1 as real) <= #[trigger] values(i) <= 1 as real by {
            assert(frames[i].teacher.valid());
            lemma_error_term(frames[i], c);
        }
        lemma_sum_is_bounded(values, len, 1 as real);
        assert((1 as real) * len as real == len as real) by (nonlinear_arith);
    } else {
        let zero = Binary64 { bits: 0 };
        crate::arithmetic::lemma_infinity_64();
        lemma_value_64(zero);
        lemma_sizes(Binary32 { bits: 0 }, zero);
        assert(frames.len() * 0 == 0) by (nonlinear_arith);
    }
}

/// The micro error is the mean distance over all frames and channels.
pub proof fn lemma_micro_error_is_the_mean_distance(
    frames: Seq<VariantFrame>,
    pairs: Seq<(ArkitBlendshape, ArkitBlendshape)>,
    metrics: NonTongueVariantMetrics,
)
    requires
        all_valid(frames),
        0 < frames.len(),
        frames.len() * 51 <= 0x100_0000,
        is_variant_metrics(frames, pairs, metrics),
    ensures
        is_about(metrics.micro_mae, distance_sum(frames, 51) / (frames.len() * 51) as real),
{
    let n = (frames.len() * 51) as nat;
    let sum = absolute_cells(frames, 51);
    let exact = distance_sum(frames, 51);
    lemma_absolute_cells(frames, 51);
    let slack = 1 as real / 0x40_0000 as real;
    assert(slack * n as real * 0x40_0000 as real == n as real) by (nonlinear_arith)
        requires
            slack * 0x40_0000 as real == 1 as real,
    ;
    lemma_count_quotient(sum, exact, slack, n);
}

/// A correlation does not depend on which of the two lists is the teacher's.
pub proof fn lemma_correlation_is_symmetric(left: Seq<Binary64>, right: Seq<Binary64>)
    requires
        left.len() == right.len(),
    ensures
        correlation(left, right) == correlation(right, left),
{
    let (a, b) = (deviations(left), deviations(right));
    assert(products(a, b) =~= products(b, a)) by {
        assert forall|i: int| 0 <= i < a.len() implies #[trigger] a[i].times(b[i]) == b[i].times(a[i]) by {
            lemma_wide_product_commutes(a[i], b[i]);
        }
    }
    lemma_wide_product_commutes(
        spread(left),
        spread(right),
    );
}

/// The order of the factors of a product does not matter.
pub proof fn lemma_wide_product_commutes(left: Binary64, right: Binary64)
    ensures
        left.times(right) == right.times(left),
{
    let a = magnitude_units(left.magnitude() as nat, 52);
    let b = magnitude_units(right.magnitude() as nat, 52);
    assert(a * b == b * a) by (nonlinear_arith);
}

/// A list with variance correlates fully with itself, up to roundings.
pub proof fn lemma_list_correlates_with_itself(values: Seq<Binary64>)
    requires
        correlation(values, values) is Some,
        spread(values).finite(),
        value_64(spread(values)) <= 0x4000_0000 as real,
        spread(values).times(spread(values)).root().finite(),
        spread(values).times(spread(values)).root().magnitude() >= 0x10_0000_0000_0000,
    ensures
        correlation(values, values)->0.finite(),
        0x100_0000 as real * abs_of(value_64(correlation(values, values)->0) - 1 as real) <= 1 as real,
{
    let s = spread(values);
    let square = s.times(s);
    let root = square.root();
    let least = wide_power(-52);
    lemma_infinity_64();
    lemma2_to64();
    lemma2_to64_rest();
    lemma_wide_power(-52);
    assert(least == (Binary64 { bits: SPREAD_EPSILON_BITS }));
    assert(!s.negative() && s.magnitude() > least.magnitude());
    lemma_value_64(s);
    lemma_value_64(square);
    lemma_value_64(root);
    lemma_units_increase(least.magnitude() as nat, s.magnitude() as nat, 52);
    lemma_moderate_product_is_finite(s, s);
    lemma_product_near_64(s, s);
    lemma_tiny_64();
    let x = value_64(s);
    let h = half_least_64();
    lemma_least_spread(s);
    let p = value_64(square);
    lemma_parts_64(abs_of(p - x * x) - h, abs_of(p));
    assert(square.rank() > 0) by {
        if square.magnitude() == 0 {
            assert(root.magnitude() == 0);
        }
    }
    lemma_root_error_64(square);
    let r = size_64(root);
    let f = fine_64();
    lemma_quotient(1 as real, 0x20_0000_0000_0000 as real);
    let e = f * r;
    assert(0x20_0000_0000_0000 as real * e == r) by (nonlinear_arith)
        requires
            e == f * r,
            f * 0x20_0000_0000_0000 as real == 1 as real,
    ;
    lemma_root_bracket(r, e, p);
    // Both squares agree, so the numbers do.
    let (xx, rr) = (x * x, r * r);
    assert(0x1_0000_0000 as real * abs_of(xx - rr) <= rr);
    lemma_equal_squares(x, r);
    lemma_quotient_is_about_one(s, root);
}

/// What lies between two close squares.
proof fn lemma_root_bracket(r: real, e: real, p: real)
    requires
        r >= 0 as real,
        0x20_0000_0000_0000 as real * e == r,
        (r - e) * (r - e) <= p,
        p <= (r + e) * (r + e),
    ensures
        0x4_0000_0000 as real * abs_of(p - r * r) <= r * r,
{
    let (low, high) = (r - e, r + e);
    let square = r * r;
    assert(low * low == square - 2 as real * (r * e) + e * e && high * high == square + 2 as real * (r * e)
        + e * e) by (nonlinear_arith)
        requires
            low == r - e,
            high == r + e,
            square == r * r,
    ;
    assert(0x20_0000_0000_0000 as real * (r * e) == square) by (nonlinear_arith)
        requires
            0x20_0000_0000_0000 as real * e == r,
            square == r * r,
    ;
    assert(0 as real <= e * e <= r * e) by (nonlinear_arith)
        requires
            0 as real <= e <= r,
    ;
}

/// Close squares have close roots.
proof fn lemma_equal_squares(x: real, r: real)
    requires
        x > 0 as real,
        r >= 0 as real,
        0x1_0000_0000 as real * abs_of(x * x - r * r) <= r * r,
    ensures
        r > 0 as real,
        0x1_0000_0000 as real * abs_of(x - r) <= r,
{
    assert(x * x > 0 as real) by (nonlinear_arith)
        requires
            x > 0 as real,
    ;
    assert(r > 0 as real) by {
        if r == 0 as real {
            assert(r * r == 0 as real) by (nonlinear_arith)
                requires
                    r == 0 as real,
            ;
        }
    }
    let (d, s) = (x - r, x + r);
    assert(x * x - r * r == d * s) by (nonlinear_arith)
        requires
            d == x - r,
            s == x + r,
    ;
    lemma_abs_of_product(d, s);
    let a = abs_of(d);
    assert(0x1_0000_0000 as real * a <= r) by (nonlinear_arith)
        requires
            0x1_0000_0000 as real * (a * s) <= r * r,
            s >= r,
            r > 0 as real,
            a >= 0 as real,
    ;
}

/// A spread that counts is far above the smallest numbers.
proof fn lemma_least_spread(s: Binary64)
    requires
        s.finite(),
        !s.negative(),
        s.magnitude() > wide_power(-52).magnitude(),
    ensures
        value_64(s) > 0 as real,
        0x1_0000_0000_0000 as real * half_least_64() <= value_64(s) * value_64(s),
{
    lemma2_to64();
    lemma2_to64_rest();
    lemma_infinity_64();
    lemma_wide_power(-52);
    lemma_units_increase(wide_power(-52).magnitude() as nat, s.magnitude() as nat, 52);
    lemma_pow2_adds(52, 1022);
    lemma_pow2_pos(1022);
    lemma_pow2_pos(1074);
    let t = pow2(1074) as real;
    let u = s.units() as real;
    lemma_quotient(u, t);
    let x = value_64(s);
    let c = pow2(1022) as real;
    lemma_real_product(pow2(52) as int, pow2(1022) as int);
    assert(x * 0x10_0000_0000_0000 as real >= 1 as real && x > 0 as real) by (nonlinear_arith)
        requires
            x * t == u,
            u >= c,
            t == 0x10_0000_0000_0000 as real * c,
            c > 0 as real,
    ;
    lemma_half_least();
    lemma_pow2_adds(152, 922);
    lemma_pow2_adds(52, 100);
    lemma_pow2_adds(48, 52);
    lemma_pow2_pos(922);
    let h = half_least_64();
    lemma_tiny_half(h, x);
}

/// Half of the smallest number against a square.
proof fn lemma_tiny_half(h: real, x: real)
    requires
        h == half_least_64(),
        x * 0x10_0000_0000_0000 as real >= 1 as real,
    ensures
        0x1_0000_0000_0000 as real * h <= x * x,
{
    lemma2_to64();
    lemma2_to64_rest();
    lemma_half_least();
    lemma_pow2_adds(52, 52);
    lemma_pow2_adds(48, 104);
    lemma_pow2_adds(152, 922);
    lemma_pow2_pos(922);
    lemma_pow2_pos(152);
    let big = (2 * pow2(1074)) as real;
    let k = pow2(152) as real;
    let rest = pow2(922);
    assert(pow2(152) * rest >= pow2(152)) by (nonlinear_arith)
        requires
            rest >= 1,
    ;
    assert(big >= k);
    assert(h * k <= 1 as real) by (nonlinear_arith)
        requires
            h * big == 1 as real,
            big >= k,
            h > 0 as real,
    ;
    let m = 0x10_0000_0000_0000 as real;
    let n = 0x1_0000_0000_0000 as real;
    lemma_real_product(pow2(52) as int, pow2(52) as int);
    lemma_real_product(pow2(48) as int, pow2(104) as int);
    assert(k == n * (m * m));
    assert(x * x * (m * m) >= 1 as real) by (nonlinear_arith)
        requires
            x * m >= 1 as real,
    ;
    assert(m * m > 0 as real) by (nonlinear_arith)
        requires
            m > 0 as real,
    ;
    let mm = m * m;
    let xx = x * x;
    assert(n * h <= xx) by (nonlinear_arith)
        requires
            h * (n * mm) <= 1 as real,
            xx * mm >= 1 as real,
            mm > 0 as real,
    ;
}

/// A quotient of close numbers is about one.
proof fn lemma_quotient_is_about_one(left: Binary64, right: Binary64)
    requires
        left.finite(),
        right.finite(),
        right.magnitude() > 0,
        value_64(left) > 0 as real,
        value_64(right) > 0 as real,
        0x1_0000_0000 as real * abs_of(value_64(left) - value_64(right)) <= value_64(right),
    ensures
        left.over(right).finite(),
        0x100_0000 as real * abs_of(value_64(left.over(right)) - 1 as real) <= 1 as real,
{
    crate::gain_laws::lemma_share_quotient_is_finite(left, right);
    lemma_quotient_near_64(left, right);
    lemma_tiny_64();
    let (x, y) = (value_64(left), value_64(right));
    let q = x / y;
    lemma_quotient(x, y);
    let off = q - 1 as real;
    assert(off * y == x - y) by (nonlinear_arith)
        requires
            q * y == x,
            off == q - 1 as real,
    ;
    lemma_abs_of_product(off, y);
    let a = abs_of(off);
    assert(0x1_0000_0000 as real * a <= 1 as real) by (nonlinear_arith)
        requires
            0x1_0000_0000 as real * (a * y) <= y,
            y > 0 as real,
    ;
    let c = value_64(left.over(right));
    lemma_parts_64(abs_of(c - q) - half_least_64(), abs_of(c));
}

} // verus!
