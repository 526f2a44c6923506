//! What the translation signals measure, and how they are shaped and smoothed.

use vstd::arithmetic::power2::{lemma2_to64, lemma2_to64_rest, lemma_pow2_pos, pow2};
use vstd::prelude::*;

use crate::arithmetic_laws::{
    lemma_quotient_is_monotone, lemma_quotient_is_plain, lemma_rounded_is_a_number, lemma_sum_is_monotone,
    lemma_twice, lemma_units_of_zero, one, plain, two,
};
use crate::avatar::HeadTranslationSignal;
use crate::binary::{magnitude_units, Binary32};
use crate::closeness::{
    abs_of, lemma_difference_parts, lemma_half_least_is_tiny, lemma_product_parts, lemma_quotient_parts,
    lemma_sum_parts, lemma_value_32,
};
use crate::gnm_sequence_regression::number;
use crate::interpolation::comes_closer;
use crate::prediction_laws::{lemma_abs_of_product, lemma_close_product};
use crate::recovery_laws::{goes_on, is_on_the_way, lemma_mixed};
use crate::report_laws::lemma_constant;
use crate::rounding_error::{half_least_32, lemma_half_least, lemma_quotient, value_32};
use crate::translation::{
    aligned_x, aligned_y, aligned_z, alignment_signal, alignment_usable, transform_signal, PoseAlignment,
};
use crate::translation_shaping::{compressed, smoothed, soft_capped};
use crate::unit_range::{in_signed_range, is_share, lemma_self_quotient, lemma_unit_complement};

verus! {

/// The number is `exact`, up to roundings that go by its size and by `scale`.
pub open spec fn is_near(number: Binary32, exact: real, scale: real) -> bool {
    let h = half_least_32();
    0x1_0000 as real * (abs_of(value_32(number) - exact) - 2 as real * h - 4 as real * (h * scale)) <= abs_of(
        value_32(number),
    )
}

/// A number times a rounded quotient.
proof fn lemma_times_quotient(factor: Binary32, top: Binary32, bottom: Binary32)
    requires
        factor.finite(),
        top.finite(),
        bottom.finite(),
        bottom.magnitude() > 0,
        top.over(bottom).finite(),
        factor.times(top.over(bottom)).finite(),
    ensures
        is_near(
            factor.times(top.over(bottom)),
            value_32(factor) * (value_32(top) / value_32(bottom)),
            abs_of(value_32(factor)),
        ),
{
    let scale = top.over(bottom);
    let product = factor.times(scale);
    lemma_half_least();
    lemma_quotient_parts(top, bottom);
    lemma_product_parts(factor, scale);
    let (x, y) = (value_32(scale), value_32(factor));
    let exact = value_32(top) / value_32(bottom);
    assert(x * y == y * x && exact * y == y * exact) by (nonlinear_arith);
    lemma_close_product(value_32(product), x, y, exact, y, half_least_32());
}

/// Alignments are scaled to meters by the radius that the head had when it was neutral:
/// to the right as in the image, upward against the image, for a reference radius of
/// seventy-five millimeters.
pub proof fn lemma_alignment_is_scaled_to_meters(alignment: PoseAlignment, mean_visibility: Binary32)
    requires
        alignment_usable(alignment, mean_visibility),
        !(alignment_signal(alignment, mean_visibility).state is Unavailable),
        number(0x3d99_999a).over(alignment.neutral_projected_radius).finite(),
    ensures
        ({
            let signal = alignment_signal(alignment, mean_visibility);
            let (tx, ty) = (value_32(alignment.translation@[0]), value_32(alignment.translation@[1]));
            let radius = value_32(alignment.neutral_projected_radius);
            let meters = value_32(number(0x3d99_999a));
            &&& is_near(signal.x_meters, tx * (meters / radius), abs_of(tx))
            &&& is_near(signal.y_meters, (-ty) * (meters / radius), abs_of(ty))
            &&& 0x10_0000 as real * abs_of(40 as real * meters - 3 as real) <= 1 as real
        }),
{
    let signal = alignment_signal(alignment, mean_visibility);
    let (x, y) = (alignment.translation@[0], alignment.translation@[1]);
    let radius = alignment.neutral_projected_radius;
    let meters = number(0x3d99_999a);
    lemma_constant(0x3d99_999a);
    lemma2_to64();
    lemma2_to64_rest();
    assert(pow2(27) == 0x800_0000);
    assert(value_32(meters) * 0x800_0000 as real == 0x99_999a as real);
    assert(signal.x_meters == aligned_x(alignment) && signal.y_meters == aligned_y(alignment));
    assert(signal.x_meters.finite() && signal.y_meters.finite());
    assert(radius.magnitude() > 0);
    lemma_times_quotient(x, meters, radius);
    lemma_times_quotient(y.negated(), meters, radius);
    lemma_value_32(y);
    lemma_value_32(y.negated());
}

/// A head that looks smaller than when it was neutral is farther away, one that looks
/// larger is nearer, and one that looks the same is where it was.
pub proof fn lemma_smaller_is_farther(alignment: PoseAlignment, mean_visibility: Binary32)
    requires
        alignment_usable(alignment, mean_visibility),
        !(alignment_signal(alignment, mean_visibility).state is Unavailable),
        alignment.neutral_projected_radius.over(alignment.current_projected_radius).finite(),
    ensures
        ({
            let z = alignment_signal(alignment, mean_visibility).z_meters;
            let (neutral, current) = (
                alignment.neutral_projected_radius,
                alignment.current_projected_radius,
            );
            &&& current.at_most(neutral) ==> z.rank() >= 0
            &&& neutral.at_most(current) ==> z.rank() <= 0
        }),
{
    let (neutral, current) = (alignment.neutral_projected_radius, alignment.current_projected_radius);
    let ratio = neutral.over(current);
    let away = ratio.minus(one());
    let z = aligned_z(alignment);
    assert(alignment_signal(alignment, mean_visibility).z_meters == z);
    assert(plain(neutral) && plain(current) && current.magnitude() > 0);
    lemma_self_quotient(current);
    lemma_units_of_zero();
    crate::arithmetic_laws::lemma_units_of_one();
    assert(one().plus(one().negated()).magnitude() == 0);
    lemma_quotient_is_plain(neutral, current);
    if current.at_most(neutral) {
        lemma_quotient_is_monotone(current, neutral, current);
        lemma_sum_is_monotone(one(), one().negated(), ratio, one().negated());
        assert(away.rank() >= 0);
        lemma_sign_of_product(number(0x3f19_999a), away);
    }
    if neutral.at_most(current) {
        lemma_quotient_is_monotone(neutral, current, current);
        lemma_sum_is_monotone(ratio, one().negated(), one(), one().negated());
        assert(away.rank() <= 0);
        lemma_sign_of_product(number(0x3f19_999a), away);
    }
}

/// A product with a positive number keeps the sign.
proof fn lemma_sign_of_product(factor: Binary32, other: Binary32)
    requires
        plain(factor),
        factor.magnitude() > 0,
        !other.nan(),
        factor.times(other).finite(),
    ensures
        other.rank() >= 0 ==> factor.times(other).rank() >= 0,
        other.rank() <= 0 ==> factor.times(other).rank() <= 0,
{
    let a = magnitude_units(factor.magnitude() as nat, 23);
    let b = magnitude_units(other.magnitude() as nat, 23);
    lemma_rounded_is_a_number(a * b, pow2(149));
}

/// Distances go by the ratio of the radii: the reference distance of six tenths of a meter
/// times what the neutral radius exceeds the current one by, in current radii.
pub proof fn lemma_distance_goes_by_the_radii(alignment: PoseAlignment, mean_visibility: Binary32)
    requires
        alignment_usable(alignment, mean_visibility),
        !(alignment_signal(alignment, mean_visibility).state is Unavailable),
        alignment.neutral_projected_radius.over(alignment.current_projected_radius).finite(),
    ensures
        ({
            let z = value_32(alignment_signal(alignment, mean_visibility).z_meters);
            let ratio = value_32(alignment.neutral_projected_radius) / value_32(
                alignment.current_projected_radius,
            );
            let away = (6 as real / 10 as real) * (ratio - 1 as real);
            0x1_0000 as real * abs_of(z - away) <= abs_of(z) + abs_of(ratio) + 1 as real
        }),
{
    let (neutral, current) = (alignment.neutral_projected_radius, alignment.current_projected_radius);
    let ratio = neutral.over(current);
    let away = ratio.minus(one());
    let reach = number(0x3f19_999a);
    let z = reach.times(away);
    assert(alignment_signal(alignment, mean_visibility).z_meters == z);
    assert(current.magnitude() > 0);
    lemma_half_least();
    lemma_half_least_is_tiny();
    lemma_constant(0x3f19_999a);
    lemma2_to64();
    lemma2_to64_rest();
    assert(pow2(24) == 0x100_0000);
    let k = value_32(reach);
    assert(k * 0x100_0000 as real == 0x99_999a as real);
    crate::prediction_laws::lemma_finite_factor(reach, away);
    lemma_quotient_parts(neutral, current);
    lemma_difference_parts(ratio, one());
    lemma_product_parts(reach, away);
    crate::timing_laws::lemma_one_value();
    let h = half_least_32();
    let big = 0x1_0000_0000_0000_0000 as real;
    assert(h * big <= 1 as real) by (nonlinear_arith)
        requires
            h * big * big <= 1 as real,
            big >= 1 as real,
            h > 0 as real,
    ;
    let q = value_32(neutral) / value_32(current);
    let (d, r, v) = (value_32(away), value_32(ratio), value_32(z));
    let e = d - (q - 1 as real);
    let six = 6 as real / 10 as real;
    assert(k * d - six * (q - 1 as real) == (k - six) * d + six * e) by (nonlinear_arith)
        requires
            e == d - (q - 1 as real),
    ;
    lemma_abs_of_product(k - six, d);
    lemma_abs_of_product(six, e);
    let (a, b) = (abs_of(k - six), abs_of(d));
    assert(0x100_0000 as real * (a * b) <= b) by (nonlinear_arith)
        requires
            0x100_0000 as real * a <= 1 as real,
            b >= 0 as real,
    ;
}

/// Face transforms are given in centimeters: every axis of the signal is the same axis of
/// the transform by a hundred.
pub proof fn lemma_transform_is_scaled_to_meters(translation: Seq<Binary32>, mean_visibility: Binary32)
    requires
        translation.len() == 3,
        translation[0].finite() && translation[1].finite() && translation[2].finite(),
        !(transform_signal(translation, mean_visibility).state is Unavailable),
    ensures
        ({
            let signal = transform_signal(translation, mean_visibility);
            let h = 4 as real * half_least_32();
            &&& 0x10_0000 as real * (abs_of(value_32(signal.x_meters) - value_32(translation[0]) / 100 as real) - h)
                <= abs_of(value_32(signal.x_meters))
            &&& 0x10_0000 as real * (abs_of(value_32(signal.y_meters) - value_32(translation[1]) / 100 as real) - h)
                <= abs_of(value_32(signal.y_meters))
            &&& 0x10_0000 as real * (abs_of(value_32(signal.z_meters) - value_32(translation[2]) / 100 as real) - h)
                <= abs_of(value_32(signal.z_meters))
        }),
{
    lemma_hundredth(translation[0]);
    lemma_hundredth(translation[1]);
    lemma_hundredth(translation[2]);
}

proof fn lemma_hundredth_constant()
    ensures
        number(0x3c23_d70a).finite(),
        value_32(number(0x3c23_d70a)) > 0 as real,
        0x4000_0000 as real * (1 as real - 100 as real * value_32(number(0x3c23_d70a))) == 24 as real,
{
    lemma_constant(0x3c23_d70a);
    lemma2_to64();
    lemma2_to64_rest();
    assert(pow2(30) == 0x4000_0000);
    let c = value_32(number(0x3c23_d70a));
    assert((0x3c23_d70a as int) % 0x80_0000 == 0x23_d70a);
    assert(c * 0x4000_0000 as real == 0xa3_d70a as real);
    assert(c > 0 as real && 0x4000_0000 as real * (1 as real - 100 as real * c) == 24 as real) by (nonlinear_arith)
        requires
            c * 0x4000_0000 as real == 0xa3_d70a as real,
    ;
}

proof fn lemma_hundredth(length: Binary32)
    requires
        length.finite(),
    ensures
        ({
            let meters = length.times(number(0x3c23_d70a));
            meters.finite() ==> 0x10_0000 as real * (abs_of(value_32(meters) - value_32(length) / 100 as real)
                - 4 as real * half_least_32()) <= abs_of(value_32(meters))
        }),
{
    let k = number(0x3c23_d70a);
    let meters = length.times(k);
    lemma_half_least();
    lemma_hundredth_constant();
    let c = value_32(k);
    if meters.finite() {
        lemma_product_parts(length, k);
        let x = value_32(length);
        let e = 100 as real * c - 1 as real;
        assert(100 as real * (x * c) - x == x * e) by (nonlinear_arith)
            requires
                e == 100 as real * c - 1 as real,
        ;
        lemma_abs_of_product(x, e);
        lemma_abs_of_product(x, c);
        let (a, b) = (abs_of(x), abs_of(e));
        assert(0x80_0000 as real * (a * b) <= a) by (nonlinear_arith)
            requires
                0x80_0000 as real * b <= 1 as real,
                a >= 0 as real,
        ;
        let p = x * c;
        assert(abs_of(p) == a * c);
        assert(100 as real * (a * c) >= a - a * b) by (nonlinear_arith)
            requires
                100 as real * c >= 1 as real - b,
                a >= 0 as real,
        ;
    }
}

/// The soft cap: small values as they are, larger ones at half the slope, and none beyond
/// one and a half thresholds.
pub open spec fn exact_cap(size: real, threshold: real) -> real {
    if size <= threshold {
        size
    } else if size <= 2 as real * threshold {
        (size + threshold) / 2 as real
    } else {
        (3 as real / 2 as real) * threshold
    }
}

/// Soft-capped values follow the exact cap, up to roundings.
pub proof fn lemma_cap_follows_the_curve(value: Binary32, threshold: Binary32)
    requires
        value.finite(),
        threshold.finite(),
        threshold.positive(),
        two().times(threshold).finite(),
        soft_capped(value, threshold).finite(),
    ensures
        ({
            let capped = abs_of(value_32(soft_capped(value, threshold)));
            let exact = exact_cap(abs_of(value_32(value)), value_32(threshold));
            0x10_0000 as real * (abs_of(capped - exact) - 4 as real * half_least_32()) <= capped
        }),
{
    let size = value.absolute();
    let capped = soft_capped(value, threshold);
    lemma_half_least();
    lemma_value_32(value);
    lemma_value_32(size);
    lemma_value_32(threshold);
    lemma_value_32(capped);
    lemma_twice(threshold);
    let double = two().times(threshold);
    crate::arithmetic_laws::lemma_product_is_plain(two(), threshold);
    size.lemma_rank_orders_values(threshold);
    size.lemma_rank_orders_values(double);
    lemma_order_of_values(size, threshold);
    lemma_order_of_values(size, double);
    lemma_double_value(threshold, double);
    if size.at_most(threshold) {
    } else if size.at_most(double) {
        let past = size.minus(threshold);
        let half = number(0x3f00_0000).times(past);
        let sum = threshold.plus(half);
        lemma_constant(0x3f00_0000);
        lemma2_to64();
        lemma2_to64_rest();
        assert(pow2(24) == 0x100_0000);
        assert(value_32(number(0x3f00_0000)) * 0x100_0000 as real == 0x80_0000 as real);
        crate::prediction_laws::lemma_finite_factor(
            crate::translation_shaping::sign_of(value),
            compressed(size, threshold),
        );
        crate::prediction_laws::lemma_finite_part(threshold, half);
        crate::prediction_laws::lemma_finite_factor(number(0x3f00_0000), past);
        lemma_difference_parts(size, threshold);
        lemma_product_parts(number(0x3f00_0000), past);
        lemma_sum_parts(threshold, half);
        lemma_one_sign(value, sum);
        lemma_value_32(sum);
        let d = value_32(past);
        let c = value_32(number(0x3f00_0000));
        assert(2 as real * (c * d) == d) by (nonlinear_arith)
            requires
                2 as real * c == 1 as real,
        ;
    } else {
        let factor = crate::translation_shaping::sign_of(value).times(number(0x3fc0_0000));
        lemma_one_sign(value, number(0x3fc0_0000));
        lemma_constant(0x3fc0_0000);
        lemma2_to64();
        lemma2_to64_rest();
        assert(pow2(23) == 0x80_0000);
        assert(value_32(number(0x3fc0_0000)) * 0x80_0000 as real == 0xc0_0000 as real);
        lemma_value_32(factor);
        lemma_value_32(number(0x3fc0_0000));
        lemma_product_parts(factor, threshold);
        let (f, t) = (value_32(factor), value_32(threshold));
        lemma_abs_of_product(f, t);
        let a = abs_of(f);
        assert(2 as real * (a * t) == 3 as real * t) by (nonlinear_arith)
            requires
                2 as real * a == 3 as real,
        ;
    }
}

/// One with a sign keeps the size.
proof fn lemma_one_sign(value: Binary32, other: Binary32)
    requires
        !other.nan(),
    ensures
        crate::translation_shaping::sign_of(value).times(other).magnitude() == other.magnitude(),
{
    crate::arithmetic_laws::lemma_one_times(other);
    if other.finite() {
        crate::arithmetic_laws::lemma_product_flips_sign(one(), other);
        assert(one().negated() == number(0xbf80_0000));
    }
}

/// Values compare as the numbers do.
pub proof fn lemma_order_of_values(left: Binary32, right: Binary32)
    requires
        left.finite(),
        right.finite(),
    ensures
        left.at_most(right) <==> value_32(left) <= value_32(right),
{
    left.lemma_rank_orders_values(right);
    lemma_pow2_pos(149);
    let t = pow2(149) as real;
    let (a, b) = (left.units() as real, right.units() as real);
    lemma_quotient(a, t);
    lemma_quotient(b, t);
    let (x, y) = (value_32(left), value_32(right));
    assert(a <= b <==> x <= y) by (nonlinear_arith)
        requires
            x * t == a,
            y * t == b,
            t > 0 as real,
    ;
}

proof fn lemma_double_value(number: Binary32, double: Binary32)
    requires
        double.units() == 2 * number.units(),
    ensures
        value_32(double) == 2 as real * value_32(number),
{
    lemma_pow2_pos(149);
    let t = pow2(149) as real;
    let u = number.units() as real;
    assert((2 as real * u) / t == 2 as real * (u / t)) by (nonlinear_arith)
        requires
            t > 0 as real,
    ;
}

/// Every axis of the signal lies between minus one and one meter.
pub open spec fn within_a_meter(signal: HeadTranslationSignal) -> bool {
    in_signed_range(signal.x_meters) && in_signed_range(signal.y_meters) && in_signed_range(signal.z_meters)
}

/// Smoothing moves every axis from the held value towards the new one, by what the decay
/// leaves; with less decay left it comes no less near to the new one, and without any
/// decay it stays.
pub proof fn lemma_smoothing_moves_towards_the_observation(
    held: HeadTranslationSignal,
    next: HeadTranslationSignal,
    slow: Binary32,
    fast: Binary32,
)
    requires
        within_a_meter(held),
        within_a_meter(next),
        is_share(slow),
        is_share(fast),
        fast.at_most(slow),
    ensures
        ({
            let near = smoothed(held, next, fast);
            let far = smoothed(held, next, slow);
            let share = one().minus(fast);
            &&& !(near.state is Unavailable)
            &&& is_on_the_way(held.x_meters, next.x_meters, share, near.x_meters)
            &&& is_on_the_way(held.y_meters, next.y_meters, share, near.y_meters)
            &&& is_on_the_way(held.z_meters, next.z_meters, share, near.z_meters)
            &&& goes_on(held.x_meters, next.x_meters, far.x_meters, near.x_meters)
            &&& goes_on(held.y_meters, next.y_meters, far.y_meters, near.y_meters)
            &&& goes_on(held.z_meters, next.z_meters, far.z_meters, near.z_meters)
            &&& comes_closer(far.x_meters, near.x_meters, next.x_meters)
            &&& comes_closer(far.y_meters, near.y_meters, next.y_meters)
            &&& comes_closer(far.z_meters, near.z_meters, next.z_meters)
        }),
{
    lemma_unit_complement(slow);
    lemma_unit_complement(fast);
    lemma_sum_is_monotone(one(), slow.negated(), one(), fast.negated());
    let (s, t) = (one().minus(slow), one().minus(fast));
    lemma_mixed(held.x_meters, next.x_meters, s, t);
    lemma_mixed(held.y_meters, next.y_meters, s, t);
    lemma_mixed(held.z_meters, next.z_meters, s, t);
}

} // verus!
