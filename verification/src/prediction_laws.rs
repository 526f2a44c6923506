//! What a prediction from two observations does: it goes on as the observations went.

use vstd::arithmetic::div_mod::lemma_fundamental_div_mod_converse;
use vstd::arithmetic::power2::{
    lemma2_to64, lemma2_to64_rest, lemma_pow2_adds, lemma_pow2_pos, lemma_pow2_strictly_increases, pow2,
};
use vstd::prelude::*;

use crate::arithmetic::{lemma_nearest_of_exact_32, lemma_plus_zero_keeps_value_32, unit_places};
use crate::arithmetic_laws::{
    lemma_integer_is_plain, lemma_integers_are_monotone, lemma_product_flips_sign, lemma_product_is_monotone,
    lemma_product_is_plain, lemma_quotient_is_monotone, lemma_quotient_is_plain, lemma_rounded_is_a_number,
    lemma_sum_is_monotone, lemma_units_of_one, lemma_units_of_zero, one, plain,
};
use crate::arkit::{all_in_unit_range, in_unit_range, with_zero_tongue, ONE_BITS};
use crate::binary::{magnitude_units, Binary32, Binary64};
use crate::closeness::{
    abs_of, lemma_difference_parts, lemma_half_least_is_tiny, lemma_integer_parts, lemma_product_parts,
    lemma_quotient_parts, lemma_sum_parts, lemma_value_32,
};
use crate::reduced_temporal::{
    corrected_positions, corrected_velocities, correction_fault, drifted, gain_usable, micro_seconds, secant,
    secant_fault, secant_values, AlphaBetaGain, ReducedAlphaBetaGains, ReducedTemporalState,
    TimestampedDirectCoefficients, MICROS_BITS,
};
use crate::rounding::lemma_nearest_ratio_is_monotone;
use crate::rounding_error::{
    half_least_32, lemma_half_least, lemma_quotient, lemma_real_product, lemma_sizes, value_32,
};
use crate::unit_range::lemma_signed_difference;

verus! {

/// Two to the power of `j`.
pub open spec fn power(j: int) -> Binary32 {
    Binary32 { bits: ((127 + j) * 0x80_0000) as u32 }
}

pub proof fn lemma_power(j: int)
    requires
        -126 <= j <= 127,
    ensures
        plain(power(j)),
        power(j).magnitude() == (127 + j) * 0x80_0000,
        power(j).units() == pow2((149 + j) as nat),
{
    lemma2_to64();
    lemma2_to64_rest();
    lemma_fundamental_div_mod_converse((127 + j) * 0x80_0000, pow2(23) as int, 127 + j, 0);
    lemma_pow2_adds(23, (126 + j) as nat);
    assert((pow2(23) + 0) * pow2((126 + j) as nat) == pow2(23) * pow2((126 + j) as nat))
        by (nonlinear_arith);
}

/// A million.
proof fn lemma_million()
    ensures
        (Binary32 { bits: MICROS_BITS }).units() == 1_000_000 * pow2(149),
        plain(Binary32 { bits: MICROS_BITS }),
{
    lemma2_to64();
    lemma2_to64_rest();
    let m = MICROS_BITS as int;
    let fraction = m % 0x80_0000;
    lemma_fundamental_div_mod_converse(m, pow2(23) as int, 146, fraction);
    lemma_pow2_adds(4, 145);
    assert((0x80_0000 + fraction) * pow2(145) == 1_000_000 * (16 * pow2(145))) by (nonlinear_arith)
        requires
            0x80_0000 + fraction == 16 * 1_000_000,
    ;
}

/// The seconds of a span of at least a microsecond.
pub proof fn lemma_seconds_bounds(micros: int)
    requires
        0 <= micros <= u64::MAX,
    ensures
        plain(micro_seconds(micros)),
        micro_seconds(micros).at_most(power(64)),
        micros >= 1 ==> power(-20).at_most(micro_seconds(micros)),
        micros == 0 ==> micro_seconds(micros).magnitude() == 0,
{
    let million = Binary32 { bits: MICROS_BITS };
    let number = Binary32::of_integer(micros as nat);
    let unit = pow2(149);
    lemma_million();
    lemma_power(64);
    lemma_power(-20);
    lemma2_to64();
    lemma2_to64_rest();
    lemma_pow2_pos(149);
    lemma_units_of_one();
    lemma_units_of_zero();
    lemma_integer_is_plain(micros as nat);
    lemma_integers_are_monotone(micros as nat, 0x1_0000_0000_0000_0000);
    lemma_pow2_adds(64, 149);
    lemma_nearest_of_exact_32(power(64).magnitude() as nat, 1);
    assert((pow2(64) * unit) * 1 == pow2(64) * unit) by (nonlinear_arith);
    assert(unit_places(23) == 149);
    assert(Binary32::of_integer(0x1_0000_0000_0000_0000) == power(64));
    assert(plain(number) && number.at_most(power(64)));
    // No more than two to the sixty-fourth.
    let top = power(64).over(million);
    let b = million.units() as nat;
    let a = power(64).units() as nat;
    assert(b > 0 && a * unit <= a * b && a * b == magnitude_units(power(64).magnitude() as nat, 23) * b) by (nonlinear_arith)
        requires
            b == 1_000_000 * unit,
            unit > 0,
            a == magnitude_units(power(64).magnitude() as nat, 23),
    ;
    lemma_nearest_of_exact_32(power(64).magnitude() as nat, b);
    lemma_nearest_ratio_is_monotone(a * unit, a * b, b, 23, 255);
    lemma_rounded_is_a_number(a * unit, b);
    assert(top.at_most(power(64)));
    lemma_quotient_is_monotone(number, power(64), million);
    lemma_quotient_is_plain(number, million);
    if micros >= 1 {
        lemma_integers_are_monotone(1, micros as nat);
        lemma_nearest_of_exact_32(0x3f80_0000, 1);
        assert(unit * 1 == unit && 1 * unit == unit) by (nonlinear_arith);
        assert(Binary32::of_integer(1) == one());
        let least = one().over(million);
        let c = power(-20).units() as nat;
        lemma_pow2_adds(20, 129);
        assert(c * b <= unit * unit) by (nonlinear_arith)
            requires
                b == 1_000_000 * unit,
                unit == 0x10_0000 * c,
        ;
        lemma_nearest_of_exact_32(power(-20).magnitude() as nat, b);
        lemma_nearest_ratio_is_monotone(c * b, unit * unit, b, 23, 255);
        lemma_rounded_is_a_number(unit * unit, b);
        assert(power(-20).at_most(least));
        lemma_quotient_is_monotone(one(), number, million);
    }
}

/// The step of a prediction.
proof fn lemma_prediction_step(before: Binary32, now: Binary32, source: int, target: int)
    requires
        in_unit_range(before),
        in_unit_range(now),
        1 <= source <= u64::MAX,
        0 <= target <= u64::MAX,
    ensures
        ({
            let difference = now.minus(before);
            let rate = difference.over(micro_seconds(source));
            let step = rate.times(micro_seconds(target));
            let sum = now.plus(step);
            &&& difference.finite()
            &&& rate.finite()
            &&& step.finite()
            &&& sum.finite()
            &&& step.magnitude() > 0 ==> step.negative() == difference.negative()
            &&& difference.magnitude() == 0 ==> step.magnitude() == 0
            &&& target == 0 ==> step.magnitude() == 0
        }),
{
    let difference = now.minus(before);
    let dt = micro_seconds(source);
    let horizon = micro_seconds(target);
    let rate = difference.over(dt);
    let step = rate.times(horizon);
    let size = difference.absolute();
    let large = power(86);
    lemma_seconds_bounds(source);
    lemma_seconds_bounds(target);
    lemma_signed_difference(before, now);
    lemma_units_of_zero();
    lemma_power(-20);
    lemma_power(22);
    lemma_power(64);
    lemma_power(86);
    lemma_power(1);
    lemma_power(127);
    lemma2_to64();
    lemma2_to64_rest();
    lemma_pow2_pos(149);
    // The rate.
    let a = size.units() as nat;
    let b = dt.units() as nat;
    let unit = pow2(149);
    power(-20).lemma_rank_orders_values(dt);
    size.lemma_rank_orders_values(power(1));
    lemma_pow2_adds(129, 171);
    lemma_pow2_adds(149, 150);
    lemma_pow2_strictly_increases(299, 300);
    lemma_pow2_pos(129);
    lemma_pow2_pos(171);
    let c = power(22).units() as nat;
    assert(c == pow2(171));
    assert(a * unit <= pow2(150) * unit) by (nonlinear_arith)
        requires
            a <= pow2(150),
    ;
    assert(pow2(129) * c <= b * c) by (nonlinear_arith)
        requires
            pow2(129) <= b,
    ;
    assert(pow2(150) * unit == unit * pow2(150) && b * c == c * b) by (nonlinear_arith);
    assert(a * unit <= c * b);
    lemma_nearest_of_exact_32(power(22).magnitude() as nat, b);
    lemma_nearest_ratio_is_monotone(a * unit, c * b, b, 23, 255);
    lemma_rounded_is_a_number(a * unit, b);
    let quotient = size.over(dt);
    assert(plain(quotient) && quotient.at_most(power(22)));
    assert(rate.magnitude() == quotient.magnitude());
    // The step.
    let product = quotient.times(horizon);
    lemma_product_is_plain(quotient, horizon);
    lemma_product_is_plain(power(22), power(64));
    lemma_product_is_monotone(quotient, horizon, power(22), power(64));
    lemma_pow2_adds(171, 213);
    lemma_pow2_adds(149, 235);
    lemma_nearest_of_exact_32(power(86).magnitude() as nat, unit);
    assert(pow2(235) * unit == unit * pow2(235)) by (nonlinear_arith);
    assert(power(22).times(power(64)) == power(86));
    lemma_product_flips_sign(quotient, horizon);
    if difference.negative() {
        assert(rate == quotient.negated());
        assert(step == product.negated());
    } else {
        assert(rate == quotient);
        assert(step == product);
    }
    assert(plain(product));
    // The sum.
    lemma_sum_is_monotone(now, product, large, large);
    let low = large.negated();
    lemma_sum_is_monotone(low, low, now, product.negated());
    lemma_sum_is_monotone(now, product.negated(), large, large);
    lemma_sum_is_monotone(low, low, now, product);
    lemma_double(86);
}

pub proof fn lemma_double(j: int)
    requires
        0 <= j <= 126,
    ensures
        power(j).plus(power(j)).finite(),
        power(j).negated().plus(power(j).negated()).finite(),
{
    lemma2_to64();
    lemma2_to64_rest();
    lemma_power(j);
    lemma_power(j + 1);
    vstd::arithmetic::power2::lemma_pow2_unfold((150 + j) as nat);
    lemma_pow2_pos((149 + j) as nat);
    let m = power(j + 1).magnitude() as nat;
    lemma_nearest_of_exact_32(m, 1);
    assert(pow2((150 + j) as nat) * 1 == pow2((150 + j) as nat)) by (nonlinear_arith);
}

/// What a prediction does with one coefficient.
proof fn lemma_prediction(before: Binary32, now: Binary32, source: int, target: int)
    requires
        in_unit_range(before),
        in_unit_range(now),
        1 <= source <= u64::MAX,
        0 <= target <= u64::MAX,
    ensures
        ({
            let value = secant(before, now, micro_seconds(source), micro_seconds(target));
            &&& in_unit_range(value)
            &&& now.less(before) ==> value.at_most(now)
            &&& before.less(now) ==> now.at_most(value)
            &&& now.same_number(before) ==> value.same_number(now)
            &&& target == 0 ==> value.same_number(now)
        }),
{
    let step = now.minus(before).over(micro_seconds(source)).times(micro_seconds(target));
    let zero = Binary32 { bits: 0 };
    lemma_prediction_step(before, now, source, target);
    lemma_signed_difference(before, now);
    lemma_plus_zero_keeps_value_32(now, zero);
    now.lemma_rank_orders_values(before);
    before.lemma_rank_orders_values(now);
    if step.magnitude() == 0 {
        lemma_plus_zero_keeps_value_32(now, step);
    } else if step.negative() {
        lemma_sum_is_monotone(now, step, now, zero);
    } else {
        lemma_sum_is_monotone(now, zero, now, step);
    }
}

/// A prediction of valid observations is never refused for its values.
pub proof fn lemma_valid_observations_are_predicted(
    previous: TimestampedDirectCoefficients,
    current: TimestampedDirectCoefficients,
    target: u64,
    maximum: u64,
)
    requires
        previous.coefficients.valid(),
        current.coefficients.valid(),
        secant_fault(previous, current, target, maximum) is None,
    ensures
        all_in_unit_range(secant_values(previous, current, target)),
{
    let source = current.timestamp_micros - previous.timestamp_micros;
    let ahead = target - current.timestamp_micros;
    assert forall|i: int| 0 <= i < 51 implies in_unit_range(
        #[trigger] secant_values(previous, current, target)[i],
    ) by {
        assert(in_unit_range(previous.coefficients@[i]));
        assert(in_unit_range(current.coefficients@[i]));
        lemma_prediction(previous.coefficients@[i], current.coefficients@[i], source, ahead);
    }
}

/// A prediction continues the motion: a coefficient that fell from the previous to the
/// current observation is predicted at most at its current value, one that rose at least
/// there, and one that did not change right there. At the time of the current
/// observation the prediction is that observation, and the tongue is never predicted.
pub proof fn lemma_prediction_continues_the_motion(
    previous: TimestampedDirectCoefficients,
    current: TimestampedDirectCoefficients,
    target: u64,
    maximum: u64,
    predicted: Seq<Binary32>,
)
    requires
        previous.coefficients.valid(),
        current.coefficients.valid(),
        secant_fault(previous, current, target, maximum) is None,
        predicted == with_zero_tongue(secant_values(previous, current, target)),
    ensures
        forall|i: int|
            #![trigger predicted[i]]
            0 <= i < 51 ==> {
                let before = previous.coefficients@[i];
                let now = current.coefficients@[i];
                &&& now.less(before) ==> predicted[i].at_most(now)
                &&& before.less(now) ==> now.at_most(predicted[i])
                &&& now.same_number(before) ==> predicted[i].same_number(now)
                &&& target == current.timestamp_micros ==> predicted[i].same_number(now)
            },
        predicted[51] == (Binary32 { bits: 0 }),
{
    let source = current.timestamp_micros - previous.timestamp_micros;
    let ahead = target - current.timestamp_micros;
    assert forall|i: int|
        #![trigger predicted[i]]
        0 <= i < 51 implies {
        let before = previous.coefficients@[i];
        let now = current.coefficients@[i];
        &&& now.less(before) ==> predicted[i].at_most(now)
        &&& before.less(now) ==> now.at_most(predicted[i])
        &&& now.same_number(before) ==> predicted[i].same_number(now)
        &&& target == current.timestamp_micros ==> predicted[i].same_number(now)
    } by {
        assert(in_unit_range(previous.coefficients@[i]));
        assert(in_unit_range(current.coefficients@[i]));
        lemma_prediction(previous.coefficients@[i], current.coefficients@[i], source, ahead);
    }
}

/// A span in seconds.
pub open spec fn seconds(micros: int) -> real {
    micros as real / 1_000_000 as real
}

/// The seconds of a span are its microseconds by a million, to one part in four million.
pub proof fn lemma_micro_seconds_are_close(micros: int)
    requires
        0 <= micros <= u64::MAX,
    ensures
        value_32(micro_seconds(micros)) >= 0 as real,
        micros >= 1 ==> value_32(micro_seconds(micros)) > 0 as real,
        0x40_0000 as real * abs_of(value_32(micro_seconds(micros)) - seconds(micros)) <= value_32(
            micro_seconds(micros),
        ),
{
    let million = Binary32 { bits: MICROS_BITS };
    let number = Binary32::of_integer(micros as nat);
    let dt = micro_seconds(micros);
    lemma_seconds_bounds(micros);
    lemma_million();
    lemma_pow2_pos(149);
    lemma_units_of_zero();
    lemma_number_is_finite(micros);
    lemma_integer_parts(micros as nat);
    lemma_quotient_parts(number, million);
    lemma_value_32(dt);
    lemma_half_least_is_tiny();
    let t = pow2(149) as real;
    lemma_real_product(1_000_000, pow2(149) as int);
    assert(value_32(million) == 1_000_000 as real) by {
        assert((1_000_000 as real * t) / t == 1_000_000 as real) by (nonlinear_arith)
            requires
                t > 0 as real,
        ;
    }
    let n = value_32(number);
    let d = value_32(dt);
    let h = half_least_32();
    if micros >= 1 {
        lemma_power(-20);
        lemma_least_second(dt);
        assert(0x10_0000 as real * d >= 1 as real);
    } else {
        lemma_sizes(dt, Binary64 { bits: 0 });
        lemma_sizes(number, Binary64 { bits: 0 });
        assert(number.magnitude() == 0);
    }
    let big = 0x1_0000_0000_0000_0000 as real;
    assert(h * big <= 1 as real) by (nonlinear_arith)
        requires
            h * big * big <= 1 as real,
            big >= 1 as real,
            h > 0 as real,
    ;
}

/// At least a microsecond is at least a millionth of a second.
proof fn lemma_least_second(dt: Binary32)
    requires
        plain(dt),
        power(-20).at_most(dt),
    ensures
        0x10_0000 as real * value_32(dt) >= 1 as real,
{
    lemma2_to64();
    lemma_power(-20);
    lemma_pow2_adds(20, 129);
    lemma_pow2_pos(129);
    power(-20).lemma_rank_orders_values(dt);
    let t = pow2(149) as real;
    let u = dt.units() as real;
    lemma_quotient(u, t);
    let d = value_32(dt);
    assert(0x10_0000 as real * d >= 1 as real) by (nonlinear_arith)
        requires
            d * t == u,
            0x10_0000 as real * u >= t,
            t > 0 as real,
    ;
}

pub proof fn lemma_number_is_finite(micros: int)
    requires
        0 <= micros <= u64::MAX,
    ensures
        Binary32::of_integer(micros as nat).finite(),
        !Binary32::of_integer(micros as nat).negative(),
        micros == 0 ==> Binary32::of_integer(micros as nat).magnitude() == 0,
{
    lemma2_to64();
    lemma2_to64_rest();
    lemma_power(64);
    lemma_pow2_adds(64, 149);
    lemma_integer_is_plain(micros as nat);
    lemma_integers_are_monotone(micros as nat, 0x1_0000_0000_0000_0000);
    lemma_nearest_of_exact_32(power(64).magnitude() as nat, 1);
    let unit = pow2(149);
    assert((pow2(64) * unit) * 1 == pow2(64) * unit) by (nonlinear_arith);
    assert(unit_places(23) == 149);
    assert(Binary32::of_integer(0x1_0000_0000_0000_0000) == power(64));
}

/// Closeness survives a factor.
proof fn lemma_scaled_closeness(dt: real, exact: real, v: real)
    requires
        dt >= 0 as real,
        0x40_0000 as real * abs_of(dt - exact) <= dt,
    ensures
        0x40_0000 as real * abs_of(dt * v - exact * v) <= abs_of(dt * v),
{
    let e = abs_of(dt - exact);
    let w = abs_of(v);
    assert(abs_of(dt * v - exact * v) == e * w) by {
        assert((dt - exact) * v == dt * v - exact * v) by (nonlinear_arith);
        lemma_abs_of_product(dt - exact, v);
    }
    lemma_abs_of_product(dt, v);
    assert(0x40_0000 as real * (e * w) <= dt * w) by (nonlinear_arith)
        requires
            0x40_0000 as real * e <= dt,
            w >= 0 as real,
    ;
}

/// Signs do not matter to the size of a product.
pub proof fn lemma_abs_of_product(a: real, b: real)
    ensures
        abs_of(a * b) == abs_of(a) * abs_of(b),
        abs_of(a) >= 0 as real,
        abs_of(b) >= 0 as real,
        abs_of(a) * abs_of(b) >= 0 as real,
{
    let x = abs_of(a);
    let y = abs_of(b);
    assert((-a) * b == -(a * b) && a * (-b) == -(a * b) && (-a) * (-b) == a * b) by (nonlinear_arith);
    assert(x * y >= 0 as real) by (nonlinear_arith)
        requires
            x >= 0 as real,
            y >= 0 as real,
    ;
}

/// Sampling follows the velocity: what is sampled after a span lies where the position
/// would have moved at the velocity of the state, up to roundings.
pub proof fn lemma_sampling_follows_the_velocity(state: ReducedTemporalState, micros: int, i: int)
    requires
        0 <= micros <= u64::MAX,
        0 <= i < state.position@.len(),
        state.position@[i].finite(),
        state.velocity_per_second@[i].finite(),
        drifted(state, micros)[i].finite(),
    ensures
        ({
            let start = value_32(state.position@[i]);
            let speed = value_32(state.velocity_per_second@[i]);
            let sampled = value_32(drifted(state, micros)[i]);
            let error = abs_of(sampled - (start + speed * seconds(micros)));
            0x10_0000 as real * (error - 4 as real * half_least_32()) <= abs_of(sampled) + abs_of(start)
        }),
{
    let position = state.position@[i];
    let velocity = state.velocity_per_second@[i];
    let dt = micro_seconds(micros);
    let step = dt.times(velocity);
    lemma_seconds_bounds(micros);
    lemma_power(64);
    lemma_half_least();
    assert(step.finite()) by {
        lemma_finite_part(position, step);
    }
    lemma_micro_seconds_are_close(micros);
    lemma_sum_parts(position, step);
    lemma_product_parts(dt, velocity);
    let v = value_32(velocity);
    lemma_scaled_closeness(value_32(dt), seconds(micros), v);
    let s = seconds(micros);
    assert(s * v == v * s) by (nonlinear_arith);
    lemma_drift_reals(
        value_32(drifted(state, micros)[i]),
        value_32(position),
        value_32(step),
        value_32(dt) * v,
        v * s,
        half_least_32(),
    );
}

/// A finite sum has finite parts.
pub proof fn lemma_finite_part(left: Binary32, right: Binary32)
    requires
        left.finite(),
        left.plus(right).finite(),
    ensures
        right.finite(),
{
}

proof fn lemma_drift_reals(sum: real, start: real, step: real, product: real, exact: real, h: real)
    requires
        h > 0 as real,
        0x100_0000 as real * abs_of(sum - (start + step)) <= abs_of(sum),
        0x100_0000 as real * (abs_of(step - product) - h) <= abs_of(step),
        0x40_0000 as real * abs_of(product - exact) <= abs_of(product),
    ensures
        0x10_0000 as real * (abs_of(sum - (start + exact)) - 4 as real * h) <= abs_of(sum) + abs_of(start),
{
}

/// A real number cut to `0..=1`.
pub open spec fn cut(x: real) -> real {
    if x < 0 as real {
        0 as real
    } else if x > 1 as real {
        1 as real
    } else {
        x
    }
}

/// A larger divisor, a smaller quotient: dividing by a close number.
proof fn lemma_close_divisor(d: real, src: real, s: real)
    requires
        src > 0 as real,
        0x40_0000 as real * abs_of(src - s) <= src,
    ensures
        s > 0 as real,
        0x20_0000 as real * abs_of(d / src - d / s) <= abs_of(d / src),
{
    let q = d / src;
    let p = d / s;
    lemma_quotient(d, src);
    lemma_quotient(d, s);
    let off = q - p;
    assert(off * s == q * (s - src)) by (nonlinear_arith)
        requires
            q * src == d,
            p * s == d,
            off == q - p,
    ;
    lemma_abs_of_product(off, s);
    lemma_abs_of_product(q, s - src);
    let (a, b, e) = (abs_of(off), abs_of(q), abs_of(s - src));
    assert(0x20_0000 as real * e <= s);
    assert(0x20_0000 as real * (b * e) <= b * s) by (nonlinear_arith)
        requires
            0x20_0000 as real * e <= s,
            b >= 0 as real,
    ;
    assert(0x20_0000 as real * a <= b) by (nonlinear_arith)
        requires
            a * s == b * e,
            0x20_0000 as real * (b * e) <= b * s,
            s > 0 as real,
    ;
}

/// A close dividend.
proof fn lemma_close_dividend(d: real, exact: real, s: real)
    requires
        s > 0 as real,
        0x100_0000 as real * abs_of(d - exact) <= abs_of(d),
    ensures
        0x100_0000 as real * abs_of(d / s - exact / s) <= abs_of(d / s),
{
    let q = d / s;
    let p = exact / s;
    let off = q - p;
    lemma_quotient(d, s);
    lemma_quotient(exact, s);
    assert(off * s == d - exact) by (nonlinear_arith)
        requires
            q * s == d,
            p * s == exact,
            off == q - p,
    ;
    lemma_abs_of_product(off, s);
    lemma_abs_of_product(q, s);
    let (a, b) = (abs_of(off), abs_of(q));
    assert(0x100_0000 as real * a <= b) by (nonlinear_arith)
        requires
            0x100_0000 as real * (a * s) <= b * s,
            s > 0 as real,
    ;
}

/// A rounded rate lies close to the exact one.
pub proof fn lemma_close_rate(rate: real, d: real, exact: real, src: real, s: real, h: real)
    requires
        h > 0 as real,
        src > 0 as real,
        0x40_0000 as real * abs_of(src - s) <= src,
        0x100_0000 as real * abs_of(d - exact) <= abs_of(d),
        0x100_0000 as real * (abs_of(rate - d / src) - h) <= abs_of(rate),
    ensures
        s > 0 as real,
        0x10_0000 as real * (abs_of(rate - exact / s) - 2 as real * h) <= abs_of(rate),
{
    lemma_close_divisor(d, src, s);
    lemma_close_dividend(d, exact, s);
}

/// A rounded product of close factors lies close to the exact one.
pub proof fn lemma_close_product(g: real, x: real, y: real, x0: real, y0: real, h: real)
    requires
        h > 0 as real,
        0x100_0000 as real * (abs_of(g - x * y) - h) <= abs_of(g),
        0x10_0000 as real * (abs_of(x - x0) - 2 as real * h) <= abs_of(x),
        0x40_0000 as real * abs_of(y - y0) <= abs_of(y),
    ensures
        0x2_0000 as real * (abs_of(g - x0 * y0) - 2 as real * h - 4 as real * (h * abs_of(y))) <= abs_of(g),
        h * abs_of(y) >= 0 as real,
{
    let (dx, dy) = (x - x0, y - y0);
    let (ax, ay, ey, ex, az) = (abs_of(x), abs_of(y), abs_of(dy), abs_of(dx), abs_of(y0));
    assert(x * y - x0 * y0 == x * dy + dx * y0) by (nonlinear_arith)
        requires
            dx == x - x0,
            dy == y - y0,
    ;
    lemma_abs_of_product(x, dy);
    lemma_abs_of_product(dx, y0);
    lemma_abs_of_product(x, y);
    assert(0x40_0000 as real * (ax * ey) <= ax * ay) by (nonlinear_arith)
        requires
            0x40_0000 as real * ey <= ay,
            ax >= 0 as real,
    ;
    assert(0x40_0000 as real * az <= 0x40_0001 as real * ay);
    assert(0x40_0000 as real * (ex * az) <= 0x40_0001 as real * (ex * ay)) by (nonlinear_arith)
        requires
            0x40_0000 as real * az <= 0x40_0001 as real * ay,
            ex >= 0 as real,
    ;
    assert(0x10_0000 as real * (ex * ay) <= ax * ay + 0x20_0000 as real * (h * ay)) by (nonlinear_arith)
        requires
            0x10_0000 as real * (ex - 2 as real * h) <= ax,
            ay >= 0 as real,
    ;
    assert(h * ay >= 0 as real) by (nonlinear_arith)
        requires
            h > 0 as real,
            ay >= 0 as real,
    ;
}

/// A finite product has finite factors.
pub proof fn lemma_finite_factor(left: Binary32, right: Binary32)
    requires
        left.times(right).finite(),
    ensures
        left.finite(),
        right.finite(),
{
}

/// A correction moves the predicted position towards the observation by the share that
/// the position gain names, and the velocity by the share of the missed distance that the
/// velocity gain names, both up to roundings. The prediction is what sampling gives at
/// the time of the observation.
pub proof fn lemma_correction_follows_the_observation(
    previous: ReducedTemporalState,
    observed_at: u64,
    observed: Seq<Binary32>,
    gains: ReducedAlphaBetaGains,
    i: int,
)
    requires
        correction_fault(previous, observed_at, observed, gains) is None,
        0 <= i < previous.position@.len(),
        observed[i].finite(),
        previous.velocity_per_second@[i].finite(),
        drifted(previous, observed_at - previous.corrected_at_micros)[i].finite(),
        corrected_positions(previous, observed_at, observed, gains)[i].finite(),
        corrected_velocities(previous, observed_at, observed, gains)[i].finite(),
    ensures
        ({
            let span = observed_at - previous.corrected_at_micros;
            let predicted = value_32(drifted(previous, span)[i]);
            let seen = value_32(observed[i]);
            let speed = value_32(previous.velocity_per_second@[i]);
            let alpha = value_32(gains.alpha@[i]);
            let beta = value_32(gains.beta@[i]);
            let position = value_32(corrected_positions(previous, observed_at, observed, gains)[i]);
            let velocity = value_32(corrected_velocities(previous, observed_at, observed, gains)[i]);
            let sizes = abs_of(seen) + abs_of(predicted);
            let off = abs_of(position - (predicted + alpha * (seen - predicted)));
            let drift = abs_of(velocity - (speed + (beta / seconds(span)) * (seen - predicted)));
            let h = half_least_32();
            &&& 0x10_0000 as real * (off - 4 as real * h) <= abs_of(position) + sizes
            &&& 0x1_0000 as real * (drift - 4 as real * h - 8 as real * (h * sizes)) <= abs_of(velocity)
                + abs_of(speed)
        }),
{
    let span = observed_at - previous.corrected_at_micros;
    let dt = micro_seconds(span);
    let start = drifted(previous, span)[i];
    let innovation = observed[i].minus(start);
    let (alpha, beta) = (gains.alpha@[i], gains.beta@[i]);
    let step = alpha.times(innovation);
    let position = start.plus(step);
    let speed = previous.velocity_per_second@[i];
    let rate = beta.over(dt);
    let push = rate.times(innovation);
    let velocity = speed.plus(push);
    assert(corrected_positions(previous, observed_at, observed, gains)[i] == position);
    assert(corrected_velocities(previous, observed_at, observed, gains)[i] == velocity);
    assert(gain_usable(AlphaBetaGain { alpha: gains.alpha@[i], beta: gains.beta@[i] }));
    lemma_half_least();
    lemma_seconds_bounds(span);
    lemma_power(-20);
    lemma_finite_part(start, step);
    lemma_finite_part(speed, push);
    lemma_finite_factor(alpha, innovation);
    lemma_finite_factor(rate, innovation);
    lemma_difference_parts(observed[i], start);
    lemma_product_parts(alpha, innovation);
    lemma_sum_parts(start, step);
    lemma_micro_seconds_are_close(span);
    lemma_quotient_parts(beta, dt);
    lemma_product_parts(rate, innovation);
    lemma_sum_parts(speed, push);
    lemma_unit_value(alpha);
    let h = half_least_32();
    let (p, o, v) = (value_32(start), value_32(observed[i]), value_32(speed));
    let (a, b) = (value_32(alpha), value_32(beta));
    let d = value_32(innovation);
    let miss = o - p;
    assert(abs_of(a * d - a * miss) <= abs_of(d - miss)) by {
        let e = d - miss;
        assert(a * d - a * miss == a * e) by (nonlinear_arith)
            requires
                e == d - miss,
        ;
        lemma_abs_of_product(a, e);
        let x = abs_of(e);
        assert(a * x <= x) by (nonlinear_arith)
            requires
                0 as real <= a <= 1 as real,
                x >= 0 as real,
        ;
    }
    lemma_corrected_position(value_32(position), p, o, value_32(step), a * d, a * miss, d, h);
    lemma_close_rate(value_32(rate), b, b, value_32(dt), seconds(span), h);
    lemma_close_product(value_32(push), value_32(rate), d, b / seconds(span), miss, h);
    let sizes = abs_of(o) + abs_of(p);
    assert(abs_of(d) <= 2 as real * sizes);
    assert(h * abs_of(d) <= 2 as real * (h * sizes)) by (nonlinear_arith)
        requires
            abs_of(d) <= 2 as real * sizes,
            h > 0 as real,
    ;
    lemma_corrected_velocity(
        value_32(velocity),
        v,
        value_32(push),
        (b / seconds(span)) * miss,
        h,
        h * sizes,
        h * abs_of(d),
    );
}

proof fn lemma_corrected_position(
    sum: real,
    start: real,
    seen: real,
    step: real,
    product: real,
    exact: real,
    d: real,
    h: real,
)
    requires
        h > 0 as real,
        0x100_0000 as real * abs_of(d - (seen - start)) <= abs_of(d),
        0x100_0000 as real * (abs_of(step - product) - h) <= abs_of(step),
        0x100_0000 as real * abs_of(sum - (start + step)) <= abs_of(sum),
        abs_of(product - exact) <= abs_of(d - (seen - start)),
    ensures
        0x10_0000 as real * (abs_of(sum - (start + exact)) - 4 as real * h) <= abs_of(sum) + (abs_of(seen)
            + abs_of(start)),
{
}

proof fn lemma_corrected_velocity(
    sum: real,
    speed: real,
    push: real,
    exact: real,
    h: real,
    limit: real,
    part: real,
)
    requires
        h > 0 as real,
        limit >= 0 as real,
        0 as real <= part <= 2 as real * limit,
        0x2_0000 as real * (abs_of(push - exact) - 2 as real * h - 4 as real * part) <= abs_of(push),
        0x100_0000 as real * abs_of(sum - (speed + push)) <= abs_of(sum),
    ensures
        0x1_0000 as real * (abs_of(sum - (speed + exact)) - 4 as real * h - 8 as real * limit) <= abs_of(sum)
            + abs_of(speed),
{
}

/// The value of a gain or a coefficient.
pub proof fn lemma_unit_value(number: Binary32)
    requires
        in_unit_range(number),
    ensures
        0 as real <= value_32(number) <= 1 as real,
{
    lemma_units_of_one();
    lemma_units_of_zero();
    lemma_pow2_pos(149);
    number.lemma_rank_orders_values(one());
    (Binary32 { bits: 0 }).lemma_rank_orders_values(number);
    let t = pow2(149) as real;
    let u = number.units() as real;
    let x = value_32(number);
    lemma_quotient(u, t);
    assert(0 as real <= x <= 1 as real) by (nonlinear_arith)
        requires
            x * t == u,
            0 as real <= u <= t,
            t > 0 as real,
    ;
}

/// A prediction lies on the line through the two observations, cut to `0..=1`, to within
/// one part in sixteen thousand.
pub proof fn lemma_prediction_is_the_line(
    previous: TimestampedDirectCoefficients,
    current: TimestampedDirectCoefficients,
    target: u64,
    maximum: u64,
    predicted: Seq<Binary32>,
    i: int,
)
    requires
        previous.coefficients.valid(),
        current.coefficients.valid(),
        secant_fault(previous, current, target, maximum) is None,
        predicted == with_zero_tongue(secant_values(previous, current, target)),
        0 <= i < 51,
    ensures
        ({
            let before = value_32(previous.coefficients@[i]);
            let now = value_32(current.coefficients@[i]);
            let span = seconds(current.timestamp_micros - previous.timestamp_micros);
            let ahead = seconds(target - current.timestamp_micros);
            let line = now + ((now - before) / span) * ahead;
            0x4000 as real * abs_of(value_32(predicted[i]) - cut(line)) <= 1 as real
        }),
{
    let before = previous.coefficients@[i];
    let now = current.coefficients@[i];
    let source = current.timestamp_micros - previous.timestamp_micros;
    let ahead = target - current.timestamp_micros;
    assert(in_unit_range(before) && in_unit_range(now));
    let (src, tgt) = (micro_seconds(source), micro_seconds(ahead));
    let difference = now.minus(before);
    let rate = difference.over(src);
    let step = rate.times(tgt);
    let sum = now.plus(step);
    lemma_half_least();
    lemma_half_least_is_tiny();
    lemma_seconds_bounds(source);
    lemma_seconds_bounds(ahead);
    lemma_power(-20);
    lemma_power(64);
    lemma_prediction_step(before, now, source, ahead);
    lemma_difference_parts(now, before);
    lemma_quotient_parts(difference, src);
    lemma_product_parts(rate, tgt);
    lemma_sum_parts(now, step);
    lemma_micro_seconds_are_close(source);
    lemma_micro_seconds_are_close(ahead);
    lemma_unit_value(before);
    lemma_unit_value(now);
    let h = half_least_32();
    let (n, b) = (value_32(now), value_32(before));
    lemma_close_rate(value_32(rate), value_32(difference), n - b, value_32(src), seconds(source), h);
    lemma_close_product(
        value_32(step),
        value_32(rate),
        value_32(tgt),
        (n - b) / seconds(source),
        seconds(ahead),
        h,
    );
    lemma_long_horizon(tgt);
    let y = value_32(tgt);
    let big = 0x1_0000_0000_0000_0000 as real;
    assert(h * y * big <= 1 as real) by (nonlinear_arith)
        requires
            h * big * big <= 1 as real,
            0 as real <= y <= big,
            h > 0 as real,
            big > 0 as real,
    ;
    assert(h * big <= 1 as real) by (nonlinear_arith)
        requires
            h * big * big <= 1 as real,
            big >= 1 as real,
            h > 0 as real,
    ;
    let line = ((n - b) / seconds(source)) * seconds(ahead);
    lemma_line_reals(value_32(sum), n, value_32(step), line, h, h * y);
    lemma_cut_value(sum);
}

proof fn lemma_line_reals(sum: real, now: real, step: real, exact: real, h: real, part: real)
    requires
        0 as real <= now <= 1 as real,
        h > 0 as real,
        part >= 0 as real,
        h * 0x1_0000_0000_0000_0000 as real <= 1 as real,
        part * 0x1_0000_0000_0000_0000 as real <= 1 as real,
        0x2_0000 as real * (abs_of(step - exact) - 2 as real * h - 4 as real * part) <= abs_of(step),
        0x100_0000 as real * abs_of(sum - (now + step)) <= abs_of(sum),
    ensures
        0x4000 as real * abs_of(cut(sum) - cut(now + exact)) <= 1 as real,
{
    let off = abs_of(sum - (now + exact));
    assert(0x1_0000 as real * off <= abs_of(sum) + 2 as real);
}

/// A horizon is less than two to the sixty-fourth.
proof fn lemma_long_horizon(dt: Binary32)
    requires
        plain(dt),
        dt.at_most(power(64)),
    ensures
        0 as real <= value_32(dt) <= 0x1_0000_0000_0000_0000 as real,
{
    lemma2_to64();
    lemma2_to64_rest();
    lemma_power(64);
    lemma_pow2_adds(64, 149);
    lemma_pow2_pos(149);
    lemma_units_of_zero();
    dt.lemma_rank_orders_values(power(64));
    (Binary32 { bits: 0 }).lemma_rank_orders_values(dt);
    let t = pow2(149) as real;
    let u = dt.units() as real;
    let x = value_32(dt);
    lemma_quotient(u, t);
    lemma_real_product(0x1_0000_0000_0000_0000, pow2(149) as int);
    let big = 0x1_0000_0000_0000_0000 as real;
    assert(0 as real <= x <= big) by (nonlinear_arith)
        requires
            x * t == u,
            0 as real <= u <= big * t,
            t > 0 as real,
    ;
}

/// Cutting a number cuts its value.
pub proof fn lemma_cut_value(number: Binary32)
    requires
        number.finite(),
    ensures
        value_32(
            number.clamped(Binary32 { bits: 0 }, Binary32 { bits: ONE_BITS }),
        ) == cut(value_32(number)),
{
    lemma_units_of_one();
    lemma_units_of_zero();
    lemma_pow2_pos(149);
    let zero = Binary32 { bits: 0 };
    number.lemma_rank_orders_values(one());
    one().lemma_rank_orders_values(number);
    number.lemma_rank_orders_values(zero);
    zero.lemma_rank_orders_values(number);
    let t = pow2(149) as real;
    let u = number.units() as real;
    let x = value_32(number);
    lemma_quotient(u, t);
    assert(t / t == 1 as real && 0 as real / t == 0 as real) by (nonlinear_arith)
        requires
            t > 0 as real,
    ;
    assert(u < 0 as real <==> x < 0 as real) by (nonlinear_arith)
        requires
            x * t == u,
            t > 0 as real,
    ;
    assert(u > t <==> x > 1 as real) by (nonlinear_arith)
        requires
            x * t == u,
            t > 0 as real,
    ;
}

} // verus!
