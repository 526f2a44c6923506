//! Values between two numbers: where they start, where they end, and that they only
//! go one way.

use vstd::arithmetic::power2::{lemma_pow2_pos, lemma_pow2_unfold, pow2};
use vstd::prelude::*;

use crate::arithmetic::{lemma_plus_zero_keeps_value_32, lemma_times_one_32};
use crate::arithmetic_laws::{
    lemma_product_flips_sign, lemma_product_is_monotone, lemma_product_is_plain, lemma_rounded_is_a_number,
    lemma_sum_is_monotone, lemma_units_of_one, lemma_units_of_zero, one,
};
use crate::binary::{magnitude_units, Binary32};
use crate::unit_range::{
    in_signed_range, is_share, lemma_interpolation_is_bounded, lemma_rounding_error, lemma_signed_difference,
    lemma_step_below_four,
};

verus! {

/// Four times the distance of neighbours near one: what the roundings of an
/// interpolation may add up to.
pub open spec fn slack() -> int {
    pow2(128) as int
}

/// The value lies at `share` of the way from `from` to `to`, up to roundings.
pub open spec fn lies_at(value: Binary32, from: Binary32, to: Binary32, share: Binary32) -> bool {
    let unit = pow2(149) as int;
    let exact = from.units() * (unit - share.units()) + to.units() * share.units();
    -(unit * slack()) <= value.units() * unit - exact <= unit * slack()
}

/// The value lies from `from` to `to`, whichever is larger, or past `to` by no more than
/// the roundings.
pub open spec fn lies_between(value: Binary32, from: Binary32, to: Binary32) -> bool {
    if from.units() <= to.units() {
        from.units() <= value.units() <= to.units() + slack()
    } else {
        to.units() - slack() <= value.units() <= from.units()
    }
}

/// How far a value is from another.
pub open spec fn distance(left: Binary32, right: Binary32) -> int {
    if left.units() <= right.units() {
        right.units() - left.units()
    } else {
        left.units() - right.units()
    }
}

/// The later value is no farther from the target than the earlier one, up to roundings.
pub open spec fn comes_closer(earlier: Binary32, later: Binary32, target: Binary32) -> bool {
    distance(later, target) <= distance(earlier, target) || distance(later, target) <= slack()
}

/// The rounding error of a sum below four.
pub proof fn lemma_small_sum_error(left: Binary32, right: Binary32)
    requires
        left.finite(),
        right.finite(),
        left.plus(right).magnitude() < 0x4080_0000,
    ensures
        -pow2(126) <= left.plus(right).units() - (left.units() + right.units()) <= pow2(126),
{
    let exact = left.units() + right.units();
    let sum = left.plus(right);
    let size = (if exact < 0 {
        -exact
    } else {
        exact
    }) as nat;
    lemma_units_of_zero();
    lemma_pow2_unfold(127);
    lemma_pow2_pos(126);
    if exact != 0 {
        lemma_rounded_is_a_number(size, 1);
        let m = sum.magnitude() as nat;
        lemma_step_below_four(m);
        if m > 0 {
            lemma_step_below_four((m - 1) as nat);
        }
        lemma_rounding_error(size, 1, m, pow2(127));
        assert(1 * magnitude_units(m, 23) == magnitude_units(m, 23) && 1 * pow2(127) == pow2(127))
            by (nonlinear_arith);
    }
}

/// The rounding error of a product below four.
pub proof fn lemma_small_product_error(left: Binary32, right: Binary32)
    requires
        left.finite(),
        right.finite(),
        left.times(right).magnitude() < 0x4080_0000,
    ensures
        ({
            let off = left.times(right).units() * pow2(149) - left.units() * right.units();
            -(pow2(149) * pow2(126)) <= off <= pow2(149) * pow2(126)
        }),
{
    let a = magnitude_units(left.magnitude() as nat, 23);
    let b = magnitude_units(right.magnitude() as nat, 23);
    let unit = pow2(149);
    let product = left.times(right);
    lemma_units_of_zero();
    lemma_pow2_unfold(127);
    lemma_pow2_pos(126);
    lemma_pow2_pos(149);
    assert(unit * pow2(127) == 2 * (unit * pow2(126))) by (nonlinear_arith)
        requires
            pow2(127) == 2 * pow2(126),
    ;
    assert(unit * pow2(126) >= 0) by (nonlinear_arith);
    if left.magnitude() == 0 || right.magnitude() == 0 {
        assert(left.units() * right.units() == 0) by (nonlinear_arith)
            requires
                left.units() == 0 || right.units() == 0,
        ;
        assert(product.units() * unit == 0) by (nonlinear_arith)
            requires
                product.units() == 0,
        ;
    } else {
        lemma_rounded_is_a_number(a * b, unit);
        let m = product.magnitude() as nat;
        lemma_step_below_four(m);
        if m > 0 {
            lemma_step_below_four((m - 1) as nat);
        }
        lemma_rounding_error(a * b, unit, m, pow2(127));
        let p = magnitude_units(m, 23) as int;
        let (x, y, u) = (a as int, b as int, unit as int);
        assert((-x) * y == -(x * y) && x * (-y) == -(x * y) && (-x) * (-y) == x * y)
            by (nonlinear_arith);
        assert((-p) * u == -(u * p) && p * u == u * p) by (nonlinear_arith);
    }
}

/// The step towards the target.
proof fn lemma_step(from: Binary32, to: Binary32, share: Binary32)
    requires
        in_signed_range(from),
        in_signed_range(to),
        is_share(share),
    ensures
        ({
            let whole = to.minus(from);
            let size = whole.absolute();
            let step = whole.times(share);
            let part = size.times(share);
            &&& whole.finite() && step.finite()
            &&& step.magnitude() <= 0x4000_0000
            &&& !part.negative() && step.magnitude() == part.magnitude()
            &&& whole.negative() ==> step == part.negated()
            &&& !whole.negative() ==> step == part
        }),
{
    let whole = to.minus(from);
    let size = whole.absolute();
    lemma_signed_difference(from, to);
    lemma_product_is_plain(size, share);
    lemma_product_is_monotone(size, share, size, one());
    lemma_times_one_32(size);
    if whole.negative() {
        lemma_product_flips_sign(size, share);
    }
}

/// At a factor of zero an interpolation is still where it starts.
pub proof fn lemma_interpolation_starts(from: Binary32, to: Binary32, share: Binary32)
    requires
        in_signed_range(from),
        in_signed_range(to),
        share.magnitude() == 0,
    ensures
        from.plus(to.minus(from).times(share)).same_number(from),
{
    lemma_signed_difference(from, to);
    let step = to.minus(from).times(share);
    assert(step.magnitude() == 0);
    lemma_plus_zero_keeps_value_32(from, step);
}

/// Every value of an interpolation lies at its share of the way.
pub proof fn lemma_interpolation_lies_at(from: Binary32, to: Binary32, share: Binary32)
    requires
        in_signed_range(from),
        in_signed_range(to),
        is_share(share),
    ensures
        lies_at(from.plus(to.minus(from).times(share)), from, to, share),
{
    let whole = to.minus(from);
    let step = whole.times(share);
    let value = from.plus(step);
    let unit = pow2(149) as int;
    let q = pow2(126) as int;
    lemma_pow2_pos(149);
    lemma_pow2_pos(126);
    lemma_pow2_unfold(127);
    lemma_pow2_unfold(128);
    lemma_units_of_one();
    lemma_units_of_zero();
    lemma_step(from, to, share);
    lemma_signed_difference(from, to);
    lemma_interpolation_is_bounded(from, to, share);
    lemma_small_sum_error(to, from.negated());
    lemma_small_product_error(whole, share);
    lemma_small_sum_error(from, step);
    share.lemma_rank_orders_values(one());
    let zero = Binary32 { bits: 0 };
    zero.lemma_rank_orders_values(share);
    lemma_errors_add_up(
        from.units(),
        to.units(),
        whole.units(),
        step.units(),
        value.units(),
        share.units(),
        unit,
        q,
    );
}

proof fn lemma_errors_add_up(
    from: int,
    to: int,
    whole: int,
    step: int,
    value: int,
    share: int,
    unit: int,
    q: int,
)
    requires
        unit > 0,
        q > 0,
        0 <= share <= unit,
        -q <= whole - (to - from) <= q,
        -(unit * q) <= step * unit - whole * share <= unit * q,
        -q <= value - (from + step) <= q,
    ensures
        -(unit * (4 * q)) <= value * unit - (from * (unit - share) + to * share) <= unit * (4 * q),
{
    let off = whole - (to - from);
    let last = value - (from + step);
    assert(value * unit - (from * (unit - share) + to * share) == last * unit + (step * unit - whole
        * share) + off * share) by (nonlinear_arith)
        requires
            off == whole - (to - from),
            last == value - (from + step),
    ;
    assert(-(unit * q) <= last * unit <= unit * q) by (nonlinear_arith)
        requires
            -q <= last <= q,
            unit > 0,
    ;
    assert(-(unit * q) <= off * share <= unit * q) by (nonlinear_arith)
        requires
            -q <= off <= q,
            0 <= share <= unit,
            q > 0,
    ;
    assert(unit * (4 * q) == 4 * (unit * q) && unit * q >= 0) by (nonlinear_arith)
        requires
            unit > 0,
            q > 0,
    ;
}

/// A larger share lies farther from where the interpolation starts.
pub proof fn lemma_interpolation_goes_one_way(
    from: Binary32,
    to: Binary32,
    small: Binary32,
    large: Binary32,
)
    requires
        in_signed_range(from),
        in_signed_range(to),
        is_share(small),
        is_share(large),
        small.at_most(large),
    ensures
        ({
            let earlier = from.plus(to.minus(from).times(small));
            let later = from.plus(to.minus(from).times(large));
            &&& from.at_most(to) ==> from.at_most(earlier) && earlier.at_most(later)
            &&& to.at_most(from) ==> later.at_most(earlier) && earlier.at_most(from)
        }),
{
    let whole = to.minus(from);
    let size = whole.absolute();
    let zero = Binary32 { bits: 0 };
    lemma_signed_difference(from, to);
    lemma_step(from, to, small);
    lemma_step(from, to, large);
    lemma_interpolation_is_bounded(from, to, small);
    lemma_interpolation_is_bounded(from, to, large);
    lemma_product_is_monotone(size, small, size, large);
    from.lemma_rank_orders_values(to);
    to.lemma_rank_orders_values(from);
    let first = whole.times(small);
    let second = whole.times(large);
    lemma_plus_zero_keeps_value_32(from, zero);
    if whole.negative() && whole.magnitude() > 0 {
        lemma_sum_is_monotone(from, second, from, first);
        lemma_sum_is_monotone(from, first, from, zero);
    } else if !whole.negative() && whole.magnitude() > 0 {
        lemma_sum_is_monotone(from, first, from, second);
        lemma_sum_is_monotone(from, zero, from, first);
    } else {
        lemma_plus_zero_keeps_value_32(from, first);
        lemma_plus_zero_keeps_value_32(from, second);
    }
}

/// An interpolation stays between its two ends.
pub proof fn lemma_interpolation_lies_between(from: Binary32, to: Binary32, share: Binary32)
    requires
        in_signed_range(from),
        in_signed_range(to),
        is_share(share),
    ensures
        lies_between(from.plus(to.minus(from).times(share)), from, to),
{
    let value = from.plus(to.minus(from).times(share));
    let unit = pow2(149) as int;
    lemma_interpolation_lies_at(from, to, share);
    lemma_interpolation_goes_one_way(from, to, share, share);
    lemma_interpolation_is_bounded(from, to, share);
    from.lemma_rank_orders_values(to);
    to.lemma_rank_orders_values(from);
    from.lemma_rank_orders_values(value);
    value.lemma_rank_orders_values(from);
    lemma_pow2_pos(149);
    lemma_units_of_one();
    lemma_units_of_zero();
    share.lemma_rank_orders_values(one());
    (Binary32 { bits: 0 }).lemma_rank_orders_values(share);
    lemma_pow2_pos(128);
    let (a, b, s, v, z) = (from.units(), to.units(), share.units(), value.units(), slack());
    if a <= b {
        assert(v <= b + z) by (nonlinear_arith)
            requires
                v * unit - (a * (unit - s) + b * s) <= unit * z,
                0 <= s <= unit,
                unit > 0,
                a <= b,
        ;
    } else {
        assert(b - z <= v) by (nonlinear_arith)
            requires
                -(unit * z) <= v * unit - (a * (unit - s) + b * s),
                0 <= s <= unit,
                unit > 0,
                b < a,
        ;
    }
}

/// At a factor of one an interpolation has arrived, up to roundings.
pub proof fn lemma_interpolation_ends(from: Binary32, to: Binary32)
    requires
        in_signed_range(from),
        in_signed_range(to),
    ensures
        distance(from.plus(to.minus(from).times(one())), to) <= slack(),
{
    let value = from.plus(to.minus(from).times(one()));
    let unit = pow2(149) as int;
    lemma_interpolation_lies_at(from, to, one());
    lemma_units_of_one();
    lemma_pow2_pos(149);
    let (a, b, v, z) = (from.units(), to.units(), value.units(), slack());
    assert(b - z <= v <= b + z) by (nonlinear_arith)
        requires
            -(unit * z) <= v * unit - (a * (unit - unit) + b * unit) <= unit * z,
            unit > 0,
    ;
}

/// A larger share is no farther from the target, up to roundings.
pub proof fn lemma_interpolation_comes_closer(
    from: Binary32,
    to: Binary32,
    small: Binary32,
    large: Binary32,
)
    requires
        in_signed_range(from),
        in_signed_range(to),
        is_share(small),
        is_share(large),
        small.at_most(large),
    ensures
        ({
            let earlier = from.plus(to.minus(from).times(small));
            let later = from.plus(to.minus(from).times(large));
            comes_closer(earlier, later, to)
        }),
{
    let earlier = from.plus(to.minus(from).times(small));
    let later = from.plus(to.minus(from).times(large));
    lemma_interpolation_goes_one_way(from, to, small, large);
    lemma_interpolation_lies_between(from, to, large);
    lemma_interpolation_is_bounded(from, to, small);
    lemma_interpolation_is_bounded(from, to, large);
    earlier.lemma_rank_orders_values(later);
    later.lemma_rank_orders_values(earlier);
    from.lemma_rank_orders_values(to);
    to.lemma_rank_orders_values(from);
}

/// The order of the factors of a product does not matter.
pub proof fn lemma_product_commutes(left: Binary32, right: Binary32)
    ensures
        left.times(right) == right.times(left),
{
    let a = magnitude_units(left.magnitude() as nat, 23);
    let b = magnitude_units(right.magnitude() as nat, 23);
    assert(a * b == b * a) by (nonlinear_arith);
}

} // verus!
