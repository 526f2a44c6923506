//! Arithmetic on numbers from zero to one.

use vstd::arithmetic::div_mod::{lemma_fundamental_div_mod, lemma_fundamental_div_mod_converse};
use vstd::arithmetic::power2::{
    lemma2_to64, lemma2_to64_rest, lemma_pow2_adds, lemma_pow2_pos, lemma_pow2_strictly_increases, lemma_pow2_unfold, pow2,
};
use vstd::prelude::*;

use crate::arithmetic::{
    lemma_nearest_of_exact_32, lemma_plus_zero_32, lemma_plus_zero_keeps_value_32, lemma_times_one_32,
};
use crate::arithmetic_laws::{
    lemma_doubled_units, lemma_half, lemma_product_flips_sign, lemma_product_is_monotone,
    lemma_product_is_plain, lemma_rounded_is_a_number, lemma_sum_is_monotone, lemma_twice,
    lemma_units_of_one, lemma_units_of_zero, one, one_half, plain, two,
};
use crate::binary::{lemma_units_increase, magnitude_units, Binary32};
use crate::rounding::{
    is_nearest_ratio, lemma_nearest_ratio_exists, lemma_nearest_ratio_is_monotone, lemma_nearest_ratio_is_unique,
    nearest_ratio,
};

verus! {

/// From zero to one, and without a sign.
pub open spec fn is_share(number: Binary32) -> bool {
    !number.negative() && number.magnitude() <= 0x3f80_0000
}

/// Below one, neighbours lie at most a sixteen-millionth apart.
pub proof fn lemma_step_below_one(k: nat)
    requires
        k < 0x3f80_0000,
    ensures
        magnitude_units(k, 23) < magnitude_units(k + 1, 23) <= magnitude_units(k, 23) + pow2(125),
{
    lemma_units_increase(k, k + 1, 23);
    lemma2_to64();
    lemma2_to64_rest();
    let base = pow2(23);
    let exponent = k / base;
    let fraction = k % base;
    lemma_fundamental_div_mod(k as int, base as int);
    lemma_pow2_pos(125);
    assert(exponent <= 126);
    if fraction + 1 < base {
        lemma_fundamental_div_mod_converse(
            (k + 1) as int,
            base as int,
            exponent as int,
            (fraction + 1) as int,
        );
        if exponent > 0 {
            let scale = pow2((exponent - 1) as nat);
            if exponent - 1 < 125 {
                lemma_pow2_strictly_increases((exponent - 1) as nat, 125);
            }
            assert((base + fraction + 1) * scale == (base + fraction) * scale + scale)
                by (nonlinear_arith);
        }
    } else {
        lemma_fundamental_div_mod_converse((k + 1) as int, base as int, (exponent + 1) as int, 0);
        if exponent > 0 {
            let scale = pow2((exponent - 1) as nat);
            if exponent - 1 < 125 {
                lemma_pow2_strictly_increases((exponent - 1) as nat, 125);
            }
            lemma_pow2_unfold(exponent);
            assert((base + 0) * (2 * scale) == (base + fraction) * scale + scale)
                by (nonlinear_arith)
                requires
                    fraction + 1 == base,
            ;
        } else {
            assert((base + 0) * pow2(0) == base) by (nonlinear_arith)
                requires
                    pow2(0) == 1,
            ;
        }
    }
}

/// Values from one half to one.
proof fn lemma_upper_half(k: nat)
    requires
        0x3f00_0000 <= k <= 0x3f80_0000,
    ensures
        magnitude_units(k, 23) == (k - 0x3e80_0000) * pow2(125),
{
    lemma2_to64();
    lemma2_to64_rest();
    if k == 0x3f80_0000 {
        lemma_pow2_unfold(126);
        assert((pow2(23) + 0) * (2 * pow2(125)) == 0x100_0000 * pow2(125)) by (nonlinear_arith)
            requires
                pow2(23) == 0x80_0000,
        ;
    } else {
        let fraction = (k - 0x3f00_0000) as nat;
        lemma_fundamental_div_mod_converse(k as int, pow2(23) as int, 126, fraction as int);
    }
}

/// Values from one to two.
proof fn lemma_up_to_two(k: nat)
    requires
        0x3f80_0000 <= k <= 0x4000_0000,
    ensures
        magnitude_units(k, 23) == (k - 0x3f00_0000) * pow2(126),
{
    lemma2_to64();
    lemma2_to64_rest();
    if k == 0x4000_0000 {
        lemma_pow2_unfold(127);
        assert((pow2(23) + 0) * (2 * pow2(126)) == 0x100_0000 * pow2(126)) by (nonlinear_arith)
            requires
                pow2(23) == 0x80_0000,
        ;
    } else {
        let fraction = (k - 0x3f80_0000) as nat;
        lemma_fundamental_div_mod_converse(k as int, pow2(23) as int, 127, fraction as int);
    }
}

/// A product whose exact value is at most one does not round above one.
proof fn lemma_product_up_to_one(left: Binary32, right: Binary32)
    requires
        plain(left),
        plain(right),
        left.units() * right.units() <= pow2(149) * pow2(149),
    ensures
        is_share(left.times(right)),
{
    if left.magnitude() > 0 && right.magnitude() > 0 {
        let unit = pow2(149);
        lemma_pow2_pos(149);
        lemma_units_of_one();
        lemma2_to64();
        lemma2_to64_rest();
        lemma_nearest_of_exact_32(0x3f80_0000, unit);
        lemma_nearest_ratio_is_monotone(
            (left.units() * right.units()) as nat,
            unit * unit,
            unit,
            23,
            255,
        );
    }
}

/// Products stay between zero and one, and below either factor.
pub proof fn lemma_unit_product(left: Binary32, right: Binary32)
    requires
        is_share(left),
        is_share(right),
    ensures
        is_share(left.times(right)),
        left.times(right).at_most(left),
{
    lemma_times_one_32(left);
    lemma_product_is_plain(left, right);
    lemma_product_is_monotone(left, right, left, one());
}

/// What is missing to one.
pub proof fn lemma_unit_complement(share: Binary32)
    requires
        is_share(share),
    ensures
        is_share(one().minus(share)),
{
    let zero = Binary32 { bits: 0x8000_0000 };
    lemma_units_of_one();
    lemma_units_of_zero();
    lemma_sum_is_monotone(one(), share.negated(), one(), zero);
    lemma_plus_zero_32(one(), zero);
    share.lemma_rank_orders_values(one());
    let exact = one().units() - share.units();
    if exact > 0 {
        lemma_rounded_is_a_number(exact as nat, 1);
    }
}

/// Bit pattern of three.
pub open spec fn three() -> Binary32 {
    Binary32 { bits: 0x4040_0000 }
}

/// `v * v * (3 - 2 * v)`.
pub open spec fn eased(v: Binary32) -> Binary32 {
    v.times(v).times(three().minus(two().times(v)))
}

proof fn lemma_units_of_three()
    ensures
        three().units() == 3 * pow2(149),
{
    lemma2_to64();
    lemma2_to64_rest();
    lemma_fundamental_div_mod_converse(0x4040_0000, pow2(23) as int, 128, 0x40_0000);
    lemma_pow2_adds(22, 127);
    assert((pow2(23) + 0x40_0000) * pow2(127) == 3 * (pow2(22) * pow2(127))) by (nonlinear_arith)
        requires
            pow2(23) + 0x40_0000 == 3 * pow2(22),
    ;
}

/// Twice a share is exact.
proof fn lemma_twice_a_share(v: Binary32)
    requires
        is_share(v),
    ensures
        plain(two().times(v)),
        two().times(v).units() == 2 * v.units(),
{
    lemma_product_is_plain(two(), v);
    lemma_product_is_monotone(two(), v, two(), one());
    lemma_times_one_32(two());
    lemma_twice(v);
}

/// Below one half the square is at most a quarter.
proof fn lemma_eased_lower(v: Binary32)
    requires
        is_share(v),
        v.magnitude() < 0x3f00_0000,
    ensures
        is_share(eased(v)),
{
    let unit = pow2(149);
    let square = v.times(v);
    let rest = three().minus(two().times(v));
    let zero = Binary32 { bits: 0x8000_0000 };
    lemma_pow2_pos(149);
    lemma_units_of_one();
    lemma_units_of_three();
    lemma_units_of_zero();
    lemma_twice_a_share(v);
    v.lemma_rank_orders_values(one());
    lemma_sum_is_monotone(three(), two().times(v).negated(), three(), zero);
    lemma_plus_zero_32(three(), zero);
    let exact = three().units() - two().times(v).units();
    lemma_rounded_is_a_number(exact as nat, 1);
    assert(plain(rest));
    rest.lemma_rank_orders_values(three());
    lemma_product_is_plain(v, v);
    lemma_product_is_monotone(v, v, one_half(), one_half());
    lemma_half(one_half());
    lemma_half_units();
    let quarter = one_half().times(one_half());
    square.lemma_rank_orders_values(quarter);
    let a = square.units();
    let b = rest.units();
    assert(a * b <= unit * unit) by (nonlinear_arith)
        requires
            0 <= a,
            0 <= b <= 3 * unit,
            4 * a <= unit,
    ;
    lemma_product_up_to_one(square, rest);
}

proof fn lemma_half_units()
    ensures
        2 * one_half().units() == pow2(149),
{
    lemma_upper_half(0x3f00_0000);
    lemma_pow2_adds(24, 125);
    lemma2_to64();
    lemma2_to64_rest();
    assert(2 * (0x80_0000 * pow2(125)) == 0x100_0000 * pow2(125)) by (nonlinear_arith);
}

/// From one half on, what is left of three is exact.
proof fn lemma_rest_of_three(v: Binary32)
    requires
        is_share(v),
        v.magnitude() >= 0x3f00_0000,
    ensures
        ({
            let rest = three().minus(two().times(v));
            &&& plain(rest)
            &&& rest.units() == (0x100_0000 + 2 * (0x3f80_0000 - v.magnitude())) * pow2(125)
        }),
{
    let m = v.magnitude() as nat;
    let short = (0x3f80_0000 - m) as nat;
    let scale = pow2(125);
    lemma_pow2_pos(125);
    lemma_pow2_unfold(126);
    lemma_pow2_adds(24, 125);
    lemma2_to64();
    lemma2_to64_rest();
    lemma_upper_half(m);
    lemma_units_of_three();
    lemma_twice_a_share(v);
    let exact = three().units() - two().times(v).units();
    assert(exact == (0x100_0000 + 2 * short) * scale) by (nonlinear_arith)
        requires
            exact == 3 * (0x100_0000 * scale) - 2 * ((0x100_0000 - short) * scale),
    ;
    let k = 0x3f80_0000 + short;
    lemma_up_to_two(k);
    assert(magnitude_units(k, 23) == (0x80_0000 + short) * pow2(126));
    assert((0x80_0000 + short) * (2 * scale) == (0x100_0000 + 2 * short) * scale)
        by (nonlinear_arith);
    lemma_nearest_of_exact_32(k, 1);
    assert(magnitude_units(k, 23) * 1 == magnitude_units(k, 23)) by (nonlinear_arith);
    assert(exact > 0) by (nonlinear_arith)
        requires
            exact == (0x100_0000 + 2 * short) * scale,
            scale > 0,
    ;
}

/// Far from one the square falls off faster than its rounding error.
proof fn lemma_square_far_from_one(square: int, short: int, scale: int)
    requires
        2049 <= short <= 0x80_0000,
        scale > 0,
        2 * 0x100_0000 * square <= (2 * ((0x100_0000 - short) * (0x100_0000 - short)) + 0x100_0000) * scale,
    ensures
        square * (0x100_0000 + 2 * short) <= 0x100_0000 * 0x100_0000 * scale,
{
    let n: int = 0x100_0000;
    let rest = n + 2 * short;
    let bound = 2 * ((n - short) * (n - short)) + n;
    assert(bound * rest == 2 * (n * n * n) - 6 * (n * (short * short)) + 4 * (short * (short * short)) + n * n
        + 2 * (n * short)) by (nonlinear_arith)
        requires
            bound == 2 * ((n - short) * (n - short)) + n,
            rest == n + 2 * short,
    ;
    assert(short * (short * short) * 2 <= n * (short * short)) by (nonlinear_arith)
        requires
            0 <= 2 * short <= n,
    ;
    assert(n + 2 * short <= 4 * (short * short)) by (nonlinear_arith)
        requires
            short >= 2049,
            n == 0x100_0000,
    ;
    assert(n * n + 2 * (n * short) <= 4 * (n * (short * short))) by (nonlinear_arith)
        requires
            n + 2 * short <= 4 * (short * short),
            n >= 0,
    ;
    assert(bound * rest <= 2 * (n * n * n));
    assert(2 * n * (square * rest) <= 2 * n * (n * n * scale)) by (nonlinear_arith)
        requires
            2 * n * square <= bound * scale,
            bound * rest <= 2 * (n * n * n),
            rest > 0,
            scale > 0,
    ;
    assert(square * rest <= n * n * scale) by (nonlinear_arith)
        requires
            2 * n * (square * rest) <= 2 * n * (n * n * scale),
            n > 0,
    ;
}

/// From one half on, the square makes up for what exceeds one in the rest.
proof fn lemma_eased_upper(v: Binary32)
    requires
        is_share(v),
        v.magnitude() >= 0x3f00_0000,
    ensures
        is_share(eased(v)),
{
    let m = v.magnitude() as nat;
    let n: int = 0x100_0000;
    let short = 0x3f80_0000 - m;
    let scale = pow2(125) as int;
    let unit = pow2(149) as int;
    let square = v.times(v);
    let rest = three().minus(two().times(v));
    lemma_pow2_pos(125);
    lemma_pow2_pos(149);
    lemma_pow2_adds(24, 125);
    lemma2_to64();
    lemma2_to64_rest();
    lemma_upper_half(m);
    lemma_rest_of_three(v);
    lemma_unit_product(v, v);
    let u = v.units();
    assert(u == (n - short) * scale);
    assert(unit == n * scale);
    let k = square.magnitude() as nat;
    let here = square.units();
    lemma_nearest_ratio_exists((u * u) as nat, unit as nat, 23, 255);
    assert(is_nearest_ratio((u * u) as nat, unit as nat, 23, 255, k));
    if k > 0 {
        let below = magnitude_units((k - 1) as nat, 23) as int;
        lemma_step_below_one((k - 1) as nat);
        assert(unit * (below + here) <= 2 * (u * u));
        if short >= 2049 {
            assert(unit * (2 * here - scale) <= unit * (below + here)) by (nonlinear_arith)
                requires
                    here <= below + scale,
                    unit > 0,
            ;
            assert(2 * n * here <= (2 * ((n - short) * (n - short)) + n) * scale)
                by (nonlinear_arith)
                requires
                    (n * scale) * (2 * here - scale) <= 2 * (((n - short) * scale) * ((n - short) * scale)),
                    scale > 0,
            ;
            lemma_square_far_from_one(here, short, scale);
            assert(here * ((n + 2 * short) * scale) <= unit * unit) by (nonlinear_arith)
                requires
                    here * (n + 2 * short) <= n * n * scale,
                    unit == n * scale,
                    scale > 0,
            ;
        } else {
            let floor = (0x3f80_0000 - 2 * short) as nat;
            lemma_upper_half(floor);
            assert(magnitude_units(floor, 23) == (n - 2 * short) * scale);
            if k > floor {
                if k - 1 > floor {
                    lemma_units_increase(floor, (k - 1) as nat, 23);
                }
                if k > floor + 1 {
                    lemma_units_increase(floor + 1, k, 23);
                }
                lemma_upper_half(floor + 1);
                assert(below + here >= (2 * n - 4 * short + 1) * scale) by (nonlinear_arith)
                    requires
                        below >= (n - 2 * short) * scale,
                        here >= (n - 2 * short + 1) * scale,
                ;
                assert(false) by (nonlinear_arith)
                    requires
                        below + here >= (2 * n - 4 * short + 1) * scale,
                        (n * scale) * (below + here) <= 2 * (((n - short) * scale) * ((n - short) * scale)),
                        0 <= short <= 2048,
                        n == 0x100_0000,
                        scale > 0,
                ;
            }
            if k < floor {
                lemma_units_increase(k, floor, 23);
            }
            assert(here <= (n - 2 * short) * scale);
            assert((n - 2 * short) * (n + 2 * short) == n * n - 4 * (short * short))
                by (nonlinear_arith);
            assert(short * short >= 0) by (nonlinear_arith);
            assert(here * (n + 2 * short) <= ((n - 2 * short) * scale) * (n + 2 * short))
                by (nonlinear_arith)
                requires
                    here <= (n - 2 * short) * scale,
                    n + 2 * short > 0,
            ;
            assert(((n - 2 * short) * scale) * (n + 2 * short) == ((n - 2 * short) * (n + 2 * short))
                * scale) by (nonlinear_arith);
            assert(((n - 2 * short) * (n + 2 * short)) * scale <= n * n * scale) by (nonlinear_arith)
                requires
                    (n - 2 * short) * (n + 2 * short) <= n * n,
                    scale > 0,
            ;
            assert(here * ((n + 2 * short) * scale) <= unit * unit) by (nonlinear_arith)
                requires
                    here * (n + 2 * short) <= n * n * scale,
                    unit == n * scale,
                    scale > 0,
            ;
        }
    } else {
        lemma_units_of_zero();
        assert(here * ((n + 2 * short) * scale) <= unit * unit) by (nonlinear_arith)
            requires
                here == 0,
        ;
    }
    assert(rest.units() == (n + 2 * short) * scale);
    lemma_product_up_to_one(square, rest);
}

/// Easing stays between zero and one.
pub proof fn lemma_eased_is_a_share(v: Binary32)
    requires
        is_share(v),
    ensures
        is_share(eased(v)),
{
    if v.magnitude() < 0x3f00_0000 {
        lemma_eased_lower(v);
    } else {
        lemma_eased_upper(v);
    }
}

/// A share and what is missing to one make one.
pub proof fn lemma_complement_completes(share: Binary32)
    requires
        is_share(share),
    ensures
        share.plus(one().minus(share)) == one(),
{
    let rest = one().minus(share);
    let unit = pow2(149) as int;
    let scale = pow2(125) as int;
    lemma_pow2_pos(125);
    lemma_pow2_adds(24, 125);
    lemma_pow2_unfold(126);
    lemma2_to64();
    lemma2_to64_rest();
    lemma_units_of_one();
    lemma_units_of_zero();
    lemma_unit_complement(share);
    share.lemma_rank_orders_values(one());
    let missing = unit - share.units();
    let k = rest.magnitude() as nat;
    let here = rest.units();
    if missing > 0 {
        lemma_nearest_ratio_exists(missing as nat, 1, 23, 255);
        assert(is_nearest_ratio(missing as nat, 1, 23, 255, k));
        if k > 0 {
            lemma_step_below_one((k - 1) as nat);
        }
        if k < 0x3f80_0000 {
            lemma_step_below_one(k);
        }
    }
    assert(-scale <= 2 * (here - missing) <= scale);
    let exact = share.units() + here;
    lemma_upper_half(0x3f7f_ffff);
    lemma_up_to_two(0x3f80_0001);
    assert(0xff_ffff * scale == 0x100_0000 * scale - scale) by (nonlinear_arith);
    assert(0x80_0001 * (2 * scale) == 0x100_0000 * scale + 2 * scale) by (nonlinear_arith);
    assert(exact > 0);
    assert(is_nearest_ratio(exact as nat, 1, 23, 255, 0x3f80_0000));
    lemma_nearest_ratio_exists(exact as nat, 1, 23, 255);
    lemma_nearest_ratio_is_unique(
        exact as nat,
        1,
        23,
        255,
        0x3f80_0000,
        nearest_ratio(exact as nat, 1, 23, 255),
    );
}

/// A ramp from a share toward one stays between zero and one.
pub proof fn lemma_ramp_is_a_share(start: Binary32, factor: Binary32)
    requires
        is_share(start),
        is_share(factor),
    ensures
        is_share(start.plus(one().minus(start).times(factor))),
{
    let rest = one().minus(start);
    let part = rest.times(factor);
    lemma_unit_complement(start);
    lemma_unit_product(rest, factor);
    lemma_complement_completes(start);
    lemma_sum_is_monotone(start, part, start, rest);
    let exact = start.units() + part.units();
    if exact > 0 {
        lemma_rounded_is_a_number(exact as nat, 1);
    }
}

/// A ramp at its start stands where it starts.
pub proof fn lemma_ramp_starts(start: Binary32)
    requires
        is_share(start),
    ensures
        start.plus(one().minus(start).times(Binary32 { bits: 0 })) == start,
{
    lemma_unit_complement(start);
    lemma_units_of_zero();
    if start.magnitude() > 0 {
        lemma_plus_zero_32(start, Binary32 { bits: 0 });
    }
}

/// A ramp at its end stands at one.
pub proof fn lemma_ramp_ends(start: Binary32)
    requires
        is_share(start),
    ensures
        start.plus(one().minus(start).times(one())) == one(),
{
    lemma_unit_complement(start);
    lemma_times_one_32(one().minus(start));
    lemma_complement_completes(start);
}

/// Easing starts at zero.
pub proof fn lemma_eased_starts()
    ensures
        eased(Binary32 { bits: 0 }) == (Binary32 { bits: 0 }),
{
    lemma_plus_zero_32(three(), Binary32 { bits: 0x8000_0000 });
}

/// Easing ends at one.
pub proof fn lemma_eased_ends()
    ensures
        eased(one()) == one(),
{
    let rest = three().minus(two().times(one()));
    lemma_rest_of_three(one());
    lemma_units_of_one();
    lemma_pow2_adds(24, 125);
    lemma2_to64();
    lemma2_to64_rest();
    rest.lemma_rank_orders_values(one());
    lemma_times_one_32(one());
}

/// A positive number over itself is one.
pub proof fn lemma_self_quotient(number: Binary32)
    requires
        plain(number),
        number.magnitude() > 0,
    ensures
        number.over(number) == one(),
{
    let units = magnitude_units(number.magnitude() as nat, 23);
    lemma_units_of_zero();
    lemma_units_increase(0, number.magnitude() as nat, 23);
    lemma_units_of_one();
    lemma2_to64();
    lemma2_to64_rest();
    lemma_nearest_of_exact_32(0x3f80_0000, units);
    assert(pow2(149) * units == units * pow2(149)) by (nonlinear_arith);
}

/// Below two, neighbours lie at most an eight-millionth apart.
pub proof fn lemma_step_below_two(k: nat)
    requires
        k < 0x4000_0000,
    ensures
        magnitude_units(k + 1, 23) <= magnitude_units(k, 23) + pow2(126),
{
    lemma_pow2_unfold(126);
    if k < 0x3f80_0000 {
        lemma_step_below_one(k);
    } else {
        lemma_up_to_two(k);
        lemma_up_to_two(k + 1);
        assert((k + 1 - 0x3f00_0000) * pow2(126) == (k - 0x3f00_0000) * pow2(126) + pow2(126))
            by (nonlinear_arith);
    }
}

/// From minus one to one.
pub open spec fn in_signed_range(number: Binary32) -> bool {
    number.magnitude() <= 0x3f80_0000
}

/// The difference of two numbers from minus one to one is off by at most a
/// sixteen-millionth.
pub proof fn lemma_signed_difference(from: Binary32, to: Binary32)
    requires
        in_signed_range(from),
        in_signed_range(to),
    ensures
        ({
            let exact = to.units() - from.units();
            let rounded = to.minus(from);
            &&& rounded.finite()
            &&& rounded.magnitude() <= 0x4000_0000
            &&& exact > 0 ==> !rounded.negative()
            &&& exact < 0 ==> rounded.negative()
            &&& exact == 0 ==> rounded.magnitude() == 0
            &&& exact > 0 ==> rounded.units() <= exact + pow2(125)
            &&& exact < 0 ==> rounded.units() >= exact - pow2(125)
        }),
{
    let exact = to.units() - from.units();
    let size = (if exact < 0 {
        -exact
    } else {
        exact
    }) as nat;
    lemma_units_of_one();
    lemma_pow2_unfold(126);
    lemma2_to64();
    lemma2_to64_rest();
    lemma_doubled_units(0x3f80_0000);
    if from.magnitude() < 0x3f80_0000 {
        lemma_units_increase(from.magnitude() as nat, 0x3f80_0000, 23);
    }
    if to.magnitude() < 0x3f80_0000 {
        lemma_units_increase(to.magnitude() as nat, 0x3f80_0000, 23);
    }
    assert(size <= 2 * pow2(149));
    lemma_nearest_of_exact_32(0x4000_0000, 1);
    assert((2 * pow2(149)) * 1 == 2 * pow2(149)) by (nonlinear_arith);
    lemma_nearest_ratio_is_monotone(size, 2 * pow2(149), 1, 23, 255);
    lemma_nearest_ratio_exists(size, 1, 23, 255);
    let k = nearest_ratio(size, 1, 23, 255);
    assert(k <= 0x4000_0000);
    if k > 0 {
        lemma_step_below_two((k - 1) as nat);
    } else {
        lemma_units_of_zero();
    }
}

/// One and a sixteen-millionth round to one.
proof fn lemma_halfway_above_one()
    ensures
        nearest_ratio(pow2(149) + pow2(125), 1, 23, 255) == 0x3f80_0000,
{
    let exact = pow2(149) + pow2(125);
    lemma_units_of_one();
    lemma_pow2_pos(125);
    lemma_pow2_unfold(126);
    lemma_pow2_adds(24, 125);
    lemma2_to64();
    lemma2_to64_rest();
    lemma_upper_half(0x3f7f_ffff);
    lemma_up_to_two(0x3f80_0001);
    assert(0xff_ffff * pow2(125) == 0x100_0000 * pow2(125) - pow2(125)) by (nonlinear_arith);
    assert(0x80_0001 * (2 * pow2(125)) == 0x100_0000 * pow2(125) + 2 * pow2(125))
        by (nonlinear_arith);
    assert(is_nearest_ratio(exact, 1, 23, 255, 0x3f80_0000));
    lemma_nearest_ratio_exists(exact, 1, 23, 255);
    lemma_nearest_ratio_is_unique(
        exact,
        1,
        23,
        255,
        0x3f80_0000,
        nearest_ratio(exact, 1, 23, 255),
    );
}

/// A step of a share of the way between two numbers from minus one to one stays
/// between minus one and one.
pub proof fn lemma_interpolation_is_bounded(from: Binary32, to: Binary32, share: Binary32)
    requires
        in_signed_range(from),
        in_signed_range(to),
        is_share(share),
    ensures
        in_signed_range(from.plus(to.minus(from).times(share))),
{
    let whole = to.minus(from);
    let size = whole.absolute();
    let part = size.times(share);
    let step = whole.times(share);
    let end = from.plus(whole);
    let result = from.plus(step);
    let zero = Binary32 { bits: 0 };
    lemma_signed_difference(from, to);
    lemma_halfway_above_one();
    lemma_units_of_one();
    lemma_units_of_zero();
    lemma2_to64();
    lemma2_to64_rest();
    if to.magnitude() < 0x3f80_0000 {
        lemma_units_increase(to.magnitude() as nat, 0x3f80_0000, 23);
    }
    lemma_product_is_plain(size, share);
    lemma_product_is_monotone(size, share, size, one());
    lemma_times_one_32(size);
    assert(plain(part) && part.at_most(size));
    if whole.negative() {
        lemma_product_flips_sign(size, share);
        assert(step == part.negated());
        lemma_sum_is_monotone(from, whole, from, step);
        lemma_sum_is_monotone(from, step, from, zero);
        lemma_plus_zero_keeps_value_32(from, zero);
        let exact = from.units() + whole.units();
        if exact < 0 {
            lemma_nearest_ratio_is_monotone(
                (-exact) as nat,
                pow2(149) + pow2(125),
                1,
                23,
                255,
            );
        }
        if exact > 0 {
            lemma_rounded_is_a_number(exact as nat, 1);
        }
        assert(-0x3f80_0000 <= end.rank());
        assert(result.rank() <= 0x3f80_0000);
    } else {
        assert(step == part);
        lemma_sum_is_monotone(from, step, from, whole);
        lemma_sum_is_monotone(from, zero, from, step);
        lemma_plus_zero_keeps_value_32(from, zero);
        let exact = from.units() + whole.units();
        if exact > 0 {
            lemma_nearest_ratio_is_monotone(exact as nat, pow2(149) + pow2(125), 1, 23, 255);
        }
        if exact < 0 {
            lemma_rounded_is_a_number((-exact) as nat, 1);
        }
        assert(end.rank() <= 0x3f80_0000);
        assert(-0x3f80_0000 <= result.rank());
    }
}

/// The size of a product goes by the sizes of its factors.
proof fn lemma_product_size(left: Binary32, right: Binary32)
    requires
        left.finite(),
        right.finite(),
    ensures
        left.times(right).magnitude() == left.absolute().times(right.absolute()).magnitude(),
{
    let a = magnitude_units(left.magnitude() as nat, 23);
    let b = magnitude_units(right.magnitude() as nat, 23);
    lemma_rounded_is_a_number(a * b, pow2(149));
}

/// A larger number has a larger product, in size.
pub proof fn lemma_scaling_keeps_order(small: Binary32, large: Binary32, factor: Binary32)
    requires
        factor.finite(),
        factor.magnitude() > 0,
        small.magnitude() <= large.magnitude(),
        small.times(factor).finite(),
    ensures
        small.times(factor).magnitude() <= large.times(factor).magnitude(),
{
    if small.finite() && large.finite() {
        lemma_product_size(small, factor);
        lemma_product_size(large, factor);
        let size = factor.absolute();
        lemma_product_is_plain(small.absolute(), size);
        lemma_product_is_plain(large.absolute(), size);
        lemma_product_is_monotone(small.absolute(), size, large.absolute(), size);
    }
}

/// A share of a finite number is finite.
pub proof fn lemma_share_keeps_finite(number: Binary32, factor: Binary32)
    requires
        number.finite(),
        is_share(factor),
    ensures
        number.times(factor).finite(),
{
    let size = number.absolute();
    lemma_product_size(number, factor);
    lemma_product_is_plain(size, factor);
    lemma_product_is_monotone(size, factor, size, one());
    lemma_times_one_32(size);
}

/// A smaller share of a number is not larger, in size, and has the same sign.
pub proof fn lemma_shares_keep_order(number: Binary32, small: Binary32, large: Binary32)
    requires
        is_share(small),
        is_share(large),
        small.at_most(large),
        number.times(large).finite(),
    ensures
        number.times(small).finite(),
        number.times(small).magnitude() <= number.times(large).magnitude(),
        number.times(small).negative() == number.negative(),
        number.times(large).negative() == number.negative(),
{
    let size = number.absolute();
    let a = magnitude_units(number.magnitude() as nat, 23);
    lemma_rounded_is_a_number(a * magnitude_units(small.magnitude() as nat, 23), pow2(149));
    lemma_rounded_is_a_number(a * magnitude_units(large.magnitude() as nat, 23), pow2(149));
    lemma_share_keeps_finite(number, small);
    lemma_product_size(number, small);
    lemma_product_size(number, large);
    lemma_product_is_plain(size, small);
    lemma_product_is_plain(size, large);
    lemma_product_is_monotone(size, small, size, large);
}

/// A number from minus one to one enlarges nothing.
pub proof fn lemma_signed_factor_enlarges_nothing(number: Binary32, factor: Binary32)
    requires
        in_signed_range(factor),
        number.times(factor).finite(),
    ensures
        number.times(factor).magnitude() <= number.magnitude(),
{
    if number.finite() {
        let size = number.absolute();
        lemma_product_size(number, factor);
        lemma_product_is_plain(size, factor.absolute());
        lemma_product_is_monotone(size, factor.absolute(), size, one());
        lemma_times_one_32(size);
    }
}

/// Below four, neighbours lie at most a four-millionth apart.
pub proof fn lemma_step_below_four(k: nat)
    requires
        k < 0x4080_0000,
    ensures
        magnitude_units(k + 1, 23) <= magnitude_units(k, 23) + pow2(127),
{
    lemma_pow2_unfold(127);
    lemma2_to64();
    lemma2_to64_rest();
    if k < 0x4000_0000 {
        lemma_step_below_two(k);
    } else {
        lemma_up_to_four(k);
        lemma_up_to_four(k + 1);
        assert((k + 1 - 0x3f80_0000) * pow2(127) == (k - 0x3f80_0000) * pow2(127) + pow2(127))
            by (nonlinear_arith);
    }
}

/// Values from two to four.
proof fn lemma_up_to_four(k: nat)
    requires
        0x4000_0000 <= k <= 0x4080_0000,
    ensures
        magnitude_units(k, 23) == (k - 0x3f80_0000) * pow2(127),
{
    lemma2_to64();
    lemma2_to64_rest();
    if k == 0x4080_0000 {
        lemma_pow2_unfold(128);
        assert((pow2(23) + 0) * (2 * pow2(127)) == 0x100_0000 * pow2(127)) by (nonlinear_arith)
            requires
                pow2(23) == 0x80_0000,
        ;
    } else {
        let fraction = (k - 0x4000_0000) as nat;
        lemma_fundamental_div_mod_converse(k as int, pow2(23) as int, 128, fraction as int);
    }
}

/// A ratio rounded to a number between steps of at most `step` is off by at most
/// half of one.
pub proof fn lemma_rounding_error(num: nat, den: nat, m: nat, step: nat)
    requires
        den > 0,
        m == nearest_ratio(num, den, 23, 255),
        m < 0x4080_0000,
        magnitude_units(m + 1, 23) <= magnitude_units(m, 23) + step,
        m > 0 ==> magnitude_units(m, 23) <= magnitude_units((m - 1) as nat, 23) + step,
    ensures
        2 * (num - den * magnitude_units(m, 23)) <= den * step,
        2 * (den * magnitude_units(m, 23) - num) <= den * step,
{
    lemma2_to64();
    lemma2_to64_rest();
    lemma_nearest_ratio_exists(num, den, 23, 255);
    let here = magnitude_units(m, 23);
    let above = magnitude_units(m + 1, 23);
    assert(2 * num <= den * (here + above));
    assert(den * (here + above) <= 2 * (den * here) + den * step) by (nonlinear_arith)
        requires
            above <= here + step,
    ;
    if m > 0 {
        let below = magnitude_units((m - 1) as nat, 23);
        assert(den * (below + here) <= 2 * num);
        assert(2 * (den * here) - den * step <= den * (below + here)) by (nonlinear_arith)
            requires
                here <= below + step,
        ;
    } else {
        lemma_units_of_zero();
        assert(den * 0 == 0) by (nonlinear_arith);
        assert(den * step >= 0) by (nonlinear_arith);
    }
}

/// The exact cubic that easing rounds, in cubed units.
pub open spec fn exact_ease(a: int) -> int {
    a * a * (3 * pow2(149) - 2 * a)
}

/// Easing is off by at most nine thirty-two-millionths.
pub proof fn lemma_eased_error(v: Binary32)
    requires
        is_share(v),
    ensures
        ({
            let unit = pow2(149) as int;
            let limit = 9 * (unit * unit * pow2(125));
            let off = eased(v).units() * (unit * unit) - exact_ease(v.units());
            -limit <= 2 * off <= limit
        }),
{
    let unit = pow2(149) as int;
    let q = pow2(125) as int;
    let a = v.units();
    let square = v.times(v);
    let rest = three().minus(two().times(v));
    let zero = Binary32 { bits: 0x8000_0000 };
    lemma_pow2_pos(149);
    lemma_pow2_pos(125);
    lemma_pow2_unfold(126);
    lemma_pow2_unfold(127);
    lemma_units_of_one();
    lemma_units_of_zero();
    lemma_units_of_three();
    lemma_twice_a_share(v);
    v.lemma_rank_orders_values(one());
    lemma_eased_is_a_share(v);
    // The square.
    lemma_unit_product(v, v);
    let p = square.units();
    square.lemma_rank_orders_values(one());
    if v.magnitude() > 0 {
        let m = square.magnitude() as nat;
        lemma_rounded_is_a_number((a * a) as nat, unit as nat);
        assert(m == nearest_ratio((a * a) as nat, unit as nat, 23, 255));
        if m < 0x3f80_0000 {
            lemma_step_below_one(m);
            if m > 0 {
                lemma_step_below_one((m - 1) as nat);
            }
            lemma_rounding_error((a * a) as nat, unit as nat, m, q as nat);
        } else {
            lemma_step_below_one((m - 1) as nat);
            lemma_step_below_two(m);
            lemma_nearest_ratio_exists((a * a) as nat, unit as nat, 23, 255);
            let below = magnitude_units((m - 1) as nat, 23) as int;
            assert(a * a <= unit * p) by (nonlinear_arith)
                requires
                    0 <= a <= unit,
                    p == unit,
            ;
            assert(unit * (below + p) <= 2 * (a * a));
            assert(2 * (unit * p) - unit * q <= unit * (below + p)) by (nonlinear_arith)
                requires
                    p <= below + q,
                    unit > 0,
            ;
            assert(unit * q > 0) by (nonlinear_arith)
                requires
                    unit > 0,
                    q > 0,
            ;
        }
    } else {
        assert(a == 0 && p == 0);
        assert(0 * 0 == 0 && unit * 0 == 0 && unit * q > 0) by (nonlinear_arith)
            requires
                unit > 0,
                q > 0,
        ;
    }
    assert(2 * (a * a - unit * p) <= unit * q && 2 * (unit * p - a * a) <= unit * q);
    // What is left of three.
    let exact = 3 * unit - 2 * a;
    lemma_sum_is_monotone(three(), two().times(v).negated(), three(), zero);
    lemma_plus_zero_32(three(), zero);
    lemma_rounded_is_a_number(exact as nat, 1);
    rest.lemma_rank_orders_values(three());
    let w = rest.units();
    let n = rest.magnitude() as nat;
    lemma_step_below_four(n);
    if n > 0 {
        lemma_step_below_four((n - 1) as nat);
    }
    lemma_rounding_error(exact as nat, 1, n, (4 * q) as nat);
    assert(1 * w == w && 1 * (4 * q) == 4 * q) by (nonlinear_arith);
    assert(-2 * q <= w - exact <= 2 * q);
    assert(0 <= w <= 3 * unit);
    // Their product.
    let result = eased(v);
    let s = result.units();
    lemma_product_is_plain(square, rest);
    if square.magnitude() > 0 && rest.magnitude() > 0 {
        let k = result.magnitude() as nat;
        lemma_step_below_two(k);
        if k > 0 {
            lemma_step_below_one((k - 1) as nat);
        }
        assert((p * w) as nat == p as nat * w as nat) by (nonlinear_arith)
            requires
                p >= 0,
                w >= 0,
        ;
        lemma_rounded_is_a_number((p * w) as nat, unit as nat);
        assert(k == nearest_ratio((p * w) as nat, unit as nat, 23, 255));
        lemma_rounding_error((p * w) as nat, unit as nat, k, (2 * q) as nat);
    } else {
        assert(s == 0);
        assert(p * w == 0) by (nonlinear_arith)
            requires
                p == 0 || w == 0,
        ;
        assert(unit * 0 == 0 && unit * (2 * q) > 0) by (nonlinear_arith)
            requires
                unit > 0,
                q > 0,
        ;
    }
    assert(2 * (p * w - unit * s) <= unit * (2 * q) && 2 * (unit * s - p * w) <= unit * (2 * q));
    // Together.
    let square_unit = unit * unit;
    assert(square_unit * q >= 0) by (nonlinear_arith)
        requires
            square_unit == unit * unit,
            q > 0,
    ;
    assert(-(square_unit * q) <= s * square_unit - (p * w) * unit <= square_unit * q)
        by (nonlinear_arith)
        requires
            square_unit == unit * unit,
            2 * (p * w - unit * s) <= unit * (2 * q),
            2 * (unit * s - p * w) <= unit * (2 * q),
            unit > 0,
    ;
    assert(-3 * (square_unit * q) <= 2 * ((p * w) * unit - (a * a) * w) <= 3 * (square_unit * q))
        by (nonlinear_arith)
        requires
            square_unit == unit * unit,
            2 * (a * a - unit * p) <= unit * q,
            2 * (unit * p - a * a) <= unit * q,
            0 <= w <= 3 * unit,
            unit > 0,
            q > 0,
    ;
    assert(-2 * (square_unit * q) <= (a * a) * w - (a * a) * exact <= 2 * (square_unit * q))
        by (nonlinear_arith)
        requires
            square_unit == unit * unit,
            -2 * q <= w - exact <= 2 * q,
            0 <= a <= unit,
            q > 0,
    ;
}

/// How the cubic grows over a step.
proof fn lemma_cubic_growth(a: int, h: int, unit: int)
    ensures
        (a + h) * (a + h) * (3 * unit - 2 * (a + h)) - a * a * (3 * unit - 2 * a) == h * (6 * (a * (
        unit - a - h)) + 3 * (h * unit) - 2 * (h * h)),
{
    let b = a + h;
    let aa = a * a;
    let ah = a * h;
    let hh = h * h;
    assert(b * b == aa + 2 * ah + hh) by (nonlinear_arith)
        requires
            b == a + h,
            aa == a * a,
            ah == a * h,
            hh == h * h,
    ;
    let bb = aa + 2 * ah + hh;
    assert(bb * (3 * unit - 2 * b) == 3 * (bb * unit) - 2 * (bb * a) - 2 * (bb * h))
        by (nonlinear_arith)
        requires
            b == a + h,
    ;
    assert(bb * unit == aa * unit + 2 * (ah * unit) + hh * unit) by (nonlinear_arith)
        requires
            bb == aa + 2 * ah + hh,
    ;
    assert(bb * a == aa * a + 2 * (ah * a) + hh * a) by (nonlinear_arith)
        requires
            bb == aa + 2 * ah + hh,
    ;
    assert(bb * h == aa * h + 2 * (ah * h) + hh * h) by (nonlinear_arith)
        requires
            bb == aa + 2 * ah + hh,
    ;
    assert(aa * (3 * unit - 2 * a) == 3 * (aa * unit) - 2 * (aa * a)) by (nonlinear_arith);
    assert(aa * h == ah * a && hh * a == ah * h) by (nonlinear_arith)
        requires
            aa == a * a,
            ah == a * h,
            hh == h * h,
    ;
    let inner = 6 * (a * (unit - a - h)) + 3 * (h * unit) - 2 * hh;
    assert(a * (unit - a - h) == a * unit - aa - ah) by (nonlinear_arith)
        requires
            aa == a * a,
            ah == a * h,
    ;
    let flat = 6 * (a * unit) - 6 * aa - 6 * ah + 3 * (h * unit) - 2 * hh;
    assert(inner == flat);
    assert(h * flat == 6 * (h * (a * unit)) - 6 * (h * aa) - 6 * (h * ah) + 3 * (h * (h * unit)) - 2
        * (h * hh)) by (nonlinear_arith)
        requires
            flat == 6 * (a * unit) - 6 * aa - 6 * ah + 3 * (h * unit) - 2 * hh,
    ;
    assert(h * (a * unit) == ah * unit && h * (h * unit) == hh * unit && h * aa == aa * h && h * ah
        == ah * h && h * hh == hh * h) by (nonlinear_arith)
        requires
            ah == a * h,
            hh == h * h,
    ;
}

/// Easing does not fall where its argument grows by three in four thousand and
/// ninety-six or more, and elsewhere by no more than nine sixteen-millionths.
pub proof fn lemma_eased_keeps_rising(low: Binary32, high: Binary32)
    requires
        is_share(low),
        is_share(high),
        low.at_most(high),
    ensures
        4096 * (high.units() - low.units()) >= 3 * pow2(149) ==> eased(low).at_most(eased(high)),
        eased(low).units() <= eased(high).units() + 9 * pow2(125),
{
    let unit = pow2(149) as int;
    let q = pow2(125) as int;
    let a = low.units();
    let b = high.units();
    let h = b - a;
    lemma_pow2_pos(149);
    lemma_pow2_pos(125);
    lemma_pow2_adds(24, 125);
    lemma2_to64();
    lemma2_to64_rest();
    lemma_units_of_one();
    low.lemma_rank_orders_values(high);
    low.lemma_rank_orders_values(Binary32 { bits: 0 });
    high.lemma_rank_orders_values(one());
    lemma_units_of_zero();
    lemma_eased_error(low);
    lemma_eased_error(high);
    lemma_eased_is_a_share(low);
    lemma_eased_is_a_share(high);
    let growth = exact_ease(b) - exact_ease(a);
    let inner = 6 * (a * (unit - a - h)) + 3 * (h * unit) - 2 * (h * h);
    lemma_cubic_growth(a, h, unit);
    assert(inner >= h * unit) by (nonlinear_arith)
        requires
            inner == 6 * (a * (unit - a - h)) + 3 * (h * unit) - 2 * (h * h),
            0 <= a,
            0 <= h,
            a + h <= unit,
    ;
    assert(growth >= h * (h * unit)) by (nonlinear_arith)
        requires
            growth == h * inner,
            inner >= h * unit,
            h >= 0,
    ;
    assert(h * (h * unit) >= 0) by (nonlinear_arith)
        requires
            h >= 0,
            unit > 0,
    ;
    let x = eased(low).units();
    let y = eased(high).units();
    let square = unit * unit;
    let limit = 9 * (square * q);
    assert(2 * (x * square) <= 2 * (y * square) + 2 * limit - 2 * growth);
    assert(square > 0) by (nonlinear_arith)
        requires
            square == unit * unit,
            unit > 0,
    ;
    assert(x <= y + 9 * q) by (nonlinear_arith)
        requires
            x * square <= y * square + 9 * (square * q),
            square > 0,
    ;
    if 4096 * h >= 3 * unit {
        assert(h >= 12288 * q);
        assert(h * (h * unit) >= limit) by (nonlinear_arith)
            requires
                h >= 12288 * q,
                q > 0,
                unit == 16777216 * q,
                square == unit * unit,
                limit == 9 * (square * q),
        ;
        assert(x <= y) by (nonlinear_arith)
            requires
                x * square <= y * square,
                square > 0,
        ;
        eased(low).lemma_rank_orders_values(eased(high));
    }
}

/// What is left of one is off by at most half a sixteen-millionth.
pub proof fn lemma_complement_error(share: Binary32)
    requires
        is_share(share),
    ensures
        is_share(one().minus(share)),
        -pow2(125) <= 2 * (one().minus(share).units() - (pow2(149) - share.units())) <= pow2(125),
{
    let rest = one().minus(share);
    lemma_unit_complement(share);
    lemma_units_of_one();
    lemma_units_of_zero();
    lemma_pow2_pos(125);
    share.lemma_rank_orders_values(one());
    share.lemma_rank_orders_values(Binary32 { bits: 0 });
    let exact = pow2(149) - share.units();
    if exact > 0 {
        lemma_rounded_is_a_number(exact as nat, 1);
        let m = rest.magnitude() as nat;
        assert(m == nearest_ratio(exact as nat, 1, 23, 255));
        let u = magnitude_units(m, 23) as int;
        if m < 0x3f80_0000 {
            lemma_step_below_one(m);
            if m > 0 {
                lemma_step_below_one((m - 1) as nat);
            }
            lemma_rounding_error(exact as nat, 1, m, pow2(125));
            assert(1 * u == u && 1 * pow2(125) == pow2(125)) by (nonlinear_arith);
        } else {
            lemma_step_below_one((m - 1) as nat);
            lemma2_to64();
            lemma2_to64_rest();
            lemma_nearest_ratio_exists(exact as nat, 1, 23, 255);
            let below = magnitude_units((m - 1) as nat, 23) as int;
            assert(1 * (below + u) == below + u) by (nonlinear_arith);
        }
    }
}

} // verus!
