//! How close rounded results lie to exact ones, as real numbers with their signs.

use vstd::arithmetic::power2::{
    lemma2_to64, lemma2_to64_rest, lemma_pow2_adds, lemma_pow2_pos, lemma_pow2_strictly_increases, pow2,
};
use vstd::prelude::*;

use crate::arithmetic::{lemma_infinity_64, lemma_sign_of_units_64, unit_places};
use crate::arithmetic_laws::{lemma_rounded_is_a_number, lemma_units_of_zero};
use crate::binary::{lemma_units_increase, magnitude_units, Binary32, Binary64};
use crate::rounding::{lemma_nearest_ratio_exists, nearest_ratio};
use crate::rounding_error::{
    fine_32, fine_64, half_least_32, half_least_64, lemma_error_in_values, lemma_half_least, lemma_product_error,
    lemma_quotient, lemma_quotient_error, lemma_ratio_error, lemma_real_product, lemma_scaled_product, lemma_sizes,
    size_32, size_64, value_32,
};

verus! {

/// A real number without its sign.
pub open spec fn abs_of(x: real) -> real {
    if x < 0 as real {
        -x
    } else {
        x
    }
}

/// The value of a finite binary64 number.
pub open spec fn value_64(number: Binary64) -> real {
    number.units() as real / pow2(1074) as real
}

/// A quotient flips its sign with its dividend.
proof fn lemma_opposite(a: real, t: real)
    by (nonlinear_arith)
    requires
        t > 0 as real,
    ensures
        (-a) / t == -(a / t),
{
}

/// Quotients add up.
proof fn lemma_quotients_add(a: real, b: real, t: real)
    by (nonlinear_arith)
    requires
        t > 0 as real,
    ensures
        (a + b) / t == a / t + b / t,
        (a + b) / (1 as real * t) == a / t + b / t,
{
}

/// A product of binary64 numbers, without signs.
proof fn lemma_product_error_64(left: Binary64, right: Binary64)
    requires
        left.finite() && right.finite(),
        left.times(right).finite(),
    ensures
        ({
            let exact = size_64(left) * size_64(right);
            let result = size_64(left.times(right));
            &&& exact - result <= fine_64() * result + half_least_64()
            &&& result - exact <= fine_64() * result + half_least_64()
        }),
{
    lemma2_to64();
    lemma2_to64_rest();
    lemma_infinity_64();
    lemma_pow2_pos(1074);
    lemma_half_least();
    let unit = pow2(1074);
    let a = magnitude_units(left.magnitude() as nat, 52);
    let b = magnitude_units(right.magnitude() as nat, 52);
    lemma_sizes(Binary32 { bits: 0 }, left);
    lemma_sizes(Binary32 { bits: 0 }, right);
    lemma_sizes(Binary32 { bits: 0 }, left.times(right));
    if left.magnitude() > 0 && right.magnitude() > 0 {
        lemma_nearest_ratio_exists(a * b, unit, 52, 2047);
        let m = nearest_ratio(a * b, unit, 52, 2047);
        lemma_ratio_error(a * b, unit, 52, 2047, m);
        let u = magnitude_units(m, 52);
        lemma_error_in_values((a * b) as int, unit as int, u as int, pow2(52) as int, unit as int, m >= pow2(52));
        lemma_real_product(a as int, b as int);
        lemma_scaled_product(a as real, b as real, unit as real);
    } else {
        let x = size_64(left);
        let y = size_64(right);
        assert(x * y == 0 as real) by (nonlinear_arith)
            requires
                x == 0 as real || y == 0 as real,
        ;
        assert(fine_64() * 0 as real == 0 as real) by (nonlinear_arith);
    }
}

/// A quotient of binary64 numbers, without signs.
proof fn lemma_quotient_error_64(left: Binary64, right: Binary64)
    requires
        left.finite() && right.finite(),
        right.magnitude() > 0,
        left.over(right).finite(),
    ensures
        ({
            let exact = size_64(left) / size_64(right);
            let result = size_64(left.over(right));
            &&& exact - result <= fine_64() * result + half_least_64()
            &&& result - exact <= fine_64() * result + half_least_64()
        }),
        size_64(right) > 0 as real,
{
    lemma2_to64();
    lemma2_to64_rest();
    lemma_infinity_64();
    lemma_pow2_pos(1074);
    lemma_half_least();
    let unit = pow2(1074);
    let a = magnitude_units(left.magnitude() as nat, 52);
    let b = magnitude_units(right.magnitude() as nat, 52);
    lemma_sign_of_units_64(Binary64 { bits: 0 });
    lemma_units_increase(0, right.magnitude() as nat, 52);
    let t = unit as real;
    let x = a as real;
    let y = b as real;
    lemma_quotient(y, t);
    assert(size_64(right) > 0 as real) by (nonlinear_arith)
        requires
            size_64(right) * t == y,
            y > 0 as real,
            t > 0 as real,
    ;
    lemma_sizes(Binary32 { bits: 0 }, left);
    lemma_sizes(Binary32 { bits: 0 }, left.over(right));
    if left.magnitude() > 0 {
        let num = a * unit;
        lemma_nearest_ratio_exists(num, b, 52, 2047);
        let m = nearest_ratio(num, b, 52, 2047);
        lemma_ratio_error(num, b, 52, 2047, m);
        let u = magnitude_units(m, 52);
        lemma_error_in_values(num as int, b as int, u as int, pow2(52) as int, unit as int, m >= pow2(52));
        lemma_real_product(a as int, unit as int);
        assert((x * t) / (y * t) == (x / t) / (y / t)) by (nonlinear_arith)
            requires
                y > 0 as real,
                t > 0 as real,
        ;
    } else {
        let z = size_64(right);
        assert((0 as real) / z == 0 as real) by (nonlinear_arith)
            requires
                z > 0 as real,
        ;
        assert(fine_64() * 0 as real == 0 as real) by (nonlinear_arith);
    }
}

/// The value is the size with the sign.
pub proof fn lemma_value_32(number: Binary32)
    ensures
        number.negative() ==> value_32(number) == -size_32(number),
        !number.negative() ==> value_32(number) == size_32(number),
        abs_of(value_32(number)) == size_32(number),
        size_32(number) >= 0 as real,
{
    lemma_pow2_pos(149);
    lemma_sizes(number, Binary64 { bits: 0 });
    lemma_opposite(magnitude_units(number.magnitude() as nat, 23) as real, pow2(149) as real);
}

/// A sum, before and after rounding.
pub proof fn lemma_sum_near_32(left: Binary32, right: Binary32)
    requires
        left.finite(),
        right.finite(),
        left.plus(right).finite(),
    ensures
        ({
            let sum = value_32(left.plus(right));
            abs_of(sum - (value_32(left) + value_32(right))) <= fine_32() * abs_of(sum)
        }),
{
    lemma2_to64();
    lemma2_to64_rest();
    lemma_pow2_pos(149);
    lemma_half_least();
    lemma_units_of_zero();
    let sum = left.plus(right);
    let exact = left.units() + right.units();
    let t = pow2(149) as real;
    lemma_value_32(sum);
    lemma_quotients_add(left.units() as real, right.units() as real, t);
    assert(exact as real == left.units() as real + right.units() as real);
    if exact != 0 {
        let num = (if exact < 0 {
            -exact
        } else {
            exact
        }) as nat;
        lemma_rounded_is_a_number(num, 1);
        lemma_nearest_ratio_exists(num, 1, 23, 255);
        let m = nearest_ratio(num, 1, 23, 255);
        lemma_ratio_error(num, 1, 23, 255, m);
        let u = magnitude_units(m, 23);
        assert(1 * u == u) by (nonlinear_arith);
        if m < pow2(23) {
            assert(u == num);
            assert(2 * pow2(23) * (num - u) <= u && 2 * pow2(23) * (u - num) <= u)
                by (nonlinear_arith)
                requires
                    u == num,
                    u >= 0,
            ;
        }
        lemma_error_in_values(num as int, 1, u as int, pow2(23) as int, pow2(149) as int, true);
        lemma_opposite(num as real, t);
        lemma_quotients_add(num as real, 0 as real, t);
        assert(sum.magnitude() == m);
        assert(size_32(sum) == u as real / t);
    } else {
        assert(0 as real / t == 0 as real) by (nonlinear_arith)
            requires
                t > 0 as real,
        ;
        assert(fine_32() * 0 as real == 0 as real) by (nonlinear_arith);
    }
}

/// A whole number, before and after rounding.
pub proof fn lemma_integer_near_32(value: nat)
    requires
        Binary32::of_integer(value).finite(),
    ensures
        ({
            let number = value_32(Binary32::of_integer(value));
            &&& number >= 0 as real
            &&& abs_of(number - value as real) <= fine_32() * number
        }),
{
    lemma2_to64();
    lemma2_to64_rest();
    lemma_pow2_pos(149);
    lemma_half_least();
    lemma_units_of_zero();
    let number = Binary32::of_integer(value);
    let t = pow2(149) as real;
    lemma_value_32(number);
    if value > 0 {
        let num = value * pow2(149);
        assert(unit_places(23) == 149);
        lemma_rounded_is_a_number(num, 1);
        lemma_nearest_ratio_exists(num, 1, 23, 255);
        let m = nearest_ratio(num, 1, 23, 255);
        lemma_ratio_error(num, 1, 23, 255, m);
        let u = magnitude_units(m, 23);
        assert(1 * u == u) by (nonlinear_arith);
        if m < pow2(23) {
            assert(u == num);
            assert(2 * pow2(23) * (num - u) <= u && 2 * pow2(23) * (u - num) <= u)
                by (nonlinear_arith)
                requires
                    u == num,
                    u >= 0,
            ;
        }
        lemma_error_in_values(num as int, 1, u as int, pow2(23) as int, pow2(149) as int, true);
        lemma_real_product(value as int, pow2(149) as int);
        assert((value as real * t) / (1 as real * t) == value as real) by (nonlinear_arith)
            requires
                t > 0 as real,
        ;
        assert(number.magnitude() == m);
        assert(num as real == value as real * t);
        assert(size_32(number) == u as real / t);
    } else {
        lemma_sizes(number, Binary64 { bits: 0 });
        assert(fine_32() * 0 as real == 0 as real) by (nonlinear_arith);
    }
}

/// A product, before and after rounding.
pub proof fn lemma_product_near_32(left: Binary32, right: Binary32)
    requires
        left.finite(),
        right.finite(),
        left.times(right).finite(),
    ensures
        ({
            let product = value_32(left.times(right));
            abs_of(product - value_32(left) * value_32(right)) <= fine_32() * abs_of(product) + half_least_32()
        }),
{
    let product = left.times(right);
    lemma_value_32(left);
    lemma_value_32(right);
    lemma_value_32(product);
    lemma_product_error(left, right);
    let (x, y) = (size_32(left), size_32(right));
    assert((-x) * y == -(x * y) && x * (-y) == -(x * y) && (-x) * (-y) == x * y)
        by (nonlinear_arith);
    if left.magnitude() > 0 && right.magnitude() > 0 {
        let a = magnitude_units(left.magnitude() as nat, 23);
        let b = magnitude_units(right.magnitude() as nat, 23);
        lemma_pow2_pos(149);
        lemma_rounded_is_a_number(a * b, pow2(149));
        assert(product.negative() == (left.negative() != right.negative()));
    } else {
        lemma_pow2_pos(149);
        lemma_sizes(left, Binary64 { bits: 0 });
        lemma_sizes(right, Binary64 { bits: 0 });
        lemma_sizes(product, Binary64 { bits: 0 });
        assert(product.magnitude() == 0);
        assert(x * y == 0 as real) by (nonlinear_arith)
            requires
                x == 0 as real || y == 0 as real,
        ;
    }
}

/// A quotient, before and after rounding.
pub proof fn lemma_quotient_near_32(left: Binary32, right: Binary32)
    requires
        left.finite(),
        right.finite(),
        right.magnitude() > 0,
        left.over(right).finite(),
    ensures
        ({
            let quotient = value_32(left.over(right));
            &&& value_32(right) != 0 as real
            &&& abs_of(quotient - value_32(left) / value_32(right)) <= fine_32() * abs_of(quotient) + half_least_32()
        }),
{
    let quotient = left.over(right);
    lemma_value_32(left);
    lemma_value_32(right);
    lemma_value_32(quotient);
    lemma_quotient_error(left, right);
    let (x, y) = (size_32(left), size_32(right));
    assert((-x) / y == -(x / y) && x / (-y) == -(x / y) && (-x) / (-y) == x / y)
        by (nonlinear_arith)
        requires
            y > 0 as real,
    ;
    if left.magnitude() > 0 {
        let a = magnitude_units(left.magnitude() as nat, 23);
        let b = magnitude_units(right.magnitude() as nat, 23);
        lemma_units_of_zero();
        lemma_units_increase(0, right.magnitude() as nat, 23);
        lemma_rounded_is_a_number(a * pow2(149), b);
        assert(quotient.negative() == (left.negative() != right.negative()));
    } else {
        lemma_sizes(left, Binary64 { bits: 0 });
        lemma_sizes(quotient, Binary64 { bits: 0 });
        assert(0 as real / y == 0 as real) by (nonlinear_arith)
            requires
                y > 0 as real,
        ;
    }
}

/// The value is the size with the sign.
pub proof fn lemma_value_64(number: Binary64)
    ensures
        number.negative() ==> value_64(number) == -size_64(number),
        !number.negative() ==> value_64(number) == size_64(number),
        abs_of(value_64(number)) == size_64(number),
        size_64(number) >= 0 as real,
{
    lemma_pow2_pos(1074);
    lemma_sizes(Binary32 { bits: 0 }, number);
    lemma_opposite(magnitude_units(number.magnitude() as nat, 52) as real, pow2(1074) as real);
}

/// A sum, before and after rounding.
pub proof fn lemma_sum_near_64(left: Binary64, right: Binary64)
    requires
        left.finite(),
        right.finite(),
        left.plus(right).finite(),
    ensures
        ({
            let sum = value_64(left.plus(right));
            abs_of(sum - (value_64(left) + value_64(right))) <= fine_64() * abs_of(sum)
        }),
{
    lemma2_to64();
    lemma2_to64_rest();
    lemma_pow2_pos(1074);
    lemma_half_least();
    lemma_infinity_64();
    lemma_sign_of_units_64(Binary64 { bits: 0 });
    let sum = left.plus(right);
    let exact = left.units() + right.units();
    let t = pow2(1074) as real;
    lemma_value_64(sum);
    lemma_quotients_add(left.units() as real, right.units() as real, t);
    assert(exact as real == left.units() as real + right.units() as real);
    if exact != 0 {
        let num = (if exact < 0 {
            -exact
        } else {
            exact
        }) as nat;
        lemma_nearest_ratio_exists(num, 1, 52, 2047);
        let m = nearest_ratio(num, 1, 52, 2047);
        lemma_ratio_error(num, 1, 52, 2047, m);
        let u = magnitude_units(m, 52);
        assert(1 * u == u) by (nonlinear_arith);
        if m < pow2(52) {
            assert(u == num);
            assert(2 * pow2(52) * (num - u) <= u && 2 * pow2(52) * (u - num) <= u)
                by (nonlinear_arith)
                requires
                    u == num,
                    u >= 0,
            ;
        }
        lemma_error_in_values(num as int, 1, u as int, pow2(52) as int, pow2(1074) as int, true);
        lemma_opposite(num as real, t);
        lemma_quotients_add(num as real, 0 as real, t);
        assert(sum.magnitude() == m);
        assert(size_64(sum) == u as real / t);
    } else {
        assert(0 as real / t == 0 as real) by (nonlinear_arith)
            requires
                t > 0 as real,
        ;
        assert(fine_64() * 0 as real == 0 as real) by (nonlinear_arith);
    }
}

/// A whole number, before and after rounding.
pub proof fn lemma_integer_near_64(value: nat)
    requires
        Binary64::of_integer(value).finite(),
    ensures
        ({
            let number = value_64(Binary64::of_integer(value));
            &&& number >= 0 as real
            &&& abs_of(number - value as real) <= fine_64() * number
        }),
{
    lemma2_to64();
    lemma2_to64_rest();
    lemma_pow2_pos(1074);
    lemma_half_least();
    lemma_infinity_64();
    lemma_sign_of_units_64(Binary64 { bits: 0 });
    let number = Binary64::of_integer(value);
    let t = pow2(1074) as real;
    lemma_value_64(number);
    if value > 0 {
        let num = value * pow2(1074);
        assert(unit_places(52) == 1074);
        lemma_nearest_ratio_exists(num, 1, 52, 2047);
        let m = nearest_ratio(num, 1, 52, 2047);
        lemma_ratio_error(num, 1, 52, 2047, m);
        let u = magnitude_units(m, 52);
        assert(1 * u == u) by (nonlinear_arith);
        if m < pow2(52) {
            assert(u == num);
            assert(2 * pow2(52) * (num - u) <= u && 2 * pow2(52) * (u - num) <= u)
                by (nonlinear_arith)
                requires
                    u == num,
                    u >= 0,
            ;
        }
        lemma_error_in_values(num as int, 1, u as int, pow2(52) as int, pow2(1074) as int, true);
        lemma_real_product(value as int, pow2(1074) as int);
        assert((value as real * t) / (1 as real * t) == value as real) by (nonlinear_arith)
            requires
                t > 0 as real,
        ;
        assert(number.magnitude() == m);
        assert(num as real == value as real * t);
        assert(size_64(number) == u as real / t);
    } else {
        lemma_sizes(Binary32 { bits: 0 }, number);
        assert(fine_64() * 0 as real == 0 as real) by (nonlinear_arith);
    }
}

/// A product, before and after rounding.
pub proof fn lemma_product_near_64(left: Binary64, right: Binary64)
    requires
        left.finite(),
        right.finite(),
        left.times(right).finite(),
    ensures
        ({
            let product = value_64(left.times(right));
            abs_of(product - value_64(left) * value_64(right)) <= fine_64() * abs_of(product) + half_least_64()
        }),
{
    let product = left.times(right);
    lemma_value_64(left);
    lemma_value_64(right);
    lemma_value_64(product);
    lemma_product_error_64(left, right);
    let (x, y) = (size_64(left), size_64(right));
    assert((-x) * y == -(x * y) && x * (-y) == -(x * y) && (-x) * (-y) == x * y)
        by (nonlinear_arith);
    if left.magnitude() > 0 && right.magnitude() > 0 {
        let a = magnitude_units(left.magnitude() as nat, 52);
        let b = magnitude_units(right.magnitude() as nat, 52);
        lemma_pow2_pos(1074);
        lemma2_to64();
        lemma2_to64_rest();
        lemma_infinity_64();
        lemma_nearest_ratio_exists(a * b, pow2(1074), 52, 2047);
        assert(product.negative() == (left.negative() != right.negative()));
    } else {
        lemma_pow2_pos(1074);
        lemma_sizes(Binary32 { bits: 0 }, left);
        lemma_sizes(Binary32 { bits: 0 }, right);
        lemma_sizes(Binary32 { bits: 0 }, product);
        assert(product.magnitude() == 0);
        assert(x * y == 0 as real) by (nonlinear_arith)
            requires
                x == 0 as real || y == 0 as real,
        ;
    }
}

/// A quotient, before and after rounding.
pub proof fn lemma_quotient_near_64(left: Binary64, right: Binary64)
    requires
        left.finite(),
        right.finite(),
        right.magnitude() > 0,
        left.over(right).finite(),
    ensures
        ({
            let quotient = value_64(left.over(right));
            &&& value_64(right) != 0 as real
            &&& abs_of(quotient - value_64(left) / value_64(right)) <= fine_64() * abs_of(quotient) + half_least_64()
        }),
{
    let quotient = left.over(right);
    lemma_value_64(left);
    lemma_value_64(right);
    lemma_value_64(quotient);
    lemma_quotient_error_64(left, right);
    let (x, y) = (size_64(left), size_64(right));
    assert((-x) / y == -(x / y) && x / (-y) == -(x / y) && (-x) / (-y) == x / y)
        by (nonlinear_arith)
        requires
            y > 0 as real,
    ;
    if left.magnitude() > 0 {
        let a = magnitude_units(left.magnitude() as nat, 52);
        let b = magnitude_units(right.magnitude() as nat, 52);
        lemma2_to64();
        lemma2_to64_rest();
        lemma_sign_of_units_64(Binary64 { bits: 0 });
        lemma_units_increase(0, right.magnitude() as nat, 52);
        lemma_infinity_64();
        lemma_nearest_ratio_exists(a * pow2(1074), b, 52, 2047);
        assert(quotient.negative() == (left.negative() != right.negative()));
    } else {
        lemma_sizes(Binary32 { bits: 0 }, left);
        lemma_sizes(Binary32 { bits: 0 }, quotient);
        assert(0 as real / y == 0 as real) by (nonlinear_arith)
            requires
                y > 0 as real,
        ;
    }
}

/// A relative error of one part in sixteen million, without the fraction.
pub proof fn lemma_parts_32(error: real, size: real)
    requires
        error <= fine_32() * size,
    ensures
        0x100_0000 as real * error <= size,
{
    lemma_half_least();
    let f = fine_32();
    assert(0x100_0000 as real * error <= size) by (nonlinear_arith)
        requires
            error <= f * size,
            f * 0x100_0000 as real == 1 as real,
    ;
}

/// The sum, in parts of sixteen million.
pub proof fn lemma_sum_parts(left: Binary32, right: Binary32)
    requires
        left.finite(),
        right.finite(),
        left.plus(right).finite(),
    ensures
        ({
            let sum = value_32(left.plus(right));
            0x100_0000 as real * abs_of(sum - (value_32(left) + value_32(right))) <= abs_of(sum)
        }),
{
    let sum = value_32(left.plus(right));
    lemma_sum_near_32(left, right);
    lemma_parts_32(abs_of(sum - (value_32(left) + value_32(right))), abs_of(sum));
}

/// The difference, in parts of sixteen million.
pub proof fn lemma_difference_parts(left: Binary32, right: Binary32)
    requires
        left.finite(),
        right.finite(),
        left.minus(right).finite(),
    ensures
        ({
            let difference = value_32(left.minus(right));
            0x100_0000 as real * abs_of(difference - (value_32(left) - value_32(right))) <= abs_of(
                difference,
            )
        }),
{
    lemma_sum_parts(left, right.negated());
    lemma_pow2_pos(149);
    lemma_value_32(right);
    lemma_value_32(right.negated());
    assert(value_32(right.negated()) == -value_32(right));
}

/// The product, in parts of sixteen million.
pub proof fn lemma_product_parts(left: Binary32, right: Binary32)
    requires
        left.finite(),
        right.finite(),
        left.times(right).finite(),
    ensures
        ({
            let product = value_32(left.times(right));
            let error = abs_of(product - value_32(left) * value_32(right));
            0x100_0000 as real * (error - half_least_32()) <= abs_of(product)
        }),
{
    let product = value_32(left.times(right));
    lemma_product_near_32(left, right);
    lemma_parts_32(
        abs_of(product - value_32(left) * value_32(right)) - half_least_32(),
        abs_of(product),
    );
}

/// The quotient, in parts of sixteen million.
pub proof fn lemma_quotient_parts(left: Binary32, right: Binary32)
    requires
        left.finite(),
        right.finite(),
        right.magnitude() > 0,
        left.over(right).finite(),
    ensures
        ({
            let quotient = value_32(left.over(right));
            let error = abs_of(quotient - value_32(left) / value_32(right));
            &&& value_32(right) != 0 as real
            &&& 0x100_0000 as real * (error - half_least_32()) <= abs_of(quotient)
        }),
{
    let quotient = value_32(left.over(right));
    lemma_quotient_near_32(left, right);
    lemma_parts_32(
        abs_of(quotient - value_32(left) / value_32(right)) - half_least_32(),
        abs_of(quotient),
    );
}

/// The whole number, in parts of sixteen million.
pub proof fn lemma_integer_parts(value: nat)
    requires
        Binary32::of_integer(value).finite(),
    ensures
        ({
            let number = value_32(Binary32::of_integer(value));
            &&& number >= 0 as real
            &&& 0x100_0000 as real * abs_of(number - value as real) <= number
        }),
{
    let number = value_32(Binary32::of_integer(value));
    lemma_integer_near_32(value);
    lemma_parts_32(abs_of(number - value as real), number);
}

/// Half of the smallest number is tiny.
pub proof fn lemma_half_least_is_tiny()
    ensures
        half_least_32() > 0 as real,
        half_least_32() * 0x1_0000_0000_0000_0000 as real * 0x1_0000_0000_0000_0000 as real <= 1 as real,
{
    lemma_half_least();
    lemma2_to64();
    lemma2_to64_rest();
    lemma_pow2_adds(64, 64);
    lemma_pow2_strictly_increases(128, 149);
    let h = half_least_32();
    let big: nat = 0x1_0000_0000_0000_0000 * 0x1_0000_0000_0000_0000;
    assert(pow2(128) == big);
    assert(h * big as real <= h * (2 * pow2(149)) as real) by (nonlinear_arith)
        requires
            h > 0 as real,
            big as real <= (2 * pow2(149)) as real,
    ;
    lemma_real_product(0x1_0000_0000_0000_0000, 0x1_0000_0000_0000_0000);
    let half = 0x1_0000_0000_0000_0000 as real;
    assert(h * half * half == h * (half * half)) by (nonlinear_arith);
}

} // verus!
