//! Means of rounded numbers: how close they lie to the exact means.

use vstd::arithmetic::div_mod::lemma_fundamental_div_mod_converse;
use vstd::arithmetic::power2::{
    lemma2_to64, lemma2_to64_rest, lemma_pow2_adds, lemma_pow2_pos, pow2,
};
use vstd::prelude::*;

use crate::arithmetic::{lemma_infinity_64, lemma_nearest_of_exact_64, lemma_sign_of_units_64};
use crate::binary::{magnitude_units, Binary32, Binary64, SIGN_64};
use crate::closeness::{abs_of, lemma_quotient_near_64, lemma_sum_near_64, lemma_value_64, value_64};
use crate::latency_laws::lemma_small_whole;
use crate::matrix::{running_total, total};
use crate::prediction_laws::lemma_abs_of_product;
use crate::rounding::{lemma_nearest_ratio_exists, lemma_nearest_ratio_is_monotone};
use crate::rounding_error::{
    fine_64, half_least_64, lemma_half_least, lemma_quotient, lemma_real_product, lemma_sizes,
};

verus! {

/// The sum of the first `n` values.
pub open spec fn real_sum(values: spec_fn(int) -> real, n: int) -> real
    decreases n,
{
    if n <= 0 {
        0 as real
    } else {
        real_sum(values, n - 1) + values(n - 1)
    }
}

/// The mean of the first `n` values.
pub open spec fn real_mean(values: spec_fn(int) -> real, n: int) -> real {
    real_sum(values, n) / n as real
}

/// Two to the power of `j`.
pub open spec fn wide_power(j: int) -> Binary64 {
    Binary64 { bits: ((1023 + j) * 0x10_0000_0000_0000) as u64 }
}

pub proof fn lemma_wide_power(j: int)
    requires
        -1022 <= j <= 1023,
    ensures
        wide_power(j).finite(),
        !wide_power(j).negative(),
        wide_power(j).magnitude() == (1023 + j) * 0x10_0000_0000_0000,
        magnitude_units(wide_power(j).magnitude() as nat, 52) == pow2((1074 + j) as nat),
{
    lemma2_to64();
    lemma2_to64_rest();
    lemma_infinity_64();
    lemma_fundamental_div_mod_converse((1023 + j) * 0x10_0000_0000_0000, pow2(52) as int, 1023 + j, 0);
    lemma_pow2_adds(52, (1022 + j) as nat);
    assert((pow2(52) + 0) * pow2((1022 + j) as nat) == pow2(52) * pow2((1022 + j) as nat))
        by (nonlinear_arith);
}

/// The value of a number in units.
pub proof fn lemma_units_of_value(number: Binary64, bound: nat)
    requires
        number.finite(),
        abs_of(value_64(number)) <= bound as real,
    ensures
        -(bound * pow2(1074)) <= number.units() <= bound * pow2(1074),
{
    lemma_pow2_pos(1074);
    let t = pow2(1074) as real;
    let u = number.units() as real;
    let x = value_64(number);
    lemma_quotient(u, t);
    lemma_real_product(bound as int, pow2(1074) as int);
    assert(-(bound as real * t) <= u <= bound as real * t) by (nonlinear_arith)
        requires
            x * t == u,
            -(bound as real) <= x <= bound as real,
            t > 0 as real,
    ;
}

/// A sum of moderate numbers is finite.
pub proof fn lemma_moderate_sum_is_finite(left: Binary64, right: Binary64)
    requires
        left.finite(),
        right.finite(),
        abs_of(value_64(left)) <= 0x4000_0000 as real,
        abs_of(value_64(right)) <= 0x4000_0000 as real,
    ensures
        left.plus(right).finite(),
{
    lemma2_to64();
    lemma2_to64_rest();
    lemma_infinity_64();
    lemma_wide_power(31);
    lemma_pow2_adds(31, 1074);
    lemma_pow2_pos(1074);
    lemma_units_of_value(left, 0x4000_0000);
    lemma_units_of_value(right, 0x4000_0000);
    let exact = left.units() + right.units();
    let size = (if exact < 0 {
        -exact
    } else {
        exact
    }) as nat;
    let unit = pow2(1074);
    assert(0x4000_0000 * unit + 0x4000_0000 * unit == 0x8000_0000 * unit) by (nonlinear_arith);
    lemma_nearest_of_exact_64(wide_power(31).magnitude() as nat, 1);
    assert(pow2(1105) * 1 == pow2(1105)) by (nonlinear_arith);
    lemma_nearest_ratio_is_monotone(size, pow2(1105), 1, 52, 2047);
}

/// A relative error, without the fraction.
pub proof fn lemma_parts_64(error: real, size: real)
    requires
        error <= fine_64() * size,
    ensures
        0x20_0000_0000_0000 as real * error <= size,
{
    let f = fine_64();
    lemma_quotient(1 as real, 0x20_0000_0000_0000 as real);
    assert(0x20_0000_0000_0000 as real * error <= size) by (nonlinear_arith)
        requires
            error <= f * size,
            f * 0x20_0000_0000_0000 as real == 1 as real,
    ;
}

/// Running totals of small numbers stay close to the exact sums.
pub proof fn lemma_running_total_is_close(
    numbers: Seq<Binary64>,
    values: spec_fn(int) -> real,
    slack: real,
    n: int,
)
    requires
        0 <= n <= numbers.len(),
        n <= 0x100_0000,
        0 as real <= slack <= 1 as real,
        forall|i: int|
            0 <= i < n ==> (#[trigger] numbers[i]).finite() && abs_of(value_64(numbers[i])) <= 8 as real
                && abs_of(value_64(numbers[i]) - values(i)) <= slack,
    ensures
        running_total(numbers, n).finite(),
        abs_of(value_64(running_total(numbers, n))) <= 9 as real * n as real,
        0x200_0000 as real * (abs_of(value_64(running_total(numbers, n)) - real_sum(values, n)) - slack * n as real)
            <= n as real,
    decreases n,
{
    if n > 0 {
        lemma_running_total_is_close(numbers, values, slack, n - 1);
        let before = running_total(numbers, n - 1);
        let number = numbers[n - 1];
        assert(number.finite());
        let sum = before.plus(number);
        lemma_moderate_sum_is_finite(before, number);
        lemma_sum_near_64(before, number);
        let (a, b, s) = (value_64(before), value_64(number), value_64(sum));
        lemma_parts_64(abs_of(s - (a + b)), abs_of(s));
        assert(slack * n as real == slack * (n - 1) as real + slack) by (nonlinear_arith)
            requires
                n as real == (n - 1) as real + 1 as real,
        ;
    } else {
        let zero = Binary64 { bits: SIGN_64 };
        lemma_infinity_64();
        lemma_value_64(zero);
        lemma_sizes(Binary32 { bits: 0 }, zero);
        assert(slack * 0 as real == 0 as real) by (nonlinear_arith);
    }
}

/// The value of a small whole number.
pub proof fn lemma_count_value(n: nat)
    requires
        n <= 0x1000_0000_0000,
    ensures
        Binary64::of_integer(n).finite(),
        value_64(Binary64::of_integer(n)) == n as real,
        n > 0 ==> Binary64::of_integer(n).magnitude() > 0,
{
    lemma_small_whole(n);
    lemma_pow2_pos(1074);
    let t = pow2(1074) as real;
    lemma_real_product(n as int, pow2(1074) as int);
    assert((n as real * t) / t == n as real) by (nonlinear_arith)
        requires
            t > 0 as real,
    ;
    if n > 0 {
        let number = Binary64::of_integer(n);
        let unit = pow2(1074);
        lemma_sign_of_units_64(Binary64 { bits: 0 });
        assert(n * unit > 0) by (nonlinear_arith)
            requires
                n > 0,
                unit > 0,
        ;
        lemma_sign_of_units_64(number);
    }
}

/// A quotient of moderate numbers by a count is finite.
pub proof fn lemma_moderate_quotient_is_finite(left: Binary64, count: nat)
    requires
        left.finite(),
        abs_of(value_64(left)) <= 0x4000_0000 as real,
        0 < count <= 0x1000_0000_0000,
    ensures
        left.over(Binary64::of_integer(count)).finite(),
{
    let divisor = Binary64::of_integer(count);
    let unit = pow2(1074);
    let a = magnitude_units(left.magnitude() as nat, 52);
    let b = magnitude_units(divisor.magnitude() as nat, 52);
    lemma2_to64();
    lemma2_to64_rest();
    lemma_infinity_64();
    lemma_wide_power(30);
    lemma_pow2_adds(30, 1074);
    lemma_pow2_pos(1074);
    lemma_count_value(count);
    lemma_small_whole(count);
    lemma_units_of_value(left, 0x4000_0000);
    let c = pow2(1104);
    assert(a <= c);
    assert(b == count * unit);
    assert(a * unit <= c * b) by (nonlinear_arith)
        requires
            a <= c,
            b == count * unit,
            count >= 1,
    ;
    assert(b > 0) by (nonlinear_arith)
        requires
            b == count * unit,
            count >= 1,
            unit > 0,
    ;
    lemma_nearest_of_exact_64(wide_power(30).magnitude() as nat, b);
    lemma_nearest_ratio_is_monotone(a * unit, c * b, b, 52, 2047);
    lemma_nearest_ratio_exists(a * unit, b, 52, 2047);
}

/// A sum by its count.
pub proof fn lemma_count_quotient(sum: Binary64, exact: real, slack: real, n: nat)
    requires
        sum.finite(),
        0 < n <= 0x1000_0000_0000,
        0 as real <= slack <= 1 as real,
        abs_of(value_64(sum)) <= 0x4000_0000 as real,
        abs_of(value_64(sum)) <= 9 as real * n as real,
        0x200_0000 as real * (abs_of(value_64(sum) - exact) - slack * n as real) <= n as real,
    ensures
        sum.over(Binary64::of_integer(n)).finite(),
        abs_of(value_64(sum.over(Binary64::of_integer(n)))) <= 10 as real,
        0x100_0000 as real * (abs_of(value_64(sum.over(Binary64::of_integer(n))) - exact / n as real) - slack)
            <= 1 as real,
{
    let divisor = Binary64::of_integer(n);
    let mean = sum.over(divisor);
    lemma_moderate_quotient_is_finite(sum, n);
    lemma_count_value(n);
    lemma_quotient_near_64(sum, divisor);
    lemma_half_least();
    let (s, m, k) = (value_64(sum), value_64(mean), n as real);
    let q = s / k;
    lemma_quotient(s, k);
    lemma_quotient(exact, k);
    let h = half_least_64();
    lemma_parts_64(abs_of(m - q) - h, abs_of(m));
    lemma_tiny_64();
    lemma_abs_of_product(q, k);
    let (aq, asum) = (abs_of(q), abs_of(s));
    assert(aq <= 9 as real) by (nonlinear_arith)
        requires
            aq * k == asum,
            asum <= 9 as real * k,
            k > 0 as real,
    ;
    let off = q - exact / k;
    let e = exact / k;
    assert(off * k == s - exact) by (nonlinear_arith)
        requires
            q * k == s,
            e * k == exact,
            off == q - e,
    ;
    lemma_abs_of_product(off, k);
    let z = abs_of(off);
    assert(0x200_0000 as real * (z - slack) <= 1 as real) by (nonlinear_arith)
        requires
            0x200_0000 as real * (z * k - slack * k) <= k,
            k > 0 as real,
    ;
}

/// Half of the smallest number is tiny.
pub proof fn lemma_tiny_64()
    ensures
        half_least_64() > 0 as real,
        half_least_64() * 0x20_0000_0000_0000 as real <= 1 as real,
{
    lemma_half_least();
    lemma2_to64();
    lemma2_to64_rest();
    lemma_pow2_adds(53, 1021);
    lemma_pow2_pos(1021);
    let h = half_least_64();
    let big = (2 * pow2(1074)) as real;
    let rest = pow2(1021);
    assert(0x20_0000_0000_0000 * rest >= 0x20_0000_0000_0000) by (nonlinear_arith)
        requires
            rest >= 1,
    ;
    assert(0x20_0000_0000_0000 as real <= big);
    assert(h * 0x20_0000_0000_0000 as real <= h * big) by (nonlinear_arith)
        requires
            h > 0 as real,
            0x20_0000_0000_0000 as real <= big,
    ;
}

/// A mean of small numbers lies close to the exact mean of what they stand for.
pub proof fn lemma_mean_is_close(
    numbers: Seq<Binary64>,
    values: spec_fn(int) -> real,
    slack: real,
)
    requires
        0 < numbers.len() <= 0x100_0000,
        0 as real <= slack <= 1 as real,
        forall|i: int|
            0 <= i < numbers.len() ==> (#[trigger] numbers[i]).finite() && abs_of(value_64(numbers[i]))
                <= 8 as real && abs_of(value_64(numbers[i]) - values(i)) <= slack,
    ensures
        ({
            let mean = total(numbers).over(Binary64::of_integer(numbers.len()));
            &&& total(numbers).finite()
            &&& mean.finite()
            &&& abs_of(value_64(mean)) <= 10 as real
            &&& 0x100_0000 as real * (abs_of(
                value_64(mean) - real_mean(values, numbers.len() as int),
            ) - slack) <= 1 as real
        }),
{
    let n = numbers.len();
    lemma_running_total_is_close(numbers, values, slack, n as int);
    lemma_count_quotient(total(numbers), real_sum(values, n as int), slack, n);
}

} // verus!
