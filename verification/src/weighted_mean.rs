//! A mean weighted by energies stays between zero and one, however it is rounded.

use vstd::arithmetic::power2::{lemma_pow2_adds, lemma_pow2_pos, pow2};
use vstd::prelude::*;

use crate::arithmetic::{
    lemma_infinity_64, lemma_nearest_of_exact_64, lemma_sign_of_units_64, lemma_units_of_one_64,
};
use crate::arithmetic_laws::lemma_units_of_one;
use crate::arkit::{in_unit_range, ONE_BITS};
use crate::binary::{lemma_units_increase, magnitude_units, Binary32, Binary64, INFINITY_64};
use crate::binary_convert::{is_nearest, is_wide, lemma_wide_units_increase, wide_units};
use crate::rounding::{lemma_nearest_ratio_exists, lemma_nearest_ratio_is_monotone, nearest_ratio};

verus! {

/// Magnitude of one as a binary64 number.
pub const WIDE_ONE_BITS: u64 = 0x3ff0_0000_0000_0000;

/// A finite number between zero and a given one.
pub open spec fn within(number: Binary64, limit: Binary64) -> bool {
    number.finite() && 0 <= number.rank() <= limit.rank()
}

/// A finite number that is not negative, and carries no sign.
pub open spec fn is_weight(number: Binary64) -> bool {
    number.finite() && !number.negative()
}

/// A rounded ratio is a number: at most infinite.
proof fn lemma_rounded_is_a_number(num: nat, den: nat)
    ensures
        nearest_ratio(num, den, 52, 2047) <= INFINITY_64,
{
    lemma_infinity_64();
    lemma_nearest_ratio_exists(num, den, 52, 2047);
}

/// A number within a limit has a value within the limit's.
proof fn lemma_units_within(number: Binary64, limit: Binary64)
    requires
        within(number, limit),
        is_weight(limit),
    ensures
        0 <= number.units() <= limit.units(),
        number.magnitude() > 0 ==> !number.negative(),
        limit.units() == magnitude_units(limit.magnitude() as nat, 52),
        number.magnitude() > 0 ==> number.units() == magnitude_units(number.magnitude() as nat, 52),
{
    lemma_sign_of_units_64(number);
    number.lemma_rank_orders_values(limit);
}

/// A weight times a fraction stays within the weight.
pub proof fn lemma_fraction_of_a_weight(weight: Binary64, fraction: Binary64)
    requires
        is_weight(weight),
        within(fraction, Binary64 { bits: WIDE_ONE_BITS }),
    ensures
        within(weight.times(fraction), weight),
{
    let one = Binary64 { bits: WIDE_ONE_BITS };
    if weight.magnitude() > 0 && fraction.magnitude() > 0 {
        lemma_units_within(fraction, one);
        lemma_units_of_one_64();
        lemma_infinity_64();
        let a = magnitude_units(weight.magnitude() as nat, 52);
        let b = magnitude_units(fraction.magnitude() as nat, 52);
        let unit = pow2(1074);
        lemma_pow2_pos(1074);
        assert(a * b <= a * unit) by (nonlinear_arith)
            requires
                b <= unit,
        ;
        lemma_nearest_ratio_is_monotone(a * b, a * unit, unit, 52, 2047);
        lemma_nearest_of_exact_64(weight.magnitude() as nat, unit);
    }
}

/// Sums of numbers within limits stay within the sum of the limits.
pub proof fn lemma_sum_within(left: Binary64, right: Binary64, first: Binary64, second: Binary64)
    requires
        is_weight(first),
        is_weight(second),
        first.plus(second).finite(),
        within(left, first),
        within(right, second),
    ensures
        within(left.plus(right), first.plus(second)),
{
    lemma_units_within(left, first);
    lemma_units_within(right, second);
    let low = left.units() + right.units();
    let high = first.units() + second.units();
    if high > 0 {
        lemma_rounded_is_a_number(high as nat, 1);
    }
    if low > 0 {
        lemma_rounded_is_a_number(low as nat, 1);
        lemma_nearest_ratio_is_monotone(low as nat, high as nat, 1, 52, 2047);
    }
}

/// A number within a limit, over that limit, is at most one.
pub proof fn lemma_quotient_within(number: Binary64, limit: Binary64)
    requires
        is_weight(limit),
        limit.magnitude() > 0,
        within(number, limit),
    ensures
        within(number.over(limit), Binary64 { bits: WIDE_ONE_BITS }),
{
    if number.magnitude() > 0 {
        lemma_units_within(number, limit);
        lemma_units_of_one_64();
        lemma_infinity_64();
        let a = magnitude_units(number.magnitude() as nat, 52);
        let b = magnitude_units(limit.magnitude() as nat, 52);
        let unit = pow2(1074);
        lemma_sign_of_units_64(limit);
        assert(a * unit <= unit * b) by (nonlinear_arith)
            requires
                a <= b,
        ;
        lemma_nearest_ratio_is_monotone(a * unit, unit * b, b, 52, 2047);
        lemma_nearest_of_exact_64(WIDE_ONE_BITS as nat, b);
    }
}

/// One has the same value in both formats.
proof fn lemma_wide_one()
    ensures
        wide_units(ONE_BITS as int) == magnitude_units(WIDE_ONE_BITS as nat, 52),
{
    lemma_units_of_one();
    lemma_units_of_one_64();
    lemma_pow2_adds(149, 925);
}

/// A fraction stays a fraction when it is widened.
pub proof fn lemma_wide_fraction(number: Binary32, wide: Binary64)
    requires
        in_unit_range(number),
        is_wide(number.magnitude(), wide.magnitude()),
        wide.negative() == number.negative(),
    ensures
        within(wide, Binary64 { bits: WIDE_ONE_BITS }),
{
    lemma_wide_one();
    if number.magnitude() < ONE_BITS {
        lemma_wide_units_increase(number.magnitude(), ONE_BITS as int);
    }
    if wide.magnitude() > WIDE_ONE_BITS {
        lemma_units_increase(WIDE_ONE_BITS as nat, wide.magnitude() as nat, 52);
    }
    if number.negative() {
        lemma_sign_of_units_64(wide);
        lemma_sign_of_units_64(Binary64 { bits: 0 });
        lemma_wide_zero();
    }
}

/// Zero has the same value in both formats.
proof fn lemma_wide_zero()
    ensures
        wide_units(0) == 0,
{
    crate::arithmetic_laws::lemma_units_of_zero();
    assert(0 * pow2(925) == 0) by (nonlinear_arith);
}

/// A fraction stays a fraction when it is narrowed.
pub proof fn lemma_narrow_fraction(number: Binary64, narrow: Binary32)
    requires
        within(number, Binary64 { bits: WIDE_ONE_BITS }),
        is_nearest(magnitude_units(number.magnitude() as nat, 52) as int, narrow.magnitude()),
        narrow.negative() == number.negative(),
    ensures
        in_unit_range(narrow),
{
    lemma_wide_one();
    lemma_wide_zero();
    let m = narrow.magnitude();
    let units = magnitude_units(number.magnitude() as nat, 52);
    lemma_sign_of_units_64(number);
    if number.magnitude() < WIDE_ONE_BITS {
        lemma_units_increase(number.magnitude() as nat, WIDE_ONE_BITS as nat, 52);
    }
    if m > ONE_BITS {
        if m - 1 > ONE_BITS {
            lemma_wide_units_increase(ONE_BITS as int, m - 1);
        }
        lemma_wide_units_increase(ONE_BITS as int, m);
    }
    if number.negative() && m > 0 {
        lemma_wide_units_increase(0, m);
        if m > 1 {
            lemma_wide_units_increase(0, m - 1);
        }
    }
}

/// Sums of numbers without a sign carry none, and are finite only where both
/// numbers are.
pub proof fn lemma_sum_without_sign(left: Binary64, right: Binary64)
    requires
        !left.negative(),
        !right.negative(),
    ensures
        !left.plus(right).negative(),
        left.plus(right).finite() ==> left.finite() && right.finite(),
{
    lemma_sign_of_units_64(left);
    lemma_sign_of_units_64(right);
    let exact = left.units() + right.units();
    if exact > 0 {
        lemma_rounded_is_a_number(exact as nat, 1);
    }
}

/// A square carries no sign.
pub proof fn lemma_square_without_sign(number: Binary64)
    ensures
        !number.times(number).negative(),
{
    let a = magnitude_units(number.magnitude() as nat, 52);
    lemma_rounded_is_a_number(a * a, pow2(1074));
}

/// A mean of three fractions, weighted by what adds up to a positive total, is a
/// fraction, whatever is rounded on the way.
pub proof fn lemma_weighted_mean_is_a_fraction(
    weights: (Binary64, Binary64, Binary64),
    fractions: (Binary64, Binary64, Binary64),
)
    requires
        !weights.0.negative(),
        !weights.1.negative(),
        !weights.2.negative(),
        weights.0.plus(weights.1).plus(weights.2).finite(),
        weights.0.plus(weights.1).plus(weights.2).positive(),
        within(fractions.0, Binary64 { bits: WIDE_ONE_BITS }),
        within(fractions.1, Binary64 { bits: WIDE_ONE_BITS }),
        within(fractions.2, Binary64 { bits: WIDE_ONE_BITS }),
    ensures
        within(
            weights.0.times(fractions.0).plus(weights.1.times(fractions.1)).plus(
                weights.2.times(fractions.2),
            ).over(weights.0.plus(weights.1).plus(weights.2)),
            Binary64 { bits: WIDE_ONE_BITS },
        ),
{
    let pair = weights.0.plus(weights.1);
    lemma_sum_without_sign(weights.0, weights.1);
    lemma_sum_without_sign(pair, weights.2);
    lemma_fraction_of_a_weight(weights.0, fractions.0);
    lemma_fraction_of_a_weight(weights.1, fractions.1);
    lemma_fraction_of_a_weight(weights.2, fractions.2);
    let first = weights.0.times(fractions.0);
    let second = weights.1.times(fractions.1);
    lemma_sum_within(first, second, weights.0, weights.1);
    lemma_sum_within(first.plus(second), weights.2.times(fractions.2), pair, weights.2);
    lemma_quotient_within(
        first.plus(second).plus(weights.2.times(fractions.2)),
        pair.plus(weights.2),
    );
}

} // verus!
