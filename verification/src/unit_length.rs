//! A column divided by its rounded length is finite.

use vstd::arithmetic::power2::{lemma2_to64, lemma2_to64_rest, lemma_pow2_adds, lemma_pow2_pos, pow2};
use vstd::prelude::*;

use crate::arithmetic::{
    lemma_infinity_64, lemma_nearest_of_exact_32, lemma_nearest_of_exact_64, lemma_sign_of_units_64,
};
use crate::arithmetic_laws::{lemma_small_units, lemma_units_of_one, lemma_units_of_zero};
use crate::binary::{lemma_units_increase, magnitude_units, Binary32, Binary64, INFINITY_32, INFINITY_64};
use crate::binary_convert::{is_nearest, is_wide, lemma_wide_units_increase, wide_units};
use crate::rounding::{
    infinite_magnitude, lemma_nearest_ratio_exists, lemma_nearest_ratio_is_monotone, lemma_nearest_root_exists,
    lemma_units_of_scaled, nearest_ratio, nearest_root,
};

verus! {

/// A sum that stays finite is at least each of its parts, and is positive only
/// where one of them is.
pub proof fn lemma_sum_grows(total: Binary64, square: Binary64)
    requires
        total.finite() ==> total.rank() >= 0,
        !square.negative(),
        total.plus(square).finite(),
    ensures
        total.finite(),
        square.finite(),
        total.rank() <= total.plus(square).rank(),
        square.rank() <= total.plus(square).rank(),
        total.plus(square).rank() > 0 ==> total.rank() > 0 || square.magnitude() > 0,
{
    lemma_sign_of_units_64(total);
    lemma_sign_of_units_64(square);
    lemma_infinity_64();
    let exact = total.units() + square.units();
    if exact > 0 {
        lemma_nearest_ratio_exists(exact as nat, 1, 52, 2047);
        let a = magnitude_units(total.magnitude() as nat, 52);
        let b = magnitude_units(square.magnitude() as nat, 52);
        lemma_nearest_of_exact_64(total.magnitude() as nat, 1);
        lemma_nearest_of_exact_64(square.magnitude() as nat, 1);
        assert(a * 1 == a && b * 1 == b) by (nonlinear_arith);
        lemma_nearest_ratio_is_monotone(b, exact as nat, 1, 52, 2047);
        if total.magnitude() > 0 {
            lemma_nearest_ratio_is_monotone(a, exact as nat, 1, 52, 2047);
        }
    }
}

/// A root is at least a number whose square the radicand covers.
proof fn lemma_root_covers(total: Binary64, part: nat)
    requires
        total.finite(),
        !total.negative(),
        total.magnitude() > 0,
        part < INFINITY_64,
        magnitude_units(part, 52) * magnitude_units(part, 52) <= magnitude_units(
            total.magnitude() as nat,
            52,
        ) * pow2(1074),
    ensures
        total.root().magnitude() >= part,
        !total.root().negative(),
        !total.root().nan(),
{
    let num = magnitude_units(total.magnitude() as nat, 52) * pow2(1074);
    lemma_infinity_64();
    lemma_nearest_root_exists(num, 52, 2047);
    let m = nearest_root(num, 52, 2047);
    if m < part {
        let p = magnitude_units(part, 52);
        let t = magnitude_units(m, 52) + magnitude_units(m + 1, 52);
        lemma_units_increase(m, part, 52);
        if m + 1 < part {
            lemma_units_increase(m + 1, part, 52);
        }
        assert(t * t < 4 * (p * p)) by (nonlinear_arith)
            requires
                0 <= t < 2 * p,
        ;
    }
}

/// Squares of normal binary32 numbers are exact in binary64.
proof fn lemma_square_is_exact(narrow: nat, wide: Binary64)
    requires
        0x80_0000 <= narrow < INFINITY_32,
        is_wide(narrow as int, wide.magnitude()),
    ensures
        wide.times(wide).finite(),
        magnitude_units(wide.times(wide).magnitude() as nat, 52) * pow2(1074) == magnitude_units(
            wide.magnitude() as nat,
            52,
        ) * magnitude_units(wide.magnitude() as nat, 52),
{
    lemma2_to64();
    lemma2_to64_rest();
    let e = (narrow / 0x80_0000 - 1) as nat;
    let s = 0x80_0000 + narrow % 0x80_0000;
    assert(magnitude_units(narrow, 23) == s * pow2(e));
    let a = magnitude_units(wide.magnitude() as nat, 52);
    assert(a == (s * pow2(e)) * pow2(925));
    let square = s * s;
    assert(0x4000_0000_0000 <= square < 0x1_0000_0000_0000) by (nonlinear_arith)
        requires
            square == s * s,
            0x80_0000 <= s < 0x100_0000,
    ;
    let j: nat = if square < 0x8000_0000_0000 {
        6
    } else {
        5
    };
    let q = square * pow2(j);
    assert(0x10_0000_0000_0000 <= q < 0x20_0000_0000_0000) by (nonlinear_arith)
        requires
            q == square * pow2(j),
            (j == 6 && pow2(j) == 64 && 0x4000_0000_0000 <= square < 0x8000_0000_0000) || (j == 5
                && pow2(j) == 32 && 0x8000_0000_0000 <= square < 0x1_0000_0000_0000),
    ;
    let scale = (2 * e + 776 - j) as nat;
    assert(e <= 253);
    let m = scale * pow2(52) + q;
    lemma_units_of_scaled(scale, q, 52);
    lemma_infinity_64();
    assert(m < infinite_magnitude(52, 2047)) by (nonlinear_arith)
        requires
            m == scale * 0x10_0000_0000_0000 + q,
            scale <= 1300,
            q < 0x20_0000_0000_0000,
            infinite_magnitude(52, 2047) == 0x7ff0_0000_0000_0000,
    ;
    // q * 2^scale * 2^1074 == s^2 * 2^(2e) * 2^1850 == a^2.
    lemma_pow2_adds(j, scale);
    lemma_pow2_adds(e, e);
    lemma_pow2_adds(2 * e, 776);
    lemma_pow2_adds(776, 1074);
    lemma_pow2_adds(925, 925);
    let u = pow2(e);
    let v = pow2(925);
    let unit = pow2(1074);
    assert(q * pow2(scale) == square * (u * u * pow2(776))) by (nonlinear_arith)
        requires
            q == square * pow2(j),
            pow2(j) * pow2(scale) == u * u * pow2(776),
    ;
    assert((q * pow2(scale)) * unit == a * a) by (nonlinear_arith)
        requires
            q * pow2(scale) == (s * s) * (u * u * pow2(776)),
            a == (s * u) * v,
            v * v == pow2(776) * unit,
    ;
    lemma_pow2_pos(1074);
    lemma_nearest_of_exact_64(m, unit);
    lemma_units_of_zero_wide();
    assert(wide.magnitude() > 0) by {
        lemma_pow2_pos(e);
        lemma_pow2_pos(925);
        assert(a > 0) by (nonlinear_arith)
            requires
                a == (s * u) * v,
                s > 0,
                u > 0,
                v > 0,
        ;
    }
}

/// Zero has no value.
proof fn lemma_units_of_zero_wide()
    ensures
        magnitude_units(0, 52) == 0,
{
    lemma_sign_of_units_64(Binary64 { bits: 0 });
}

/// The least positive binary32 number has a square in binary64.
proof fn lemma_least_square(wide: Binary64)
    requires
        wide.finite(),
        magnitude_units(wide.magnitude() as nat, 52) >= pow2(925),
        wide.times(wide).finite(),
    ensures
        magnitude_units(wide.times(wide).magnitude() as nat, 52) >= pow2(776),
{
    lemma2_to64();
    lemma2_to64_rest();
    lemma_infinity_64();
    lemma_units_of_zero_wide();
    lemma_pow2_pos(925);
    lemma_pow2_pos(1074);
    lemma_pow2_adds(925, 925);
    lemma_pow2_adds(776, 1074);
    lemma_pow2_adds(52, 724);
    let a = magnitude_units(wide.magnitude() as nat, 52);
    let v = pow2(925);
    let unit = pow2(1074);
    let m = 724 * pow2(52) + pow2(52);
    lemma_units_of_scaled(724, pow2(52), 52);
    assert(pow2(776) * unit <= a * a) by (nonlinear_arith)
        requires
            v * v == pow2(776) * unit,
            v <= a,
    ;
    lemma_nearest_of_exact_64(m, unit);
    lemma_nearest_ratio_is_monotone(pow2(776) * unit, a * a, unit, 52, 2047);
    lemma_nearest_ratio_exists(a * a, unit, 52, 2047);
    let n = nearest_ratio(a * a, unit, 52, 2047);
    if m < n {
        lemma_units_increase(m, n, 52);
    }
}

/// The length covers each entry: it is at least the least positive number, and at
/// least a normal entry.
pub proof fn lemma_length_covers(entry: Binary32, wide: Binary64, total: Binary64)
    requires
        entry.finite(),
        entry.magnitude() > 0,
        is_wide(entry.magnitude(), wide.magnitude()),
        total.finite(),
        wide.times(wide).finite(),
        wide.times(wide).rank() <= total.rank(),
    ensures
        !total.root().negative(),
        !total.root().nan(),
        magnitude_units(total.root().magnitude() as nat, 52) >= wide_units(1),
        entry.magnitude() >= 0x80_0000 ==> magnitude_units(total.root().magnitude() as nat, 52)
            >= wide_units(entry.magnitude()),
{
    let square = wide.times(wide);
    let num = magnitude_units(total.magnitude() as nat, 52);
    let unit = pow2(1074);
    lemma_pow2_pos(925);
    lemma_pow2_pos(776);
    lemma_pow2_pos(1074);
    lemma_small_units(1);
    assert(1 * pow2(925) == pow2(925)) by (nonlinear_arith);
    assert(wide_units(1) == pow2(925));
    if entry.magnitude() > 1 {
        lemma_wide_units_increase(1, entry.magnitude());
    }
    lemma_least_square(wide);
    lemma_units_of_zero_wide();
    assert(square.magnitude() > 0);
    lemma_nearest_ratio_exists(
        magnitude_units(wide.magnitude() as nat, 52) * magnitude_units(wide.magnitude() as nat, 52),
        unit,
        52,
        2047,
    );
    lemma_infinity_64();
    assert(!square.negative());
    let part = magnitude_units(square.magnitude() as nat, 52);
    if square.magnitude() < total.magnitude() {
        lemma_units_increase(square.magnitude() as nat, total.magnitude() as nat, 52);
    }
    assert(part <= num);
    // The least number.
    let least = 873 * pow2(52) + pow2(52);
    lemma2_to64();
    lemma2_to64_rest();
    lemma_units_of_scaled(873, pow2(52), 52);
    lemma_pow2_adds(52, 873);
    lemma_pow2_adds(925, 925);
    lemma_pow2_adds(776, 1074);
    assert(pow2(925) * pow2(925) <= num * unit) by (nonlinear_arith)
        requires
            pow2(925) * pow2(925) == pow2(776) * unit,
            pow2(776) <= num,
    ;
    lemma_root_covers(total, least);
    let root = total.root().magnitude() as nat;
    if least < root {
        lemma_units_increase(least, root, 52);
    }
    // The entry itself.
    if entry.magnitude() >= 0x80_0000 {
        lemma_square_is_exact(entry.magnitude() as nat, wide);
        let a = magnitude_units(wide.magnitude() as nat, 52);
        assert(a * a <= num * unit) by (nonlinear_arith)
            requires
                part * unit == a * a,
                part <= num,
        ;
        lemma_root_covers(total, wide.magnitude() as nat);
        if wide.magnitude() < root {
            lemma_units_increase(wide.magnitude() as nat, root, 52);
        }
    }
}

/// Narrowing does not fall below a binary32 magnitude that is covered.
pub proof fn lemma_narrow_covers(units: int, nearest: int, part: int)
    requires
        is_nearest(units, nearest),
        0 <= part <= INFINITY_32,
        wide_units(part) <= units,
    ensures
        nearest >= part,
{
    if nearest < part {
        lemma_wide_units_increase(nearest, part);
        if nearest + 1 < part {
            lemma_wide_units_increase(nearest + 1, part);
        }
    }
}

/// Quotients by a divisor that covers the dividend are finite.
pub proof fn lemma_covered_quotient_is_finite(entry: Binary32, divisor: Binary32)
    requires
        entry.finite(),
        !divisor.nan(),
        divisor.magnitude() >= 1,
        entry.magnitude() >= 0x80_0000 ==> divisor.magnitude() >= entry.magnitude(),
    ensures
        entry.over(divisor).finite(),
{
    if divisor.finite() && entry.magnitude() > 0 {
        let a = magnitude_units(entry.magnitude() as nat, 23);
        let b = magnitude_units(divisor.magnitude() as nat, 23);
        let unit = pow2(149);
        lemma_units_of_zero();
        lemma_units_increase(0, divisor.magnitude() as nat, 23);
        lemma2_to64();
        lemma2_to64_rest();
        if entry.magnitude() >= 0x80_0000 {
            if entry.magnitude() < divisor.magnitude() {
                lemma_units_increase(entry.magnitude() as nat, divisor.magnitude() as nat, 23);
            }
            lemma_units_of_one();
            assert(a * unit <= unit * b) by (nonlinear_arith)
                requires
                    a <= b,
            ;
            lemma_nearest_of_exact_32(0x3f80_0000, b);
            lemma_nearest_ratio_is_monotone(a * unit, unit * b, b, 23, 255);
        } else {
            lemma_small_units(entry.magnitude() as nat);
            let large = 0x4b00_0000nat;
            assert(magnitude_units(large, 23) == 0x80_0000 * unit) by {
                assert(large / 0x80_0000 == 150);
                assert(large % 0x80_0000 == 0);
            }
            assert(a * unit <= (0x80_0000 * unit) * b) by (nonlinear_arith)
                requires
                    a <= 0x80_0000,
                    1 <= b,
            ;
            lemma_nearest_of_exact_32(large, b);
            lemma_nearest_ratio_is_monotone(a * unit, (0x80_0000 * unit) * b, b, 23, 255);
        }
    }
}

/// One or minus one times a finite number is finite.
pub proof fn lemma_signed_is_finite(number: Binary32, sign: Binary32)
    requires
        number.finite(),
        sign.magnitude() == 0x3f80_0000,
    ensures
        number.times(sign).finite(),
{
    if number.magnitude() > 0 {
        lemma_units_of_one();
        lemma2_to64();
        lemma2_to64_rest();
        lemma_pow2_pos(149);
        lemma_nearest_of_exact_32(number.magnitude() as nat, pow2(149));
    }
}

} // verus!
