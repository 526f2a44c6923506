//! Laws of the rounded arithmetic: results are numbers, and rounding keeps order
//! and sign.

use vstd::arithmetic::power2::{lemma2_to64, lemma2_to64_rest, lemma_pow2_adds, lemma_pow2_pos, pow2};
use vstd::prelude::*;

use crate::arithmetic::lemma_nearest_of_exact_32;
use crate::binary::{lemma_units_increase, magnitude_units, Binary32, INFINITY_32};
use crate::rounding::{
    infinite_magnitude, is_nearest_ratio, lemma_nearest_ratio_exists, lemma_nearest_ratio_is_monotone,
    lemma_nearest_ratio_is_unique, lemma_nearest_ratio_of_extended, nearest_ratio, not_rounded_up,
};

verus! {

/// One.
pub open spec fn one() -> Binary32 {
    Binary32 { bits: 0x3f80_0000 }
}

/// Two.
pub open spec fn two() -> Binary32 {
    Binary32 { bits: 0x4000_0000 }
}

/// One half.
pub open spec fn one_half() -> Binary32 {
    Binary32 { bits: 0x3f00_0000 }
}

/// One and a half.
pub open spec fn three_halves() -> Binary32 {
    Binary32 { bits: 0x3fc0_0000 }
}

/// The magnitude of infinity.
proof fn lemma_infinite_magnitude()
    ensures
        infinite_magnitude(23, 255) == INFINITY_32,
{
    lemma2_to64();
    lemma2_to64_rest();
}

/// Zero has no value.
pub proof fn lemma_units_of_zero()
    ensures
        magnitude_units(0, 23) == 0,
{
    lemma2_to64();
    lemma2_to64_rest();
}

/// A rounded ratio is a number: at most infinite.
pub proof fn lemma_rounded_is_a_number(num: nat, den: nat)
    ensures
        nearest_ratio(num, den, 23, 255) <= INFINITY_32,
{
    lemma_infinite_magnitude();
    lemma_nearest_ratio_exists(num, den, 23, 255);
}

/// Equal values have equal magnitudes, and a larger magnitude has a larger value.
proof fn lemma_units_order(left: Binary32, right: Binary32)
    requires
        left.finite(),
        right.finite(),
    ensures
        left.rank() <= right.rank() <==> left.units() <= right.units(),
        left.magnitude() <= right.magnitude() ==> magnitude_units(left.magnitude() as nat, 23)
            <= magnitude_units(right.magnitude() as nat, 23),
{
    left.lemma_rank_orders_values(right);
    if left.magnitude() < right.magnitude() {
        lemma_units_increase(left.magnitude() as nat, right.magnitude() as nat, 23);
    }
}

/// The sum of two finite numbers is a number.
pub proof fn lemma_sum_is_a_number(left: Binary32, right: Binary32)
    requires
        left.finite(),
        right.finite(),
    ensures
        !left.plus(right).nan(),
{
    let exact = left.units() + right.units();
    if exact > 0 {
        lemma_rounded_is_a_number(exact as nat, 1);
    } else if exact < 0 {
        lemma_rounded_is_a_number((-exact) as nat, 1);
    }
}

/// Sums of larger finite numbers are not smaller.
pub proof fn lemma_sum_is_monotone(a: Binary32, b: Binary32, c: Binary32, d: Binary32)
    requires
        a.finite(),
        b.finite(),
        c.finite(),
        d.finite(),
        a.at_most(c),
        b.at_most(d),
    ensures
        a.plus(b).at_most(c.plus(d)),
{
    lemma_units_order(a, c);
    lemma_units_order(b, d);
    lemma_sum_is_a_number(a, b);
    lemma_sum_is_a_number(c, d);
    let low = a.units() + b.units();
    let high = c.units() + d.units();
    if low > 0 {
        lemma_nearest_ratio_is_monotone(low as nat, high as nat, 1, 23, 255);
        lemma_rounded_is_a_number(low as nat, 1);
        lemma_rounded_is_a_number(high as nat, 1);
    } else if high < 0 {
        lemma_nearest_ratio_is_monotone((-high) as nat, (-low) as nat, 1, 23, 255);
        lemma_rounded_is_a_number((-low) as nat, 1);
        lemma_rounded_is_a_number((-high) as nat, 1);
    } else {
        if low < 0 {
            lemma_rounded_is_a_number((-low) as nat, 1);
        }
        if high > 0 {
            lemma_rounded_is_a_number(high as nat, 1);
        }
    }
}

/// A finite number that is not negative, and carries no sign.
pub open spec fn plain(number: Binary32) -> bool {
    number.finite() && !number.negative()
}

/// The product of plain numbers is a number that carries no sign.
pub proof fn lemma_product_is_plain(left: Binary32, right: Binary32)
    requires
        plain(left),
        plain(right),
    ensures
        !left.times(right).nan(),
        !left.times(right).negative(),
{
    let a = magnitude_units(left.magnitude() as nat, 23);
    let b = magnitude_units(right.magnitude() as nat, 23);
    lemma_rounded_is_a_number(a * b, pow2(149));
}

/// Products of larger plain numbers are not smaller.
pub proof fn lemma_product_is_monotone(a: Binary32, b: Binary32, c: Binary32, d: Binary32)
    requires
        plain(a),
        plain(b),
        plain(c),
        plain(d),
        a.at_most(c),
        b.at_most(d),
    ensures
        a.times(b).at_most(c.times(d)),
{
    lemma_units_order(a, c);
    lemma_units_order(b, d);
    lemma_product_is_plain(a, b);
    lemma_product_is_plain(c, d);
    lemma_pow2_pos(149);
    let w = magnitude_units(a.magnitude() as nat, 23);
    let x = magnitude_units(b.magnitude() as nat, 23);
    let y = magnitude_units(c.magnitude() as nat, 23);
    let z = magnitude_units(d.magnitude() as nat, 23);
    assert(w * x <= y * z) by (nonlinear_arith)
        requires
            w <= y,
            x <= z,
    ;
    lemma_nearest_ratio_is_monotone(w * x, y * z, pow2(149), 23, 255);
    lemma_rounded_is_a_number(w * x, pow2(149));
    lemma_rounded_is_a_number(y * z, pow2(149));
}

/// The quotient of plain numbers is a number that carries no sign, unless zero is
/// divided by zero.
pub proof fn lemma_quotient_is_plain(left: Binary32, right: Binary32)
    requires
        plain(left),
        plain(right),
        right.magnitude() > 0,
    ensures
        !left.over(right).nan(),
        !left.over(right).negative(),
{
    let a = magnitude_units(left.magnitude() as nat, 23);
    let b = magnitude_units(right.magnitude() as nat, 23);
    lemma_rounded_is_a_number(a * pow2(149), b);
}

/// Quotients of larger plain numbers by one divisor are not smaller.
pub proof fn lemma_quotient_is_monotone(small: Binary32, large: Binary32, divisor: Binary32)
    requires
        plain(small),
        plain(large),
        plain(divisor),
        divisor.magnitude() > 0,
        small.at_most(large),
    ensures
        small.over(divisor).at_most(large.over(divisor)),
{
    lemma_units_order(small, large);
    lemma_quotient_is_plain(small, divisor);
    lemma_quotient_is_plain(large, divisor);
    lemma_units_of_zero();
    lemma_units_increase(0, divisor.magnitude() as nat, 23);
    let a = magnitude_units(small.magnitude() as nat, 23);
    let b = magnitude_units(large.magnitude() as nat, 23);
    let unit = pow2(149);
    assert(a * unit <= b * unit) by (nonlinear_arith)
        requires
            a <= b,
    ;
    let den = magnitude_units(divisor.magnitude() as nat, 23);
    lemma_nearest_ratio_is_monotone(a * unit, b * unit, den, 23, 255);
    lemma_rounded_is_a_number(a * unit, den);
    lemma_rounded_is_a_number(b * unit, den);
}

/// A positive integer rounds to a positive number.
pub proof fn lemma_integer_is_plain(value: nat)
    ensures
        !Binary32::of_integer(value).nan(),
        !Binary32::of_integer(value).negative(),
        value > 0 ==> Binary32::of_integer(value).magnitude() > 0,
{
    let num = value * pow2(149);
    lemma_rounded_is_a_number(num, 1);
    if value > 0 {
        lemma_infinite_magnitude();
        lemma_nearest_ratio_exists(num, 1, 23, 255);
        lemma_units_of_zero();
        lemma2_to64();
        lemma2_to64_rest();
        lemma_pow2_pos(149);
        assert(num >= 1) by (nonlinear_arith)
            requires
                num == value * pow2(149),
                value >= 1,
                pow2(149) >= 1,
        ;
        if nearest_ratio(num, 1, 23, 255) == 0 {
            assert(magnitude_units(1, 23) == 1);
            assert(not_rounded_up(num, 1, 23, 0));
        }
    }
}

/// Larger integers do not round to smaller numbers.
pub proof fn lemma_integers_are_monotone(small: nat, large: nat)
    requires
        small <= large,
    ensures
        Binary32::of_integer(small).at_most(Binary32::of_integer(large)),
{
    lemma_integer_is_plain(small);
    lemma_integer_is_plain(large);
    let unit = pow2(149);
    assert(small * unit <= large * unit) by (nonlinear_arith)
        requires
            small <= large,
    ;
    lemma_nearest_ratio_is_monotone(small * unit, large * unit, 1, 23, 255);
    lemma_rounded_is_a_number(small * unit, 1);
    lemma_rounded_is_a_number(large * unit, 1);
}

/// Flipping the sign of one factor flips the sign of the product.
pub proof fn lemma_product_flips_sign(left: Binary32, right: Binary32)
    requires
        left.finite(),
        !right.nan(),
        right.finite() || left.magnitude() > 0,
    ensures
        left.negated().times(right) == left.times(right).negated(),
{
    let a = magnitude_units(left.magnitude() as nat, 23);
    let b = magnitude_units(right.magnitude() as nat, 23);
    lemma_rounded_is_a_number(a * b, pow2(149));
}

/// Value of one in units.
pub proof fn lemma_units_of_one()
    ensures
        magnitude_units(0x3f80_0000, 23) == pow2(149),
{
    lemma2_to64();
    lemma2_to64_rest();
    lemma_pow2_adds(23, 126);
    assert((pow2(23) + 0) * pow2(126) == pow2(23) * pow2(126)) by (nonlinear_arith);
}

/// One times a number is that number.
pub proof fn lemma_one_times(number: Binary32)
    requires
        !number.nan(),
    ensures
        one().times(number) == number,
{
    lemma_units_of_one();
    lemma_infinite_magnitude();
    if number.finite() && number.magnitude() > 0 {
        lemma_pow2_pos(149);
        let a = magnitude_units(number.magnitude() as nat, 23);
        lemma_nearest_of_exact_32(number.magnitude() as nat, pow2(149));
        assert(pow2(149) * a == a * pow2(149)) by (nonlinear_arith);
    }
}

/// Up to two to the twenty-fourth a magnitude is its own value.
pub proof fn lemma_small_units(magnitude: nat)
    requires
        magnitude <= 0x100_0000,
    ensures
        magnitude_units(magnitude, 23) == magnitude,
{
    lemma2_to64();
    lemma2_to64_rest();
    if magnitude == 0x100_0000 {
        assert((pow2(23) + 0) * pow2(1) == 0x100_0000) by (nonlinear_arith)
            requires
                pow2(23) == 0x80_0000,
                pow2(1) == 2,
        ;
    } else if magnitude >= 0x80_0000 {
        assert(magnitude / 0x80_0000 == 1);
        assert((pow2(23) + magnitude % 0x80_0000) * pow2(0) == magnitude) by (nonlinear_arith)
            requires
                pow2(23) == 0x80_0000,
                pow2(0) == 1,
                magnitude == 0x80_0000 + magnitude % 0x80_0000,
        ;
    }
}

/// The magnitude of twice the value.
pub open spec fn doubled(magnitude: nat) -> nat {
    if magnitude < 0x80_0000 {
        2 * magnitude
    } else {
        magnitude + 0x80_0000
    }
}

/// A doubled magnitude has twice the value.
pub proof fn lemma_doubled_units(magnitude: nat)
    ensures
        magnitude_units(doubled(magnitude), 23) == 2 * magnitude_units(magnitude, 23),
{
    lemma2_to64();
    lemma2_to64_rest();
    if magnitude < 0x80_0000 {
        lemma_small_units(magnitude);
        lemma_small_units(2 * magnitude);
    } else {
        let exponent = magnitude / 0x80_0000;
        let fraction = magnitude % 0x80_0000;
        assert((magnitude + 0x80_0000) / 0x80_0000 == exponent + 1);
        assert((magnitude + 0x80_0000) % 0x80_0000 == fraction);
        vstd::arithmetic::power2::lemma_pow2_unfold(exponent);
        let low = pow2((exponent - 1) as nat);
        assert((pow2(23) + fraction) * (2 * low) == 2 * ((pow2(23) + fraction) * low))
            by (nonlinear_arith);
    }
}

/// Twice a plain number is exact unless it overflows.
pub proof fn lemma_twice(number: Binary32)
    requires
        plain(number),
        two().times(number).finite(),
    ensures
        two().times(number).units() == 2 * number.units(),
{
    let m = number.magnitude() as nat;
    let u = magnitude_units(m, 23);
    let two = magnitude_units(0x4000_0000, 23);
    lemma_units_of_one();
    lemma_doubled_units(0x3f80_0000);
    lemma_doubled_units(m);
    lemma_infinite_magnitude();
    lemma_units_of_zero();
    lemma_pow2_pos(149);
    if m > 0 {
        let unit = pow2(149);
        assert(two * u == (2 * u) * unit) by (nonlinear_arith)
            requires
                two == 2 * unit,
        ;
        lemma_rounded_is_a_number(two * u, unit);
        if doubled(m) <= INFINITY_32 {
            lemma_nearest_of_exact_32(doubled(m), unit);
        } else {
            let top = INFINITY_32 as nat;
            lemma_units_increase(top, doubled(m), 23);
            let limit = magnitude_units(top, 23);
            assert(limit * unit <= (2 * u) * unit) by (nonlinear_arith)
                requires
                    limit <= 2 * u,
            ;
            lemma_nearest_ratio_is_monotone(limit * unit, two * u, unit, 23, 255);
            lemma_nearest_of_exact_32(top, unit);
        }
    }
}

/// Half a plain number of even value is exact, and half of one above a multiple of
/// four rounds down.
pub proof fn lemma_half(number: Binary32)
    requires
        plain(number),
        number.magnitude() >= 0x100_0000 || number.magnitude() % 4 != 3,
    ensures
        ({
            let half = one_half().times(number);
            &&& plain(half)
            &&& 2 * half.units() == number.units() || 2 * half.units() + 1 == number.units()
        }),
{
    let m = number.magnitude() as nat;
    let u = magnitude_units(m, 23);
    let half = magnitude_units(0x3f00_0000, 23);
    lemma_doubled_units(0x3f00_0000);
    lemma_units_of_one();
    lemma_infinite_magnitude();
    lemma_units_of_zero();
    lemma_pow2_pos(148);
    vstd::arithmetic::power2::lemma_pow2_unfold(149);
    let unit = pow2(148);
    assert(half == unit);
    assert(pow2(149) == 2 * unit);
    if m > 0 {
        assert(half * u == u * unit) by (nonlinear_arith)
            requires
                half == unit,
        ;
        lemma_nearest_ratio_of_extended(u, 2, unit, 23, 255);
        assert(nearest_ratio(half * u, pow2(149), 23, 255) == nearest_ratio(u, 2, 23, 255));
        if m >= 0x100_0000 {
            let h = (m - 0x80_0000) as nat;
            lemma_doubled_units(h);
            lemma_nearest_of_exact_32(h, 2);
        } else if m % 2 == 0 {
            let h = m / 2;
            lemma_small_units(m);
            lemma_small_units(h);
            lemma_nearest_of_exact_32(h, 2);
        } else {
            let h = ((m - 1) / 2) as nat;
            lemma_small_units(m);
            lemma_small_units(h);
            lemma_small_units(h + 1);
            if h > 0 {
                lemma_small_units((h - 1) as nat);
            }
            assert(is_nearest_ratio(u, 2, 23, 255, h));
            lemma_nearest_ratio_is_unique(u, 2, 23, 255, h, nearest_ratio(u, 2, 23, 255));
        }
    }
}

/// The magnitude whose rounded half, added to it, rounds past its rounded one and
/// a half: three above a multiple of four smallest units, unless the sum is so
/// large that it rounds back down.
pub open spec fn overshoots(magnitude: int) -> bool {
    &&& magnitude < 0x100_0000
    &&& magnitude % 4 == 3
    &&& magnitude % 8 == 7 || 3 * magnitude + 1 < 0x200_0000
}

/// One and a half in units.
proof fn lemma_units_of_three_halves()
    ensures
        magnitude_units(0x3fc0_0000, 23) == 3 * pow2(148),
        pow2(149) == 2 * pow2(148),
        pow2(148) > 0,
{
    lemma_pow2_pos(148);
    vstd::arithmetic::power2::lemma_pow2_unfold(149);
    lemma2_to64();
    lemma2_to64_rest();
    lemma_pow2_adds(22, 126);
    vstd::arithmetic::div_mod::lemma_fundamental_div_mod_converse(
        0x3fc0_0000,
        pow2(23) as int,
        127,
        0x40_0000,
    );
    assert((pow2(23) + 0x40_0000) * pow2(126) == 3 * (pow2(22) * pow2(126))) by (nonlinear_arith)
        requires
            pow2(23) + 0x40_0000 == 3 * pow2(22),
    ;
}

/// One and a half of a positive number, as a ratio of its units.
proof fn lemma_three_halves_ratio(number: Binary32)
    requires
        plain(number),
        number.magnitude() > 0,
    ensures
        three_halves().times(number).magnitude() == nearest_ratio(
            3 * magnitude_units(number.magnitude() as nat, 23),
            2,
            23,
            255,
        ),
        !three_halves().times(number).negative(),
{
    let u = magnitude_units(number.magnitude() as nat, 23);
    let factor = magnitude_units(0x3fc0_0000, 23);
    let unit = pow2(148);
    lemma_units_of_three_halves();
    assert(factor * u == (3 * u) * unit) by (nonlinear_arith)
        requires
            factor == 3 * unit,
    ;
    lemma_nearest_ratio_of_extended(3 * u, 2, unit, 23, 255);
    lemma_rounded_is_a_number(factor * u, pow2(149));
}

/// Half of a number three above a multiple of four rounds up.
proof fn lemma_half_up(number: Binary32)
    requires
        plain(number),
        number.magnitude() < 0x100_0000,
        number.magnitude() % 4 == 3,
    ensures
        ({
            let half = one_half().times(number);
            plain(half) && 2 * half.units() == number.units() + 1
        }),
{
    let m = number.magnitude() as nat;
    let half = magnitude_units(0x3f00_0000, 23);
    lemma_doubled_units(0x3f00_0000);
    lemma_units_of_one();
    lemma_infinite_magnitude();
    lemma_units_of_three_halves();
    let unit = pow2(148);
    assert(half * m == m * unit) by (nonlinear_arith)
        requires
            half == unit,
    ;
    lemma_nearest_ratio_of_extended(m, 2, unit, 23, 255);
    let h = (m + 1) / 2;
    lemma_small_units(m);
    lemma_small_units((h - 1) as nat);
    lemma_small_units(h);
    lemma_small_units(h + 1);
    assert(is_nearest_ratio(m, 2, 23, 255, h));
    lemma_nearest_ratio_is_unique(m, 2, 23, 255, h, nearest_ratio(m, 2, 23, 255));
}

/// What a number three above a multiple of four smallest units becomes: with its
/// rounded half added, and multiplied by one and a half.
#[verifier::spinoff_prover]
#[verifier::rlimit(60)]
pub proof fn lemma_past_one_and_a_half(number: Binary32)
    requires
        plain(number),
        number.magnitude() < 0x100_0000,
        number.magnitude() % 4 == 3,
    ensures
        ({
            let sum = number.plus(one_half().times(number));
            let product = three_halves().times(number);
            &&& plain(sum) && plain(product)
            &&& overshoots(number.magnitude()) ==> sum.magnitude() == product.magnitude() + 1
            &&& !overshoots(number.magnitude()) ==> sum.magnitude() == product.magnitude()
        }),
{
    let m = number.magnitude() as nat;
    let half = one_half().times(number);
    lemma_half_up(number);
    lemma_three_halves_ratio(number);
    lemma_small_units(m);
    lemma_infinite_magnitude();
    let v = ((3 * m - 1) / 2) as nat;
    let sum = (number.units() + half.units()) as nat;
    assert(sum == v + 1);
    assert(2 * v + 1 == 3 * m);
    if v + 1 < 0x100_0000 {
        lemma_small_rounds(m, v);
    } else {
        lemma_large_rounds(m, v);
    }
}

/// Where the halves of three times a number are exact in units.
proof fn lemma_small_rounds(m: nat, v: nat)
    requires
        2 * v + 1 == 3 * m,
        v % 2 == 0,
        v >= 1,
        v + 1 < 0x100_0000,
    ensures
        nearest_ratio(3 * m, 2, 23, 255) == v,
        nearest_ratio(v + 1, 1, 23, 255) == v + 1,
{
    lemma_infinite_magnitude();
    lemma_small_units((v - 1) as nat);
    lemma_small_units(v);
    lemma_small_units(v + 1);
    lemma_nearest_of_exact_32(v + 1, 1);
    assert(magnitude_units(v + 1, 23) * 1 == v + 1) by (nonlinear_arith)
        requires
            magnitude_units(v + 1, 23) == v + 1,
    ;
    assert(is_nearest_ratio(3 * m, 2, 23, 255, v));
    lemma_nearest_ratio_is_unique(3 * m, 2, 23, 255, v, nearest_ratio(3 * m, 2, 23, 255));
}

/// Where neighbours lie two units apart.
#[verifier::spinoff_prover]
#[verifier::rlimit(40)]
proof fn lemma_large_rounds(m: nat, v: nat)
    requires
        2 * v + 1 == 3 * m,
        v % 2 == 0,
        0x100_0000 <= v + 1 < 0x1ff_fffe,
    ensures
        nearest_ratio(3 * m, 2, 23, 255) == 0x80_0000 + v / 2,
        nearest_ratio(v + 1, 1, 23, 255) == 0x80_0000 + v / 2 + (v / 2) % 2,
{
    let sum = v + 1;
    let q = v / 2;
    assert(v == 2 * q);
    lemma_infinite_magnitude();
    lemma2_to64();
    lemma2_to64_rest();
    assert(0x80_0000 <= q < 0xff_ffff);
    crate::rounding::lemma_units_of_scaled(1, q, 23);
    crate::rounding::lemma_units_of_scaled(1, q + 1, 23);
    let low = 0x80_0000 + q;
    assert(magnitude_units(low, 23) == v);
    assert(magnitude_units(low + 1, 23) == v + 2);
    if q == 0x80_0000 {
        lemma_small_units((low - 1) as nat);
    } else {
        crate::rounding::lemma_units_of_scaled(1, (q - 1) as nat, 23);
        assert(magnitude_units((low - 1) as nat, 23) == v - 2);
    }
    assert(is_nearest_ratio(3 * m, 2, 23, 255, low));
    lemma_nearest_ratio_is_unique(3 * m, 2, 23, 255, low, nearest_ratio(3 * m, 2, 23, 255));
    if q % 2 == 0 {
        assert(is_nearest_ratio(sum, 1, 23, 255, low));
        lemma_nearest_ratio_is_unique(sum, 1, 23, 255, low, nearest_ratio(sum, 1, 23, 255));
    } else {
        crate::rounding::lemma_units_of_scaled(1, q + 2, 23);
        assert(is_nearest_ratio(sum, 1, 23, 255, low + 1));
        lemma_nearest_ratio_is_unique(sum, 1, 23, 255, low + 1, nearest_ratio(sum, 1, 23, 255));
    }
}

/// A plain number plus its rounded half is at most its rounded one and a half,
/// unless it overshoots.
pub proof fn lemma_one_and_a_half(number: Binary32)
    requires
        plain(number),
        number.magnitude() > 0,
        !overshoots(number.magnitude()),
    ensures
        number.plus(one_half().times(number)).at_most(three_halves().times(number)),
{
    if number.magnitude() < 0x100_0000 && number.magnitude() % 4 == 3 {
        lemma_past_one_and_a_half(number);
    } else {
        let half = one_half().times(number);
        lemma_half(number);
        let u = magnitude_units(number.magnitude() as nat, 23);
        lemma_units_of_zero();
        lemma_units_increase(0, number.magnitude() as nat, 23);
        lemma_three_halves_ratio(number);
        let exact = (number.units() + half.units()) as nat;
        lemma_nearest_ratio_of_extended(exact, 1, 2, 23, 255);
        lemma_nearest_ratio_is_monotone(exact * 2, 3 * u, 2, 23, 255);
        lemma_rounded_is_a_number(exact, 1);
        lemma_rounded_is_a_number(3 * u, 2);
    }
}

} // verus!
