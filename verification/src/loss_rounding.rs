//! Where rounding shows in the eased return: a moment at which the loss factor rises.
//!
//! Just below one the eased curve is so flat that a step of its argument changes it by
//! less than its last bit. What the squares round to then decides.

use vstd::arithmetic::power2::{lemma2_to64, lemma2_to64_rest, lemma_pow2_adds, lemma_pow2_pos, pow2};
use vstd::prelude::*;

use crate::arithmetic::lemma_nearest_of_exact_32;
use crate::arithmetic_laws::{lemma_units_of_one, lemma_units_of_zero, one, two};
use crate::binary::{magnitude_units, Binary32};
use crate::clock::seconds_of;
use crate::loss_blend::{loss_factor_of, LossBlendProfile};
use crate::rounding::{
    infinite_magnitude, is_nearest_ratio, lemma_nearest_ratio_is_unique, lemma_nearest_ratio_of_extended,
    lemma_units_of_scaled, nearest_ratio,
};
use crate::unit_range::{eased, three};

verus! {

/// The number that lies `k` last places below one.
pub open spec fn below_one(k: int) -> Binary32 {
    Binary32 { bits: (0x3f80_0000 - k) as u32 }
}

/// Value just below one, in places of the numbers there.
proof fn lemma_units_below_one(k: nat)
    requires
        k <= 0x80_0000,
    ensures
        magnitude_units((0x3f80_0000 - k) as nat, 23) == (0x100_0000 - k) * pow2(125),
{
    lemma2_to64();
    lemma2_to64_rest();
    let q = (0x100_0000 - k) as nat;
    lemma_units_of_scaled(125, q, 23);
    assert(125 * pow2(23) + q == 0x3f80_0000 - k);
}

/// Value just above one, in places of the numbers below it.
proof fn lemma_units_above_one(k: nat)
    requires
        k < 0x80_0000,
    ensures
        magnitude_units(0x3f80_0000 + k, 23) == (0x100_0000 + 2 * k) * pow2(125),
{
    lemma2_to64();
    lemma2_to64_rest();
    let q = 0x80_0000 + k;
    lemma_units_of_scaled(126, q, 23);
    assert(126 * pow2(23) + q == 0x3f80_0000 + k);
    lemma_pow2_adds(1, 125);
    assert(q * (2 * pow2(125)) == (0x100_0000 + 2 * k) * pow2(125)) by (nonlinear_arith)
        requires
            q == 0x80_0000 + k,
    ;
}

/// One in places of the numbers below it.
proof fn lemma_one_in_places()
    ensures
        pow2(149) == 0x100_0000 * pow2(125),
        pow2(125) > 0,
        infinite_magnitude(23, 255) == 0x7f80_0000,
{
    lemma2_to64();
    lemma2_to64_rest();
    lemma_pow2_adds(24, 125);
    lemma_pow2_pos(125);
}

/// A ratio close to a number below one rounds to it.
proof fn lemma_rounds_below_one(num: nat, den: nat, k: nat)
    requires
        den > 0,
        1 <= k < 0x80_0000,
        (den * (2 * (0x100_0000 - k) - 1)) * pow2(125) < 2 * num < (den * (2 * (0x100_0000 - k) + 1))
            * pow2(125),
    ensures
        nearest_ratio(num, den, 23, 255) == 0x3f80_0000 - k,
{
    let m = (0x3f80_0000 - k) as nat;
    let v = pow2(125);
    let here = 0x100_0000 - k;
    lemma_one_in_places();
    lemma_units_below_one(k);
    lemma_units_below_one(k + 1);
    lemma_units_below_one((k - 1) as nat);
    assert(den * ((here - 1) * v + here * v) == (den * (2 * here - 1)) * v) by (nonlinear_arith);
    assert(den * (here * v + (here + 1) * v) == (den * (2 * here + 1)) * v) by (nonlinear_arith);
    assert(is_nearest_ratio(num, den, 23, 255, m));
    lemma_nearest_ratio_is_unique(num, den, 23, 255, m, nearest_ratio(num, den, 23, 255));
}

/// The product of two numbers close to one rounds to a number below one.
proof fn lemma_product_below_one(left: Binary32, right: Binary32, a: nat, b: nat, k: nat)
    requires
        left.finite() && right.finite(),
        !left.negative() && !right.negative(),
        left.magnitude() > 0 && right.magnitude() > 0,
        magnitude_units(left.magnitude() as nat, 23) == a * pow2(125),
        magnitude_units(right.magnitude() as nat, 23) == b * pow2(125),
        1 <= k < 0x80_0000,
        0x100_0000 * (2 * (0x100_0000 - k) - 1) < 2 * (a * b) < 0x100_0000 * (2 * (0x100_0000 - k) + 1),
    ensures
        left.times(right) == below_one(k as int),
{
    let v = pow2(125);
    lemma_one_in_places();
    let num = (a * b) * v;
    assert((a * v) * (b * v) == num * v) by (nonlinear_arith)
        requires
            num == (a * b) * v,
    ;
    lemma_nearest_ratio_of_extended(num, 0x100_0000, v, 23, 255);
    let low = 0x100_0000 * (2 * (0x100_0000 - k) - 1);
    let high = 0x100_0000 * (2 * (0x100_0000 - k) + 1);
    assert(low * v < 2 * num < high * v) by (nonlinear_arith)
        requires
            num == (a * b) * v,
            low < 2 * (a * b) < high,
            v > 0,
    ;
    lemma_rounds_below_one(num, 0x100_0000, k);
}

/// Easing just below one.
proof fn lemma_eased_below_one(j: nat, r: nat, e: nat)
    requires
        1 <= j < 0x40_0000,
        1 <= r < 0x80_0000,
        1 <= e < 0x80_0000,
        0x100_0000 * (2 * (0x100_0000 - r) - 1) < 2 * ((0x100_0000 - j) * (0x100_0000 - j))
            < 0x100_0000 * (2 * (0x100_0000 - r) + 1),
        0x100_0000 * (2 * (0x100_0000 - e) - 1) < 2 * ((0x100_0000 - r) * (0x100_0000 + 2 * j))
            < 0x100_0000 * (2 * (0x100_0000 - e) + 1),
    ensures
        eased(below_one(j as int)) == below_one(e as int),
{
    let number = below_one(j as int);
    let v = pow2(125);
    lemma_one_in_places();
    lemma_units_below_one(j);
    let a = (0x100_0000 - j) as nat;
    lemma_product_below_one(number, number, a, a, r);
    // Twice the number is exact.
    lemma2_to64();
    lemma2_to64_rest();
    let doubled = (0x4000_0000 - j) as nat;
    assert(magnitude_units(doubled, 23) == 2 * a * v) by {
        lemma_units_of_scaled(126, a, 23);
        assert(126 * pow2(23) + a == doubled);
        lemma_pow2_adds(1, 125);
        assert(a * (2 * v) == 2 * a * v) by (nonlinear_arith);
    }
    assert(magnitude_units(0x4000_0000, 23) == 2 * pow2(149)) by {
        lemma_units_of_scaled(126, 0x100_0000, 23);
        lemma_pow2_adds(1, 125);
        assert(0x100_0000 * (2 * v) == 2 * (0x100_0000 * v)) by (nonlinear_arith);
    }
    lemma_pow2_pos(149);
    assert((2 * pow2(149)) * (a * v) == (2 * a * v) * pow2(149)) by (nonlinear_arith);
    lemma_nearest_of_exact_32(doubled, pow2(149));
    let twice = two().times(number);
    assert(twice == (Binary32 { bits: doubled as u32 }));
    // So is what it leaves of three.
    assert(magnitude_units(0x4040_0000, 23) == 3 * pow2(149)) by {
        lemma_units_of_scaled(127, 0xc0_0000, 23);
        assert(127 * pow2(23) + 0xc0_0000 == 0x4040_0000);
        lemma_pow2_adds(2, 125);
        assert(0xc0_0000 * (4 * v) == 3 * (0x100_0000 * v)) by (nonlinear_arith);
    }
    lemma_units_above_one(j);
    let rest = 0x3f80_0000 + j;
    assert(3 * pow2(149) - 2 * a * v == (0x100_0000 + 2 * j) * v) by (nonlinear_arith)
        requires
            pow2(149) == 0x100_0000 * v,
            a == 0x100_0000 - j,
    ;
    lemma_nearest_of_exact_32(rest, 1);
    assert(magnitude_units(rest, 23) * 1 == magnitude_units(rest, 23)) by (nonlinear_arith);
    assert((0x100_0000 + 2 * j) * v > 0) by (nonlinear_arith)
        requires
            v > 0,
    ;
    let left = three().minus(twice);
    assert(left == (Binary32 { bits: rest as u32 }));
    lemma_units_below_one(r);
    lemma_product_below_one(
        below_one(r as int),
        left,
        (0x100_0000 - r) as nat,
        0x100_0000 + 2 * j,
        e,
    );
}

/// Nanoseconds in multiples of sixty-four, as seconds just below one.
proof fn lemma_seconds_below_one(n: nat, k: nat)
    requires
        0x80_0000 <= n < 15_625_000,
        1 <= k < 0x80_0000,
        15_625_000 * (2 * (0x100_0000 - k) - 1) < 2 * (n * 0x100_0000) < 15_625_000 * (2 * (0x100_0000
            - k) + 1),
    ensures
        seconds_of(64 * n) == below_one(k as int),
{
    let u = pow2(149);
    let v = pow2(125);
    let s = pow2(155);
    lemma2_to64();
    lemma2_to64_rest();
    lemma_one_in_places();
    lemma_pow2_pos(149);
    lemma_pow2_pos(155);
    lemma_pow2_adds(6, 149);
    assert((64 * n) * u == n * s) by (nonlinear_arith)
        requires
            s == 64 * u,
    ;
    assert(1_000_000_000 * u == 15_625_000 * s) by (nonlinear_arith)
        requires
            s == 64 * u,
    ;
    let m = 155 * pow2(23) + n;
    let d = 155 * pow2(23) + 15_625_000;
    lemma_units_of_scaled(155, n, 23);
    lemma_units_of_scaled(155, 15_625_000, 23);
    lemma_nearest_of_exact_32(m, 1);
    lemma_nearest_of_exact_32(d, 1);
    assert((n * s) * 1 == n * s && (15_625_000 * s) * 1 == 15_625_000 * s) by (nonlinear_arith);
    let dividend = Binary32::of_integer(64 * n);
    let divisor = Binary32::of_integer(1_000_000_000);
    assert(dividend == (Binary32 { bits: m as u32 }));
    assert(divisor == (Binary32 { bits: d as u32 }));
    let num = n * u;
    assert((n * s) * u == num * s) by (nonlinear_arith)
        requires
            num == n * u,
    ;
    lemma_nearest_ratio_of_extended(num, 15_625_000, s, 23, 255);
    assert(num == (n * 0x100_0000) * v) by (nonlinear_arith)
        requires
            num == n * u,
            u == 0x100_0000 * v,
    ;
    let low = 15_625_000 * (2 * (0x100_0000 - k) - 1);
    let high = 15_625_000 * (2 * (0x100_0000 - k) + 1);
    assert(low * v < 2 * num < high * v) by (nonlinear_arith)
        requires
            num == (n * 0x100_0000) * v,
            low < 2 * (n * 0x100_0000) < high,
            v > 0,
    ;
    lemma_rounds_below_one(num, 15_625_000, k);
    let seconds = below_one(k as int);
    assert(dividend.over(divisor) == seconds);
    // Adding no whole second changes nothing.
    lemma_units_of_zero();
    lemma_units_below_one(k);
    let units = magnitude_units((0x3f80_0000 - k) as nat, 23);
    assert(units > 0) by (nonlinear_arith)
        requires
            units == (0x100_0000 - k) * v,
            k < 0x80_0000,
            v > 0,
    ;
    lemma_nearest_of_exact_32((0x3f80_0000 - k) as nat, 1);
    assert(units * 1 == units) by (nonlinear_arith);
    assert((64 * n) / 1_000_000_000 == 0 && (64 * n) % 1_000_000_000 == 64 * n);
}

/// One second.
proof fn lemma_one_second()
    ensures
        seconds_of(1_000_000_000) == one(),
{
    lemma_units_of_one();
    lemma_units_of_zero();
    lemma_one_in_places();
    lemma_pow2_pos(149);
    lemma_nearest_of_exact_32(0x3f80_0000, 1);
    assert(1 * pow2(149) == pow2(149) && pow2(149) * 1 == pow2(149)) by (nonlinear_arith);
    assert(1_000_000_000nat / 1_000_000_000 == 1 && 1_000_000_000nat % 1_000_000_000 == 0);
    assert(Binary32::of_integer(1) == one());
    let none = Binary32::of_integer(0);
    let divisor = Binary32::of_integer(1_000_000_000);
    crate::arithmetic_laws::lemma_integer_is_plain(1_000_000_000);
    assert(none.over(divisor) == (Binary32 { bits: 0 }));
}

/// The loss factor of a return of one second, just before its end.
proof fn lemma_factor_near_the_end(profile: LossBlendProfile, n: nat, j: nat, r: nat, e: nat)
    requires
        profile.return_duration@ == 1_000_000_000,
        0x80_0000 <= n < 15_625_000,
        1 <= j < 0x40_0000,
        1 <= r < 0x80_0000,
        e == 1 || e == 2,
        15_625_000 * (2 * (0x100_0000 - j) - 1) < 2 * (n * 0x100_0000) < 15_625_000 * (2 * (0x100_0000
            - j) + 1),
        0x100_0000 * (2 * (0x100_0000 - r) - 1) < 2 * ((0x100_0000 - j) * (0x100_0000 - j))
            < 0x100_0000 * (2 * (0x100_0000 - r) + 1),
        0x100_0000 * (2 * (0x100_0000 - e) - 1) < 2 * ((0x100_0000 - r) * (0x100_0000 + 2 * j))
            < 0x100_0000 * (2 * (0x100_0000 - e) + 1),
    ensures
        loss_factor_of(profile.hold@ + 64 * n, profile) == (Binary32 {
            bits: if e == 1 {
                0x3380_0000
            } else {
                0x3400_0000
            },
        }),
{
    let v = pow2(125);
    lemma2_to64();
    lemma2_to64_rest();
    lemma_one_in_places();
    lemma_seconds_below_one(n, j);
    lemma_one_second();
    let progress = below_one(j as int);
    lemma_units_of_one();
    lemma_units_below_one(j);
    lemma_pow2_pos(149);
    lemma_nearest_of_exact_32((0x3f80_0000 - j) as nat, pow2(149));
    assert(progress.over(one()) == progress);
    lemma_eased_below_one(j, r, e);
    // One minus the eased progress is exact.
    lemma_units_below_one(e);
    let left = (102 + e) * pow2(23);
    assert(magnitude_units(left, 23) == e * v) by {
        lemma_units_of_scaled((101 + e) as nat, 0x80_0000, 23);
        assert((101 + e) * pow2(23) + 0x80_0000 == left);
        lemma_pow2_adds(23, 102);
        lemma_pow2_adds(23, 103);
        lemma_pow2_adds(1, 125);
        assert(2 * v == pow2(126));
    }
    assert(0x100_0000 * v - (0x100_0000 - e) * v == e * v) by (nonlinear_arith);
    assert(e * v > 0) by (nonlinear_arith)
        requires
            v > 0,
            e >= 1,
    ;
    lemma_nearest_of_exact_32(left, 1);
    assert((e * v) * 1 == e * v) by (nonlinear_arith);
}

/// The loss factor can rise: with a return of one second, from 999 827 328 to
/// 999 827 392 nanoseconds past the hold it goes from one to two sixteen-millionths.
pub proof fn lemma_loss_factor_can_rise(profile: LossBlendProfile)
    requires
        profile.return_duration@ == 1_000_000_000,
    ensures
        loss_factor_of(profile.hold@ + 999_827_328, profile) == (Binary32 { bits: 0x3380_0000 }),
        loss_factor_of(profile.hold@ + 999_827_392, profile) == (Binary32 { bits: 0x3400_0000 }),
{
    lemma_factor_near_the_end(profile, 15_622_302, 2897, 5793, 1);
    lemma_factor_near_the_end(profile, 15_622_303, 2896, 5792, 2);
}

} // verus!
