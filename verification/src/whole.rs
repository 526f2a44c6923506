//! Whole numbers out of floating-point ones: rounding down, and rounding to the
//! nearest with halves away from zero, into unsigned integers that saturate.

use vstd::arithmetic::div_mod::{lemma_basic_div, lemma_div_multiples_vanish_quotient, lemma_fundamental_div_mod_converse};
use vstd::arithmetic::power2::{
    lemma2_to64, lemma2_to64_rest, lemma_pow2_adds, lemma_pow2_pos, lemma_pow2_strictly_increases,
    pow2,
};
use vstd::prelude::*;

use crate::arithmetic::{decode, small_power, unit_places};
use crate::binary::{magnitude_units, Binary32, Binary64, INFINITY_32, INFINITY_64};
use crate::rounding::{infinite_magnitude, is_format};

verus! {

/// The whole part of a number of units.
pub open spec fn floor_of(units: nat, w: nat) -> nat {
    units / pow2(unit_places(w))
}

/// The whole number nearest to a number of units; halves round up.
pub open spec fn nearest_of(units: nat, w: nat) -> nat {
    (2 * units + pow2(unit_places(w))) / (2 * pow2(unit_places(w)))
}

/// The value, or the largest integer where it does not fit.
pub open spec fn saturated(value: nat) -> u64 {
    if value > u64::MAX {
        u64::MAX
    } else {
        value as u64
    }
}

/// A significand at least at the unit is a whole number.
proof fn lemma_whole(s: nat, e: nat, places: nat)
    requires
        e >= places,
    ensures
        (s * pow2(e)) / pow2(places) == s * pow2((e - places) as nat),
        (2 * (s * pow2(e)) + pow2(places)) / (2 * pow2(places)) == s * pow2((e - places) as nat),
{
    let one = pow2(places);
    let whole = s * pow2((e - places) as nat);
    lemma_pow2_pos(places);
    lemma_pow2_adds(places, (e - places) as nat);
    let shift = pow2((e - places) as nat);
    let full = pow2(e);
    assert(s * full == whole * one) by (nonlinear_arith)
        requires
            full == one * shift,
            whole == s * shift,
    ;
    lemma_fundamental_div_mod_converse((s * full) as int, one as int, whole as int, 0);
    assert(2 * (s * full) + one == whole * (2 * one) + one) by (nonlinear_arith)
        requires
            s * full == whole * one,
    ;
    lemma_fundamental_div_mod_converse(
        (2 * (s * full) + one) as int,
        (2 * one) as int,
        whole as int,
        one as int,
    );
}

/// A significand below the unit is cut off there.
proof fn lemma_cut(s: nat, e: nat, places: nat)
    requires
        e < places,
    ensures
        (s * pow2(e)) / pow2(places) == s / pow2((places - e) as nat),
        (2 * (s * pow2(e)) + pow2(places)) / (2 * pow2(places)) == (2 * s + pow2(
            (places - e) as nat,
        )) / (2 * pow2((places - e) as nat)),
{
    let low = pow2(e);
    let cut = pow2((places - e) as nat);
    lemma_pow2_pos(e);
    lemma_pow2_pos((places - e) as nat);
    lemma_pow2_adds(e, (places - e) as nat);
    lemma_div_multiples_vanish_quotient(low as int, s as int, cut as int);
    assert(low * s == s * low) by (nonlinear_arith);
    lemma_div_multiples_vanish_quotient(low as int, (2 * s + cut) as int, (2 * cut) as int);
    let one = pow2(places);
    assert(low * (2 * s + cut) == 2 * (s * low) + one) by (nonlinear_arith)
        requires
            one == low * cut,
    ;
    assert(low * (2 * cut) == 2 * one) by (nonlinear_arith)
        requires
            one == low * cut,
    ;
}

/// A significand far below the unit vanishes.
proof fn lemma_vanishes(s: nat, k: nat)
    requires
        s < 0x20_0000_0000_0000,
        k > 64,
    ensures
        s / pow2(k) == 0,
        (2 * s + pow2(k)) / (2 * pow2(k)) == 0,
{
    lemma2_to64();
    lemma2_to64_rest();
    lemma_pow2_strictly_increases(64, k);
    lemma_basic_div(s as int, pow2(k) as int);
    lemma_basic_div((2 * s + pow2(k)) as int, (2 * pow2(k)) as int);
}

/// Two to the sixty-fourth, and no significand times a small power overflows.
proof fn lemma_large(s: nat, shift: nat)
    requires
        s < 0x20_0000_0000_0000,
    ensures
        shift <= 64 ==> s * pow2(shift) < 0x20_0000_0000_0000 * 0x1_0000_0000_0000_0000,
        shift > 64 && s > 0 ==> s * pow2(shift) > u64::MAX,
{
    lemma2_to64();
    lemma2_to64_rest();
    let power = pow2(shift);
    lemma_pow2_pos(shift);
    if shift <= 64 {
        if shift < 64 {
            lemma_pow2_strictly_increases(shift, 64);
        }
        assert(s * power < 0x20_0000_0000_0000 * 0x1_0000_0000_0000_0000) by (nonlinear_arith)
            requires
                s < 0x20_0000_0000_0000,
                0 < power <= 0x1_0000_0000_0000_0000,
        ;
    } else if s > 0 {
        lemma_pow2_strictly_increases(64, shift);
        assert(s * power >= power) by (nonlinear_arith)
            requires
                s >= 1,
        ;
    }
}

/// The significand times a power of two, saturated.
fn raise(s: u64, shift: u32) -> (value: u64)
    requires
        0 < s < 0x20_0000_0000_0000,
    ensures
        value == saturated(s as nat * pow2(shift as nat)),
{
    proof {
        lemma_large(s as nat, shift as nat);
    }
    if shift > 64 {
        return u64::MAX;
    }
    let power: u128 = small_power(shift);
    let value: u128 = s as u128 * power;
    if value > u64::MAX as u128 {
        u64::MAX
    } else {
        value as u64
    }
}

/// The whole part of a finite magnitude.
fn floor_magnitude(magnitude: u64, w: u32, top: u64) -> (value: u64)
    requires
        is_format(w as nat, top as nat),
        magnitude < infinite_magnitude(w as nat, top as nat),
    ensures
        value == saturated(floor_of(magnitude_units(magnitude as nat, w as nat), w as nat)),
{
    let (s, e) = decode(magnitude, w, top);
    let places: u32 = if w == 23 {
        149
    } else {
        1074
    };
    proof {
        lemma2_to64();
        lemma2_to64_rest();
    }
    if e >= places {
        proof {
            lemma_whole(s as nat, e as nat, places as nat);
        }
        return raise(s, e - places);
    }
    let k: u32 = places - e;
    proof {
        lemma_cut(s as nat, e as nat, places as nat);
    }
    if k > 64 {
        proof {
            lemma_vanishes(s as nat, k as nat);
        }
        return 0;
    }
    let power: u128 = small_power(k);
    let value: u128 = s as u128 / power;
    assert(value <= s) by (nonlinear_arith)
        requires
            value == s as u128 / power,
            power >= 1,
    ;
    value as u64
}

/// The whole number nearest to a finite magnitude.
fn nearest_magnitude(magnitude: u64, w: u32, top: u64) -> (value: u64)
    requires
        is_format(w as nat, top as nat),
        magnitude < infinite_magnitude(w as nat, top as nat),
    ensures
        value == saturated(nearest_of(magnitude_units(magnitude as nat, w as nat), w as nat)),
{
    let (s, e) = decode(magnitude, w, top);
    let places: u32 = if w == 23 {
        149
    } else {
        1074
    };
    proof {
        lemma2_to64();
        lemma2_to64_rest();
    }
    if e >= places {
        proof {
            lemma_whole(s as nat, e as nat, places as nat);
        }
        return raise(s, e - places);
    }
    let k: u32 = places - e;
    proof {
        lemma_cut(s as nat, e as nat, places as nat);
    }
    if k > 64 {
        proof {
            lemma_vanishes(s as nat, k as nat);
        }
        return 0;
    }
    let power: u128 = small_power(k);
    proof {
        if k < 64 {
            lemma_pow2_strictly_increases(k as nat, 64);
        }
    }
    let value: u128 = (2 * s as u128 + power) / (2 * power);
    assert(value <= s + 1) by (nonlinear_arith)
        requires
            value == (2 * s as u128 + power) / (2 * power),
            power >= 1,
    ;
    value as u64
}

impl Binary32 {
    /// Rounded down to a whole number; zero below zero and for a NaN, the largest
    /// integer where it does not fit.
    pub open spec fn floored(self) -> u64 {
        if self.nan() || self.negative() {
            0
        } else if !self.finite() {
            u64::MAX
        } else {
            saturated(floor_of(magnitude_units(self.magnitude() as nat, 23), 23))
        }
    }

    /// Rounded to the nearest whole number, halves up; zero below zero and for a
    /// NaN, the largest integer where it does not fit.
    pub open spec fn rounded(self) -> u64 {
        if self.nan() || self.negative() {
            0
        } else if !self.finite() {
            u64::MAX
        } else {
            saturated(nearest_of(magnitude_units(self.magnitude() as nat, 23), 23))
        }
    }

    /// Rounds down to a whole number.
    pub fn floor(self) -> (value: u64)
        ensures
            value == self.floored(),
    {
        if self.is_nan() || self.is_sign_negative() {
            return 0;
        }
        if !self.is_finite() {
            return u64::MAX;
        }
        proof {
            lemma2_to64();
            lemma2_to64_rest();
            assert(infinite_magnitude(23, 255) == INFINITY_32);
        }
        floor_magnitude(self.abs_bits() as u64, 23, 255)
    }

    /// Rounds to the nearest whole number.
    pub fn round(self) -> (value: u64)
        ensures
            value == self.rounded(),
    {
        if self.is_nan() || self.is_sign_negative() {
            return 0;
        }
        if !self.is_finite() {
            return u64::MAX;
        }
        proof {
            lemma2_to64();
            lemma2_to64_rest();
            assert(infinite_magnitude(23, 255) == INFINITY_32);
        }
        nearest_magnitude(self.abs_bits() as u64, 23, 255)
    }
}

impl Binary64 {
    /// Rounded to the nearest whole number, halves up; zero below zero and for a
    /// NaN, the largest integer where it does not fit.
    pub open spec fn rounded(self) -> u64 {
        if self.nan() || self.negative() {
            0
        } else if !self.finite() {
            u64::MAX
        } else {
            saturated(nearest_of(magnitude_units(self.magnitude() as nat, 52), 52))
        }
    }

    /// Rounds to the nearest whole number.
    pub fn round(self) -> (value: u64)
        ensures
            value == self.rounded(),
    {
        if self.is_nan() || self.is_sign_negative() {
            return 0;
        }
        if !self.is_finite() {
            return u64::MAX;
        }
        proof {
            lemma2_to64();
            lemma2_to64_rest();
            assert(infinite_magnitude(52, 2047) == INFINITY_64);
        }
        nearest_magnitude(self.abs_bits(), 52, 2047)
    }
}

} // verus!
