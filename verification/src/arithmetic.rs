//! Correctly rounded arithmetic on numbers held by their bit patterns.
//!
//! Each operation gives the number nearest to the exact result, ties to even,
//! with the usual rules for zeros, infinities and NaNs.

use vstd::arithmetic::power2::{lemma2_to64, lemma2_to64_rest, lemma_pow2_adds, lemma_pow2_pos, lemma_pow2_strictly_increases, lemma_pow2_unfold, pow2};
use vstd::prelude::*;

use crate::binary::{magnitude_units, Binary32, Binary64, INFINITY_32, INFINITY_64, SIGN_32, SIGN_64};
use crate::rounding::{bias, infinite_magnitude, is_format, nearest_ratio, nearest_root, ratio_at, round_magnitude, round_root};

verus! {

/// Number of binary places of the format's smallest positive number.
pub open spec fn unit_places(w: nat) -> nat {
    if w == 23 {
        149
    } else {
        1074
    }
}

/// Two to the given exponent.
pub(crate) fn small_power(exponent: u32) -> (power: u128)
    requires
        exponent <= 80,
    ensures
        power == pow2(exponent as nat),
        power >= 1,
{
    let mut power: u128 = 1;
    proof {
        lemma2_to64();
        lemma_pow2_adds(16, 64);
        lemma2_to64_rest();
    }
    for i in 0..exponent
        invariant
            exponent <= 80,
            power == pow2(i as nat),
            power >= 1,
            pow2(80) == 0x1_0000_0000_0000_0000_0000,
    {
        proof {
            lemma_pow2_unfold((i + 1) as nat);
            if i + 1 < 80 {
                lemma_pow2_strictly_increases((i + 1) as nat, 80);
            }
        }
        power = power * 2;
    }
    power
}

/// Significand and exponent of a finite magnitude.
pub(crate) fn decode(magnitude: u64, w: u32, top: u64) -> (parts: (u64, u32))
    requires
        is_format(w as nat, top as nat),
        magnitude < infinite_magnitude(w as nat, top as nat),
    ensures
        magnitude_units(magnitude as nat, w as nat) == parts.0 * pow2(parts.1 as nat),
        parts.0 < 0x20_0000_0000_0000,
        parts.0 < 2 * pow2(w as nat),
        parts.1 > 0 ==> parts.0 >= pow2(w as nat),
        parts.1 <= 2045,
        parts.1 < top,
        magnitude > 0 ==> parts.0 > 0,
{
    proof {
        lemma2_to64();
        lemma2_to64_rest();
    }
    let base: u64 = if w == 23 {
        0x80_0000
    } else {
        0x10_0000_0000_0000
    };
    let exponent: u64 = magnitude / base;
    let fraction: u64 = magnitude % base;
    proof {
        assert(exponent < top) by (nonlinear_arith)
            requires
                exponent == magnitude / base,
                magnitude < top * base,
                base > 0,
        ;
        assert(fraction * pow2(0) == fraction) by (nonlinear_arith)
            requires
                pow2(0) == 1,
        ;
    }
    if exponent == 0 {
        (fraction, 0)
    } else {
        (base + fraction, (exponent - 1) as u32)
    }
}

/// The larger part aligned above the smaller one, the smaller one cut off.
proof fn lemma_aligned(sa: nat, ea: nat, sb: nat, eb: nat, low: nat, rest: nat)
    requires
        ea - eb > 70,
        sb == low * pow2((ea - eb - 70) as nat) + rest,
        rest < pow2((ea - eb - 70) as nat),
    ensures
        ({
            let unit = pow2((ea - 70) as nat);
            &&& unit > 0
            &&& sa * pow2(ea) == (sa * pow2(70)) * unit
            &&& sb * pow2(eb) == low * unit + rest * pow2(eb)
            &&& rest * pow2(eb) < unit
            &&& rest > 0 ==> rest * pow2(eb) > 0
            &&& rest == 0 ==> rest * pow2(eb) == 0
        }),
{
    let r = (ea - eb - 70) as nat;
    let unit = pow2((ea - 70) as nat);
    lemma_pow2_adds(70, (ea - 70) as nat);
    lemma_pow2_adds(r, eb);
    lemma_pow2_pos((ea - 70) as nat);
    lemma_pow2_pos(eb);
    assert(sa * (pow2(70) * unit) == (sa * pow2(70)) * unit) by (nonlinear_arith);
    assert(sb * pow2(eb) == low * unit + rest * pow2(eb)) by (nonlinear_arith)
        requires
            sb == low * pow2(r) + rest,
            unit == pow2(r) * pow2(eb),
    ;
    assert(rest * pow2(eb) < unit) by (nonlinear_arith)
        requires
            rest < pow2(r),
            unit == pow2(r) * pow2(eb),
            pow2(eb) > 0,
    ;
    assert(rest > 0 ==> rest * pow2(eb) > 0) by (nonlinear_arith)
        requires
            pow2(eb) > 0,
    ;
    assert(rest == 0 ==> rest * pow2(eb) == 0) by (nonlinear_arith);
}

/// Locates an integer value at a multiple of a power of two.
proof fn lemma_integer_at(num: nat, n: nat, e: nat, excess: nat)
    requires
        num == n * pow2(e) + excess,
        excess < pow2(e),
    ensures
        ratio_at(num, 1, n, e as int, excess > 0),
{
    let k = pow2(bias());
    lemma_pow2_adds(e, bias());
    lemma_pow2_pos(bias());
    let unit = pow2(e + bias());
    assert(num * k == n * unit + excess * k) by (nonlinear_arith)
        requires
            num == n * pow2(e) + excess,
            unit == pow2(e) * k,
    ;
    assert(excess * k < unit) by (nonlinear_arith)
        requires
            excess < pow2(e),
            unit == pow2(e) * k,
            k > 0,
    ;
    assert((n + 1) * unit == n * unit + unit) by (nonlinear_arith);
    assert(excess > 0 ==> excess * k > 0) by (nonlinear_arith)
        requires
            k > 0,
    ;
    assert(excess == 0 ==> excess * k == 0) by (nonlinear_arith);
    assert(1 * (n * unit) == n * unit && 1 * ((n + 1) * unit) == (n + 1) * unit)
        by (nonlinear_arith);
}

/// High part, low part and lost bits of two aligned significands.
fn align(sa: u64, sb: u64, shift: u32) -> (parts: (u128, u128, bool))
    requires
        sa < 0x20_0000_0000_0000,
        sb < 0x20_0000_0000_0000,
        shift > 0,
    ensures
        parts.0 == sa * pow2(70),
        parts.0 < 0x800_0000_0000_0000_0000_0000_0000_0000,
        parts.1 == sb as nat / pow2(shift as nat),
        parts.1 <= sb,
        parts.2 == (sb as nat % pow2(shift as nat) > 0),
{
    proof {
        lemma2_to64();
        lemma2_to64_rest();
        lemma_pow2_adds(6, 64);
        assert(sa * pow2(70) < 0x20_0000_0000_0000 * 0x40_0000_0000_0000_0000)
            by (nonlinear_arith)
            requires
                sa < 0x20_0000_0000_0000,
                pow2(70) == 0x40_0000_0000_0000_0000,
        ;
    }
    let high: u128 = sa as u128 * small_power(70);
    if shift >= 64 {
        proof {
            if shift > 64 {
                lemma_pow2_strictly_increases(64, shift as nat);
            }
            vstd::arithmetic::div_mod::lemma_fundamental_div_mod_converse(
                sb as int,
                pow2(shift as nat) as int,
                0,
                sb as int,
            );
        }
        (high, 0, sb > 0)
    } else {
        let whole: u128 = small_power(shift);
        proof {
            assert(sb as nat / whole as nat <= sb) by (nonlinear_arith)
                requires
                    whole >= 1,
            ;
        }
        (high, sb as u128 / whole, sb as u128 % whole > 0)
    }
}

/// Magnitude of the sum of two numbers with equal signs.
fn sum_magnitude(a: u64, b: u64, w: u32, top: u64) -> (m: u64)
    requires
        is_format(w as nat, top as nat),
        b <= a < infinite_magnitude(w as nat, top as nat),
        a > 0,
    ensures
        m == nearest_ratio(
            magnitude_units(a as nat, w as nat) + magnitude_units(b as nat, w as nat),
            1,
            w as nat,
            top as nat,
        ),
        m <= infinite_magnitude(w as nat, top as nat),
{
    let (sa, ea) = decode(a, w, top);
    let (sb, eb) = decode(b, w, top);
    let ghost num = magnitude_units(a as nat, w as nat) + magnitude_units(b as nat, w as nat);
    proof {
        lemma_exponents_ordered(a as nat, b as nat, w as nat, sa as nat, ea as nat, sb as nat, eb as nat);
        lemma2_to64();
        lemma2_to64_rest();
        lemma_pow2_adds(62, 64);
    }
    if ea - eb <= 70 {
        let shift: u32 = ea - eb;
        proof {
            lemma_pow2_adds(eb as nat, shift as nat);
            lemma_pow2_adds(6, 64);
            if shift < 70 {
                lemma_pow2_strictly_increases(shift as nat, 70);
            }
            assert(sa * pow2(shift as nat) <= 0x20_0000_0000_0000 * 0x40_0000_0000_0000_0000)
                by (nonlinear_arith)
                requires
                    sa < 0x20_0000_0000_0000,
                    pow2(shift as nat) <= 0x40_0000_0000_0000_0000,
            ;
        }
        let n: u128 = sa as u128 * small_power(shift) + sb as u128;
        proof {
            let unit = pow2(eb as nat);
            assert(num == n * unit) by (nonlinear_arith)
                requires
                    num == sa * pow2(ea as nat) + sb * unit,
                    pow2(ea as nat) == unit * pow2(shift as nat),
                    n == sa * pow2(shift as nat) + sb,
            ;
            lemma_pow2_pos(eb as nat);
            lemma_pow2_pos(shift as nat);
            assert(n > 0) by (nonlinear_arith)
                requires
                    n == sa * pow2(shift as nat) + sb,
                    sa > 0,
                    pow2(shift as nat) > 0,
            ;
            lemma_integer_at(num, n as nat, eb as nat, 0);
        }
        round_magnitude(n, eb as i32, false, w, top, Ghost(num), Ghost(1))
    } else {
        let (high, low, sticky) = align(sa, sb, ea - eb - 70);
        let n: u128 = high + low;
        proof {
            let r = (ea - eb - 70) as nat;
            let rest = sb as nat % pow2(r);
            lemma_pow2_pos(r);
            vstd::arithmetic::div_mod::lemma_fundamental_div_mod(sb as int, pow2(r) as int);
            assert(low * pow2(r) == pow2(r) * low) by (nonlinear_arith);
            lemma_aligned(sa as nat, ea as nat, sb as nat, eb as nat, low as nat, rest);
            let unit = pow2((ea - 70) as nat);
            assert(num == n * unit + rest * pow2(eb as nat)) by (nonlinear_arith)
                requires
                    num == (sa * pow2(70)) * unit + (low * unit + rest * pow2(eb as nat)),
                    n == sa * pow2(70) + low,
            ;
            lemma_integer_at(num, n as nat, (ea - 70) as nat, rest * pow2(eb as nat));
            lemma_high_is_wide(sa as nat, w as nat);
            assert(low <= sb) by (nonlinear_arith)
                requires
                    sb == low * pow2(r) + rest,
                    pow2(r) > 0,
            ;
        }
        round_magnitude(n, ea as i32 - 70, sticky, w, top, Ghost(num), Ghost(1))
    }
}

/// A shifted normal significand has bits to spare.
proof fn lemma_high_is_wide(sa: nat, w: nat)
    requires
        w == 23 || w == 52,
        pow2(w) <= sa < 0x20_0000_0000_0000,
    ensures
        pow2(w + 2) + 0x100_0000_0000_0000 <= sa * pow2(70) < 0x800_0000_0000_0000_0000_0000_0000_0000,
{
    lemma2_to64();
    lemma2_to64_rest();
    lemma_pow2_adds(6, 64);
    assert(0x80_0000 * 0x40_0000_0000_0000_0000 <= sa * pow2(70) < 0x20_0000_0000_0000
        * 0x40_0000_0000_0000_0000) by (nonlinear_arith)
        requires
            0x80_0000 <= sa < 0x20_0000_0000_0000,
            pow2(70) == 0x40_0000_0000_0000_0000,
    ;
}

/// The larger magnitude does not have the smaller exponent.
proof fn lemma_exponents_ordered(
    a: nat,
    b: nat,
    w: nat,
    sa: nat,
    ea: nat,
    sb: nat,
    eb: nat,
)
    requires
        w == 23 || w == 52,
        b <= a,
        magnitude_units(a, w) == sa * pow2(ea),
        magnitude_units(b, w) == sb * pow2(eb),
        sa < 2 * pow2(w),
        eb > 0 ==> sb >= pow2(w),
    ensures
        ea >= eb,
{
    if ea < eb {
        crate::binary::lemma_units_increase(b, a + 1, w);
        lemma_pow2_pos(ea);
        lemma_pow2_pos(w);
        lemma_pow2_unfold(eb);
        if ea < eb - 1 {
            lemma_pow2_strictly_increases(ea, (eb - 1) as nat);
        }
        if b < a {
            crate::binary::lemma_units_increase(b, a, w);
        }
        let half = pow2((eb - 1) as nat);
        assert(sa * pow2(ea) < (2 * pow2(w)) * half) by (nonlinear_arith)
            requires
                sa < 2 * pow2(w),
                pow2(ea) <= half,
                pow2(ea) > 0,
        ;
        assert(sb * (2 * half) >= (2 * pow2(w)) * half) by (nonlinear_arith)
            requires
                sb >= pow2(w),
        ;
    }
}

/// Magnitude of the difference of two numbers with equal signs.
fn difference_magnitude(a: u64, b: u64, w: u32, top: u64) -> (m: u64)
    requires
        is_format(w as nat, top as nat),
        b < a < infinite_magnitude(w as nat, top as nat),
    ensures
        m == nearest_ratio(
            (magnitude_units(a as nat, w as nat) - magnitude_units(b as nat, w as nat)) as nat,
            1,
            w as nat,
            top as nat,
        ),
        m <= infinite_magnitude(w as nat, top as nat),
{
    let (sa, ea) = decode(a, w, top);
    let (sb, eb) = decode(b, w, top);
    let ghost num = (magnitude_units(a as nat, w as nat) - magnitude_units(b as nat, w as nat)) as nat;
    proof {
        crate::binary::lemma_units_increase(b as nat, a as nat, w as nat);
        lemma_exponents_ordered(a as nat, b as nat, w as nat, sa as nat, ea as nat, sb as nat, eb as nat);
        lemma2_to64();
        lemma2_to64_rest();
        lemma_pow2_adds(62, 64);
    }
    if ea - eb <= 70 {
        let shift: u32 = ea - eb;
        proof {
            lemma_pow2_adds(eb as nat, shift as nat);
            lemma_pow2_adds(6, 64);
            if shift < 70 {
                lemma_pow2_strictly_increases(shift as nat, 70);
            }
            assert(sa * pow2(shift as nat) <= 0x20_0000_0000_0000 * 0x40_0000_0000_0000_0000)
                by (nonlinear_arith)
                requires
                    sa < 0x20_0000_0000_0000,
                    pow2(shift as nat) <= 0x40_0000_0000_0000_0000,
            ;
            let unit = pow2(eb as nat);
            lemma_pow2_pos(eb as nat);
            assert(sa * pow2(shift as nat) > sb) by (nonlinear_arith)
                requires
                    sa * pow2(ea as nat) > sb * unit,
                    pow2(ea as nat) == unit * pow2(shift as nat),
                    unit > 0,
            ;
        }
        let n: u128 = sa as u128 * small_power(shift) - sb as u128;
        proof {
            let unit = pow2(eb as nat);
            assert(num == n * unit) by (nonlinear_arith)
                requires
                    num == sa * pow2(ea as nat) - sb * unit,
                    pow2(ea as nat) == unit * pow2(shift as nat),
                    n == sa * pow2(shift as nat) - sb,
            ;
            lemma_integer_at(num, n as nat, eb as nat, 0);
        }
        round_magnitude(n, eb as i32, false, w, top, Ghost(num), Ghost(1))
    } else {
        let (high, low, sticky) = align(sa, sb, ea - eb - 70);
        proof {
            lemma_high_is_wide(sa as nat, w as nat);
            let r = (ea - eb - 70) as nat;
            lemma_pow2_pos(r);
            vstd::arithmetic::div_mod::lemma_fundamental_div_mod(sb as int, pow2(r) as int);
            assert(low * pow2(r) == pow2(r) * low) by (nonlinear_arith);
            assert(low <= sb) by (nonlinear_arith)
                requires
                    sb >= low * pow2(r),
                    pow2(r) > 0,
            ;
        }
        let n: u128 = if sticky {
            high - low - 1
        } else {
            high - low
        };
        proof {
            let r = (ea - eb - 70) as nat;
            let rest = sb as nat % pow2(r);
            lemma_aligned(sa as nat, ea as nat, sb as nat, eb as nat, low as nat, rest);
            let unit = pow2((ea - 70) as nat);
            let lost = rest * pow2(eb as nat);
            if sticky {
                assert(num == n * unit + (unit - lost)) by (nonlinear_arith)
                    requires
                        num == (sa * pow2(70)) * unit - (low * unit + lost),
                        n == sa * pow2(70) - low - 1,
                ;
                lemma_integer_at(num, n as nat, (ea - 70) as nat, (unit - lost) as nat);
            } else {
                assert(num == n * unit) by (nonlinear_arith)
                    requires
                        num == (sa * pow2(70)) * unit - low * unit,
                        n == sa * pow2(70) - low,
                ;
                lemma_integer_at(num, n as nat, (ea - 70) as nat, 0);
            }
        }
        round_magnitude(n, ea as i32 - 70, sticky, w, top, Ghost(num), Ghost(1))
    }
}

/// Magnitude of the product of two numbers.
fn product_magnitude(a: u64, b: u64, w: u32, top: u64) -> (m: u64)
    requires
        is_format(w as nat, top as nat),
        0 < a < infinite_magnitude(w as nat, top as nat),
        0 < b < infinite_magnitude(w as nat, top as nat),
    ensures
        m == nearest_ratio(
            magnitude_units(a as nat, w as nat) * magnitude_units(b as nat, w as nat),
            pow2(unit_places(w as nat)),
            w as nat,
            top as nat,
        ),
        m <= infinite_magnitude(w as nat, top as nat),
{
    let (sa, ea) = decode(a, w, top);
    let (sb, eb) = decode(b, w, top);
    let ghost num = magnitude_units(a as nat, w as nat) * magnitude_units(b as nat, w as nat);
    let places: u32 = if w == 23 {
        149
    } else {
        1074
    };
    let ghost den = pow2(places as nat);
    proof {
        lemma2_to64();
        lemma2_to64_rest();
        lemma_pow2_adds(62, 64);
        assert(0 < sa * sb < 0x400_0000_0000_0000_0000_0000_0000) by (nonlinear_arith)
            requires
                0 < sa < 0x20_0000_0000_0000,
                0 < sb < 0x20_0000_0000_0000,
        ;
    }
    let n: u128 = sa as u128 * sb as u128;
    let e: i32 = ea as i32 + eb as i32 - places as i32;
    proof {
        let k = pow2(bias());
        let unit = pow2((e + bias()) as nat);
        lemma_pow2_pos(places as nat);
        lemma_pow2_adds(ea as nat, eb as nat);
        lemma_pow2_adds((ea + eb) as nat, bias());
        lemma_pow2_adds(places as nat, (e + bias()) as nat);
        let x = pow2(ea as nat);
        let y = pow2(eb as nat);
        assert(num * k == den * (n * unit)) by (nonlinear_arith)
            requires
                num == (sa * x) * (sb * y),
                n == sa * sb,
                (x * y) * k == den * unit,
        ;
    }
    round_magnitude(n, e, false, w, top, Ghost(num), Ghost(den))
}

/// Scales a significand up to fill most of a wide word.
fn normalise(significand: u64) -> (parts: (u128, u32))
    requires
        0 < significand < 0x20_0000_0000_0000,
    ensures
        parts.0 == significand * pow2(parts.1 as nat),
        pow2(124) <= parts.0 < pow2(125),
        parts.1 <= 124,
{
    let mut wide: u128 = significand as u128;
    let mut shift: u32 = 0;
    proof {
        lemma2_to64();
        lemma2_to64_rest();
        lemma_pow2_adds(62, 62);
        lemma_pow2_unfold(125);
        assert(significand * 1 == significand) by (nonlinear_arith);
    }
    while wide < 0x1000_0000_0000_0000_0000_0000_0000_0000
        invariant
            0 < significand,
            pow2(124) == 0x1000_0000_0000_0000_0000_0000_0000_0000,
            pow2(125) == 0x2000_0000_0000_0000_0000_0000_0000_0000,
            0 < wide < 0x2000_0000_0000_0000_0000_0000_0000_0000,
            wide == significand * pow2(shift as nat),
            shift <= 124,
        decreases 125 - shift,
    {
        proof {
            lemma_pow2_unfold((shift + 1) as nat);
            assert(significand * (2 * pow2(shift as nat)) == 2 * (significand * pow2(shift as nat)))
                by (nonlinear_arith);
            if shift == 124 {
                assert(significand * pow2(124) >= pow2(124)) by (nonlinear_arith)
                    requires
                        significand >= 1,
                ;
            }
        }
        wide = wide * 2;
        shift = shift + 1;
    }
    (wide, shift)
}

/// Magnitude of the quotient of two numbers.
fn quotient_magnitude(a: u64, b: u64, w: u32, top: u64) -> (m: u64)
    requires
        is_format(w as nat, top as nat),
        0 < a < infinite_magnitude(w as nat, top as nat),
        0 < b < infinite_magnitude(w as nat, top as nat),
    ensures
        m == nearest_ratio(
            magnitude_units(a as nat, w as nat) * pow2(unit_places(w as nat)),
            magnitude_units(b as nat, w as nat),
            w as nat,
            top as nat,
        ),
        m <= infinite_magnitude(w as nat, top as nat),
{
    let (sa, ea) = decode(a, w, top);
    let (sb, eb) = decode(b, w, top);
    let places: u32 = if w == 23 {
        149
    } else {
        1074
    };
    let ghost num = magnitude_units(a as nat, w as nat) * pow2(places as nat);
    let ghost den = magnitude_units(b as nat, w as nat);
    let (wide, shift) = normalise(sa);
    let n: u128 = wide / sb as u128;
    let rest: u128 = wide % sb as u128;
    let sticky = rest > 0;
    let e: i32 = ea as i32 - eb as i32 + places as i32 - shift as i32;
    proof {
        lemma2_to64();
        lemma2_to64_rest();
        lemma_pow2_adds(62, 62);
        lemma_pow2_unfold(125);
        lemma_pow2_unfold(126);
        vstd::arithmetic::div_mod::lemma_fundamental_div_mod(wide as int, sb as int);
        assert(n >= 0x80_0000_0000_0000) by (nonlinear_arith)
            requires
                wide == sb * n + rest,
                rest < sb,
                sb < 0x20_0000_0000_0000,
                wide >= 0x1000_0000_0000_0000_0000_0000_0000_0000,
        ;
        assert(n <= wide) by (nonlinear_arith)
            requires
                wide == sb * n + rest,
                sb > 0,
        ;
        lemma_pow2_strictly_increases((w + 2) as nat, 55);
        let k = pow2(bias());
        let unit = pow2((e + bias()) as nat);
        let common = pow2((ea + places + bias() - shift) as nat);
        lemma_pow2_pos((ea + places + bias() - shift) as nat);
        lemma_pow2_pos(eb as nat);
        lemma_pow2_adds(ea as nat, places as nat);
        lemma_pow2_adds((ea + places) as nat, bias());
        lemma_pow2_adds(shift as nat, (ea + places + bias() - shift) as nat);
        lemma_pow2_adds(eb as nat, (e + bias()) as nat);
        let x = pow2(ea as nat);
        let y = pow2(places as nat);
        let z = pow2(shift as nat);
        assert(num * k == wide * common) by (nonlinear_arith)
            requires
                num == (sa * x) * y,
                wide == sa * z,
                (x * y) * k == z * common,
        ;
        let v = pow2(eb as nat);
        assert(den * (n * unit) == (sb * n) * common) by (nonlinear_arith)
            requires
                den == sb * v,
                v * unit == common,
        ;
        assert(den * ((n + 1) * unit) == (sb * n + sb) * common) by (nonlinear_arith)
            requires
                den == sb * v,
                v * unit == common,
        ;
        assert(den > 0) by (nonlinear_arith)
            requires
                den == sb * v,
                sb > 0,
                v > 0,
        ;
        assert(rest > 0 ==> (sb * n) * common < wide * common < (sb * n + sb) * common)
            by (nonlinear_arith)
            requires
                wide == sb * n + rest,
                rest < sb,
                common > 0,
        ;
    }
    round_magnitude(n, e, sticky, w, top, Ghost(num), Ghost(den))
}

/// Magnitude of the square root of a positive number.
fn root_magnitude(a: u64, w: u32, top: u64) -> (m: u64)
    requires
        is_format(w as nat, top as nat),
        0 < a < infinite_magnitude(w as nat, top as nat),
    ensures
        m == nearest_root(
            magnitude_units(a as nat, w as nat) * pow2(unit_places(w as nat)),
            w as nat,
            top as nat,
        ),
        m <= infinite_magnitude(w as nat, top as nat),
{
    let (sa, ea) = decode(a, w, top);
    let places: u32 = if w == 23 {
        149
    } else {
        1074
    };
    let ghost num = magnitude_units(a as nat, w as nat) * pow2(places as nat);
    let (full, shift) = normalise(sa);
    proof {
        lemma2_to64();
        lemma2_to64_rest();
        lemma_pow2_adds(62, 62);
        lemma_pow2_unfold(125);
        lemma_pow2_adds(7, 63);
        if shift < 71 {
            if shift < 70 {
                lemma_pow2_strictly_increases(shift as nat, 70);
            }
            assert(sa * pow2(shift as nat) <= 0x20_0000_0000_0000 * 0x40_0000_0000_0000_0000)
                by (nonlinear_arith)
                requires
                    sa < 0x20_0000_0000_0000,
                    pow2(shift as nat) <= 0x40_0000_0000_0000_0000,
            ;
            assert(false);
        }
        lemma_pow2_unfold(shift as nat);
        lemma_pow2_unfold((shift - 1) as nat);
    }
    let exponent: u32 = ea + places;
    let even = (exponent - (shift - 2)) % 2 == 0;
    let wide: u128 = if even {
        full / 4
    } else {
        full / 2
    };
    let used: u32 = if even {
        shift - 2
    } else {
        shift - 1
    };
    let e: u32 = (exponent - used) / 2;
    proof {
        let quarter = pow2((shift - 2) as nat);
        assert(sa * (2 * (2 * quarter)) == 4 * (sa * quarter)) by (nonlinear_arith);
        assert(sa * (2 * quarter) == 2 * (sa * quarter)) by (nonlinear_arith);
        assert(wide == sa * pow2(used as nat));
        let unit = pow2(e as nat);
        lemma_pow2_adds(e as nat, e as nat);
        lemma_pow2_adds(used as nat, (exponent - used) as nat);
        lemma_pow2_adds(ea as nat, places as nat);
        let x = pow2(ea as nat);
        let y = pow2(places as nat);
        let z = pow2(used as nat);
        assert(num == wide * (unit * unit)) by (nonlinear_arith)
            requires
                num == (sa * x) * y,
                x * y == z * (unit * unit),
                wide == sa * z,
        ;
    }
    round_root(wide, e, w, top, Ghost(num))
}

/// Magnitude of a positive integer.
fn integer_magnitude(value: u64, w: u32, top: u64) -> (m: u64)
    requires
        is_format(w as nat, top as nat),
        value > 0,
    ensures
        m == nearest_ratio(
            value as nat * pow2(unit_places(w as nat)),
            1,
            w as nat,
            top as nat,
        ),
        m <= infinite_magnitude(w as nat, top as nat),
{
    let places: u32 = if w == 23 {
        149
    } else {
        1074
    };
    let ghost num = value as nat * pow2(places as nat);
    proof {
        lemma2_to64();
        lemma2_to64_rest();
        lemma_pow2_adds(62, 64);
        lemma_pow2_pos(places as nat);
        lemma_integer_at(num, value as nat, places as nat, 0);
    }
    round_magnitude(value as u128, places as i32, false, w, top, Ghost(num), Ghost(1))
}

impl Binary32 {
    /// The canonical NaN.
    pub open spec fn not_a_number() -> Self {
        Binary32 { bits: 0x7fc0_0000 }
    }

    /// The number with this magnitude and sign.
    pub open spec fn signed(magnitude: nat, negative: bool) -> Self {
        if negative {
            Binary32 { bits: (magnitude + SIGN_32) as u32 }
        } else {
            Binary32 { bits: magnitude as u32 }
        }
    }

    /// Sum: infinities win unless they oppose each other; opposite numbers give
    /// positive zero.
    pub open spec fn plus(self, other: Self) -> Self {
        let exact = self.units() + other.units();
        if self.nan() || other.nan() {
            Self::not_a_number()
        } else if !self.finite() {
            if !other.finite() && self.negative() != other.negative() {
                Self::not_a_number()
            } else {
                self
            }
        } else if !other.finite() {
            other
        } else if exact == 0 {
            Self::signed(0, self.negative() && other.negative())
        } else if exact > 0 {
            Self::signed(nearest_ratio(exact as nat, 1, 23, 255), false)
        } else {
            Self::signed(nearest_ratio((-exact) as nat, 1, 23, 255), true)
        }
    }

    /// Difference.
    pub open spec fn minus(self, other: Self) -> Self {
        self.plus(other.negated())
    }

    /// Product: the sign is negative when the signs differ.
    pub open spec fn times(self, other: Self) -> Self {
        let negative = self.negative() != other.negative();
        let a = magnitude_units(self.magnitude() as nat, 23);
        let b = magnitude_units(other.magnitude() as nat, 23);
        if self.nan() || other.nan() {
            Self::not_a_number()
        } else if !self.finite() || !other.finite() {
            if self.magnitude() == 0 || other.magnitude() == 0 {
                Self::not_a_number()
            } else {
                Self::signed(INFINITY_32 as nat, negative)
            }
        } else if self.magnitude() == 0 || other.magnitude() == 0 {
            Self::signed(0, negative)
        } else {
            Self::signed(nearest_ratio(a * b, pow2(unit_places(23)), 23, 255), negative)
        }
    }

    /// Quotient: the sign is negative when the signs differ.
    pub open spec fn over(self, other: Self) -> Self {
        let negative = self.negative() != other.negative();
        let a = magnitude_units(self.magnitude() as nat, 23);
        let b = magnitude_units(other.magnitude() as nat, 23);
        if self.nan() || other.nan() {
            Self::not_a_number()
        } else if !self.finite() {
            if !other.finite() {
                Self::not_a_number()
            } else {
                Self::signed(INFINITY_32 as nat, negative)
            }
        } else if !other.finite() {
            Self::signed(0, negative)
        } else if other.magnitude() == 0 {
            if self.magnitude() == 0 {
                Self::not_a_number()
            } else {
                Self::signed(INFINITY_32 as nat, negative)
            }
        } else if self.magnitude() == 0 {
            Self::signed(0, negative)
        } else {
            Self::signed(nearest_ratio(a * pow2(unit_places(23)), b, 23, 255), negative)
        }
    }

    /// The number nearest to an integer.
    pub open spec fn of_integer(value: nat) -> Self {
        if value == 0 {
            Self::signed(0, false)
        } else {
            Self::signed(
                nearest_ratio(value * pow2(unit_places(23)), 1, 23, 255),
                false,
            )
        }
    }

    /// The number with this magnitude and sign.
    fn with_sign(magnitude: u64, negative: bool) -> (number: Self)
        requires
            magnitude <= INFINITY_32,
        ensures
            number == Self::signed(magnitude as nat, negative),
    {
        if negative {
            Binary32 { bits: magnitude as u32 + SIGN_32 }
        } else {
            Binary32 { bits: magnitude as u32 }
        }
    }

    /// Sum.
    pub fn sum(self, other: Self) -> (sum: Self)
        ensures
            sum == self.plus(other),
            self.finite() && other.finite() ==> !sum.nan(),
    {
        if self.is_nan() || other.is_nan() {
            return Binary32 { bits: 0x7fc0_0000 };
        }
        let left = self.is_sign_negative();
        let right = other.is_sign_negative();
        if !self.is_finite() {
            return if !other.is_finite() && left != right {
                Binary32 { bits: 0x7fc0_0000 }
            } else {
                self
            };
        }
        if !other.is_finite() {
            return other;
        }
        let a: u64 = self.abs_bits() as u64;
        let b: u64 = other.abs_bits() as u64;
        proof {
            lemma_infinity_32();
            lemma_sign_of_units_32(self);
            lemma_sign_of_units_32(other);
            if a < b {
                crate::binary::lemma_units_increase(a as nat, b as nat, 23);
            }
            if b < a {
                crate::binary::lemma_units_increase(b as nat, a as nat, 23);
            }
        }
        if left == right {
            if a == 0 && b == 0 {
                return Self::with_sign(0, left);
            }
            let m: u64 = if a >= b {
                sum_magnitude(a, b, 23, 255)
            } else {
                sum_magnitude(b, a, 23, 255)
            };
            return Self::with_sign(m, left);
        }
        if a == b {
            return Self::with_sign(0, false);
        }
        if a > b {
            Self::with_sign(difference_magnitude(a, b, 23, 255), left)
        } else {
            Self::with_sign(difference_magnitude(b, a, 23, 255), right)
        }
    }

    /// Difference.
    pub fn difference(self, other: Self) -> (difference: Self)
        ensures
            difference == self.minus(other),
    {
        self.sum(other.neg())
    }

    /// Product.
    pub fn product(self, other: Self) -> (product: Self)
        ensures
            product == self.times(other),
    {
        if self.is_nan() || other.is_nan() {
            return Binary32 { bits: 0x7fc0_0000 };
        }
        let negative = self.is_sign_negative() != other.is_sign_negative();
        let a: u64 = self.abs_bits() as u64;
        let b: u64 = other.abs_bits() as u64;
        proof {
            lemma_infinity_32();
        }
        if !self.is_finite() || !other.is_finite() {
            return if a == 0 || b == 0 {
                Binary32 { bits: 0x7fc0_0000 }
            } else {
                Self::with_sign(INFINITY_32 as u64, negative)
            };
        }
        if a == 0 || b == 0 {
            return Self::with_sign(0, negative);
        }
        Self::with_sign(product_magnitude(a, b, 23, 255), negative)
    }

    /// Quotient.
    pub fn quotient(self, other: Self) -> (quotient: Self)
        ensures
            quotient == self.over(other),
            self.finite() && other.finite() && other.magnitude() != 0 ==> !quotient.nan(),
    {
        if self.is_nan() || other.is_nan() {
            return Binary32 { bits: 0x7fc0_0000 };
        }
        let negative = self.is_sign_negative() != other.is_sign_negative();
        let a: u64 = self.abs_bits() as u64;
        let b: u64 = other.abs_bits() as u64;
        proof {
            lemma_infinity_32();
        }
        if !self.is_finite() {
            return if !other.is_finite() {
                Binary32 { bits: 0x7fc0_0000 }
            } else {
                Self::with_sign(INFINITY_32 as u64, negative)
            };
        }
        if !other.is_finite() {
            return Self::with_sign(0, negative);
        }
        if b == 0 {
            return if a == 0 {
                Binary32 { bits: 0x7fc0_0000 }
            } else {
                Self::with_sign(INFINITY_32 as u64, negative)
            };
        }
        if a == 0 {
            return Self::with_sign(0, negative);
        }
        Self::with_sign(quotient_magnitude(a, b, 23, 255), negative)
    }

    /// The number nearest to an integer.
    pub fn from_integer(value: u64) -> (number: Self)
        ensures
            number == Self::of_integer(value as nat),
    {
        proof {
            lemma_infinity_32();
        }
        if value == 0 {
            Self::with_sign(0, false)
        } else {
            Self::with_sign(integer_magnitude(value, 23, 255), false)
        }
    }
}

proof fn lemma_infinity_32()
    ensures
        infinite_magnitude(23, 255) == INFINITY_32,
{
    lemma2_to64();
    lemma2_to64_rest();
}

/// Only zeros have no value, and others have the sign of their sign bit.
proof fn lemma_sign_of_units_32(number: Binary32)
    ensures
        number.magnitude() == 0 ==> number.units() == 0,
        number.magnitude() > 0 ==> (number.units() > 0 <==> !number.negative()) && number.units()
            != 0,
{
    lemma2_to64();
    lemma2_to64_rest();
    let zero = magnitude_units(0, 23);
    assert(zero == 0) by {
        vstd::arithmetic::div_mod::lemma_fundamental_div_mod_converse(
            0,
            pow2(23) as int,
            0,
            0,
        );
    }
    if number.magnitude() > 0 {
        crate::binary::lemma_units_increase(0, number.magnitude() as nat, 23);
    }
}

impl Binary64 {
    /// The canonical NaN.
    pub open spec fn not_a_number() -> Self {
        Binary64 { bits: 0x7ff8_0000_0000_0000 }
    }

    /// The number with this magnitude and sign.
    pub open spec fn signed(magnitude: nat, negative: bool) -> Self {
        if negative {
            Binary64 { bits: (magnitude + SIGN_64) as u64 }
        } else {
            Binary64 { bits: magnitude as u64 }
        }
    }

    /// Sum: infinities win unless they oppose each other; opposite numbers give
    /// positive zero.
    pub open spec fn plus(self, other: Self) -> Self {
        let exact = self.units() + other.units();
        if self.nan() || other.nan() {
            Self::not_a_number()
        } else if !self.finite() {
            if !other.finite() && self.negative() != other.negative() {
                Self::not_a_number()
            } else {
                self
            }
        } else if !other.finite() {
            other
        } else if exact == 0 {
            Self::signed(0, self.negative() && other.negative())
        } else if exact > 0 {
            Self::signed(nearest_ratio(exact as nat, 1, 52, 2047), false)
        } else {
            Self::signed(nearest_ratio((-exact) as nat, 1, 52, 2047), true)
        }
    }

    /// Difference.
    pub open spec fn minus(self, other: Self) -> Self {
        self.plus(other.negated())
    }

    /// Product: the sign is negative when the signs differ.
    pub open spec fn times(self, other: Self) -> Self {
        let negative = self.negative() != other.negative();
        let a = magnitude_units(self.magnitude() as nat, 52);
        let b = magnitude_units(other.magnitude() as nat, 52);
        if self.nan() || other.nan() {
            Self::not_a_number()
        } else if !self.finite() || !other.finite() {
            if self.magnitude() == 0 || other.magnitude() == 0 {
                Self::not_a_number()
            } else {
                Self::signed(INFINITY_64 as nat, negative)
            }
        } else if self.magnitude() == 0 || other.magnitude() == 0 {
            Self::signed(0, negative)
        } else {
            Self::signed(nearest_ratio(a * b, pow2(unit_places(52)), 52, 2047), negative)
        }
    }

    /// Quotient: the sign is negative when the signs differ.
    pub open spec fn over(self, other: Self) -> Self {
        let negative = self.negative() != other.negative();
        let a = magnitude_units(self.magnitude() as nat, 52);
        let b = magnitude_units(other.magnitude() as nat, 52);
        if self.nan() || other.nan() {
            Self::not_a_number()
        } else if !self.finite() {
            if !other.finite() {
                Self::not_a_number()
            } else {
                Self::signed(INFINITY_64 as nat, negative)
            }
        } else if !other.finite() {
            Self::signed(0, negative)
        } else if other.magnitude() == 0 {
            if self.magnitude() == 0 {
                Self::not_a_number()
            } else {
                Self::signed(INFINITY_64 as nat, negative)
            }
        } else if self.magnitude() == 0 {
            Self::signed(0, negative)
        } else {
            Self::signed(nearest_ratio(a * pow2(unit_places(52)), b, 52, 2047), negative)
        }
    }

    /// The number nearest to an integer.
    pub open spec fn of_integer(value: nat) -> Self {
        if value == 0 {
            Self::signed(0, false)
        } else {
            Self::signed(
                nearest_ratio(value * pow2(unit_places(52)), 1, 52, 2047),
                false,
            )
        }
    }

    /// The number with this magnitude and sign.
    fn with_sign(magnitude: u64, negative: bool) -> (number: Self)
        requires
            magnitude <= INFINITY_64,
        ensures
            number == Self::signed(magnitude as nat, negative),
    {
        if negative {
            Binary64 { bits: magnitude as u64 + SIGN_64 }
        } else {
            Binary64 { bits: magnitude as u64 }
        }
    }

    /// Sum.
    pub fn sum(self, other: Self) -> (sum: Self)
        ensures
            sum == self.plus(other),
            self.finite() && other.finite() ==> !sum.nan(),
    {
        if self.is_nan() || other.is_nan() {
            return Binary64 { bits: 0x7ff8_0000_0000_0000 };
        }
        let left = self.is_sign_negative();
        let right = other.is_sign_negative();
        if !self.is_finite() {
            return if !other.is_finite() && left != right {
                Binary64 { bits: 0x7ff8_0000_0000_0000 }
            } else {
                self
            };
        }
        if !other.is_finite() {
            return other;
        }
        let a: u64 = self.abs_bits() as u64;
        let b: u64 = other.abs_bits() as u64;
        proof {
            lemma_infinity_64();
            lemma_sign_of_units_64(self);
            lemma_sign_of_units_64(other);
            if a < b {
                crate::binary::lemma_units_increase(a as nat, b as nat, 52);
            }
            if b < a {
                crate::binary::lemma_units_increase(b as nat, a as nat, 52);
            }
        }
        if left == right {
            if a == 0 && b == 0 {
                return Self::with_sign(0, left);
            }
            let m: u64 = if a >= b {
                sum_magnitude(a, b, 52, 2047)
            } else {
                sum_magnitude(b, a, 52, 2047)
            };
            return Self::with_sign(m, left);
        }
        if a == b {
            return Self::with_sign(0, false);
        }
        if a > b {
            Self::with_sign(difference_magnitude(a, b, 52, 2047), left)
        } else {
            Self::with_sign(difference_magnitude(b, a, 52, 2047), right)
        }
    }

    /// Difference.
    pub fn difference(self, other: Self) -> (difference: Self)
        ensures
            difference == self.minus(other),
    {
        self.sum(other.neg())
    }

    /// Product.
    pub fn product(self, other: Self) -> (product: Self)
        ensures
            product == self.times(other),
    {
        if self.is_nan() || other.is_nan() {
            return Binary64 { bits: 0x7ff8_0000_0000_0000 };
        }
        let negative = self.is_sign_negative() != other.is_sign_negative();
        let a: u64 = self.abs_bits() as u64;
        let b: u64 = other.abs_bits() as u64;
        proof {
            lemma_infinity_64();
        }
        if !self.is_finite() || !other.is_finite() {
            return if a == 0 || b == 0 {
                Binary64 { bits: 0x7ff8_0000_0000_0000 }
            } else {
                Self::with_sign(INFINITY_64 as u64, negative)
            };
        }
        if a == 0 || b == 0 {
            return Self::with_sign(0, negative);
        }
        Self::with_sign(product_magnitude(a, b, 52, 2047), negative)
    }

    /// Quotient.
    pub fn quotient(self, other: Self) -> (quotient: Self)
        ensures
            quotient == self.over(other),
            self.finite() && other.finite() && other.magnitude() != 0 ==> !quotient.nan(),
    {
        if self.is_nan() || other.is_nan() {
            return Binary64 { bits: 0x7ff8_0000_0000_0000 };
        }
        let negative = self.is_sign_negative() != other.is_sign_negative();
        let a: u64 = self.abs_bits() as u64;
        let b: u64 = other.abs_bits() as u64;
        proof {
            lemma_infinity_64();
        }
        if !self.is_finite() {
            return if !other.is_finite() {
                Binary64 { bits: 0x7ff8_0000_0000_0000 }
            } else {
                Self::with_sign(INFINITY_64 as u64, negative)
            };
        }
        if !other.is_finite() {
            return Self::with_sign(0, negative);
        }
        if b == 0 {
            return if a == 0 {
                Binary64 { bits: 0x7ff8_0000_0000_0000 }
            } else {
                Self::with_sign(INFINITY_64 as u64, negative)
            };
        }
        if a == 0 {
            return Self::with_sign(0, negative);
        }
        Self::with_sign(quotient_magnitude(a, b, 52, 2047), negative)
    }

    /// The number nearest to an integer.
    pub fn from_integer(value: u64) -> (number: Self)
        ensures
            number == Self::of_integer(value as nat),
    {
        proof {
            lemma_infinity_64();
        }
        if value == 0 {
            Self::with_sign(0, false)
        } else {
            Self::with_sign(integer_magnitude(value, 52, 2047), false)
        }
    }
}

/// The magnitude of infinity.
pub proof fn lemma_infinity_64()
    ensures
        infinite_magnitude(52, 2047) == INFINITY_64,
{
    lemma2_to64();
    lemma2_to64_rest();
}

/// Only zeros have no value, and others have the sign of their sign bit.
pub proof fn lemma_sign_of_units_64(number: Binary64)
    ensures
        number.magnitude() == 0 ==> number.units() == 0,
        number.magnitude() > 0 ==> (number.units() > 0 <==> !number.negative()) && number.units()
            != 0,
{
    lemma2_to64();
    lemma2_to64_rest();
    let zero = magnitude_units(0, 52);
    assert(zero == 0) by {
        vstd::arithmetic::div_mod::lemma_fundamental_div_mod_converse(
            0,
            pow2(52) as int,
            0,
            0,
        );
    }
    if number.magnitude() > 0 {
        crate::binary::lemma_units_increase(0, number.magnitude() as nat, 52);
    }
}

/// The nearest magnitude to a magnitude's own value is that magnitude.
pub proof fn lemma_nearest_of_exact_32(m: nat, den: nat)
    requires
        den > 0,
        m <= infinite_magnitude(23, 255),
    ensures
        nearest_ratio(magnitude_units(m, 23) * den, den, 23, 255) == m,
{
    let num = magnitude_units(m, 23) * den;
    crate::binary::lemma_units_increase(m, m + 1, 23);
    let here = magnitude_units(m, 23);
    let next = magnitude_units(m + 1, 23);
    assert(2 * num < den * (here + next)) by (nonlinear_arith)
        requires
            num == here * den,
            here < next,
            den > 0,
    ;
    if m > 0 {
        crate::binary::lemma_units_increase((m - 1) as nat, m, 23);
        let before = magnitude_units((m - 1) as nat, 23);
        assert(den * (before + here) < 2 * num) by (nonlinear_arith)
            requires
                num == here * den,
                before < here,
                den > 0,
        ;
    }
    assert(crate::rounding::is_nearest_ratio(num, den, 23, 255, m));
    crate::rounding::lemma_nearest_ratio_is_unique(
        num,
        den,
        23,
        255,
        m,
        nearest_ratio(num, den, 23, 255),
    );
}

/// Value of one in units.
proof fn lemma_units_of_one_32()
    ensures
        magnitude_units(0x3f80_0000u32 as nat, 23) == pow2(149),
{
    lemma2_to64();
    lemma2_to64_rest();
    let exponent = (0x3f80_0000u32 as nat / pow2(23)) as nat;
    assert(0x3f80_0000u32 as nat % pow2(23) == 0);
    lemma_pow2_adds(23, (exponent - 1) as nat);
    assert((pow2(23) + 0) * pow2((exponent - 1) as nat) == pow2(23) * pow2((exponent - 1) as nat))
        by (nonlinear_arith);
}

/// Multiplying by one changes nothing.
pub proof fn lemma_times_one_32(number: Binary32)
    requires
        number.finite(),
    ensures
        number.times(Binary32 { bits: 0x3f80_0000u32 }) == number,
{
    lemma_units_of_one_32();
    lemma_infinity_32();
    if number.magnitude() > 0 {
        lemma_pow2_pos(149);
        lemma_nearest_of_exact_32(number.magnitude() as nat, pow2(149));
    }
}

/// Adding a zero to a number other than zero changes nothing.
pub proof fn lemma_plus_zero_32(number: Binary32, zero: Binary32)
    requires
        number.finite(),
        number.magnitude() > 0,
        zero.magnitude() == 0,
    ensures
        number.plus(zero) == number,
{
    lemma_infinity_32();
    lemma_sign_of_units_32(number);
    lemma_sign_of_units_32(zero);
    let m = number.magnitude() as nat;
    lemma_nearest_of_exact_32(m, 1);
    assert(magnitude_units(m, 23) * 1 == magnitude_units(m, 23)) by (nonlinear_arith);
}

/// Adding a zero keeps the value of every finite number.
pub proof fn lemma_plus_zero_keeps_value_32(number: Binary32, zero: Binary32)
    requires
        number.finite(),
        zero.magnitude() == 0,
    ensures
        number.plus(zero).same_number(number),
{
    if number.magnitude() > 0 {
        lemma_plus_zero_32(number, zero);
    } else {
        lemma_sign_of_units_32(number);
        lemma_sign_of_units_32(zero);
    }
}

/// The nearest magnitude to a magnitude's own value is that magnitude.
pub proof fn lemma_nearest_of_exact_64(m: nat, den: nat)
    requires
        den > 0,
        m <= infinite_magnitude(52, 2047),
    ensures
        nearest_ratio(magnitude_units(m, 52) * den, den, 52, 2047) == m,
{
    let num = magnitude_units(m, 52) * den;
    crate::binary::lemma_units_increase(m, m + 1, 52);
    let here = magnitude_units(m, 52);
    let next = magnitude_units(m + 1, 52);
    assert(2 * num < den * (here + next)) by (nonlinear_arith)
        requires
            num == here * den,
            here < next,
            den > 0,
    ;
    if m > 0 {
        crate::binary::lemma_units_increase((m - 1) as nat, m, 52);
        let before = magnitude_units((m - 1) as nat, 52);
        assert(den * (before + here) < 2 * num) by (nonlinear_arith)
            requires
                num == here * den,
                before < here,
                den > 0,
        ;
    }
    assert(crate::rounding::is_nearest_ratio(num, den, 52, 2047, m));
    crate::rounding::lemma_nearest_ratio_is_unique(
        num,
        den,
        52,
        2047,
        m,
        nearest_ratio(num, den, 52, 2047),
    );
}

/// Value of one in units.
pub proof fn lemma_units_of_one_64()
    ensures
        magnitude_units(0x3ff0_0000_0000_0000u64 as nat, 52) == pow2(1074),
{
    lemma2_to64();
    lemma2_to64_rest();
    let exponent = (0x3ff0_0000_0000_0000u64 as nat / pow2(52)) as nat;
    assert(0x3ff0_0000_0000_0000u64 as nat % pow2(52) == 0);
    lemma_pow2_adds(52, (exponent - 1) as nat);
    assert((pow2(52) + 0) * pow2((exponent - 1) as nat) == pow2(52) * pow2((exponent - 1) as nat))
        by (nonlinear_arith);
}

/// Multiplying by one changes nothing.
pub proof fn lemma_times_one_64(number: Binary64)
    requires
        number.finite(),
    ensures
        number.times(Binary64 { bits: 0x3ff0_0000_0000_0000u64 }) == number,
{
    lemma_units_of_one_64();
    lemma_infinity_64();
    if number.magnitude() > 0 {
        lemma_pow2_pos(1074);
        lemma_nearest_of_exact_64(number.magnitude() as nat, pow2(1074));
    }
}

/// Adding a zero to a number other than zero changes nothing.
pub proof fn lemma_plus_zero_64(number: Binary64, zero: Binary64)
    requires
        number.finite(),
        number.magnitude() > 0,
        zero.magnitude() == 0,
    ensures
        number.plus(zero) == number,
{
    lemma_infinity_64();
    lemma_sign_of_units_64(number);
    lemma_sign_of_units_64(zero);
    let m = number.magnitude() as nat;
    lemma_nearest_of_exact_64(m, 1);
    assert(magnitude_units(m, 52) * 1 == magnitude_units(m, 52)) by (nonlinear_arith);
}

impl Binary32 {
    /// Square root: zeros keep their sign, other negative numbers have none.
    pub open spec fn root(self) -> Self {
        if self.nan() {
            Self::not_a_number()
        } else if self.magnitude() == 0 {
            self
        } else if self.negative() {
            Self::not_a_number()
        } else if !self.finite() {
            self
        } else {
            Self::signed(
                nearest_root(
                    magnitude_units(self.magnitude() as nat, 23) * pow2(unit_places(23)),
                    23,
                    255,
                ),
                false,
            )
        }
    }

    /// Square root.
    pub fn square_root(self) -> (root: Self)
        ensures
            root == self.root(),
    {
        if self.is_nan() {
            return Binary32 { bits: 0x7fc0_0000 };
        }
        let a: u64 = self.abs_bits() as u64;
        if a == 0 {
            return self;
        }
        if self.is_sign_negative() {
            return Binary32 { bits: 0x7fc0_0000 };
        }
        if !self.is_finite() {
            return self;
        }
        proof {
            lemma_infinity_32();
        }
        Self::with_sign(root_magnitude(a, 23, 255), false)
    }
}

impl Binary64 {
    /// Square root: zeros keep their sign, other negative numbers have none.
    pub open spec fn root(self) -> Self {
        if self.nan() {
            Self::not_a_number()
        } else if self.magnitude() == 0 {
            self
        } else if self.negative() {
            Self::not_a_number()
        } else if !self.finite() {
            self
        } else {
            Self::signed(
                nearest_root(
                    magnitude_units(self.magnitude() as nat, 52) * pow2(unit_places(52)),
                    52,
                    2047,
                ),
                false,
            )
        }
    }

    /// Square root.
    pub fn square_root(self) -> (root: Self)
        ensures
            root == self.root(),
    {
        if self.is_nan() {
            return Binary64 { bits: 0x7ff8_0000_0000_0000 };
        }
        let a: u64 = self.abs_bits() as u64;
        if a == 0 {
            return self;
        }
        if self.is_sign_negative() {
            return Binary64 { bits: 0x7ff8_0000_0000_0000 };
        }
        if !self.is_finite() {
            return self;
        }
        proof {
            lemma_infinity_64();
        }
        Self::with_sign(root_magnitude(a, 52, 2047), false)
    }
}

} // verus!
