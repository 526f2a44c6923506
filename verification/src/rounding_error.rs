//! How far rounding takes a result from its exact value.
//!
//! Values are real numbers here. A result of a format with `w` fraction bits lies
//! within `2^-(w+1)` of itself from the exact value, and within half of the smallest
//! positive number where it is subnormal.

use vstd::arithmetic::power2::{lemma2_to64, lemma2_to64_rest, lemma_pow2_adds, lemma_pow2_pos, lemma_pow2_unfold, pow2};
use vstd::prelude::*;

use crate::arithmetic::lemma_infinity_64;
use crate::binary::{lemma_units_increase, magnitude_units, Binary32, Binary64};
use crate::binary_convert::{is_nearest, is_wide, nearest_narrow};
use crate::rounding::{
    infinite_magnitude, is_nearest_ratio, lemma_nearest_ratio_exists, lemma_nearest_root_exists,
    lemma_units_of_scaled, nearest_ratio, nearest_root,
};

verus! {

/// Neighbouring magnitudes lie one unit apart below the normal ones, and from there on
/// at most a `2^w`-th of the value.
pub proof fn lemma_step_size(m: nat, w: nat)
    ensures
        m < pow2(w) ==> magnitude_units(m + 1, w) == magnitude_units(m, w) + 1,
        m >= pow2(w) ==> (magnitude_units(m + 1, w) - magnitude_units(m, w)) * pow2(w)
            <= magnitude_units(m, w),
        m >= pow2(w) ==> magnitude_units(m, w) >= pow2(w),
{
    let base = pow2(w);
    lemma_pow2_pos(w);
    lemma2_to64();
    let e = m / base;
    let f = m % base;
    vstd::arithmetic::div_mod::lemma_fundamental_div_mod(m as int, base as int);
    if m < base {
        vstd::arithmetic::div_mod::lemma_fundamental_div_mod_converse(m as int, base as int, 0, m as int);
        lemma_units_of_scaled(0, m, w);
        lemma_units_of_scaled(0, m + 1, w);
        assert(0 * base + m == m && 0 * base + (m + 1) == m + 1) by (nonlinear_arith);
        assert(m * 1 == m && (m + 1) * 1 == m + 1) by (nonlinear_arith);
    } else {
        assert(e >= 1) by (nonlinear_arith)
            requires
                m == base * e + f,
                f < base,
                m >= base,
        ;
        let s = (e - 1) as nat;
        let q = base + f;
        assert(s * base + q == m && s * base + (q + 1) == m + 1) by (nonlinear_arith)
            requires
                m == base * e + f,
                s == e - 1,
                q == base + f,
        ;
        lemma_units_of_scaled(s, q, w);
        lemma_units_of_scaled(s, q + 1, w);
        lemma_pow2_pos(s);
        let p = pow2(s);
        assert(((q + 1) * p - q * p) * base <= q * p && q * p >= base) by (nonlinear_arith)
            requires
                base <= q,
                p >= 1,
        ;
    }
}

/// A ratio lies close to what it rounds to.
pub proof fn lemma_ratio_error(num: nat, den: nat, w: nat, top: nat, m: nat)
    requires
        den > 0,
        m == nearest_ratio(num, den, w, top),
        m < infinite_magnitude(w, top),
    ensures
        m < pow2(w) ==> 2 * (num - den * magnitude_units(m, w)) <= den && 2 * (den
            * magnitude_units(m, w) - num) <= den,
        m >= pow2(w) ==> 2 * pow2(w) * (num - den * magnitude_units(m, w)) <= den * magnitude_units(
            m,
            w,
        ) && 2 * pow2(w) * (den * magnitude_units(m, w) - num) <= den * magnitude_units(m, w),
{
    lemma_nearest_ratio_exists(num, den, w, top);
    lemma_step_size(m, w);
    lemma_pow2_pos(w);
    let base = pow2(w) as int;
    let u = magnitude_units(m, w) as int;
    let above = magnitude_units(m + 1, w) as int;
    let d = den as int;
    let step: int = above - u;
    assert(2 * num <= d * (u + above));
    assert(d * (u + above) == 2 * (d * u) + d * step) by (nonlinear_arith)
        requires
            step == above - u,
    ;
    let below = if m > 0 {
        magnitude_units((m - 1) as nat, w) as int
    } else {
        u
    };
    let drop: int = u - below;
    if m > 0 {
        lemma_step_size((m - 1) as nat, w);
        lemma_units_increase((m - 1) as nat, m, w);
        assert(d * (below + u) <= 2 * num);
        assert(d * (below + u) == 2 * (d * u) - d * drop) by (nonlinear_arith)
            requires
                drop == u - below,
        ;
    } else {
        assert(u == 0) by {
            lemma_units_of_scaled(0, 0, w);
            lemma2_to64();
            assert(0 * pow2(w) + 0 == 0 && 0 * pow2(0) == 0) by (nonlinear_arith);
        }
        assert(d * 0 == 0) by (nonlinear_arith);
    }
    if m < pow2(w) {
        assert(d * step == d) by (nonlinear_arith)
            requires
                step == 1,
        ;
        if m > 0 {
            assert(d * drop == d) by (nonlinear_arith)
                requires
                    drop == 1,
            ;
        }
    } else {
        assert(step * base <= u);
        assert(drop * base <= u) by {
            if m - 1 >= pow2(w) {
                assert((u - below) * base <= below);
            } else {
                assert(drop == 1);
                assert(1 * base == base) by (nonlinear_arith);
            }
        }
        assert((d * step) * base <= d * u) by (nonlinear_arith)
            requires
                step * base <= u,
                d > 0,
        ;
        assert((d * drop) * base <= d * u) by (nonlinear_arith)
            requires
                drop * base <= u,
                d > 0,
        ;
        let over = num - d * u;
        assert(2 * over <= d * step && 2 * (-over) <= d * drop);
        assert(2 * base * over <= (d * step) * base && 2 * base * (-over) <= (d * drop) * base)
            by (nonlinear_arith)
            requires
                2 * over <= d * step,
                2 * (-over) <= d * drop,
                base > 0,
        ;
    }
}

/// A root lies close to what it rounds to.
pub proof fn lemma_root_error(num: nat, w: nat, top: nat, m: nat)
    requires
        m == nearest_root(num, w, top),
        pow2(w) <= m < infinite_magnitude(w, top),
    ensures
        ({
            let k = 2 * pow2(w) as int;
            let u = magnitude_units(m, w) as int;
            &&& ((k - 1) * u) * ((k - 1) * u) <= k * k * num
            &&& k * k * num <= ((k + 1) * u) * ((k + 1) * u)
        }),
{
    lemma_nearest_root_exists(num, w, top);
    lemma_step_size(m, w);
    lemma_pow2_pos(w);
    lemma_step_size((m - 1) as nat, w);
    lemma_units_increase((m - 1) as nat, m, w);
    let base = pow2(w) as int;
    let k = 2 * base;
    let u = magnitude_units(m, w) as int;
    let above = magnitude_units(m + 1, w) as int;
    let below = magnitude_units((m - 1) as nat, w) as int;
    assert((u - below) * base <= u) by {
        if m - 1 < pow2(w) {
            assert(1 * base == base) by (nonlinear_arith);
        }
    }
    let low = below + u;
    let high = u + above;
    assert(low * low <= 4 * num && 4 * num <= high * high);
    assert((k - 1) * u <= base * low) by (nonlinear_arith)
        requires
            k == 2 * base,
            low == below + u,
            (u - below) * base <= u,
    ;
    assert(base * high <= (k + 1) * u) by (nonlinear_arith)
        requires
            k == 2 * base,
            high == u + above,
            (above - u) * base <= u,
    ;
    let x = (k - 1) * u;
    let y = (k + 1) * u;
    assert(x >= 0) by (nonlinear_arith)
        requires
            x == (k - 1) * u,
            k >= 2,
            u >= 0,
    ;
    assert(x * x <= (base * low) * (base * low)) by (nonlinear_arith)
        requires
            0 <= x <= base * low,
    ;
    assert((base * high) * (base * high) <= y * y) by (nonlinear_arith)
        requires
            0 <= base * high <= y,
            base > 0,
            high >= 0,
    ;
    assert((base * low) * (base * low) == (base * base) * (low * low)) by (nonlinear_arith);
    assert((base * high) * (base * high) == (base * base) * (high * high)) by (nonlinear_arith);
    assert(k * k * num == (base * base) * (4 * num)) by (nonlinear_arith)
        requires
            k == 2 * base,
    ;
    assert((base * base) * (low * low) <= (base * base) * (4 * num) && (base * base) * (4 * num) <= (
    base * base) * (high * high)) by (nonlinear_arith)
        requires
            low * low <= 4 * num <= high * high,
    ;
}

/// Narrowing is rounding a ratio.
pub proof fn lemma_narrowing_is_a_ratio(units: nat)
    ensures
        is_nearest(units as int, nearest_narrow(units as int)),
        nearest_ratio(units, pow2(925), 23, 255) == nearest_narrow(units as int),
{
    lemma2_to64();
    lemma2_to64_rest();
    lemma_pow2_pos(925);
    let den = pow2(925);
    lemma_nearest_ratio_exists(units, den, 23, 255);
    let m = nearest_ratio(units, den, 23, 255);
    assert forall|a: nat, b: nat| #[trigger] (den * (a + b)) == a * den + b * den by {
        assert(den * (a + b) == a * den + b * den) by (nonlinear_arith);
    }
    assert(is_nearest(units as int, m as int));
    let n = nearest_narrow(units as int);
    assert(is_nearest(units as int, n));
    assert(is_nearest_ratio(units, den, 23, 255, n as nat));
    crate::rounding::lemma_nearest_ratio_is_unique(units, den, 23, 255, m, n as nat);
}

/// A number between two powers of two.
pub proof fn lemma_leading_place(s: nat, most: nat) -> (k: nat)
    requires
        1 <= s < pow2(most),
    ensures
        k < most,
        pow2(k) <= s < 2 * pow2(k),
    decreases most,
{
    lemma2_to64();
    if most == 0 {
        0
    } else {
        lemma_pow2_unfold(most);
        if s >= pow2((most - 1) as nat) {
            (most - 1) as nat
        } else {
            lemma_leading_place(s, (most - 1) as nat)
        }
    }
}

/// Widening finds the number.
pub proof fn lemma_widened(number: Binary32)
    requires
        number.finite(),
    ensures
        is_wide(number.magnitude(), number.widened().magnitude()),
        number.widened().negative() == number.negative(),
        number.widened().units() == number.units() * pow2(925),
{
    lemma2_to64();
    lemma2_to64_rest();
    lemma_infinity_64();
    let n = number.magnitude() as nat;
    let units = magnitude_units(n, 23);
    let e = if n < 0x80_0000 {
        0
    } else {
        (n / 0x80_0000 - 1) as nat
    };
    let s: nat = if n < 0x80_0000 {
        n
    } else {
        0x80_0000 + n % 0x80_0000
    };
    assert(units == s * pow2(e)) by {
        assert(s * 1 == s) by (nonlinear_arith);
    }
    let m: nat;
    if n == 0 {
        m = 0;
        lemma_units_of_scaled(0, 0, 52);
        assert(0 * pow2(52) + 0 == 0 && 0 * pow2(0) == 0 && 0 * pow2(e) == 0 && 0 * pow2(925) == 0)
            by (nonlinear_arith);
    } else {
        let k = lemma_leading_place(s, 24);
        let j = (52 - k) as nat;
        let scale = (e + 925 - j) as nat;
        let q = s * pow2(j);
        lemma_pow2_adds(k, j);
        lemma_pow2_pos(j);
        assert(pow2(52) <= q < 2 * pow2(52)) by (nonlinear_arith)
            requires
                q == s * pow2(j),
                pow2(k) <= s < 2 * pow2(k),
                pow2(k) * pow2(j) == pow2(52),
                pow2(j) > 0,
        ;
        m = scale * pow2(52) + q;
        lemma_units_of_scaled(scale, q, 52);
        lemma_pow2_adds(j, scale);
        lemma_pow2_adds(e, 925);
        assert(q * pow2(scale) == (s * pow2(e)) * pow2(925)) by (nonlinear_arith)
            requires
                q == s * pow2(j),
                pow2(j) * pow2(scale) == pow2(e) * pow2(925),
        ;
        assert(e <= 253);
        assert(m < 0x7ff0_0000_0000_0000) by (nonlinear_arith)
            requires
                m == scale * 0x10_0000_0000_0000 + q,
                scale <= 1178,
                q < 0x20_0000_0000_0000,
        ;
    }
    assert(is_wide(n as int, m as int));
    let wide = number.widened();
    assert(is_wide(n as int, wide.magnitude()));
    assert(-(units as int) * pow2(925) == -((units * pow2(925)) as int)) by (nonlinear_arith);
}

/// The value of a finite binary32 number.
pub open spec fn value_32(number: Binary32) -> real {
    number.units() as real / pow2(149) as real
}

/// Relative error of a normal binary32 result.
pub open spec fn fine_32() -> real {
    1 as real / 0x100_0000 as real
}

/// Relative error of a normal binary64 result.
pub open spec fn fine_64() -> real {
    1 as real / 0x20_0000_0000_0000 as real
}

/// Half of the smallest positive binary32 number.
pub open spec fn half_least_32() -> real {
    1 as real / (2 * pow2(149)) as real
}

/// Half of the smallest positive binary64 number.
pub open spec fn half_least_64() -> real {
    1 as real / (2 * pow2(1074)) as real
}

/// `exact` lies close to the binary32 result `result`, which carries no sign.
pub open spec fn rounds_to_32(exact: real, result: real) -> bool {
    &&& exact - result <= fine_32() * result + half_least_32()
    &&& result - exact <= fine_32() * result + half_least_32()
}

/// `exact` lies close to the binary64 result `result`, which carries no sign.
pub open spec fn rounds_to_64(exact: real, result: real) -> bool {
    &&& exact - result <= fine_64() * result + half_least_64()
    &&& result - exact <= fine_64() * result + half_least_64()
}

/// Products of integers are products of reals.
pub proof fn lemma_real_product(a: int, b: int)
    by (nonlinear_arith)
    ensures
        (a * b) as real == a as real * b as real,
{
}

/// A quotient times its divisor.
pub proof fn lemma_quotient(a: real, b: real)
    by (nonlinear_arith)
    requires
        b != 0 as real,
    ensures
        (a / b) * b == a,
{
}

/// A positive factor keeps an order.
proof fn lemma_cancel(a: real, b: real, z: real)
    by (nonlinear_arith)
    requires
        z > 0 as real,
        a * z <= b * z,
    ensures
        a <= b,
{
}

/// From integers to values: a ratio and what it rounds to.
pub proof fn lemma_error_in_values(num: int, den: int, u: int, base: int, unit: int, normal: bool)
    requires
        den > 0,
        base > 0,
        unit > 0,
        u >= 0,
        !normal ==> 2 * (num - den * u) <= den && 2 * (den * u - num) <= den,
        normal ==> 2 * base * (num - den * u) <= den * u && 2 * base * (den * u - num) <= den * u,
    ensures
        ({
            let exact = num as real / (den as real * unit as real);
            let result = u as real / unit as real;
            let fine = 1 as real / (2 * base) as real;
            let half = if normal {
                0 as real
            } else {
                1 as real / (2 * unit) as real
            };
            &&& exact - result <= fine * result + half
            &&& result - exact <= fine * result + half
            &&& result >= 0 as real
        }),
{
    let n = num as real;
    let d = den as real;
    let r = u as real;
    let b = base as real;
    let t = unit as real;
    let z = d * t;
    assert(z > 0 as real) by (nonlinear_arith)
        requires
            z == d * t,
            d > 0 as real,
            t > 0 as real,
    ;
    let exact = n / z;
    let result = r / t;
    let fine = 1 as real / (2 * base) as real;
    lemma_quotient(n, z);
    lemma_quotient(r, t);
    lemma_quotient(1 as real, (2 * base) as real);
    lemma_real_product(den, u);
    assert(result >= 0 as real) by (nonlinear_arith)
        requires
            result * t == r,
            r >= 0 as real,
            t > 0 as real,
    ;
    assert(fine >= 0 as real) by (nonlinear_arith)
        requires
            fine * (2 as real * b) == 1 as real,
            b > 0 as real,
    ;
    assert(fine * result >= 0 as real) by (nonlinear_arith)
        requires
            fine >= 0 as real,
            result >= 0 as real,
    ;
    assert(result * z == d * r) by (nonlinear_arith)
        requires
            z == d * t,
            result * t == r,
    ;
    let gap = n - d * r;
    assert((exact - result) * z == gap) by (nonlinear_arith)
        requires
            exact * z == n,
            result * z == d * r,
            gap == n - d * r,
    ;
    assert((result - exact) * z == -gap) by (nonlinear_arith)
        requires
            exact * z == n,
            result * z == d * r,
            gap == n - d * r,
    ;
    if normal {
        lemma_real_product(2 * base, num - den * u);
        lemma_real_product(2 * base, den * u - num);
        let share = fine * result;
        assert(2 as real * b * gap <= d * r && 2 as real * b * (-gap) <= d * r);
        assert(share * z == fine * (d * r)) by (nonlinear_arith)
            requires
                share == fine * result,
                result * z == d * r,
        ;
        assert(gap <= fine * (d * r) && -gap <= fine * (d * r)) by (nonlinear_arith)
            requires
                2 as real * b * gap <= d * r,
                2 as real * b * (-gap) <= d * r,
                fine * (2 as real * b) == 1 as real,
                fine >= 0 as real,
        ;
        lemma_cancel(exact - result, share, z);
        lemma_cancel(result - exact, share, z);
    } else {
        let half = 1 as real / (2 * unit) as real;
        lemma_quotient(1 as real, (2 * unit) as real);
        assert(half * z == d / 2 as real) by (nonlinear_arith)
            requires
                half * (2 as real * t) == 1 as real,
                z == d * t,
        ;
        assert(2 as real * gap <= d && 2 as real * (-gap) <= d);
        lemma_cancel(exact - result, half, z);
        lemma_cancel(result - exact, half, z);
    }
}

/// The value of a magnitude, without a sign.
pub open spec fn size_32(number: Binary32) -> real {
    magnitude_units(number.magnitude() as nat, 23) as real / pow2(149) as real
}

/// The value of a magnitude, without a sign.
pub open spec fn size_64(number: Binary64) -> real {
    magnitude_units(number.magnitude() as nat, 52) as real / pow2(1074) as real
}

/// Sizes are not negative, and zero for zeros only.
pub proof fn lemma_sizes(narrow: Binary32, wide: Binary64)
    ensures
        size_32(narrow) >= 0 as real,
        size_64(wide) >= 0 as real,
        narrow.magnitude() == 0 ==> size_32(narrow) == 0 as real,
        wide.magnitude() == 0 ==> size_64(wide) == 0 as real,
{
    lemma_pow2_pos(149);
    lemma_pow2_pos(1074);
    let a = magnitude_units(narrow.magnitude() as nat, 23) as real;
    let b = magnitude_units(wide.magnitude() as nat, 52) as real;
    lemma_quotient(a, pow2(149) as real);
    lemma_quotient(b, pow2(1074) as real);
    assert(size_32(narrow) >= 0 as real) by (nonlinear_arith)
        requires
            size_32(narrow) * pow2(149) as real == a,
            a >= 0 as real,
            pow2(149) as real > 0 as real,
    ;
    assert(size_64(wide) >= 0 as real) by (nonlinear_arith)
        requires
            size_64(wide) * pow2(1074) as real == b,
            b >= 0 as real,
            pow2(1074) as real > 0 as real,
    ;
    crate::arithmetic_laws::lemma_units_of_zero();
    crate::arithmetic::lemma_sign_of_units_64(Binary64 { bits: 0 });
    if narrow.magnitude() == 0 {
        assert(size_32(narrow) == 0 as real) by (nonlinear_arith)
            requires
                size_32(narrow) * pow2(149) as real == 0 as real,
                pow2(149) as real > 0 as real,
        ;
    }
    if wide.magnitude() == 0 {
        assert(size_64(wide) == 0 as real) by (nonlinear_arith)
            requires
                size_64(wide) * pow2(1074) as real == 0 as real,
                pow2(1074) as real > 0 as real,
        ;
    }
}

/// Widening keeps the size.
pub proof fn lemma_widened_size(number: Binary32)
    requires
        number.finite(),
    ensures
        size_64(number.widened()) == size_32(number),
{
    lemma_widened(number);
    lemma_pow2_pos(149);
    lemma_pow2_pos(925);
    lemma_pow2_pos(1074);
    lemma_pow2_adds(149, 925);
    let a = magnitude_units(number.magnitude() as nat, 23) as real;
    let b = magnitude_units(number.widened().magnitude() as nat, 52) as real;
    let u = pow2(149) as real;
    let v = pow2(925) as real;
    let w = pow2(1074) as real;
    lemma_real_product(magnitude_units(number.magnitude() as nat, 23) as int, pow2(925) as int);
    lemma_real_product(pow2(149) as int, pow2(925) as int);
    lemma_quotient(a, u);
    lemma_quotient(b, w);
    let x = size_32(number);
    let y = size_64(number.widened());
    assert(x == y) by (nonlinear_arith)
        requires
            x * u == a,
            y * w == b,
            b == a * v,
            w == u * v,
            u > 0 as real,
            v > 0 as real,
    ;
}

/// Exact quotients of products cancel.
pub proof fn lemma_scaled_product(a: real, b: real, unit: real)
    by (nonlinear_arith)
    requires
        unit > 0 as real,
    ensures
        (a * b) / (unit * unit) == (a / unit) * (b / unit),
{
}

/// The square of a binary64 number, before and after rounding.
pub proof fn lemma_square_error(number: Binary64)
    requires
        number.times(number).finite(),
    ensures
        number.finite(),
        rounds_to_64(size_64(number) * size_64(number), size_64(number.times(number))),
{
    lemma2_to64();
    lemma2_to64_rest();
    lemma_infinity_64();
    let square = number.times(number);
    let a = magnitude_units(number.magnitude() as nat, 52);
    let unit = pow2(1074);
    lemma_pow2_pos(1074);
    lemma_sizes(Binary32 { bits: 0 }, number);
    lemma_sizes(Binary32 { bits: 0 }, square);
    lemma_half_least();
    if number.magnitude() > 0 {
        lemma_nearest_ratio_exists(a * a, unit, 52, 2047);
        let m = nearest_ratio(a * a, unit, 52, 2047);
        lemma_ratio_error(a * a, unit, 52, 2047, m);
        let u = magnitude_units(m, 52);
        lemma_error_in_values((a * a) as int, unit as int, u as int, pow2(52) as int, unit as int, m >= pow2(52));
        lemma_real_product(a as int, a as int);
        lemma_scaled_product(a as real, a as real, unit as real);
    } else {
        assert((0 as real) * (0 as real) == 0 as real) by (nonlinear_arith);
    }
}

/// The halves are positive.
pub proof fn lemma_half_least()
    ensures
        half_least_32() > 0 as real,
        half_least_64() > 0 as real,
        half_least_32() * (2 * pow2(149)) as real == 1 as real,
        half_least_64() * (2 * pow2(1074)) as real == 1 as real,
        fine_32() * 0x100_0000 as real == 1 as real,
        fine_64() * 0x2000_0000 as real == fine_32(),
{
    lemma_pow2_pos(149);
    lemma_pow2_pos(1074);
    lemma_quotient(1 as real, (2 * pow2(149)) as real);
    lemma_quotient(1 as real, (2 * pow2(1074)) as real);
    assert(half_least_32() > 0 as real) by (nonlinear_arith)
        requires
            half_least_32() * (2 * pow2(149)) as real == 1 as real,
            (2 * pow2(149)) as real > 0 as real,
    ;
    assert(half_least_64() > 0 as real) by (nonlinear_arith)
        requires
            half_least_64() * (2 * pow2(1074)) as real == 1 as real,
            (2 * pow2(1074)) as real > 0 as real,
    ;
}

/// The sum of two binary64 numbers without a sign, before and after rounding.
pub proof fn lemma_sum_error(left: Binary64, right: Binary64)
    requires
        left.finite() && right.finite(),
        left.rank() >= 0 && right.rank() >= 0,
        left.plus(right).finite(),
    ensures
        ({
            let exact = size_64(left) + size_64(right);
            let sum = size_64(left.plus(right));
            &&& exact - sum <= fine_64() * sum
            &&& sum - exact <= fine_64() * sum
        }),
{
    lemma2_to64();
    lemma2_to64_rest();
    lemma_infinity_64();
    lemma_pow2_pos(1074);
    lemma_half_least();
    crate::arithmetic::lemma_sign_of_units_64(left);
    crate::arithmetic::lemma_sign_of_units_64(right);
    let unit = pow2(1074);
    let a = magnitude_units(left.magnitude() as nat, 52);
    let b = magnitude_units(right.magnitude() as nat, 52);
    let sum = left.plus(right);
    lemma_sizes(Binary32 { bits: 0 }, left);
    lemma_sizes(Binary32 { bits: 0 }, right);
    lemma_sizes(Binary32 { bits: 0 }, sum);
    assert(left.units() == a && right.units() == b);
    let num = a + b;
    if num > 0 {
        lemma_nearest_ratio_exists(num, 1, 52, 2047);
        let m = nearest_ratio(num, 1, 52, 2047);
        lemma_ratio_error(num, 1, 52, 2047, m);
        let u = magnitude_units(m, 52);
        assert(1 * u == u) by (nonlinear_arith);
        if m < pow2(52) {
            assert(u == num);
            assert(2 * pow2(52) * (num - u) <= u && 2 * pow2(52) * (u - num) <= u) by (nonlinear_arith)
                requires
                    u == num,
                    u >= 0,
            ;
        }
        lemma_error_in_values(num as int, 1, u as int, pow2(52) as int, unit as int, true);
        let t = unit as real;
        let n = num as real;
        assert(n / (1 as real * t) == a as real / t + b as real / t) by (nonlinear_arith)
            requires
                n == a as real + b as real,
                t > 0 as real,
        ;
    } else {
        assert(fine_64() * 0 as real == 0 as real) by (nonlinear_arith);
    }
}

/// The root of a binary64 number, before and after rounding.
pub proof fn lemma_root_error_64(number: Binary64)
    requires
        number.finite(),
        number.rank() > 0,
        0x10_0000_0000_0000 <= number.root().magnitude(),
        number.root().finite(),
    ensures
        ({
            let root = size_64(number.root());
            let low = root - fine_64() * root;
            let high = root + fine_64() * root;
            &&& low * low <= size_64(number)
            &&& size_64(number) <= high * high
            &&& !number.root().negative()
        }),
{
    lemma2_to64();
    lemma2_to64_rest();
    lemma_infinity_64();
    lemma_pow2_pos(1074);
    let unit = pow2(1074);
    let a = magnitude_units(number.magnitude() as nat, 52);
    let num = a * unit;
    lemma_nearest_root_exists(num, 52, 2047);
    let m = nearest_root(num, 52, 2047);
    lemma_root_error(num, 52, 2047, m);
    lemma_root_in_values(
        a as int,
        unit as int,
        magnitude_units(m, 52) as int,
        2 * pow2(52) as int,
        fine_64(),
    );
}

/// From integers to values: a root and what it rounds to.
proof fn lemma_root_in_values(a: int, unit: int, u: int, k: int, fine: real)
    requires
        unit > 0,
        k > 1,
        ((k - 1) * u) * ((k - 1) * u) <= k * k * (a * unit),
        k * k * (a * unit) <= ((k + 1) * u) * ((k + 1) * u),
        fine * k as real == 1 as real,
    ensures
        ({
            let root = u as real / unit as real;
            let low = root - fine * root;
            let high = root + fine * root;
            let value = a as real / unit as real;
            low * low <= value && value <= high * high
        }),
{
    let p = (k - 1) * u;
    let q = (k + 1) * u;
    let s = k * k;
    let num = a * unit;
    lemma_real_product(k - 1, u);
    lemma_real_product(k + 1, u);
    lemma_real_product(p, p);
    lemma_real_product(q, q);
    lemma_real_product(k, k);
    lemma_real_product(s, num);
    lemma_real_product(a, unit);
    let t = unit as real;
    let x = a as real;
    let r = u as real;
    let c = k as real;
    let root = r / t;
    let value = x / t;
    lemma_quotient(r, t);
    lemma_quotient(x, t);
    let low = root - fine * root;
    let high = root + fine * root;
    let lower = (c - 1 as real) * r;
    let upper = (c + 1 as real) * r;
    assert((c * t) * low == lower) by (nonlinear_arith)
        requires
            low == root - fine * root,
            root * t == r,
            fine * c == 1 as real,
            lower == (c - 1 as real) * r,
    ;
    assert((c * t) * high == upper) by (nonlinear_arith)
        requires
            high == root + fine * root,
            root * t == r,
            fine * c == 1 as real,
            upper == (c + 1 as real) * r,
    ;
    let z = (c * t) * (c * t);
    assert(z * value == (c * c) * (x * t)) by (nonlinear_arith)
        requires
            z == (c * t) * (c * t),
            value * t == x,
    ;
    assert(z * (low * low) == lower * lower) by (nonlinear_arith)
        requires
            z == (c * t) * (c * t),
            (c * t) * low == lower,
    ;
    assert(z * (high * high) == upper * upper) by (nonlinear_arith)
        requires
            z == (c * t) * (c * t),
            (c * t) * high == upper,
    ;
    assert(z > 0 as real) by (nonlinear_arith)
        requires
            z == (c * t) * (c * t),
            c > 0 as real,
            t > 0 as real,
    ;
    assert(p as real == lower && q as real == upper);
    assert((s * num) as real == (c * c) * (x * t));
    lemma_cancel_left(low * low, value, z);
    lemma_cancel_left(value, high * high, z);
}

proof fn lemma_cancel_left(a: real, b: real, z: real)
    by (nonlinear_arith)
    requires
        z > 0 as real,
        z * a <= z * b,
    ensures
        a <= b,
{
}

/// A narrowed number, before and after rounding.
pub proof fn lemma_narrow_error(number: Binary64)
    requires
        number.finite(),
        number.narrowed().finite(),
    ensures
        rounds_to_32(size_64(number), size_32(number.narrowed())),
        number.narrowed().negative() == number.negative(),
        number.narrowed().magnitude() >= 0x80_0000 ==> {
            let narrow = size_32(number.narrowed());
            &&& size_64(number) - narrow <= fine_32() * narrow
            &&& narrow - size_64(number) <= fine_32() * narrow
        },
{
    lemma2_to64();
    lemma2_to64_rest();
    lemma_pow2_pos(149);
    lemma_pow2_pos(925);
    lemma_pow2_adds(149, 925);
    lemma_half_least();
    let a = magnitude_units(number.magnitude() as nat, 52);
    lemma_narrowing_is_a_ratio(a);
    let m = nearest_ratio(a, pow2(925), 23, 255);
    assert(number.narrowed().magnitude() == m);
    lemma_ratio_error(a, pow2(925), 23, 255, m);
    let u = magnitude_units(m, 23);
    lemma_error_in_values(a as int, pow2(925) as int, u as int, pow2(23) as int, pow2(149) as int, m >= pow2(23));
    lemma_real_product(pow2(149) as int, pow2(925) as int);
    assert(pow2(925) as real * pow2(149) as real == pow2(1074) as real) by (nonlinear_arith)
        requires
            pow2(149) as real * pow2(925) as real == pow2(1074) as real,
    ;
}

/// A quotient of binary32 numbers, before and after rounding.
pub proof fn lemma_quotient_error(left: Binary32, right: Binary32)
    requires
        left.finite() && right.finite(),
        right.magnitude() > 0,
        left.over(right).finite(),
    ensures
        rounds_to_32(size_32(left) / size_32(right), size_32(left.over(right))),
        size_32(right) > 0 as real,
        left.over(right).magnitude() >= 0x80_0000 ==> {
            let exact = size_32(left) / size_32(right);
            let result = size_32(left.over(right));
            &&& exact - result <= fine_32() * result
            &&& result - exact <= fine_32() * result
        },
{
    lemma2_to64();
    lemma2_to64_rest();
    lemma_pow2_pos(149);
    lemma_half_least();
    let unit = pow2(149);
    let a = magnitude_units(left.magnitude() as nat, 23);
    let b = magnitude_units(right.magnitude() as nat, 23);
    crate::arithmetic_laws::lemma_units_of_zero();
    lemma_units_increase(0, right.magnitude() as nat, 23);
    let t = unit as real;
    let x = a as real;
    let y = b as real;
    lemma_quotient(y, t);
    assert(size_32(right) > 0 as real) by (nonlinear_arith)
        requires
            size_32(right) * t == y,
            y > 0 as real,
            t > 0 as real,
    ;
    lemma_sizes(left, Binary64 { bits: 0 });
    lemma_sizes(left.over(right), Binary64 { bits: 0 });
    if left.magnitude() > 0 {
        let num = a * unit;
        crate::arithmetic_laws::lemma_rounded_is_a_number(num, b);
        let m = nearest_ratio(num, b, 23, 255);
        lemma_ratio_error(num, b, 23, 255, m);
        let u = magnitude_units(m, 23);
        lemma_error_in_values(num as int, b as int, u as int, pow2(23) as int, unit as int, m >= pow2(23));
        lemma_real_product(a as int, unit as int);
        assert((x * t) / (y * t) == (x / t) / (y / t)) by (nonlinear_arith)
            requires
                y > 0 as real,
                t > 0 as real,
        ;
    } else {
        let z = size_32(right);
        assert((0 as real) / z == 0 as real) by (nonlinear_arith)
            requires
                z > 0 as real,
        ;
        assert(fine_32() * 0 as real == 0 as real) by (nonlinear_arith);
    }
}

/// A product of binary32 numbers, before and after rounding.
pub proof fn lemma_product_error(left: Binary32, right: Binary32)
    requires
        left.finite() && right.finite(),
        left.times(right).finite(),
    ensures
        rounds_to_32(size_32(left) * size_32(right), size_32(left.times(right))),
{
    lemma2_to64();
    lemma2_to64_rest();
    lemma_pow2_pos(149);
    lemma_half_least();
    let unit = pow2(149);
    let a = magnitude_units(left.magnitude() as nat, 23);
    let b = magnitude_units(right.magnitude() as nat, 23);
    lemma_sizes(left, Binary64 { bits: 0 });
    lemma_sizes(right, Binary64 { bits: 0 });
    lemma_sizes(left.times(right), Binary64 { bits: 0 });
    if left.magnitude() > 0 && right.magnitude() > 0 {
        crate::arithmetic_laws::lemma_rounded_is_a_number(a * b, unit);
        let m = nearest_ratio(a * b, unit, 23, 255);
        lemma_ratio_error(a * b, unit, 23, 255, m);
        let u = magnitude_units(m, 23);
        lemma_error_in_values((a * b) as int, unit as int, u as int, pow2(23) as int, unit as int, m >= pow2(23));
        lemma_real_product(a as int, b as int);
        lemma_scaled_product(a as real, b as real, unit as real);
    } else {
        let x = size_32(left);
        let y = size_32(right);
        assert(x * y == 0 as real) by (nonlinear_arith)
            requires
                x == 0 as real || y == 0 as real,
        ;
        assert(fine_32() * 0 as real == 0 as real) by (nonlinear_arith);
    }
}

} // verus!
