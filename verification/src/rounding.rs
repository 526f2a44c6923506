//! Correct rounding to the nearest number of a binary format.
//!
//! A format is given by its number of fraction bits `w` and the exponent field
//! `top` of its infinity. Values are ratios of integers in units of the
//! format's smallest positive number.

use vstd::arithmetic::power2::{lemma2_to64, lemma2_to64_rest, lemma_pow2_adds, lemma_pow2_pos, lemma_pow2_strictly_increases, lemma_pow2_unfold, pow2};
use vstd::prelude::*;

use crate::binary::{lemma_units_increase, magnitude_units};

verus! {

/// The magnitude of the format's infinity.
pub open spec fn infinite_magnitude(w: nat, top: nat) -> nat {
    top * pow2(w)
}

/// The lower neighbour is not nearer to `num / den` than `m`: the middle lies
/// below, or at the ratio itself when `m` is even.
pub open spec fn not_rounded_down(num: nat, den: nat, w: nat, m: nat) -> bool {
    let twice_middle = den * (magnitude_units((m - 1) as nat, w) + magnitude_units(m, w));
    m > 0 ==> twice_middle < 2 * num || (twice_middle == 2 * num && m % 2 == 0)
}

/// The upper neighbour is not nearer to `num / den` than `m`.
pub open spec fn not_rounded_up(num: nat, den: nat, w: nat, m: nat) -> bool {
    let twice_middle = den * (magnitude_units(m, w) + magnitude_units(m + 1, w));
    2 * num < twice_middle || (twice_middle == 2 * num && m % 2 == 0)
}

/// `m` is the magnitude nearest to `num / den`; halfway between two neighbours
/// the even one is nearest. The infinite magnitude stands for the power of two
/// after the largest finite number.
pub open spec fn is_nearest_ratio(num: nat, den: nat, w: nat, top: nat, m: nat) -> bool {
    &&& m <= infinite_magnitude(w, top)
    &&& not_rounded_down(num, den, w, m)
    &&& m < infinite_magnitude(w, top) ==> not_rounded_up(num, den, w, m)
}

/// The magnitude nearest to `num / den`.
pub open spec fn nearest_ratio(num: nat, den: nat, w: nat, top: nat) -> nat {
    choose|m: nat| is_nearest_ratio(num, den, w, top, m)
}

/// The nearest magnitude is unique.
pub proof fn lemma_nearest_ratio_is_unique(
    num: nat,
    den: nat,
    w: nat,
    top: nat,
    left: nat,
    right: nat,
)
    requires
        den > 0,
        is_nearest_ratio(num, den, w, top, left),
        is_nearest_ratio(num, den, w, top, right),
    ensures
        left == right,
{
    if left < right {
        lemma_nearest_ratio_not_below(num, den, w, top, left, right);
    }
    if right < left {
        lemma_nearest_ratio_not_below(num, den, w, top, right, left);
    }
}

proof fn lemma_nearest_ratio_not_below(
    num: nat,
    den: nat,
    w: nat,
    top: nat,
    left: nat,
    right: nat,
)
    requires
        den > 0,
        is_nearest_ratio(num, den, w, top, left),
        is_nearest_ratio(num, den, w, top, right),
    ensures
        left >= right,
{
    if left < right {
        let a = magnitude_units(left, w) + magnitude_units(left + 1, w);
        let b = magnitude_units((right - 1) as nat, w) + magnitude_units(right, w);
        if left + 1 < right {
            lemma_units_increase(left, (right - 1) as nat, w);
            lemma_units_increase(left + 1, right, w);
            assert(den * a < den * b) by (nonlinear_arith)
                requires
                    a < b,
                    den > 0,
            ;
        }
    }
}

/// There is a nearest magnitude from `m` on, where the ratio does not round below
/// `m`.
proof fn lemma_nearest_ratio_from(num: nat, den: nat, w: nat, top: nat, m: nat)
    requires
        m <= infinite_magnitude(w, top),
        not_rounded_down(num, den, w, m),
    ensures
        exists|nearest: nat| is_nearest_ratio(num, den, w, top, nearest),
    decreases infinite_magnitude(w, top) - m,
{
    if m == infinite_magnitude(w, top) || not_rounded_up(num, den, w, m) {
        assert(is_nearest_ratio(num, den, w, top, m));
    } else {
        assert(not_rounded_down(num, den, w, m + 1));
        lemma_nearest_ratio_from(num, den, w, top, m + 1);
    }
}

/// Every ratio has a nearest magnitude.
pub proof fn lemma_nearest_ratio_exists(num: nat, den: nat, w: nat, top: nat)
    ensures
        is_nearest_ratio(num, den, w, top, nearest_ratio(num, den, w, top)),
{
    assert(0 <= top * pow2(w)) by (nonlinear_arith);
    lemma_nearest_ratio_from(num, den, w, top, 0);
}

/// A larger ratio does not round below a smaller one.
pub proof fn lemma_nearest_ratio_is_monotone(small: nat, large: nat, den: nat, w: nat, top: nat)
    requires
        den > 0,
        small <= large,
    ensures
        nearest_ratio(small, den, w, top) <= nearest_ratio(large, den, w, top),
{
    lemma_nearest_ratio_exists(small, den, w, top);
    lemma_nearest_ratio_exists(large, den, w, top);
    let left = nearest_ratio(large, den, w, top);
    let right = nearest_ratio(small, den, w, top);
    if left < right {
        let a = magnitude_units(left, w) + magnitude_units(left + 1, w);
        let b = magnitude_units((right - 1) as nat, w) + magnitude_units(right, w);
        if left + 1 < right {
            lemma_units_increase(left, (right - 1) as nat, w);
            lemma_units_increase(left + 1, right, w);
            assert(den * a < den * b) by (nonlinear_arith)
                requires
                    a < b,
                    den > 0,
            ;
        }
    }
}

/// Extending a ratio does not change what it rounds to.
pub proof fn lemma_nearest_ratio_of_extended(num: nat, den: nat, k: nat, w: nat, top: nat)
    requires
        den > 0,
        k > 0,
    ensures
        nearest_ratio(num * k, den * k, w, top) == nearest_ratio(num, den, w, top),
{
    lemma_nearest_ratio_exists(num, den, w, top);
    lemma_nearest_ratio_exists(num * k, den * k, w, top);
    let m = nearest_ratio(num, den, w, top);
    if m > 0 {
        let a = magnitude_units((m - 1) as nat, w) + magnitude_units(m, w);
        assert((den * k) * a == (den * a) * k) by (nonlinear_arith);
        assert(2 * (num * k) == (2 * num) * k) by (nonlinear_arith);
        assert(den * a < 2 * num ==> (den * a) * k < (2 * num) * k) by (nonlinear_arith)
            requires
                k > 0,
        ;
    }
    let b = magnitude_units(m, w) + magnitude_units(m + 1, w);
    assert((den * k) * b == (den * b) * k) by (nonlinear_arith);
    assert(2 * (num * k) == (2 * num) * k) by (nonlinear_arith);
    assert(2 * num < den * b ==> (2 * num) * k < (den * b) * k) by (nonlinear_arith)
        requires
            k > 0,
    ;
    assert(is_nearest_ratio(num * k, den * k, w, top, m));
    assert(den * k > 0) by (nonlinear_arith)
        requires
            den > 0,
            k > 0,
    ;
    lemma_nearest_ratio_is_unique(
        num * k,
        den * k,
        w,
        top,
        m,
        nearest_ratio(num * k, den * k, w, top),
    );
}

/// Value of a magnitude given by scale and significand.
pub proof fn lemma_units_of_scaled(s: nat, q: nat, w: nat)
    requires
        q <= 2 * pow2(w),
        s > 0 ==> pow2(w) <= q,
    ensures
        magnitude_units(s * pow2(w) + q, w) == q * pow2(s),
{
    let base = pow2(w);
    lemma_pow2_pos(w);
    lemma2_to64();
    let m = s * base + q;
    if q < base {
        assert(s * base == 0) by (nonlinear_arith)
            requires
                s == 0,
        ;
        vstd::arithmetic::div_mod::lemma_fundamental_div_mod_converse(
            m as int,
            base as int,
            0,
            q as int,
        );
        assert(q * pow2(0) == q) by (nonlinear_arith)
            requires
                pow2(0) == 1,
        ;
    } else if q < 2 * base {
        assert(m == (s + 1) * base + (q - base)) by (nonlinear_arith)
            requires
                m == s * base + q,
        ;
        vstd::arithmetic::div_mod::lemma_fundamental_div_mod_converse(
            m as int,
            base as int,
            (s + 1) as int,
            q - base,
        );
    } else {
        assert(m == (s + 2) * base + 0) by (nonlinear_arith)
            requires
                m == s * base + q,
                q == 2 * base,
        ;
        vstd::arithmetic::div_mod::lemma_fundamental_div_mod_converse(
            m as int,
            base as int,
            (s + 2) as int,
            0,
        );
        lemma_pow2_unfold(s + 1);
        assert((base + 0) * (2 * pow2(s)) == q * pow2(s)) by (nonlinear_arith)
            requires
                q == 2 * base,
        ;
    }
}

/// Adding a multiple of an even power of two keeps the parity.
proof fn lemma_scaled_parity(s: nat, q: nat, w: nat)
    requires
        w > 0,
    ensures
        (s * pow2(w) + q) % 2 == q % 2,
{
    lemma_pow2_unfold(w);
    let half = pow2((w - 1) as nat);
    assert(s * pow2(w) + q == 2 * (s * half) + q) by (nonlinear_arith)
        requires
            pow2(w) == 2 * half,
    ;
}

/// A magnitude that is nearest without an upper bound is cut off at infinity.
proof fn lemma_cut_off_at_infinity(num: nat, den: nat, w: nat, top: nat, m: nat)
    requires
        den > 0,
        w > 0,
        top > 0,
        not_rounded_down(num, den, w, m),
        not_rounded_up(num, den, w, m),
    ensures
        m <= infinite_magnitude(w, top) ==> is_nearest_ratio(num, den, w, top, m),
        m > infinite_magnitude(w, top) ==> is_nearest_ratio(
            num,
            den,
            w,
            top,
            infinite_magnitude(w, top),
        ),
{
    let bound = infinite_magnitude(w, top);
    if m > bound {
        lemma_pow2_pos(w);
        assert(bound > 0) by (nonlinear_arith)
            requires
                bound == top * pow2(w),
                top > 0,
                pow2(w) > 0,
        ;
        lemma_units_increase((bound - 1) as nat, (m - 1) as nat, w);
        lemma_units_increase(bound, m, w);
        let a = magnitude_units((bound - 1) as nat, w) + magnitude_units(bound, w);
        let b = magnitude_units((m - 1) as nat, w) + magnitude_units(m, w);
        assert(den * a < den * b) by (nonlinear_arith)
            requires
                a < b,
                den > 0,
        ;
    }
}

/// Offset that makes every exponent in use non-negative.
pub open spec fn bias() -> nat {
    8000
}

/// The ratio `num / den` lies at `n * 2^e`, or strictly between that and
/// `(n + 1) * 2^e` when `sticky`.
pub open spec fn ratio_at(num: nat, den: nat, n: nat, e: int, sticky: bool) -> bool {
    let unit = pow2((e + bias()) as nat);
    let scaled = num * pow2(bias());
    &&& den > 0
    &&& if sticky {
        den * (n * unit) < scaled < den * ((n + 1) * unit)
    } else {
        scaled == den * (n * unit)
    }
}

/// Comparing after scaling is comparing.
proof fn lemma_unscale(num: nat, den: nat, x: nat, s: nat)
    ensures
        (2 * (num * pow2(bias())) < den * (x * pow2(s + bias()))) == (2 * num < den * (x * pow2(s))),
        (2 * (num * pow2(bias())) == den * (x * pow2(s + bias()))) == (2 * num == den * (x * pow2(
            s,
        ))),
{
    let k = pow2(bias());
    let c = pow2(s);
    lemma_pow2_pos(bias());
    lemma_pow2_adds(s, bias());
    assert(den * (x * (c * k)) == (den * (x * c)) * k) by (nonlinear_arith);
    assert(2 * (num * k) == (2 * num) * k) by (nonlinear_arith);
    let a = 2 * num;
    let b = den * (x * c);
    assert((a * k < b * k) == (a < b)) by (nonlinear_arith)
        requires
            k > 0,
    ;
    assert((a * k == b * k) == (a == b)) by (nonlinear_arith)
        requires
            k > 0,
    ;
}

/// Rounding `num / den`, which lies in `[q, q + 1)` steps of `2^s`.
proof fn lemma_round(
    num: nat,
    den: nat,
    w: nat,
    s: nat,
    q: nat,
    rest: nat,
    half: nat,
    unit: nat,
    sticky: bool,
)
    requires
        w > 0,
        den > 0,
        half > 0,
        unit > 0,
        q < 2 * pow2(w),
        s > 0 ==> pow2(w) <= q,
        rest < 2 * half,
        2 * (half * unit) == pow2(s + bias()),
        ({
            let scaled = num * pow2(bias());
            let low = q * pow2(s + bias()) + rest * unit;
            if sticky {
                den * low < scaled < den * (low + unit)
            } else {
                scaled == den * low
            }
        }),
    ensures
        ({
            let m = s * pow2(w) + q;
            let up = rest > half || (rest == half && (sticky || q % 2 == 1));
            let r = if up {
                m + 1
            } else {
                m
            };
            not_rounded_down(num, den, w, r) && not_rounded_up(num, den, w, r)
        }),
{
    let m = s * pow2(w) + q;
    let step = pow2(s + bias());
    let scaled = num * pow2(bias());
    let low = q * step + rest * unit;
    lemma_units_of_scaled(s, q, w);
    lemma_units_of_scaled(s, q + 1, w);
    lemma_scaled_parity(s, q, w);
    lemma_scaled_parity(s, q + 1, w);
    assert(s * pow2(w) + (q + 1) == m + 1);
    let up = rest > half || (rest == half && (sticky || q % 2 == 1));
    let here = magnitude_units(m, w);
    let next = magnitude_units(m + 1, w);
    // the middle of m and m + 1
    assert(here + next == (2 * q + 1) * pow2(s)) by (nonlinear_arith)
        requires
            here == q * pow2(s),
            next == (q + 1) * pow2(s),
    ;
    lemma_unscale(num, den, 2 * q + 1, s);
    assert((2 * q + 1) * step == 2 * (q * step) + 2 * (half * unit)) by (nonlinear_arith)
        requires
            2 * (half * unit) == step,
    ;
    let middle = (2 * q + 1) * step;
    if up {
        lemma_units_increase(m + 1, m + 2, w);
        if rest > half {
            assert(2 * low > middle) by (nonlinear_arith)
                requires
                    low == q * step + rest * unit,
                    middle == 2 * (q * step) + 2 * (half * unit),
                    rest > half,
                    unit > 0,
            ;
            assert(den * middle < den * (2 * low)) by (nonlinear_arith)
                requires
                    middle < 2 * low,
                    den > 0,
            ;
            assert(den * (2 * low) == 2 * (den * low)) by (nonlinear_arith);
        } else {
            assert(2 * low == middle) by (nonlinear_arith)
                requires
                    low == q * step + rest * unit,
                    middle == 2 * (q * step) + 2 * (half * unit),
                    rest == half,
            ;
            assert(den * (2 * low) == 2 * (den * low)) by (nonlinear_arith);
        }
        assert(not_rounded_down(num, den, w, m + 1));
        // below m + 1
        lemma_unscale(num, den, 2 * (q + 1), s);
        let ceiling = (q + 1) * step;
        assert(low + unit <= ceiling) by (nonlinear_arith)
            requires
                low == q * step + rest * unit,
                ceiling == (q + 1) * step,
                2 * (half * unit) == step,
                rest + 1 <= 2 * half,
        ;
        assert(den * (low + unit) <= den * ceiling) by (nonlinear_arith)
            requires
                low + unit <= ceiling,
        ;
        assert(den * low < den * ceiling) by (nonlinear_arith)
            requires
                low + unit <= ceiling,
                unit > 0,
                den > 0,
        ;
        assert(2 * (den * ceiling) == den * ((2 * (q + 1)) * step)) by (nonlinear_arith)
            requires
                ceiling == (q + 1) * step,
        ;
        assert(2 * num < den * ((2 * (q + 1)) * pow2(s)));
        let after = magnitude_units(m + 2, w);
        assert((2 * (q + 1)) * pow2(s) == next + next) by (nonlinear_arith)
            requires
                next == (q + 1) * pow2(s),
        ;
        assert(den * (next + next) <= den * (next + after)) by (nonlinear_arith)
            requires
                next < after,
        ;
    } else {
        if rest < half {
            assert(low + unit <= q * step + half * unit) by (nonlinear_arith)
                requires
                    low == q * step + rest * unit,
                    rest + 1 <= half,
            ;
            assert(den * (2 * (low + unit)) <= den * middle) by (nonlinear_arith)
                requires
                    low + unit <= q * step + half * unit,
                    middle == 2 * (q * step) + 2 * (half * unit),
            ;
            assert(den * (2 * (low + unit)) == 2 * (den * (low + unit))) by (nonlinear_arith);
            assert(den * low < den * (low + unit)) by (nonlinear_arith)
                requires
                    unit > 0,
                    den > 0,
            ;
        } else {
            assert(2 * low == middle) by (nonlinear_arith)
                requires
                    low == q * step + rest * unit,
                    middle == 2 * (q * step) + 2 * (half * unit),
                    rest == half,
            ;
            assert(den * (2 * low) == 2 * (den * low)) by (nonlinear_arith);
        }
        assert(not_rounded_up(num, den, w, m));
        if m > 0 {
            lemma_units_increase((m - 1) as nat, m, w);
            lemma_unscale(num, den, 2 * q, s);
            assert(den * ((2 * q) * step) <= 2 * (den * low)) by (nonlinear_arith)
                requires
                    low == q * step + rest * unit,
            ;
            assert(2 * num >= den * ((2 * q) * pow2(s)));
            let before = magnitude_units((m - 1) as nat, w);
            assert((2 * q) * pow2(s) == here + here) by (nonlinear_arith)
                requires
                    here == q * pow2(s),
            ;
            assert(den * (before + here) < den * (here + here)) by (nonlinear_arith)
                requires
                    before < here,
                    den > 0,
            ;
        }
    }
}

/// One of the two formats in use.
pub open spec fn is_format(w: nat, top: nat) -> bool {
    (w == 23 && top == 255) || (w == 52 && top == 2047)
}

/// Two to the given exponent.
fn power(exponent: u32) -> (power: u128)
    requires
        exponent <= 126,
    ensures
        power == pow2(exponent as nat),
        power >= 1,
{
    let mut power: u128 = 1;
    proof {
        lemma2_to64();
        lemma2_to64_rest();
        lemma_pow2_adds(63, 63);
    }
    for i in 0..exponent
        invariant
            exponent <= 126,
            power == pow2(i as nat),
            power >= 1,
            pow2(126) == 0x4000_0000_0000_0000_0000_0000_0000_0000,
    {
        proof {
            lemma_pow2_unfold((i + 1) as nat);
            if i + 1 < 126 {
                lemma_pow2_strictly_increases((i + 1) as nat, 126);
            }
        }
        power = power * 2;
    }
    power
}

/// Number of bits of a positive integer.
fn bit_length(n: u128) -> (bits: u32)
    requires
        0 < n < pow2(126),
    ensures
        1 <= bits <= 126,
        pow2((bits - 1) as nat) <= n < pow2(bits as nat),
{
    let mut bits: u32 = 0;
    let mut bound: u128 = 1;
    proof {
        lemma2_to64();
        lemma2_to64_rest();
        lemma_pow2_adds(63, 63);
    }
    while bound <= n
        invariant
            0 < n < pow2(126),
            pow2(126) == 0x4000_0000_0000_0000_0000_0000_0000_0000,
            bits <= 126,
            bound == pow2(bits as nat),
            bits > 0 ==> pow2((bits - 1) as nat) <= n,
            bound >= 1,
        decreases 126 - bits,
    {
        proof {
            lemma_pow2_unfold((bits + 1) as nat);
            if bits == 126 {
                assert(false);
            }
        }
        bound = bound * 2;
        bits = bits + 1;
    }
    bits
}

/// The magnitude nearest to the ratio that `n`, `e` and `sticky` locate.
#[verifier::spinoff_prover]
#[verifier::rlimit(40)]
pub fn round_magnitude(
    n: u128,
    e: i32,
    sticky: bool,
    w: u32,
    top: u64,
    Ghost(num): Ghost<nat>,
    Ghost(den): Ghost<nat>,
) -> (m: u64)
    requires
        0 < n < pow2(126),
        -4000 <= e <= 4000,
        is_format(w as nat, top as nat),
        sticky ==> n >= pow2((w + 2) as nat),
        ratio_at(num, den, n as nat, e as int, sticky),
    ensures
        m == nearest_ratio(num, den, w as nat, top as nat),
        is_nearest_ratio(num, den, w as nat, top as nat, m as nat),
        sticky && 0 <= e && e + 3 <= top ==> m >= (e + 3) * pow2(w as nat),
{
    let bits: u32 = bit_length(n);
    let leading: i32 = bits as i32 - 1 + e;
    let s: i32 = if leading > w as i32 {
        leading - w as i32
    } else {
        0
    };
    let d: i32 = s - e;
    let base: u128 = power(w);
    let ghost step = pow2((s + bias()) as nat);
    let ghost unit = pow2((e + bias()) as nat);
    proof {
        lemma_pow2_pos((e + bias()) as nat);
        lemma_pow2_pos((s + bias()) as nat);
        lemma_pow2_unfold((w + 1) as nat);
    }
    let mut q: u128 = 0;
    let mut up = false;
    if d <= 0 {
        proof {
            if sticky {
                if bits <= w + 2 {
                    if bits < w + 2 {
                        lemma_pow2_strictly_increases(bits as nat, (w + 2) as nat);
                    }
                }
                assert(false);
            }
            lemma_pow2_adds(bits as nat, (-d) as nat);
            if bits - d < w + 1 {
                lemma_pow2_strictly_increases((bits - d) as nat, (w + 1) as nat);
            }
            lemma_pow2_pos((-d) as nat);
            assert(n * pow2((-d) as nat) < pow2(bits as nat) * pow2((-d) as nat))
                by (nonlinear_arith)
                requires
                    n < pow2(bits as nat),
                    pow2((-d) as nat) > 0,
            ;
            assert(pow2(53) == 0x20_0000_0000_0000 && pow2(24) == 0x100_0000) by {
                lemma2_to64();
                lemma2_to64_rest();
            }
        }
        q = n * power((-d) as u32);
        proof {
            if s > 0 {
                lemma_pow2_adds((bits - 1) as nat, (-d) as nat);
                assert(n * pow2((-d) as nat) >= pow2((bits - 1) as nat) * pow2((-d) as nat))
                    by (nonlinear_arith)
                    requires
                        n >= pow2((bits - 1) as nat),
                ;
            }
            lemma_pow2_adds((-d) as nat, (s + bias()) as nat);
            assert(n * unit == q * step) by (nonlinear_arith)
                requires
                    q == n * pow2((-d) as nat),
                    unit == pow2((-d) as nat) * step,
            ;
            let small = pow2((s + bias() - 1) as nat);
            lemma_pow2_unfold((s + bias()) as nat);
            lemma_pow2_pos((s + bias() - 1) as nat);
            assert(0 * small == 0 && 1 * small == small) by (nonlinear_arith);
            lemma_round(num, den, w as nat, s as nat, q as nat, 0, 1, small, false);
        }
    } else if d < 127 {
        let whole: u128 = power(d as u32);
        let half: u128 = power((d - 1) as u32);
        q = n / whole;
        let rest: u128 = n % whole;
        up = rest > half || (rest == half && (sticky || q % 2 == 1));
        proof {
            lemma_pow2_unfold(d as nat);
            lemma_pow2_adds(d as nat, (e + bias()) as nat);
            vstd::arithmetic::div_mod::lemma_fundamental_div_mod(n as int, whole as int);
            // the quotient has at most w + 1 bits
            let short = (if bits >= d {
                bits - d
            } else {
                0
            }) as nat;
            if bits >= d {
                lemma_pow2_adds(short, d as nat);
            } else {
                lemma_pow2_strictly_increases(bits as nat, d as nat);
                lemma2_to64();
                assert(pow2(short) * whole == whole) by (nonlinear_arith)
                    requires
                        pow2(short) == 1,
                ;
            }
            if short < w + 1 {
                lemma_pow2_strictly_increases(short, (w + 1) as nat);
            }
            assert(q < pow2(short)) by (nonlinear_arith)
                requires
                    n == whole * q + rest,
                    rest >= 0,
                    whole > 0,
                    n < pow2(short) * whole,
            ;
            if s > 0 {
                lemma_pow2_adds(w as nat, d as nat);
                assert(q >= pow2(w as nat)) by (nonlinear_arith)
                    requires
                        n == whole * q + rest,
                        rest < whole,
                        n >= pow2(w as nat) * whole,
                ;
            }
            assert(2 * (half * unit) == step) by (nonlinear_arith)
                requires
                    whole == 2 * half,
                    step == whole * unit,
            ;
            assert(q * step + rest * unit == n * unit) by (nonlinear_arith)
                requires
                    n == whole * q + rest,
                    step == whole * unit,
            ;
            assert((n + 1) * unit == n * unit + unit) by (nonlinear_arith);
            lemma_round(
                num,
                den,
                w as nat,
                s as nat,
                q as nat,
                rest as nat,
                half as nat,
                unit,
                sticky,
            );
        }
    } else {
        proof {
            let half = pow2((d - 1) as nat);
            lemma_pow2_unfold(d as nat);
            lemma_pow2_pos((d - 1) as nat);
            if d - 1 > 126 {
                lemma_pow2_strictly_increases(126, (d - 1) as nat);
            }
            lemma_pow2_adds(d as nat, (e + bias()) as nat);
            assert(2 * (half * unit) == step) by (nonlinear_arith)
                requires
                    pow2(d as nat) == 2 * half,
                    step == pow2(d as nat) * unit,
            ;
            assert((n + 1) * unit == n * unit + unit) by (nonlinear_arith);
            assert(0 * step == 0) by (nonlinear_arith);
            lemma_round(num, den, w as nat, 0, 0, n as nat, half, unit, sticky);
        }
    }
    proof {
        lemma2_to64();
        lemma2_to64_rest();
        assert(s as u128 * base <= 4200 * 0x10_0000_0000_0000) by (nonlinear_arith)
            requires
                0 <= s <= 4200,
                0 <= base <= 0x10_0000_0000_0000,
        ;
        assert(top as u128 * base <= 2047 * 0x10_0000_0000_0000) by (nonlinear_arith)
            requires
                0 <= top <= 2047,
                0 <= base <= 0x10_0000_0000_0000,
        ;
    }
    let mut m: u128 = s as u128 * base + q;
    if up {
        m = m + 1;
    }
    proof {
        lemma_cut_off_at_infinity(num, den, w as nat, top as nat, m as nat);
    }
    let infinite: u128 = top as u128 * base;
    let result: u64 = if m >= infinite {
        infinite as u64
    } else {
        m as u64
    };
    proof {
        if sticky && 0 <= e && e + 3 <= top {
            if bits < w + 3 {
                if bits < w + 2 {
                    lemma_pow2_strictly_increases(bits as nat, (w + 2) as nat);
                }
                assert(false);
            }
            assert(s * base + base >= (e + 3) * base) by (nonlinear_arith)
                requires
                    s >= e + 2,
                    base >= 0,
            ;
            assert(top * base >= (e + 3) * base) by (nonlinear_arith)
                requires
                    top >= e + 3,
                    base >= 0,
            ;
        }
        let chosen = nearest_ratio(num, den, w as nat, top as nat);
        assert(is_nearest_ratio(num, den, w as nat, top as nat, result as nat));
        lemma_nearest_ratio_is_unique(
            num,
            den,
            w as nat,
            top as nat,
            chosen,
            result as nat,
        );
    }
    result
}

/// `m` is the magnitude nearest to the square root of `num`, ties to even.
pub open spec fn is_nearest_root(num: nat, w: nat, top: nat, m: nat) -> bool {
    &&& m <= infinite_magnitude(w, top)
    &&& m > 0 ==> {
        let t = magnitude_units((m - 1) as nat, w) + magnitude_units(m, w);
        t * t < 4 * num || (t * t == 4 * num && m % 2 == 0)
    }
    &&& m < infinite_magnitude(w, top) ==> {
        let t = magnitude_units(m, w) + magnitude_units(m + 1, w);
        4 * num < t * t || (t * t == 4 * num && m % 2 == 0)
    }
}

/// The magnitude nearest to the square root of `num`.
pub open spec fn nearest_root(num: nat, w: nat, top: nat) -> nat {
    choose|m: nat| is_nearest_root(num, w, top, m)
}

/// The nearest root is unique.
pub proof fn lemma_nearest_root_is_unique(num: nat, w: nat, top: nat, left: nat, right: nat)
    requires
        is_nearest_root(num, w, top, left),
        is_nearest_root(num, w, top, right),
    ensures
        left == right,
{
    if left < right {
        lemma_nearest_root_not_below(num, w, top, left, right);
    }
    if right < left {
        lemma_nearest_root_not_below(num, w, top, right, left);
    }
}

proof fn lemma_nearest_root_from(num: nat, w: nat, top: nat, m: nat)
    requires
        m <= infinite_magnitude(w, top),
        m > 0 ==> {
            let t = magnitude_units((m - 1) as nat, w) + magnitude_units(m, w);
            t * t < 4 * num || (t * t == 4 * num && m % 2 == 0)
        },
    ensures
        exists|nearest: nat| is_nearest_root(num, w, top, nearest),
    decreases infinite_magnitude(w, top) - m,
{
    let t = magnitude_units(m, w) + magnitude_units(m + 1, w);
    if m == infinite_magnitude(w, top) || 4 * num < t * t || (t * t == 4 * num && m % 2 == 0) {
        assert(is_nearest_root(num, w, top, m));
    } else {
        lemma_nearest_root_from(num, w, top, m + 1);
    }
}

/// There is a nearest root.
pub proof fn lemma_nearest_root_exists(num: nat, w: nat, top: nat)
    ensures
        is_nearest_root(num, w, top, nearest_root(num, w, top)),
{
    assert(0 <= top * pow2(w)) by (nonlinear_arith);
    lemma_nearest_root_from(num, w, top, 0);
}

proof fn lemma_nearest_root_not_below(num: nat, w: nat, top: nat, left: nat, right: nat)
    requires
        is_nearest_root(num, w, top, left),
        is_nearest_root(num, w, top, right),
    ensures
        left >= right,
{
    if left < right {
        let a = magnitude_units(left, w) + magnitude_units(left + 1, w);
        let b = magnitude_units((right - 1) as nat, w) + magnitude_units(right, w);
        if left + 1 < right {
            lemma_units_increase(left, (right - 1) as nat, w);
            lemma_units_increase(left + 1, right, w);
            assert(a * a < b * b) by (nonlinear_arith)
                requires
                    0 <= a < b,
            ;
        }
    }
}

/// The value of a magnitude is a multiple of its step.
proof fn lemma_units_are_multiples(k: nat, w: nat, e: nat) -> (count: nat)
    requires
        k >= (e + 2) * pow2(w),
    ensures
        magnitude_units(k, w) == count * pow2(e + 1),
{
    let base = pow2(w);
    lemma_pow2_pos(w);
    let exponent = k / base;
    let fraction = k % base;
    assert(exponent >= e + 2) by (nonlinear_arith)
        requires
            exponent == k / base,
            k >= (e + 2) * base,
            base > 0,
    ;
    let extra = (exponent - 1 - (e + 1)) as nat;
    lemma_pow2_adds(extra, e + 1);
    let count = (base + fraction) * pow2(extra);
    assert((base + fraction) * (pow2(extra) * pow2(e + 1)) == count * pow2(e + 1))
        by (nonlinear_arith)
        requires
            count == (base + fraction) * pow2(extra),
    ;
    count
}

/// Rounding a number that stands for the root rounds the root.
proof fn lemma_root_rounds_alike(
    num: nat,
    n: nat,
    e: nat,
    sticky: bool,
    w: nat,
    top: nat,
    m: nat,
)
    requires
        is_nearest_ratio(
            if sticky {
                (2 * n + 1) * pow2(e)
            } else {
                (2 * n) * pow2(e)
            },
            2,
            w,
            top,
            m,
        ),
        sticky ==> m >= (e + 3) * pow2(w),
        ({
            let low = n * pow2(e);
            let high = (n + 1) * pow2(e);
            if sticky {
                low * low < num < high * high
            } else {
                num == low * low
            }
        }),
    ensures
        is_nearest_root(num, w, top, m),
{
    let unit = pow2(e);
    lemma_pow2_pos(e);
    lemma_pow2_pos(w);
    lemma_pow2_unfold(e + 1);
    let low = n * unit;
    let high = (n + 1) * unit;
    assert((2 * n) * unit == 2 * low) by (nonlinear_arith)
        requires
            low == n * unit,
    ;
    assert((2 * n + 1) * unit == 2 * low + unit) by (nonlinear_arith)
        requires
            low == n * unit,
    ;
    assert(2 * high == 2 * low + 2 * unit) by (nonlinear_arith)
        requires
            low == n * unit,
            high == (n + 1) * unit,
    ;
    if sticky {
        assert((e + 3) * pow2(w) == (e + 2) * pow2(w) + pow2(w)) by (nonlinear_arith);
    }
    if m > 0 {
        let t = magnitude_units((m - 1) as nat, w) + magnitude_units(m, w);
        if sticky {
            let a = lemma_units_are_multiples((m - 1) as nat, w, e);
            let b = lemma_units_are_multiples(m, w, e);
            let c = a + b;
            let two = 2 * unit;
            assert(t == c * two && 2 * low == n * two) by (nonlinear_arith)
                requires
                    t == a * two + b * two,
                    c == a + b,
                    low == n * unit,
                    two == 2 * unit,
            ;
            assert((n + 1) * two == n * two + two) by (nonlinear_arith);
            assert(c < n + 1) by (nonlinear_arith)
                requires
                    c * two < (n + 1) * two,
                    two > 0,
            ;
            assert(c * two <= n * two) by (nonlinear_arith)
                requires
                    c <= n,
                    two > 0,
            ;
            assert(t * t <= 4 * (low * low)) by (nonlinear_arith)
                requires
                    0 <= t <= 2 * low,
            ;
        } else {
            assert(t <= 2 * low);
            assert(t < 2 * low ==> t * t < 4 * (low * low)) by (nonlinear_arith)
                requires
                    0 <= t <= 2 * low,
            ;
            assert(t == 2 * low ==> t * t == 4 * (low * low)) by (nonlinear_arith);
        }
    }
    if m < infinite_magnitude(w, top) {
        let t = magnitude_units(m, w) + magnitude_units(m + 1, w);
        if sticky {
            let a = lemma_units_are_multiples(m, w, e);
            let b = lemma_units_are_multiples(m + 1, w, e);
            let c = a + b;
            let two = 2 * unit;
            assert(t == c * two && 2 * low == n * two && 2 * high == (n + 1) * two)
                by (nonlinear_arith)
                requires
                    t == a * two + b * two,
                    c == a + b,
                    low == n * unit,
                    high == (n + 1) * unit,
                    two == 2 * unit,
            ;
            assert(c > n) by (nonlinear_arith)
                requires
                    c * two > n * two,
                    two > 0,
            ;
            assert(c * two >= (n + 1) * two) by (nonlinear_arith)
                requires
                    c >= n + 1,
                    two > 0,
            ;
            assert(t * t >= 4 * (high * high)) by (nonlinear_arith)
                requires
                    t >= 2 * high,
                    high >= 0,
            ;
        } else {
            assert(t > 2 * low ==> t * t > 4 * (low * low)) by (nonlinear_arith)
                requires
                    low >= 0,
            ;
            assert(t == 2 * low ==> t * t == 4 * (low * low)) by (nonlinear_arith);
        }
    }
}

/// Largest integer whose square is at most `x`.
fn integer_root(x: u128) -> (root: u128)
    requires
        x < 0x1000_0000_0000_0000_0000_0000_0000_0000,
    ensures
        root * root <= x < (root + 1) * (root + 1),
        root < 0x4000_0000_0000_0000,
{
    let mut low: u128 = 0;
    let mut high: u128 = 0x4000_0000_0000_0000;
    while low + 1 < high
        invariant
            low < high <= 0x4000_0000_0000_0000,
            low * low <= x < high * high,
        decreases high - low,
    {
        let middle: u128 = low + (high - low) / 2;
        assert(middle * middle < 0x1000_0000_0000_0000_0000_0000_0000_0000) by (nonlinear_arith)
            requires
                0 <= middle < 0x4000_0000_0000_0000,
        ;
        if middle * middle <= x {
            low = middle;
        } else {
            high = middle;
        }
    }
    low
}

/// The magnitude nearest to the root of `wide * 4^e`, where `wide` is given
/// with enough bits.
pub fn round_root(wide: u128, e: u32, w: u32, top: u64, Ghost(num): Ghost<nat>) -> (m: u64)
    requires
        is_format(w as nat, top as nat),
        0x400_0000_0000_0000_0000_0000_0000_0000 <= wide
            < 0x1000_0000_0000_0000_0000_0000_0000_0000,
        e + 3 <= top,
        num == wide * (pow2(e as nat) * pow2(e as nat)),
    ensures
        m == nearest_root(num, w as nat, top as nat),
        m <= infinite_magnitude(w as nat, top as nat),
{
    let n: u128 = integer_root(wide);
    proof {
        assert(n >= 0x2000_0000_0000_0000) by (nonlinear_arith)
            requires
                wide < (n + 1) * (n + 1),
                wide >= 0x400_0000_0000_0000_0000_0000_0000_0000,
                n >= 0,
        ;
        assert(n * n < 0x1000_0000_0000_0000_0000_0000_0000_0000) by (nonlinear_arith)
            requires
                0 <= n < 0x4000_0000_0000_0000,
        ;
    }
    let sticky = n * n != wide;
    let ghost unit = pow2(e as nat);
    let ghost stand_in = if sticky {
        (2 * n as nat + 1) * unit
    } else {
        (2 * n as nat) * unit
    };
    proof {
        lemma2_to64();
        lemma2_to64_rest();
        lemma_pow2_adds(62, 64);
        lemma_pow2_strictly_increases((w + 2) as nat, 55);
        lemma_pow2_pos(e as nat);
        lemma_pow2_adds(e as nat, bias());
        lemma_pow2_pos(bias());
        let k = pow2(bias());
        let shifted = pow2((e + bias()) as nat);
        assert(((2 * n + 1) * unit) * k == 2 * (n * shifted) + shifted) by (nonlinear_arith)
            requires
                shifted == unit * k,
        ;
        assert(((2 * n) * unit) * k == 2 * (n * shifted)) by (nonlinear_arith)
            requires
                shifted == unit * k,
        ;
        assert((n + 1) * shifted == n * shifted + shifted) by (nonlinear_arith);
        assert(shifted > 0) by (nonlinear_arith)
            requires
                shifted == unit * k,
                unit > 0,
                k > 0,
        ;
        let low = n * unit;
        let high = (n + 1) * unit;
        assert(low * low == (n * n) * (unit * unit)) by (nonlinear_arith)
            requires
                low == n * unit,
        ;
        assert(high * high == ((n + 1) * (n + 1)) * (unit * unit)) by (nonlinear_arith)
            requires
                high == (n + 1) * unit,
        ;
        assert(unit * unit > 0) by (nonlinear_arith)
            requires
                unit > 0,
        ;
        let square = unit * unit;
        assert(n * n < wide ==> (n * n) * square < wide * square) by (nonlinear_arith)
            requires
                square > 0,
        ;
        assert(wide * square < ((n + 1) * (n + 1)) * square) by (nonlinear_arith)
            requires
                wide < (n + 1) * (n + 1),
                square > 0,
        ;
    }
    let m: u64 = round_magnitude(n, e as i32, sticky, w, top, Ghost(stand_in), Ghost(2));
    proof {
        lemma_root_rounds_alike(
            num,
            n as nat,
            e as nat,
            sticky,
            w as nat,
            top as nat,
            m as nat,
        );
        lemma_nearest_root_is_unique(
            num,
            w as nat,
            top as nat,
            m as nat,
            nearest_root(num, w as nat, top as nat),
        );
    }
    m
}

} // verus!
