//! What time does to the blends: spans become seconds, and blends follow one eased curve
//! over their span.

use vstd::arithmetic::power2::{
    lemma2_to64, lemma2_to64_rest, lemma_pow2_adds, lemma_pow2_pos, pow2,
};
use vstd::prelude::*;

use crate::arithmetic::lemma_nearest_of_exact_32;
use crate::arithmetic_laws::{
    lemma_integer_is_plain, lemma_rounded_is_a_number, lemma_units_of_one, lemma_units_of_zero, one, plain,
};
use crate::binary::{Binary32, Binary64};
use crate::clock::{lemma_seconds_are_plain, seconds_of, Duration, MonoTimeNs, MAX_SPAN_NANOS};
use crate::closeness::{
    abs_of, lemma_half_least_is_tiny, lemma_integer_parts, lemma_quotient_parts, lemma_sum_parts, lemma_value_32,
};
use crate::loss_blend::{acquire_factor_of, loss_factor_of, LossBlendProfile};
use crate::micro_motion::{
    bucket_position, phase_of, started, MicroMotionBlender, MicroMotionProfile, EPSILON_BITS, TAU_BITS,
};
use crate::prediction_laws::{
    cut, lemma_abs_of_product, lemma_close_rate, lemma_cut_value, lemma_finite_part, lemma_number_is_finite,
    lemma_power, lemma_unit_value, power,
};
use crate::recovery_laws::{is_on_the_way, lemma_acquire_factor_is_a_share, lemma_mixed};
use crate::rounding::lemma_nearest_ratio_is_monotone;
use crate::rounding_error::{half_least_32, lemma_half_least, lemma_quotient, lemma_sizes, value_32};
use crate::translation_shaping::TranslationFilter;
use crate::unit_range::{
    eased, exact_ease, is_share, lemma_complement_error, lemma_eased_error, lemma_eased_is_a_share,
};

verus! {

/// A span of nanoseconds in seconds.
pub open spec fn exact_seconds(nanos: nat) -> real {
    nanos as real / 1_000_000_000 as real
}

/// The seconds of a span are its nanoseconds by a thousand million, to one part in a
/// quarter of a million.
pub proof fn lemma_seconds_are_close(nanos: nat)
    requires
        nanos <= MAX_SPAN_NANOS,
    ensures
        value_32(seconds_of(nanos)) >= 0 as real,
        0x4_0000 as real * abs_of(value_32(seconds_of(nanos)) - exact_seconds(nanos)) <= value_32(
            seconds_of(nanos),
        ),
        nanos >= 1 ==> 0x8000_0000 as real * value_32(seconds_of(nanos)) >= 1 as real,
{
    let whole = Binary32::of_integer(nanos / 1_000_000_000);
    let rest = Binary32::of_integer(nanos % 1_000_000_000);
    let second = Binary32::of_integer(1_000_000_000);
    let share = rest.over(second);
    let sum = seconds_of(nanos);
    let (w, r) = (nanos / 1_000_000_000, nanos % 1_000_000_000);
    lemma_half_least();
    lemma_half_least_is_tiny();
    lemma_seconds_are_plain(nanos);
    lemma_number_is_finite(w as int);
    lemma_number_is_finite(r as int);
    lemma_number_is_finite(1_000_000_000);
    lemma_integer_is_plain(1_000_000_000);
    lemma_integer_parts(w);
    lemma_integer_parts(r);
    lemma_integer_parts(1_000_000_000);
    lemma_finite_part(whole, share);
    lemma_quotient_parts(rest, second);
    lemma_sum_parts(whole, share);
    lemma_value_32(sum);
    lemma_value_32(share);
    lemma_value_32(second);
    let h = half_least_32();
    let m = value_32(second);
    assert(m > 0 as real);
    lemma_close_rate(value_32(share), value_32(rest), r as real, m, 1_000_000_000 as real, h);
    assert(!share.negative()) by {
        if r > 0 {
            lemma_integer_is_plain(r);
            crate::arithmetic_laws::lemma_quotient_is_plain(rest, second);
        }
    }
    let big = 0x1_0000_0000_0000_0000 as real;
    assert(h * big <= 1 as real) by (nonlinear_arith)
        requires
            h * big * big <= 1 as real,
            big >= 1 as real,
            h > 0 as real,
    ;
    assert(nanos as real == 1_000_000_000 as real * w as real + r as real);
    if nanos == 0 {
        lemma_sizes(sum, Binary64 { bits: 0 });
        crate::clock::lemma_no_time_is_zero();
    }
}

/// The quotient of two spans is finite.
proof fn lemma_span_quotient_is_finite(left: Binary32, right: Binary32)
    requires
        plain(left),
        plain(right),
        right.magnitude() > 0,
        value_32(left) <= 0x2_0000_0000_0000_0000 as real,
        0x8000_0000 as real * value_32(right) >= 1 as real,
    ensures
        plain(left.over(right)),
{
    let unit = pow2(149);
    let a = left.units() as nat;
    let b = right.units() as nat;
    lemma2_to64();
    lemma2_to64_rest();
    lemma_power(96);
    lemma_pow2_pos(149);
    lemma_pow2_pos(118);
    lemma_units_of_zero();
    (Binary32 { bits: 0 }).lemma_rank_orders_values(left);
    (Binary32 { bits: 0 }).lemma_rank_orders_values(right);
    lemma_pow2_adds(64, 1);
    lemma_pow2_adds(65, 149);
    lemma_pow2_adds(31, 118);
    lemma_pow2_adds(214, 149);
    lemma_pow2_adds(245, 118);
    let t = unit as real;
    lemma_quotient(a as real, t);
    lemma_quotient(b as real, t);
    let (x, y) = (value_32(left), value_32(right));
    assert(a as real <= 0x2_0000_0000_0000_0000 as real * t) by (nonlinear_arith)
        requires
            x * t == a as real,
            x <= 0x2_0000_0000_0000_0000 as real,
            t > 0 as real,
    ;
    crate::rounding_error::lemma_real_product(0x2_0000_0000_0000_0000, unit as int);
    assert(a <= pow2(214));
    assert(0x8000_0000 as real * b as real >= t) by (nonlinear_arith)
        requires
            y * t == b as real,
            0x8000_0000 as real * y >= 1 as real,
            t > 0 as real,
    ;
    assert(0x8000_0000 * b >= unit);
    assert(b >= pow2(118));
    let c = pow2(245);
    assert(a * unit <= pow2(214) * unit) by (nonlinear_arith)
        requires
            a <= pow2(214),
    ;
    assert(c * pow2(118) <= c * b) by (nonlinear_arith)
        requires
            pow2(118) <= b,
    ;
    lemma_nearest_of_exact_32(power(96).magnitude() as nat, b);
    lemma_nearest_ratio_is_monotone(a * unit, c * b, b, 23, 255);
    lemma_rounded_is_a_number(a * unit, b);
}

/// A quotient of close numbers.
proof fn lemma_close_ratio(q: real, e: real, d: real, e0: real, d0: real, h: real)
    requires
        h > 0 as real,
        e >= 0 as real,
        d > 0 as real,
        0x4_0000 as real * abs_of(e - e0) <= e,
        0x4_0000 as real * abs_of(d - d0) <= d,
        0x100_0000 as real * (abs_of(q - e / d) - h) <= abs_of(q),
    ensures
        d0 > 0 as real,
        0x8000 as real * (abs_of(q - e0 / d0) - 2 as real * h) <= abs_of(q),
{
    let p = e / d;
    let p1 = e / d0;
    let p2 = e0 / d0;
    lemma_quotient(e, d);
    lemma_quotient(e, d0);
    lemma_quotient(e0, d0);
    let off = p - p1;
    let x = abs_of(d - d0);
    assert(off * d0 == p * (d0 - d)) by (nonlinear_arith)
        requires
            p * d == e,
            p1 * d0 == e,
            off == p - p1,
    ;
    lemma_abs_of_product(off, d0);
    lemma_abs_of_product(p, d0 - d);
    let (a, b) = (abs_of(off), abs_of(p));
    assert(0x2_0000 as real * x <= d0);
    assert(0x2_0000 as real * (b * x) <= b * d0) by (nonlinear_arith)
        requires
            0x2_0000 as real * x <= d0,
            b >= 0 as real,
    ;
    assert(0x2_0000 as real * a <= b) by (nonlinear_arith)
        requires
            a * d0 == b * x,
            0x2_0000 as real * (b * x) <= b * d0,
            d0 > 0 as real,
    ;
    let rest = p1 - p2;
    assert(rest * d0 == e - e0) by (nonlinear_arith)
        requires
            p1 * d0 == e,
            p2 * d0 == e0,
            rest == p1 - p2,
    ;
    lemma_abs_of_product(rest, d0);
    lemma_abs_of_product(p1, d0);
    let (c, g) = (abs_of(rest), abs_of(p1));
    assert(0x4_0000 as real * c <= g) by (nonlinear_arith)
        requires
            0x4_0000 as real * (c * d0) <= g * d0,
            d0 > 0 as real,
    ;
}

/// The quotient of two spans lies close to the exact one.
pub proof fn lemma_span_quotient(elapsed: nat, span: nat)
    requires
        elapsed <= MAX_SPAN_NANOS,
        0 < span <= MAX_SPAN_NANOS,
    ensures
        ({
            let quotient = seconds_of(elapsed).over(seconds_of(span));
            let q = value_32(quotient);
            &&& plain(quotient)
            &&& q >= 0 as real
            &&& 0x8000 as real * (abs_of(q - elapsed as real / span as real) - 2 as real * half_least_32()) <= q
        }),
{
    let e = seconds_of(elapsed);
    let d = seconds_of(span);
    lemma_half_least();
    lemma_seconds_are_plain(elapsed);
    lemma_seconds_are_plain(span);
    lemma_seconds_are_close(elapsed);
    lemma_seconds_are_close(span);
    assert(exact_seconds(elapsed) <= 0x1_0000_0000_0000_0000 as real);
    lemma_span_quotient_is_finite(e, d);
    lemma_quotient_parts(e, d);
    lemma_value_32(e.over(d));
    lemma_close_ratio(
        value_32(e.over(d)),
        value_32(e),
        value_32(d),
        exact_seconds(elapsed),
        exact_seconds(span),
        half_least_32(),
    );
    let (x, y) = (elapsed as real, span as real);
    let k = 1_000_000_000 as real;
    assert((x / k) / (y / k) == x / y) by (nonlinear_arith)
        requires
            y > 0 as real,
            k > 0 as real,
    ;
}

/// The eased curve: slow at both ends.
pub open spec fn ease(x: real) -> real {
    cut(x) * cut(x) * (3 as real - 2 as real * cut(x))
}

/// The eased curve is nowhere steeper than three halves.
proof fn lemma_ease_slope(x: real, y: real)
    requires
        0 as real <= x <= 1 as real,
        0 as real <= y <= 1 as real,
    ensures
        2 as real * abs_of(ease(x) - ease(y)) <= 3 as real * abs_of(x - y),
{
    let d = x - y;
    let s = x + y;
    let slope = 3 as real * s - 2 as real * (x * x + x * y + y * y);
    assert(x * x * (3 as real - 2 as real * x) - y * y * (3 as real - 2 as real * y) == d * slope)
        by (nonlinear_arith)
        requires
            d == x - y,
            s == x + y,
            slope == 3 as real * s - 2 as real * (x * x + x * y + y * y),
    ;
    let u = s - 1 as real;
    assert(2 as real * slope == 3 as real - 3 as real * (u * u) - d * d) by (nonlinear_arith)
        requires
            d == x - y,
            s == x + y,
            u == s - 1 as real,
            slope == 3 as real * s - 2 as real * (x * x + x * y + y * y),
    ;
    assert(u * u >= 0 as real && d * d >= 0 as real) by (nonlinear_arith);
    assert(x * x <= x && y * y <= y && x * y <= x && x * y <= y) by (nonlinear_arith)
        requires
            0 as real <= x <= 1 as real,
            0 as real <= y <= 1 as real,
    ;
    assert(slope >= 0 as real);
    lemma_abs_of_product(d, slope);
    let a = abs_of(d);
    assert(2 as real * (a * slope) <= 3 as real * a) by (nonlinear_arith)
        requires
            2 as real * slope <= 3 as real,
            a >= 0 as real,
    ;
}

/// The rounded curve lies close to the exact one.
proof fn lemma_eased_value(v: Binary32)
    requires
        is_share(v),
    ensures
        0 as real <= value_32(v) <= 1 as real,
        0 as real <= value_32(eased(v)) <= 1 as real,
        0x20_0000 as real * abs_of(value_32(eased(v)) - ease(value_32(v))) <= 1 as real,
{
    let unit = pow2(149) as int;
    let q = pow2(125) as int;
    lemma2_to64();
    lemma_pow2_pos(149);
    lemma_pow2_pos(125);
    lemma_pow2_adds(24, 125);
    lemma_eased_error(v);
    lemma_eased_is_a_share(v);
    lemma_unit_value(v);
    lemma_unit_value(eased(v));
    let t = unit as real;
    let (x, y) = (value_32(v), value_32(eased(v)));
    let (a, e) = (v.units(), eased(v).units());
    lemma_quotient(a as real, t);
    lemma_quotient(e as real, t);
    let exact = exact_ease(a);
    let square = unit * unit;
    lemma_exact_ease(a, unit, x);
    crate::rounding_error::lemma_real_product(unit, unit);
    crate::rounding_error::lemma_real_product(e, square);
    crate::rounding_error::lemma_real_product(square, q);
    let curve = x * x * (3 as real - 2 as real * x);
    let off = y - curve;
    let cube = t * t * t;
    assert(e as real * (t * t) == y * cube) by (nonlinear_arith)
        requires
            y * t == e as real,
            cube == t * t * t,
    ;
    assert(off * cube == y * cube - curve * cube) by (nonlinear_arith)
        requires
            off == y - curve,
    ;
    let part = (t * t) * q as real;
    assert(0x100_0000 as real * part == cube) by (nonlinear_arith)
        requires
            part == (t * t) * q as real,
            t == 0x100_0000 as real * q as real,
            cube == t * t * t,
    ;
    assert(cube > 0 as real) by (nonlinear_arith)
        requires
            cube == t * t * t,
            t > 0 as real,
    ;
    assert(-(9 as real * part) <= 2 as real * (off * cube) <= 9 as real * part);
    lemma_abs_of_product(off, cube);
    let z = abs_of(off);
    assert(0x20_0000 as real * z <= 1 as real) by (nonlinear_arith)
        requires
            2 as real * (z * cube) <= 9 as real * part,
            0x100_0000 as real * part == cube,
            cube > 0 as real,
    ;
}

proof fn lemma_exact_ease(a: int, unit: int, x: real)
    requires
        unit == pow2(149),
        x * unit as real == a as real,
    ensures
        exact_ease(a) as real == (x * x * (3 as real - 2 as real * x)) * (unit as real * unit as real * unit as real),
{
    let t = unit as real;
    let r = a as real;
    let rest = 3 * unit - 2 * a;
    crate::rounding_error::lemma_real_product(a, a);
    crate::rounding_error::lemma_real_product(a * a, rest);
    let k = 3 as real - 2 as real * x;
    assert(rest as real == k * t) by (nonlinear_arith)
        requires
            rest as real == 3 as real * t - 2 as real * r,
            x * t == r,
            k == 3 as real - 2 as real * x,
    ;
    assert(r * r == (x * x) * (t * t)) by (nonlinear_arith)
        requires
            x * t == r,
    ;
    let s = x * x;
    assert((s * (t * t)) * (k * t) == (s * k) * (t * t * t)) by (nonlinear_arith);
}

/// The eased share of a span.
proof fn lemma_eased_span(elapsed: nat, span: nat, share: Binary32)
    requires
        elapsed <= MAX_SPAN_NANOS,
        0 < span <= MAX_SPAN_NANOS,
        share == seconds_of(elapsed).over(seconds_of(span)).clamped(
            Binary32 { bits: 0 },
            Binary32 { bits: 0x3f80_0000 },
        ),
    ensures
        is_share(eased(share)),
        0 as real <= value_32(eased(share)) <= 1 as real,
        0x2000 as real * abs_of(value_32(eased(share)) - ease(elapsed as real / span as real)) <= 1 as real,
{
    let quotient = seconds_of(elapsed).over(seconds_of(span));
    lemma_span_quotient(elapsed, span);
    lemma_half_least_is_tiny();
    lemma_cut_value(quotient);
    let h = half_least_32();
    let big = 0x1_0000_0000_0000_0000 as real;
    assert(h * big <= 1 as real) by (nonlinear_arith)
        requires
            h * big * big <= 1 as real,
            big >= 1 as real,
            h > 0 as real,
    ;
    let q = value_32(quotient);
    let y = elapsed as real / span as real;
    assert(y >= 0 as real) by (nonlinear_arith)
        requires
            y == elapsed as real / span as real,
            elapsed as real >= 0 as real,
            span as real > 0 as real,
    ;
    assert(0x4000 as real * abs_of(cut(q) - cut(y)) <= 1 as real);
    assert(is_share(share));
    lemma_eased_value(share);
    lemma_eased_is_a_share(share);
    lemma_ease_slope(cut(q), cut(y));
    assert(ease(cut(y)) == ease(y));
}

/// Acquiring follows the eased curve over the acquire span, to one part in eight
/// thousand.
pub proof fn lemma_acquire_follows_the_curve(elapsed: nat, profile: LossBlendProfile)
    requires
        elapsed <= MAX_SPAN_NANOS,
        0 < profile.acquire@ <= MAX_SPAN_NANOS,
    ensures
        ({
            let factor = value_32(acquire_factor_of(elapsed, profile));
            let exact = ease(elapsed as real / profile.acquire@ as real);
            0x2000 as real * abs_of(factor - exact) <= 1 as real
        }),
{
    let y = elapsed as real / profile.acquire@ as real;
    if elapsed >= profile.acquire@ {
        lemma_past_the_end(elapsed as real, profile.acquire@ as real);
        lemma_one_value();
    } else {
        lemma_eased_span(
            elapsed,
            profile.acquire@,
            seconds_of(elapsed).over(seconds_of(profile.acquire@)).clamped(
                Binary32 { bits: 0 },
                Binary32 { bits: 0x3f80_0000 },
            ),
        );
    }
}

pub proof fn lemma_one_value()
    ensures
        value_32(one()) == 1 as real,
        value_32(Binary32 { bits: 0 }) == 0 as real,
{
    lemma_units_of_one();
    lemma_units_of_zero();
    lemma_pow2_pos(149);
    let t = pow2(149) as real;
    assert(t / t == 1 as real && 0 as real / t == 0 as real) by (nonlinear_arith)
        requires
            t > 0 as real,
    ;
}

/// At and past its end the curve is one.
proof fn lemma_past_the_end(x: real, y: real)
    requires
        y > 0 as real,
        x >= y,
    ensures
        ease(x / y) == 1 as real,
{
    let q = x / y;
    lemma_quotient(x, y);
    assert(q >= 1 as real) by (nonlinear_arith)
        requires
            q * y == x,
            x >= y,
            y > 0 as real,
    ;
    assert(cut(q) == 1 as real);
    assert((1 as real) * (1 as real) * (3 as real - 2 as real * (1 as real)) == 1 as real) by (nonlinear_arith);
}

/// Returning follows the eased curve downwards over the return span, once the hold is
/// over, to one part in four thousand.
pub proof fn lemma_return_follows_the_curve(elapsed: nat, profile: LossBlendProfile)
    requires
        elapsed <= MAX_SPAN_NANOS,
        0 < profile.return_duration@ <= MAX_SPAN_NANOS,
    ensures
        ({
            let factor = value_32(loss_factor_of(elapsed, profile));
            let past = (elapsed as real - profile.hold@ as real) / profile.return_duration@ as real;
            0x1000 as real * abs_of(factor - (1 as real - ease(past))) <= 1 as real
        }),
{
    let span = profile.return_duration@;
    let x = elapsed as real - profile.hold@ as real;
    let past = x / span as real;
    lemma_one_value();
    if elapsed <= profile.hold@ {
        assert(past <= 0 as real) by (nonlinear_arith)
            requires
                past == x / span as real,
                x <= 0 as real,
                span as real > 0 as real,
        ;
        assert(cut(past) == 0 as real);
        assert((0 as real) * (0 as real) * (3 as real - 2 as real * (0 as real)) == 0 as real) by (nonlinear_arith);
    } else {
        let since = (elapsed - profile.hold@) as nat;
        assert(since as real == x);
        if since >= span {
            lemma_past_the_end(since as real, span as real);
        } else {
            let share = seconds_of(since).over(seconds_of(span)).clamped(
                Binary32 { bits: 0 },
                Binary32 { bits: 0x3f80_0000 },
            );
            lemma_eased_span(since, span, share);
            lemma_complement_value(eased(share));
        }
    }
}

/// What is missing to one, as a value.
proof fn lemma_complement_value(share: Binary32)
    requires
        is_share(share),
    ensures
        0x100_0000 as real * abs_of(value_32(one().minus(share)) - (1 as real - value_32(share))) <= 1 as real,
{
    lemma2_to64();
    lemma_complement_error(share);
    lemma_pow2_pos(149);
    lemma_pow2_adds(24, 125);
    let t = pow2(149) as real;
    let q = pow2(125) as real;
    let (a, b) = (one().minus(share).units() as real, share.units() as real);
    lemma_quotient(a, t);
    lemma_quotient(b, t);
    let (x, y) = (value_32(one().minus(share)), value_32(share));
    let off = x - (1 as real - y);
    assert(off * t == a - (t - b)) by (nonlinear_arith)
        requires
            x * t == a,
            y * t == b,
            off == x - (1 as real - y),
    ;
    lemma_abs_of_product(off, t);
    let z = abs_of(off);
    assert(0x100_0000 as real * z <= 1 as real) by (nonlinear_arith)
        requires
            2 as real * (z * t) <= q,
            t == 0x100_0000 as real * q,
            t > 0 as real,
            q > 0 as real,
    ;
}

/// The idle blend follows the eased curve over the transition: upwards since the loss,
/// downwards since the face is live again, to one part in four thousand.
pub proof fn lemma_idle_blend_follows_the_curve(
    blender: MicroMotionBlender,
    span: nat,
    live: bool,
    now: MonoTimeNs,
)
    requires
        0 < span <= MAX_SPAN_NANOS,
        blender.transition() == seconds_of(span),
        (Binary32 { bits: EPSILON_BITS }).at_most(seconds_of(span)),
    ensures
        ({
            let blend = value_32(blender.next_blend(live, now));
            let start = started(
                if live {
                    blender.live_since()
                } else {
                    blender.idle_since()
                },
                now,
            );
            let risen = ease(now.since(start) as real / span as real);
            let exact = if live {
                1 as real - risen
            } else {
                risen
            };
            0x1000 as real * abs_of(blend - exact) <= 1 as real
        }),
{
    let start = started(
        if live {
            blender.live_since()
        } else {
            blender.idle_since()
        },
        now,
    );
    let elapsed = now.since(start);
    let quotient = seconds_of(elapsed).over(seconds_of(span));
    let share = quotient.clamped(Binary32 { bits: 0 }, Binary32 { bits: 0x3f80_0000 });
    lemma_span_quotient(elapsed, span);
    lemma_eased_span(elapsed, span, share);
    lemma_complement_value(eased(share));
    lemma_complement_error(eased(share));
}

/// The position of the sway is the elapsed time by the period, up to roundings.
pub proof fn lemma_position_counts_periods(profile: MicroMotionProfile, elapsed: Duration)
    requires
        elapsed@ <= MAX_SPAN_NANOS,
        0 < profile.period@ <= MAX_SPAN_NANOS,
    ensures
        ({
            let position = value_32(bucket_position(profile, elapsed));
            let exact = elapsed@ as real / profile.period@ as real;
            &&& plain(bucket_position(profile, elapsed))
            &&& 0x8000 as real * (abs_of(position - exact) - 2 as real * half_least_32()) <= position
        }),
{
    lemma_span_quotient(elapsed@, profile.period@);
}

/// A quotient of numbers that are close to others, less finely.
proof fn lemma_close_ratio_coarse(q: real, e: real, d: real, e0: real, d0: real, h: real)
    requires
        h > 0 as real,
        e >= 0 as real,
        d > 0 as real,
        0x2_0000 as real * abs_of(e - e0) <= e,
        0x4_0000 as real * abs_of(d - d0) <= d,
        0x100_0000 as real * (abs_of(q - e / d) - h) <= abs_of(q),
    ensures
        d0 > 0 as real,
        0x4000 as real * (abs_of(q - e0 / d0) - 2 as real * h) <= abs_of(q),
{
    let p = e / d;
    let p1 = e / d0;
    let p2 = e0 / d0;
    lemma_quotient(e, d);
    lemma_quotient(e, d0);
    lemma_quotient(e0, d0);
    let off = p - p1;
    let x = abs_of(d - d0);
    assert(off * d0 == p * (d0 - d)) by (nonlinear_arith)
        requires
            p * d == e,
            p1 * d0 == e,
            off == p - p1,
    ;
    lemma_abs_of_product(off, d0);
    lemma_abs_of_product(p, d0 - d);
    let (a, b) = (abs_of(off), abs_of(p));
    assert(0x2_0000 as real * x <= d0);
    assert(0x2_0000 as real * (b * x) <= b * d0) by (nonlinear_arith)
        requires
            0x2_0000 as real * x <= d0,
            b >= 0 as real,
    ;
    assert(0x2_0000 as real * a <= b) by (nonlinear_arith)
        requires
            a * d0 == b * x,
            0x2_0000 as real * (b * x) <= b * d0,
            d0 > 0 as real,
    ;
    let rest = p1 - p2;
    assert(rest * d0 == e - e0) by (nonlinear_arith)
        requires
            p1 * d0 == e,
            p2 * d0 == e0,
            rest == p1 - p2,
    ;
    lemma_abs_of_product(rest, d0);
    lemma_abs_of_product(p1, d0);
    let (c, g) = (abs_of(rest), abs_of(p1));
    assert(0x2_0000 as real * c <= g) by (nonlinear_arith)
        requires
            0x2_0000 as real * (c * d0) <= g * d0,
            d0 > 0 as real,
    ;
}

/// The full turn.
proof fn lemma_turn()
    ensures
        plain(Binary32 { bits: TAU_BITS }),
        value_32(Binary32 { bits: TAU_BITS }) * 0x20_0000 as real == 13_176_795 as real,
{
    lemma2_to64();
    lemma2_to64_rest();
    let m: int = 0x40c9_0fdb;
    vstd::arithmetic::div_mod::lemma_fundamental_div_mod_converse(m, pow2(23) as int, 129, 0x49_0fdb);
    lemma_pow2_adds(21, 128);
    lemma_pow2_pos(128);
    lemma_pow2_pos(149);
    let turn = Binary32 { bits: TAU_BITS };
    assert(turn.units() == 13_176_795 * pow2(128));
    crate::rounding_error::lemma_real_product(13_176_795, pow2(128) as int);
    crate::rounding_error::lemma_real_product(0x20_0000, pow2(128) as int);
    let (t, u, x) = (pow2(149) as real, pow2(128) as real, value_32(turn));
    lemma_quotient(13_176_795 as real * u, t);
    assert(x * 0x20_0000 as real == 13_176_795 as real) by (nonlinear_arith)
        requires
            x * t == 13_176_795 as real * u,
            t == 0x20_0000 as real * u,
            u > 0 as real,
    ;
}

/// Breathing counts turns: its phase is a full turn for every breath period, up to
/// roundings.
pub proof fn lemma_phase_counts_turns(profile: MicroMotionProfile, elapsed: Duration)
    requires
        elapsed@ <= u64::MAX,
        0 < profile.breath_period@ <= MAX_SPAN_NANOS,
    ensures
        ({
            let phase = value_32(phase_of(profile, elapsed));
            let turn = 13_176_795 as real / 0x20_0000 as real;
            let exact = (turn * exact_seconds(elapsed@)) / exact_seconds(profile.breath_period@);
            &&& plain(phase_of(profile, elapsed))
            &&& 0x4000 as real * (abs_of(phase - exact) - 2 as real * half_least_32()) <= phase
        }),
{
    let turn = Binary32 { bits: TAU_BITS };
    let s = seconds_of(elapsed@);
    let d = seconds_of(profile.breath_period@);
    let a = s.times(turn);
    let h = half_least_32();
    lemma_half_least();
    lemma_half_least_is_tiny();
    lemma_turn();
    lemma_seconds_are_plain(elapsed@);
    lemma_seconds_are_plain(profile.breath_period@);
    lemma_seconds_are_close(elapsed@);
    lemma_seconds_are_close(profile.breath_period@);
    let k = value_32(turn);
    let x = value_32(s);
    assert(exact_seconds(elapsed@) <= 0x5_0000_0000 as real);
    assert(x <= 0x6_0000_0000 as real);
    lemma_turns_are_finite(s);
    crate::closeness::lemma_product_parts(s, turn);
    lemma_value_32(a);
    let big = 0x1_0000_0000_0000_0000 as real;
    assert(h * big <= 1 as real) by (nonlinear_arith)
        requires
            h * big * big <= 1 as real,
            big >= 1 as real,
            h > 0 as real,
    ;
    let y = value_32(a);
    let exact = exact_seconds(elapsed@);
    let e = x - exact;
    assert(x * k - exact * k == e * k) by (nonlinear_arith)
        requires
            e == x - exact,
    ;
    lemma_abs_of_product(e, k);
    let z = abs_of(e);
    assert(0x4_0000 as real * (z * k) <= x * k) by (nonlinear_arith)
        requires
            0x4_0000 as real * z <= x,
            k > 0 as real,
    ;
    assert(x * k >= 6 as real * x) by (nonlinear_arith)
        requires
            k >= 6 as real,
            x >= 0 as real,
    ;
    assert(x * k <= 7 as real * x) by (nonlinear_arith)
        requires
            k <= 7 as real,
            x >= 0 as real,
    ;
    if elapsed@ == 0 {
        crate::clock::lemma_no_time_is_zero();
        lemma_sizes(s, Binary64 { bits: 0 });
        lemma_sizes(a, Binary64 { bits: 0 });
        assert(a.magnitude() == 0);
        assert(x == 0 as real && y == 0 as real);
    }
    assert(0x2_0000 as real * abs_of(y - exact * k) <= y);
    assert(exact * k == k * exact) by (nonlinear_arith);
    assert(k == 13_176_795 as real / 0x20_0000 as real);
    lemma_span_quotient_is_finite(a, d);
    lemma_quotient_parts(a, d);
    lemma_value_32(a.over(d));
    lemma_close_ratio_coarse(
        value_32(a.over(d)),
        y,
        value_32(d),
        k * exact,
        exact_seconds(profile.breath_period@),
        h,
    );
}

/// The turns of a moderate time are finite.
proof fn lemma_turns_are_finite(s: Binary32)
    requires
        plain(s),
        value_32(s) <= 0x6_0000_0000 as real,
    ensures
        plain(s.times(Binary32 { bits: TAU_BITS })),
        value_32(s.times(Binary32 { bits: TAU_BITS })) <= 0x100_0000_0000 as real,
{
    let turn = Binary32 { bits: TAU_BITS };
    lemma_turn();
    lemma_power(36);
    lemma_power(3);
    lemma_power(39);
    crate::arithmetic_laws::lemma_product_is_plain(s, turn);
    crate::arithmetic_laws::lemma_product_is_plain(power(36), power(3));
    lemma_power_value(36);
    crate::translation_laws::lemma_order_of_values(s, power(36));
    crate::arithmetic_laws::lemma_product_is_monotone(s, turn, power(36), power(3));
    lemma2_to64();
    lemma2_to64_rest();
    lemma_pow2_adds(185, 152);
    lemma_pow2_adds(149, 188);
    lemma_pow2_pos(149);
    let unit = pow2(149);
    lemma_nearest_of_exact_32(power(39).magnitude() as nat, unit);
    assert(pow2(188) * unit == unit * pow2(188)) by (nonlinear_arith);
    assert(power(36).times(power(3)) == power(39));
    lemma_power_value(39);
    crate::translation_laws::lemma_order_of_values(s.times(turn), power(39));
}

proof fn lemma_power_value(j: int)
    requires
        j == 36 || j == 39,
    ensures
        j == 36 ==> value_32(power(j)) == 0x10_0000_0000 as real,
        j == 39 ==> value_32(power(j)) == 0x80_0000_0000 as real,
{
    lemma2_to64();
    lemma2_to64_rest();
    lemma_power(j);
    lemma_pow2_adds(j as nat, 149);
    lemma_pow2_pos(149);
    let t = pow2(149) as real;
    let w = pow2(j as nat) as real;
    crate::rounding_error::lemma_real_product(pow2(j as nat) as int, pow2(149) as int);
    assert((w * t) / t == w) by (nonlinear_arith)
        requires
            t > 0 as real,
    ;
}

/// Smoothing decays by the time since the held sample in time constants, with a minus sign.
pub proof fn lemma_decay_counts_time_constants(filter: TranslationFilter, captured_at: MonoTimeNs)
    requires
        filter.held() is Some,
        0 < filter.time_constant() <= MAX_SPAN_NANOS,
    ensures
        ({
            let exponent = value_32(filter.exponent_at(captured_at));
            let exact = captured_at.since(filter.held()->0.captured_at) as real / filter.time_constant() as real;
            &&& exponent <= 0 as real
            &&& 0x8000 as real * (abs_of(exponent + exact) - 2 as real * half_least_32()) <= -exponent
        }),
{
    let since = captured_at.since(filter.held()->0.captured_at);
    let (e, d) = (seconds_of(since), seconds_of(filter.time_constant()));
    lemma_span_quotient(since, filter.time_constant());
    lemma_seconds_are_plain(since);
    lemma_seconds_are_plain(filter.time_constant());
    crate::projection_laws::lemma_sized_quotient(e.negated(), d);
    lemma_value_32(e.over(d));
    lemma_value_32(e.negated().over(d));
    assert(e.negated().absolute() == e);
}

/// The weight of a channel that is present again lies on the way from where its ramp started
/// to full authority, at the share of the acquire factor.
pub proof fn lemma_acquired_weight_is_on_the_way(start: Binary32, elapsed: nat, profile: LossBlendProfile)
    requires
        is_share(start),
        profile.valid(),
    ensures
        is_on_the_way(
            start,
            one(),
            acquire_factor_of(elapsed, profile),
            start.plus(one().minus(start).times(acquire_factor_of(elapsed, profile))),
        ),
{
    lemma_acquire_factor_is_a_share(elapsed, profile);
    let factor = acquire_factor_of(elapsed, profile);
    lemma_mixed(start, one(), factor, factor);
}

} // verus!
