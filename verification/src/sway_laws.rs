//! Where the idle sway goes: from bucket to bucket it passes through the noise of each,
//! and in between it eases from one to the next.

use vstd::arithmetic::div_mod::{lemma_fundamental_div_mod, lemma_fundamental_div_mod_converse};
use vstd::arithmetic::power2::{
    lemma2_to64, lemma2_to64_rest, lemma_pow2_adds, lemma_pow2_pos, lemma_pow2_strictly_increases, lemma_pow2_unfold,
    pow2,
};
use vstd::prelude::*;

use crate::arithmetic::{lemma_nearest_of_exact_32, lemma_times_one_32, unit_places};
use crate::arithmetic_laws::{
    lemma_half, lemma_product_flips_sign, lemma_units_of_one, lemma_units_of_zero, one, one_half, plain,
};
use crate::binary::{magnitude_units, Binary32};
use crate::clock::{lemma_seconds_are_plain, seconds_of, Duration, MAX_SPAN_NANOS};
use crate::interpolation::{
    lemma_interpolation_goes_one_way, lemma_interpolation_lies_at, lemma_interpolation_lies_between,
    lemma_interpolation_starts, lemma_product_commutes, lies_between,
};
use crate::micro_motion::{
    amplitudes, axis_value, blend_factor, bucket_position, idle, lemma_axis_is_bounded, lemma_noise_is_bounded,
    lemma_smooth_is_a_share, noise, phase_of, scale_usable, smooth, sway, unit_share, IdleTarget, MicroMotionProfile,
};
use crate::recovery_laws::goes_on;
use crate::rounding::{lemma_units_of_scaled, nearest_ratio};
use crate::rounding_error::lemma_leading_place;
use crate::unit_range::{
    eased, exact_ease, in_signed_range, is_share, lemma_eased_error, lemma_eased_keeps_rising, lemma_eased_starts,
    lemma_interpolation_is_bounded, lemma_share_keeps_finite, lemma_shares_keep_order,
};

verus! {

/// A significand of twenty-four places at any of the lower scales is a number.
proof fn lemma_exact_magnitude(q: nat, s: nat) -> (m: nat)
    requires
        q < 0x100_0000,
        s <= 149,
    ensures
        m < 0x7f80_0000,
        magnitude_units(m, 23) == q * pow2(s),
{
    lemma2_to64();
    lemma2_to64_rest();
    if q == 0 {
        lemma_units_of_zero();
        assert(0 * pow2(s) == 0) by (nonlinear_arith);
        0
    } else {
        let k = lemma_leading_place(q, 24);
        let j = (23 - k) as nat;
        if s >= j {
            let scale = (s - j) as nat;
            let full = q * pow2(j);
            lemma_pow2_adds(k, j);
            lemma_pow2_adds(j, scale);
            lemma_pow2_pos(j);
            assert(pow2(23) <= full < 2 * pow2(23)) by (nonlinear_arith)
                requires
                    full == q * pow2(j),
                    pow2(k) <= q < 2 * pow2(k),
                    pow2(23) == pow2(k) * pow2(j),
                    pow2(j) > 0,
            ;
            lemma_units_of_scaled(scale, full, 23);
            assert(full * pow2(scale) == q * pow2(s)) by (nonlinear_arith)
                requires
                    full == q * pow2(j),
                    pow2(s) == pow2(j) * pow2(scale),
            ;
            assert(scale * pow2(23) + full < 0x7f80_0000) by (nonlinear_arith)
                requires
                    scale <= 149,
                    full < 2 * 0x80_0000,
                    pow2(23) == 0x80_0000,
            ;
            scale * pow2(23) + full
        } else {
            let whole = q * pow2(s);
            lemma_pow2_adds(k, s);
            lemma_pow2_strictly_increases(k + s, 23);
            lemma_pow2_unfold(k + s + 1);
            if k + s + 1 < 23 {
                lemma_pow2_strictly_increases(k + s + 1, 23);
            }
            lemma_pow2_pos(s);
            assert(whole < 2 * pow2(k + s)) by (nonlinear_arith)
                requires
                    whole == q * pow2(s),
                    q < 2 * pow2(k),
                    pow2(k + s) == pow2(k) * pow2(s),
                    pow2(s) > 0,
            ;
            assert(whole <= pow2(23));
            lemma_units_of_scaled(0, whole, 23);
            assert(0 * pow2(23) + whole == whole) by (nonlinear_arith);
            assert(whole * pow2(0) == whole) by (nonlinear_arith)
                requires
                    pow2(0) == 1,
            ;
            whole
        }
    }
}

/// Small whole numbers are numbers.
pub proof fn lemma_small_whole_32(n: nat)
    requires
        n < 0x100_0000,
    ensures
        plain(Binary32::of_integer(n)),
        Binary32::of_integer(n).units() == n * pow2(149),
{
    lemma2_to64();
    lemma2_to64_rest();
    lemma_units_of_zero();
    let unit = pow2(149);
    if n == 0 {
        assert(0 * unit == 0) by (nonlinear_arith);
    } else {
        let m = lemma_exact_magnitude(n, 149);
        lemma_nearest_of_exact_32(m, 1);
        assert((n * unit) * 1 == n * unit) by (nonlinear_arith);
        assert(unit_places(23) == 149);
    }
}

/// What a magnitude is past its whole part.
proof fn lemma_remainder_is_a_number(m: nat) -> (rest: nat)
    ensures
        rest < 0x7f80_0000,
        magnitude_units(rest, 23) == magnitude_units(m, 23) % pow2(149),
{
    lemma2_to64();
    lemma2_to64_rest();
    let base = pow2(23);
    let unit = pow2(149);
    lemma_pow2_pos(149);
    lemma_fundamental_div_mod(m as int, base as int);
    let exponent = m / base;
    let fraction = m % base;
    let (q, s): (nat, nat) = if exponent == 0 {
        (m, 0)
    } else {
        (base + fraction, (exponent - 1) as nat)
    };
    assert(q < 0x100_0000);
    assert(magnitude_units(m, 23) == q * pow2(s)) by {
        if exponent == 0 {
            assert(m == fraction);
            assert(q * pow2(0) == q) by (nonlinear_arith)
                requires
                    pow2(0) == 1,
            ;
        }
    }
    let total = q * pow2(s);
    if s >= 149 {
        let up = (s - 149) as nat;
        lemma_pow2_adds(149, up);
        let count = q * pow2(up);
        assert(total == count * unit + 0) by (nonlinear_arith)
            requires
                total == q * pow2(s),
                pow2(s) == unit * pow2(up),
                count == q * pow2(up),
        ;
        lemma_fundamental_div_mod_converse(total as int, unit as int, count as int, 0);
        lemma_units_of_zero();
        0
    } else {
        let up = (149 - s) as nat;
        let cut = pow2(up);
        let low = pow2(s);
        lemma_pow2_adds(s, up);
        lemma_pow2_pos(up);
        lemma_pow2_pos(s);
        lemma_fundamental_div_mod(q as int, cut as int);
        let high = (q / cut) as nat;
        let kept = (q % cut) as nat;
        assert(kept < cut && kept <= q) by {
            vstd::arithmetic::div_mod::lemma_mod_bound(q as int, cut as int);
            assert(cut * high >= 0) by (nonlinear_arith);
        }
        assert(total == high * unit + kept * low) by (nonlinear_arith)
            requires
                total == q * low,
                q == cut * high + kept,
                unit == low * cut,
        ;
        assert(kept * low < unit) by (nonlinear_arith)
            requires
                kept < cut,
                unit == low * cut,
                low > 0,
        ;
        lemma_fundamental_div_mod_converse(total as int, unit as int, high as int, (kept * low) as int);
        lemma_exact_magnitude(kept, s)
    }
}

/// The place of an axis, counted in buckets: the number nearest to the position plus
/// half a bucket for each axis before it.
pub open spec fn is_place(place: Binary32, position: Binary32, axis: u64) -> bool {
    &&& plain(place)
    &&& place.magnitude() == nearest_ratio(
        (position.units() + axis * pow2(148)) as nat,
        1,
        23,
        255,
    )
}

/// The place lies in bucket `b`, `share` units past its start.
pub open spec fn in_bucket(place: Binary32, b: u64, share: int) -> bool {
    &&& b < 0x100_0000
    &&& 0 <= share < pow2(149)
    &&& place.units() == b * pow2(149) + share
}

/// The target that an axis has when bucket `b` starts.
pub open spec fn target_at(seed: u64, b: u64, axis: u64) -> Binary32 {
    noise(
        seed,
        if b == 0 {
            0
        } else {
            (b - 1) as u64
        },
        axis,
    )
}

/// The place is where the axis is evaluated.
proof fn lemma_place(place: Binary32, position: Binary32, axis: u64)
    requires
        plain(position),
        axis < 0x100_0000,
        is_place(place, position, axis),
    ensures
        position.plus(Binary32::of_integer(axis as nat).times(one_half())) == place,
{
    let number = Binary32::of_integer(axis as nat);
    let half = number.times(one_half());
    lemma_small_whole_32(axis as nat);
    lemma_product_commutes(number, one_half());
    lemma_pow2_unfold(149);
    lemma_pow2_pos(148);
    lemma_units_of_zero();
    assert(axis * pow2(149) == 2 * (axis * pow2(148))) by (nonlinear_arith)
        requires
            pow2(149) == 2 * pow2(148),
    ;
    if axis > 0 {
        assert(number.magnitude() >= 0x100_0000) by {
            if number.magnitude() < 0x100_0000 {
                crate::arithmetic_laws::lemma_small_units(number.magnitude() as nat);
                lemma2_to64();
                lemma_pow2_strictly_increases(32, 149);
                assert(axis * pow2(149) >= pow2(149)) by (nonlinear_arith)
                    requires
                        axis >= 1,
                ;
            }
        }
        lemma_half(number);
        assert(half.units() == axis * pow2(148));
    } else {
        assert(0 * pow2(148) == 0) by (nonlinear_arith);
    }
    let exact = position.units() + half.units();
    assert(half.units() == axis * pow2(148));
    assert(axis * pow2(148) >= 0) by (nonlinear_arith);
    (Binary32 { bits: 0 }).lemma_rank_orders_values(position);
    assert(exact >= 0);
    if exact == 0 {
        lemma_nearest_of_exact_32(0, 1);
        assert(0 * 1 == 0);
    }
}

/// The share of the bucket is exact.
proof fn lemma_share(place: Binary32, b: u64, share: int)
    requires
        plain(place),
        in_bucket(place, b, share),
    ensures
        place.floored() == b,
        ({
            let past = place.minus(Binary32::of_integer(b as nat));
            &&& is_share(past)
            &&& past.units() == share
        }),
{
    let unit = pow2(149);
    let whole = Binary32::of_integer(b as nat);
    let past = place.minus(whole);
    lemma2_to64();
    lemma2_to64_rest();
    lemma_pow2_pos(149);
    lemma_units_of_zero();
    lemma_units_of_one();
    lemma_small_whole_32(b as nat);
    lemma_fundamental_div_mod_converse(place.units(), unit as int, b as int, share);
    assert(unit_places(23) == 149);
    let rest = lemma_remainder_is_a_number(place.magnitude() as nat);
    lemma_nearest_of_exact_32(rest, 1);
    assert(magnitude_units(rest, 23) * 1 == magnitude_units(rest, 23)) by (nonlinear_arith);
    assert(magnitude_units(rest, 23) == share);
    assert(whole.negated().units() == -whole.units());
    if share > 0 {
        assert(past.magnitude() == rest);
    }
    past.lemma_rank_orders_values(one());
}

/// The value of an axis in terms of the noise on both sides.
proof fn lemma_axis(seed: u64, position: Binary32, axis: u64, place: Binary32, b: u64, share: int)
    requires
        plain(position),
        axis < 0x100_0000,
        is_place(place, position, axis),
        in_bucket(place, b, share),
    ensures
        ({
            let from = target_at(seed, b, axis);
            let to = noise(seed, b, axis);
            let past = place.minus(Binary32::of_integer(b as nat));
            &&& in_signed_range(from) && in_signed_range(to)
            &&& is_share(past) && past.units() == share
            &&& is_share(eased(past))
            &&& axis_value(seed, position, axis) == from.plus(to.minus(from).times(eased(past)))
        }),
{
    lemma_place(place, position, axis);
    lemma_share(place, b, share);
    let past = place.minus(Binary32::of_integer(b as nat));
    lemma_noise_is_bounded(seed, b, axis);
    lemma_noise_is_bounded(
        seed,
        if b == 0 {
            0
        } else {
            (b - 1) as u64
        },
        axis,
    );
    lemma_smooth_is_a_share(past);
    assert(unit_share(past) == past);
    assert(smooth(past) == eased(past));
}

/// The sway passes through its bucket targets: where the place of an axis is a whole
/// number `b` of at least one, the axis has the noise of bucket `b - 1`; at zero, that of
/// the first bucket.
pub proof fn lemma_sway_passes_through_its_targets(
    seed: u64,
    position: Binary32,
    axis: u64,
    place: Binary32,
    b: u64,
)
    requires
        plain(position),
        axis < 0x100_0000,
        is_place(place, position, axis),
        in_bucket(place, b, 0),
    ensures
        b >= 1 ==> axis_value(seed, position, axis).same_number(noise(seed, (b - 1) as u64, axis)),
        b == 0 ==> axis_value(seed, position, axis).same_number(noise(seed, 0, axis)),
{
    lemma_axis(seed, position, axis, place, b, 0);
    let past = place.minus(Binary32::of_integer(b as nat));
    lemma_units_of_zero();
    past.lemma_rank_orders_values(Binary32 { bits: 0 });
    assert(past == (Binary32 { bits: 0 }));
    lemma_eased_starts();
    lemma_interpolation_starts(target_at(seed, b, axis), noise(seed, b, axis), eased(past));
}

/// Two targets of different noise are different: the sway moves between them.
pub proof fn lemma_different_targets_are_reached(
    seed: u64,
    axis: u64,
    here: Binary32,
    there: Binary32,
    first: Binary32,
    second: Binary32,
    b: u64,
    c: u64,
)
    requires
        plain(here),
        plain(there),
        axis < 0x100_0000,
        is_place(first, here, axis),
        is_place(second, there, axis),
        1 <= b,
        1 <= c,
        in_bucket(first, b, 0),
        in_bucket(second, c, 0),
        !noise(seed, (b - 1) as u64, axis).same_number(noise(seed, (c - 1) as u64, axis)),
    ensures
        !axis_value(seed, here, axis).same_number(axis_value(seed, there, axis)),
{
    lemma_sway_passes_through_its_targets(seed, here, axis, first, b);
    lemma_sway_passes_through_its_targets(seed, there, axis, second, c);
}

/// Inside a bucket an axis lies between the noise of the bucket before and that of the
/// bucket, at the eased share of the way, up to roundings.
pub proof fn lemma_sway_eases_to_the_next_target(
    seed: u64,
    position: Binary32,
    axis: u64,
    place: Binary32,
    b: u64,
    share: int,
)
    requires
        plain(position),
        axis < 0x100_0000,
        is_place(place, position, axis),
        in_bucket(place, b, share),
    ensures
        ({
            let unit = pow2(149) as int;
            let cube = unit * unit * unit;
            let from = target_at(seed, b, axis);
            let to = noise(seed, b, axis);
            let value = axis_value(seed, position, axis);
            let eased = share * share * (3 * unit - 2 * share);
            let exact = from.units() * (cube - eased) + to.units() * eased;
            &&& lies_between(value, from, to)
            &&& -(cube * pow2(130)) <= value.units() * cube - exact <= cube * pow2(130)
        }),
{
    let unit = pow2(149) as int;
    let from = target_at(seed, b, axis);
    let to = noise(seed, b, axis);
    let past = place.minus(Binary32::of_integer(b as nat));
    let value = axis_value(seed, position, axis);
    lemma_axis(seed, position, axis, place, b, share);
    lemma_interpolation_lies_between(from, to, eased(past));
    lemma_interpolation_lies_at(from, to, eased(past));
    lemma_eased_error(past);
    lemma_units_of_one();
    from.lemma_rank_orders_values(one());
    to.lemma_rank_orders_values(one());
    one().negated().lemma_rank_orders_values(from);
    one().negated().lemma_rank_orders_values(to);
    lemma_pow2_pos(149);
    lemma_pow2_pos(125);
    lemma_pow2_unfold(126);
    lemma_pow2_unfold(127);
    lemma_pow2_unfold(128);
    lemma_pow2_unfold(129);
    lemma_pow2_unfold(130);
    assert(exact_ease(share) == share * share * (3 * unit - 2 * share));
    lemma_ease_errors_add_up(
        from.units(),
        to.units(),
        value.units(),
        eased(past).units(),
        exact_ease(share),
        unit,
        pow2(125) as int,
    );
}

proof fn lemma_ease_errors_add_up(
    from: int,
    to: int,
    value: int,
    share: int,
    ease: int,
    unit: int,
    q: int,
)
    requires
        unit > 0,
        q > 0,
        -unit <= from <= unit,
        -unit <= to <= unit,
        -(9 * (unit * unit * q)) <= 2 * (share * (unit * unit) - ease) <= 9 * (unit * unit * q),
        -(unit * (8 * q)) <= value * unit - (from * (unit - share) + to * share) <= unit * (8 * q),
    ensures
        ({
            let cube = unit * unit * unit;
            -(cube * (32 * q)) <= value * cube - (from * (cube - ease) + to * ease) <= cube * (32 * q)
        }),
{
    let square = unit * unit;
    let cube = unit * unit * unit;
    let first = value * unit - (from * (unit - share) + to * share);
    let off = share * square - ease;
    let span = to - from;
    assert(square > 0) by (nonlinear_arith)
        requires
            square == unit * unit,
            unit > 0,
    ;
    assert(cube == unit * square) by (nonlinear_arith)
        requires
            square == unit * unit,
            cube == unit * unit * unit,
    ;
    let taken = share * square;
    let way = value - from;
    let part = span * share;
    assert(first == way * unit - part) by (nonlinear_arith)
        requires
            first == value * unit - (from * (unit - share) + to * share),
            way == value - from,
            part == (to - from) * share,
    ;
    assert(first * square == (way * unit) * square - part * square) by (nonlinear_arith)
        requires
            first == way * unit - part,
    ;
    assert((way * unit) * square == way * (unit * square)) by (nonlinear_arith);
    assert(part * square == span * taken) by (nonlinear_arith)
        requires
            part == span * share,
            taken == share * square,
    ;
    assert(way * cube == value * cube - from * cube) by (nonlinear_arith)
        requires
            way == value - from,
    ;
    assert(span * off == span * taken - span * ease) by (nonlinear_arith)
        requires
            off == taken - ease,
    ;
    assert(from * (cube - ease) + to * ease == from * cube + span * ease) by (nonlinear_arith)
        requires
            span == to - from,
    ;
    assert(value * cube - (from * (cube - ease) + to * ease) == first * square + span * off);
    let limit = cube * q;
    assert(limit > 0) by (nonlinear_arith)
        requires
            limit == cube * q,
            cube == unit * square,
            unit > 0,
            square > 0,
            q > 0,
    ;
    assert(-(8 * limit) <= first * square <= 8 * limit) by (nonlinear_arith)
        requires
            -(unit * (8 * q)) <= first <= unit * (8 * q),
            limit == cube * q,
            cube == unit * square,
            square > 0,
    ;
    let part = square * q;
    assert(limit == unit * part) by (nonlinear_arith)
        requires
            limit == cube * q,
            cube == unit * square,
            part == square * q,
    ;
    assert(-(9 * part) <= 2 * off <= 9 * part);
    assert(part > 0) by (nonlinear_arith)
        requires
            part == square * q,
            square > 0,
            q > 0,
    ;
    assert(-(9 * limit) <= span * off <= 9 * limit) by (nonlinear_arith)
        requires
            -(2 * unit) <= span <= 2 * unit,
            -(9 * part) <= 2 * off <= 9 * part,
            limit == unit * part,
            unit > 0,
            part > 0,
    ;
    assert(cube * (32 * q) == 32 * limit) by (nonlinear_arith)
        requires
            limit == cube * q,
    ;
}

/// Inside a bucket an axis goes one way: of two places at least three parts in four
/// thousand and ninety-six of a bucket apart, the later one is nearer to the noise of
/// the bucket.
pub proof fn lemma_sway_goes_one_way(
    seed: u64,
    axis: u64,
    here: Binary32,
    there: Binary32,
    first: Binary32,
    second: Binary32,
    b: u64,
    low: int,
    high: int,
)
    requires
        plain(here),
        plain(there),
        axis < 0x100_0000,
        is_place(first, here, axis),
        is_place(second, there, axis),
        in_bucket(first, b, low),
        in_bucket(second, b, high),
        4096 * (high - low) >= 3 * pow2(149),
    ensures
        goes_on(
            target_at(seed, b, axis),
            noise(seed, b, axis),
            axis_value(seed, here, axis),
            axis_value(seed, there, axis),
        ),
{
    let from = target_at(seed, b, axis);
    let to = noise(seed, b, axis);
    lemma_axis(seed, here, axis, first, b, low);
    lemma_axis(seed, there, axis, second, b, high);
    let whole = Binary32::of_integer(b as nat);
    let a = first.minus(whole);
    let c = second.minus(whole);
    lemma_pow2_pos(149);
    a.lemma_rank_orders_values(c);
    lemma_eased_keeps_rising(a, c);
    lemma_interpolation_goes_one_way(from, to, eased(a), eased(c));
    let earlier = axis_value(seed, here, axis);
    let later = axis_value(seed, there, axis);
    lemma_interpolation_is_bounded(from, to, eased(a));
    lemma_interpolation_is_bounded(from, to, eased(c));
    from.lemma_rank_orders_values(to);
    to.lemma_rank_orders_values(from);
    from.lemma_rank_orders_values(earlier);
    earlier.lemma_rank_orders_values(from);
    earlier.lemma_rank_orders_values(later);
    later.lemma_rank_orders_values(earlier);
}

/// The component of an idle target that an axis moves.
pub open spec fn component(target: IdleTarget, axis: u64) -> Binary32 {
    if axis == 0 {
        target.translation_x
    } else if axis == 1 {
        target.translation_z
    } else if axis == 2 {
        target.yaw_radians
    } else {
        target.pitch_radians
    }
}

/// The idle target passes through its bucket targets: where the place of one of its axes
/// is a whole number of at least one, the component of that axis is its amplitude times
/// the noise of the bucket that ends there.
pub proof fn lemma_idle_passes_through_its_targets(
    profile: MicroMotionProfile,
    seed: u64,
    elapsed: Duration,
    scale: Binary32,
    sine: Binary32,
    axis: u64,
    place: Binary32,
    b: u64,
)
    requires
        profile.fault() is None,
        scale_usable(scale),
        elapsed@ <= MAX_SPAN_NANOS,
        amplitudes(profile, scale).finite(),
        plain(bucket_position(profile, elapsed)),
        axis < 4,
        is_place(place, bucket_position(profile, elapsed), axis),
        in_bucket(place, b, 0),
        b >= 1,
    ensures
        component(idle(profile, seed, elapsed, scale, sine), axis).same_number(
            component(amplitudes(profile, scale), axis).times(noise(seed, (b - 1) as u64, axis)),
        ),
{
    let position = bucket_position(profile, elapsed);
    let bounds = amplitudes(profile, scale);
    let aim = noise(seed, (b - 1) as u64, axis);
    lemma_seconds_are_plain(elapsed@);
    lemma_sway_is_finite(profile, seed, elapsed, scale, sine);
    lemma_sway_passes_through_its_targets(seed, position, axis, place, b);
    lemma_noise_is_bounded(seed, (b - 1) as u64, axis);
    lemma_same_factor(component(bounds, axis), axis_value(seed, position, axis), aim);
}

/// Equal factors make equal products.
proof fn lemma_same_factor(number: Binary32, left: Binary32, right: Binary32)
    requires
        number.finite(),
        in_signed_range(right),
        left.same_number(right),
    ensures
        number.times(left).same_number(number.times(right)),
{
    lemma_signed_factor_keeps_finite(number, right);
    lemma_signed_factor_keeps_finite(number, left);
    if right.magnitude() > 0 {
        assert(left == right);
    }
}

/// With finite amplitudes the sway is finite.
proof fn lemma_sway_is_finite(
    profile: MicroMotionProfile,
    seed: u64,
    elapsed: Duration,
    scale: Binary32,
    sine: Binary32,
)
    requires
        amplitudes(profile, scale).finite(),
    ensures
        sway(profile, seed, elapsed, scale, sine).finite(),
{
    let position = bucket_position(profile, elapsed);
    let bounds = amplitudes(profile, scale);
    lemma_axis_is_bounded(seed, position, 0);
    lemma_axis_is_bounded(seed, position, 1);
    lemma_axis_is_bounded(seed, position, 2);
    lemma_axis_is_bounded(seed, position, 3);
    lemma_signed_factor_keeps_finite(bounds.translation_x, axis_value(seed, position, 0));
    lemma_signed_factor_keeps_finite(bounds.translation_z, axis_value(seed, position, 1));
    lemma_signed_factor_keeps_finite(bounds.yaw_radians, axis_value(seed, position, 2));
    lemma_signed_factor_keeps_finite(bounds.pitch_radians, axis_value(seed, position, 3));
}

/// A factor between minus one and one keeps a number finite.
proof fn lemma_signed_factor_keeps_finite(number: Binary32, factor: Binary32)
    requires
        number.finite(),
        in_signed_range(factor),
    ensures
        number.times(factor).finite(),
{
    lemma_share_keeps_finite(number, factor.absolute());
    if factor.negative() {
        lemma_product_commutes(factor.absolute(), number);
        lemma_product_commutes(factor, number);
        lemma_product_flips_sign(factor.absolute(), number);
    }
}

/// The composed target.
pub open spec fn composed(target: IdleTarget, blend: Binary32) -> IdleTarget {
    if scale_usable(blend) {
        target.times(blend_factor(blend)).or_rest()
    } else {
        IdleTarget::rest()
    }
}

/// Idle motion is blended in by its share: without a blend nothing moves, with a full blend
/// the idle target itself, and with a smaller blend no component is larger or turned round.
pub proof fn lemma_idle_is_blended_by_its_share(target: IdleTarget, small: Binary32, large: Binary32, axis: u64)
    requires
        target.finite(),
        is_share(small),
        is_share(large),
        small.at_most(large),
        axis < 4,
    ensures
        small.magnitude() == 0 ==> composed(target, small) == IdleTarget::rest(),
        composed(target, one()) == target,
        component(composed(target, small), axis).magnitude() <= component(composed(target, large), axis).magnitude(),
        component(composed(target, large), axis).magnitude() <= component(target, axis).magnitude(),
        component(composed(target, large), axis).magnitude() > 0 ==> component(
            composed(target, large),
            axis,
        ).negative() == component(target, axis).negative(),
{
    lemma_scaled_target(target, small);
    lemma_scaled_target(target, large);
    lemma_scaled_target(target, one());
    lemma_times_one_32(target.translation_x);
    lemma_times_one_32(target.translation_y);
    lemma_times_one_32(target.translation_z);
    lemma_times_one_32(target.yaw_radians);
    lemma_times_one_32(target.pitch_radians);
    let number = component(target, axis);
    lemma_share_keeps_finite(number, large);
    lemma_shares_keep_order(number, small, large);
    lemma_share_keeps_finite(number, one());
    lemma_shares_keep_order(number, large, one());
    lemma_times_one_32(number);
}

/// A share keeps a target finite.
proof fn lemma_scaled_target(target: IdleTarget, share: Binary32)
    requires
        target.finite(),
        is_share(share),
    ensures
        target.times(share).finite(),
{
    lemma_share_keeps_finite(target.translation_x, share);
    lemma_share_keeps_finite(target.translation_y, share);
    lemma_share_keeps_finite(target.translation_z, share);
    lemma_share_keeps_finite(target.yaw_radians, share);
    lemma_share_keeps_finite(target.pitch_radians, share);
}

/// Breathing follows its sine and nothing else does: a full sine lifts the body by the
/// breath amplitude, no sine leaves it, the opposite sine lowers it by as much, and no other
/// component hears of it.
pub proof fn lemma_breath_follows_the_sine(
    profile: MicroMotionProfile,
    seed: u64,
    elapsed: Duration,
    scale: Binary32,
    sine: Binary32,
)
    requires
        profile.fault() is None,
        scale_usable(scale),
        elapsed@ <= MAX_SPAN_NANOS,
        in_signed_range(sine),
        amplitudes(profile, scale).finite(),
        plain(bucket_position(profile, elapsed)),
        scale_usable(seconds_of(profile.breath_period@)),
        phase_of(profile, elapsed).finite(),
    ensures
        ({
            let target = idle(profile, seed, elapsed, scale, sine);
            let back = idle(profile, seed, elapsed, scale, sine.negated());
            let height = amplitudes(profile, scale).translation_y;
            &&& idle(profile, seed, elapsed, scale, one()).translation_y == height
            &&& idle(profile, seed, elapsed, scale, Binary32 { bits: 0 }).translation_y.magnitude() == 0
            &&& target.translation_y.magnitude() == back.translation_y.magnitude()
            &&& target.translation_y.magnitude() > 0 ==> target.translation_y.negative()
                != back.translation_y.negative()
            &&& target.translation_x == back.translation_x
            &&& target.translation_z == back.translation_z
            &&& target.yaw_radians == back.yaw_radians
            &&& target.pitch_radians == back.pitch_radians
        }),
{
    let height = amplitudes(profile, scale).translation_y;
    lemma_seconds_are_plain(elapsed@);
    lemma_sway_is_finite(profile, seed, elapsed, scale, sine);
    lemma_sway_is_finite(profile, seed, elapsed, scale, sine.negated());
    lemma_sway_is_finite(profile, seed, elapsed, scale, one());
    lemma_sway_is_finite(profile, seed, elapsed, scale, Binary32 { bits: 0 });
    lemma_signed_factor_keeps_finite(height, sine);
    lemma_signed_factor_keeps_finite(height, sine.negated());
    lemma_times_one_32(height);
    lemma_product_commutes(height, sine);
    lemma_product_commutes(height, sine.negated());
    lemma_product_flips_sign(sine, height);
}

} // verus!
