//! What the blend after a loss does to every number of a frame: it starts at the frame
//! that was last published, ends at the tracked frame, and goes straight from one to
//! the other.

use vstd::arithmetic::div_mod::lemma_fundamental_div_mod_converse;
use vstd::arithmetic::power2::{
    lemma2_to64, lemma2_to64_rest, lemma_pow2_adds, lemma_pow2_pos, lemma_pow2_unfold, pow2,
};
use vstd::prelude::*;

use crate::arithmetic::{lemma_plus_zero_32, lemma_times_one_32};
use crate::arithmetic_laws::{
    lemma_product_flips_sign, lemma_product_is_monotone, lemma_quotient_is_plain, lemma_rounded_is_a_number,
    lemma_sum_is_monotone, lemma_units_of_one, lemma_units_of_zero, one,
};
use crate::arkit::in_unit_range;
use crate::avatar::AvatarControlFrame;
use crate::binary::Binary32;
use crate::clock::{lemma_no_time_is_zero, lemma_seconds_are_plain, seconds_of};
use crate::interpolation::{
    comes_closer, distance, lemma_interpolation_comes_closer, lemma_interpolation_goes_one_way,
    lemma_interpolation_lies_at, lemma_interpolation_starts, lemma_product_commutes, lemma_small_product_error,
    lemma_small_sum_error, lies_at, slack,
};
use crate::loss_blend::{acquire_factor_of, lemma_smoothstep_is_a_share, LossBlendProfile};
use crate::loss_recovery::{
    expressions_differ, is_blended_frame, is_held_frame, is_step, span_after, unit_clamped, LossRecovery,
    RecoveryState, RotationParts, StepInputs, REACQUIRE_MIN_EXPRESSION_GAP_BITS,
};
use crate::unit_range::{
    in_signed_range, is_share, lemma_eased_starts, lemma_interpolation_is_bounded, lemma_signed_difference,
    lemma_unit_complement, lemma_unit_product,
};

verus! {

/// A number of a frame that is blended: the detailed channels, zero where the frame has
/// no detailed face, then the expressions, the confidence and the gaze.
pub open spec fn control(frame: AvatarControlFrame, k: int) -> Binary32 {
    if k < 52 {
        match frame.detailed_face {
            Some(face) => face@[k],
            None => Binary32 { bits: 0 },
        }
    } else if k < 68 {
        frame.expressions.listed()[k - 52]
    } else if k == 68 {
        frame.confidence
    } else if k == 69 {
        frame.gaze.horizontal
    } else if k == 70 {
        frame.gaze.vertical
    } else {
        frame.gaze.confidence
    }
}

/// The numbers of the frame lie in their ranges.
pub open spec fn in_range(frame: AvatarControlFrame) -> bool {
    &&& frame.detailed_face is Some ==> frame.detailed_face->0.valid()
    &&& forall|k: int| 52 <= k < 72 ==> in_signed_range(#[trigger] control(frame, k))
}

/// Of two values on the way from `from` to `to`, the later one is farther from `from`.
pub open spec fn goes_on(from: Binary32, to: Binary32, earlier: Binary32, later: Binary32) -> bool {
    &&& from.units() <= to.units() ==> from.units() <= earlier.units() <= later.units()
    &&& to.units() <= from.units() ==> later.units() <= earlier.units() <= from.units()
}

/// What one blended number satisfies.
pub open spec fn is_on_the_way(from: Binary32, to: Binary32, share: Binary32, value: Binary32) -> bool {
    &&& in_signed_range(value)
    &&& lies_at(value, from, to, share)
    &&& share.magnitude() == 0 ==> value.same_number(from)
}

proof fn lemma_range(number: Binary32)
    requires
        in_signed_range(number),
    ensures
        -pow2(149) <= number.units() <= pow2(149),
        in_unit_range(number) ==> 0 <= number.units(),
        !in_unit_range(number) ==> number.units() < 0,
        number.magnitude() == 0 <==> number.units() == 0,
{
    let zero = Binary32 { bits: 0 };
    lemma_units_of_one();
    lemma_units_of_zero();
    number.lemma_rank_orders_values(one());
    number.lemma_rank_orders_values(zero);
    one().negated().lemma_rank_orders_values(number);
    zero.lemma_rank_orders_values(number);
}

/// Cutting to `0..=1` changes a value of the signed range only below zero.
proof fn lemma_cut(number: Binary32)
    requires
        in_signed_range(number),
    ensures
        in_unit_range(unit_clamped(number)),
        in_signed_range(unit_clamped(number)),
        number.units() >= 0 ==> unit_clamped(number) == number,
        number.units() < 0 ==> unit_clamped(number).units() == 0,
{
    lemma_range(number);
    lemma_units_of_zero();
}

/// Interpolated numbers.
pub proof fn lemma_mixed(a: Binary32, b: Binary32, s: Binary32, t: Binary32)
    requires
        in_signed_range(a),
        in_signed_range(b),
        is_share(s),
        is_share(t),
        s.at_most(t),
    ensures
        ({
            let earlier = a.plus(b.minus(a).times(s));
            let later = a.plus(b.minus(a).times(t));
            &&& is_on_the_way(a, b, s, earlier)
            &&& is_on_the_way(a, b, t, later)
            &&& goes_on(a, b, earlier, later)
            &&& comes_closer(earlier, later, b)
        }),
{
    let earlier = a.plus(b.minus(a).times(s));
    let later = a.plus(b.minus(a).times(t));
    lemma_interpolation_is_bounded(a, b, s);
    lemma_interpolation_is_bounded(a, b, t);
    lemma_interpolation_lies_at(a, b, s);
    lemma_interpolation_lies_at(a, b, t);
    if s.magnitude() == 0 {
        lemma_interpolation_starts(a, b, s);
    }
    if t.magnitude() == 0 {
        lemma_interpolation_starts(a, b, t);
    }
    lemma_interpolation_goes_one_way(a, b, s, t);
    lemma_interpolation_comes_closer(a, b, s, t);
    a.lemma_rank_orders_values(b);
    b.lemma_rank_orders_values(a);
    a.lemma_rank_orders_values(earlier);
    earlier.lemma_rank_orders_values(a);
    earlier.lemma_rank_orders_values(later);
    later.lemma_rank_orders_values(earlier);
}

/// Interpolated numbers, cut to `0..=1`.
proof fn lemma_mixed_and_cut(a: Binary32, b: Binary32, s: Binary32, t: Binary32)
    requires
        in_unit_range(a),
        in_unit_range(b),
        is_share(s),
        is_share(t),
        s.at_most(t),
    ensures
        ({
            let earlier = unit_clamped(a.plus(b.minus(a).times(s)));
            let later = unit_clamped(a.plus(b.minus(a).times(t)));
            &&& is_on_the_way(a, b, s, earlier)
            &&& is_on_the_way(a, b, t, later)
            &&& goes_on(a, b, earlier, later)
            &&& comes_closer(earlier, later, b)
        }),
{
    let earlier = a.plus(b.minus(a).times(s));
    let later = a.plus(b.minus(a).times(t));
    lemma_mixed(a, b, s, t);
    lemma_range(a);
    lemma_range(b);
    lemma_range(s);
    lemma_range(t);
    lemma_cut(earlier);
    lemma_cut(later);
    lemma_cut_keeps_place(earlier, a, b, s);
    lemma_cut_keeps_place(later, a, b, t);
    unit_clamped(earlier).lemma_rank_orders_values(a);
    unit_clamped(later).lemma_rank_orders_values(a);
    earlier.lemma_rank_orders_values(a);
    later.lemma_rank_orders_values(a);
}

proof fn lemma_cut_keeps_place(value: Binary32, a: Binary32, b: Binary32, share: Binary32)
    requires
        in_signed_range(value),
        in_unit_range(a),
        in_unit_range(b),
        is_share(share),
        lies_at(value, a, b, share),
    ensures
        lies_at(unit_clamped(value), a, b, share),
{
    let unit = pow2(149) as int;
    lemma_cut(value);
    lemma_range(a);
    lemma_range(b);
    lemma_range(share);
    lemma_pow2_pos(149);
    lemma_pow2_pos(128);
    if value.units() < 0 {
        let (x, y, s, v) = (a.units(), b.units(), share.units(), value.units());
        assert(x * (unit - s) + y * s >= 0) by (nonlinear_arith)
            requires
                0 <= x,
                0 <= y,
                0 <= s <= unit,
        ;
        assert(v * unit <= 0) by (nonlinear_arith)
            requires
                v < 0,
                unit > 0,
        ;
        assert(0 * unit == 0 && unit * slack() >= 0) by (nonlinear_arith)
            requires
                unit > 0,
                slack() > 0,
        ;
    }
}

/// A number that rises from nothing.
proof fn lemma_rising(b: Binary32, s: Binary32, t: Binary32)
    requires
        in_unit_range(b),
        is_share(s),
        is_share(t),
        s.at_most(t),
    ensures
        ({
            let zero = Binary32 { bits: 0 };
            let earlier = unit_clamped(b.times(s));
            let later = unit_clamped(b.times(t));
            &&& is_on_the_way(zero, b, s, earlier)
            &&& is_on_the_way(zero, b, t, later)
            &&& goes_on(zero, b, earlier, later)
            &&& comes_closer(earlier, later, b)
        }),
{
    let zero = Binary32 { bits: 0 };
    let earlier = b.times(s);
    let later = b.times(t);
    lemma_units_of_zero();
    lemma_range(b);
    if b.magnitude() > 0 {
        lemma_unit_product(b, s);
        lemma_unit_product(b, t);
        lemma_product_is_monotone(b, s, b, t);
    }
    lemma_range(earlier);
    lemma_range(later);
    lemma_cut(earlier);
    lemma_cut(later);
    lemma_small_product_error(b, s);
    lemma_small_product_error(b, t);
    lemma_scaled_place(zero.units(), b.units(), earlier.units(), s.units());
    lemma_scaled_place(zero.units(), b.units(), later.units(), t.units());
    earlier.lemma_rank_orders_values(later);
    later.lemma_rank_orders_values(b);
    assert(in_unit_range(earlier) && in_unit_range(later));
    assert(unit_clamped(earlier) == earlier && unit_clamped(later) == later);
}

proof fn lemma_scaled_place(from: int, to: int, value: int, share: int)
    requires
        from == 0,
        -(pow2(149) * pow2(126)) <= value * pow2(149) - to * share <= pow2(149) * pow2(126),
    ensures
        -(pow2(149) * slack()) <= value * pow2(149) - (from * (pow2(149) - share) + to * share)
            <= pow2(149) * slack(),
{
    lemma_pow2_unfold(127);
    lemma_pow2_unfold(128);
    lemma_pow2_pos(126);
    assert(0 * (pow2(149) - share) == 0) by (nonlinear_arith);
    assert(pow2(149) * pow2(128) == 4 * (pow2(149) * pow2(126)) && pow2(149) * pow2(126) >= 0)
        by (nonlinear_arith)
        requires
            pow2(128) == 4 * pow2(126),
    ;
}

/// A number that fades to nothing.
proof fn lemma_fading(a: Binary32, s: Binary32, t: Binary32)
    requires
        in_unit_range(a),
        is_share(s),
        is_share(t),
        s.at_most(t),
    ensures
        ({
            let zero = Binary32 { bits: 0 };
            let earlier = unit_clamped(a.times(one().minus(s)));
            let later = unit_clamped(a.times(one().minus(t)));
            &&& is_on_the_way(a, zero, s, earlier)
            &&& is_on_the_way(a, zero, t, later)
            &&& goes_on(a, zero, earlier, later)
            &&& comes_closer(earlier, later, zero)
        }),
{
    let zero = Binary32 { bits: 0 };
    let first = one().minus(s);
    let second = one().minus(t);
    let earlier = a.times(first);
    let later = a.times(second);
    lemma_units_of_zero();
    lemma_range(a);
    lemma_unit_complement(s);
    lemma_unit_complement(t);
    lemma_sum_is_monotone(one(), t.negated(), one(), s.negated());
    if a.magnitude() > 0 {
        lemma_unit_product(a, first);
        lemma_unit_product(a, second);
        lemma_product_is_monotone(a, second, a, first);
    }
    lemma_range(earlier);
    lemma_range(later);
    lemma_cut(earlier);
    lemma_cut(later);
    lemma_faded_place(a, s);
    lemma_faded_place(a, t);
    later.lemma_rank_orders_values(earlier);
    earlier.lemma_rank_orders_values(a);
    if s.magnitude() == 0 {
        lemma_plus_zero_32(one(), s.negated());
        lemma_times_one_32(a);
    }
    if t.magnitude() == 0 {
        lemma_plus_zero_32(one(), t.negated());
        lemma_times_one_32(a);
    }
    assert(in_unit_range(earlier) && in_unit_range(later));
    assert(unit_clamped(earlier) == earlier && unit_clamped(later) == later);
}

proof fn lemma_faded_place(a: Binary32, share: Binary32)
    requires
        in_unit_range(a),
        is_share(share),
        in_signed_range(a.times(one().minus(share))),
    ensures
        lies_at(a.times(one().minus(share)), a, (Binary32 { bits: 0 }), share),
{
    let rest = one().minus(share);
    let value = a.times(rest);
    let unit = pow2(149) as int;
    let q = pow2(126) as int;
    lemma_units_of_one();
    lemma_units_of_zero();
    lemma_unit_complement(share);
    lemma_small_product_error(a, rest);
    lemma_small_sum_error(one(), share.negated());
    lemma_range(a);
    lemma_range(share);
    lemma_pow2_unfold(127);
    lemma_pow2_unfold(128);
    lemma_pow2_pos(126);
    lemma_pow2_pos(149);
    let (x, r, s, v) = (a.units(), rest.units(), share.units(), value.units());
    let off = r - (unit - s);
    assert(x * r - x * (unit - s) == x * off) by (nonlinear_arith)
        requires
            off == r - (unit - s),
    ;
    assert(-(unit * q) <= x * off <= unit * q) by (nonlinear_arith)
        requires
            0 <= x <= unit,
            -q <= off <= q,
            q > 0,
    ;
    assert(unit * (4 * q) == 4 * (unit * q) && unit * q >= 0) by (nonlinear_arith)
        requires
            unit > 0,
            q > 0,
    ;
    assert(0 * s == 0) by (nonlinear_arith);
}

/// One number of two blends of the same pair of frames.
#[verifier::spinoff_prover]
proof fn lemma_control(
    from: AvatarControlFrame,
    to: AvatarControlFrame,
    s: Binary32,
    t: Binary32,
    before: StepInputs,
    after: StepInputs,
    earlier: AvatarControlFrame,
    later: AvatarControlFrame,
    k: int,
)
    requires
        in_range(from),
        in_range(to),
        is_share(s),
        is_share(t),
        s.at_most(t),
        is_blended_frame(from, to, s, before, earlier),
        is_blended_frame(from, to, t, after, later),
        0 <= k < 72,
        k < 69 || t.less(one()),
    ensures
        is_on_the_way(control(from, k), control(to, k), s, control(earlier, k)),
        is_on_the_way(control(from, k), control(to, k), t, control(later, k)),
        goes_on(control(from, k), control(to, k), control(earlier, k), control(later, k)),
        comes_closer(control(earlier, k), control(later, k), control(to, k)),
{
    let a = control(from, k);
    let b = control(to, k);
    assert(unit_clamped(s) == s && unit_clamped(t) == t);
    if k < 52 {
        let zero = Binary32 { bits: 0 };
        if from.detailed_face is Some {
            assert(in_unit_range(from.detailed_face->0@[k]));
        }
        if to.detailed_face is Some {
            assert(in_unit_range(to.detailed_face->0@[k]));
        }
        match (from.detailed_face, to.detailed_face) {
            (Some(x), Some(y)) => {
                lemma_mixed_and_cut(a, b, s, t);
            },
            (Some(x), None) => {
                lemma_fading(a, s, t);
            },
            (None, Some(y)) => {
                lemma_rising(b, s, t);
            },
            (None, None) => {
                lemma_mixed_and_cut(zero, zero, s, t);
                lemma_nothing_stays(s, t);
            },
        }
    } else {
        assert(in_signed_range(a) && in_signed_range(b));
        lemma_mixed(a, b, s, t);
        lemma_product_commutes(s, b.minus(a));
        lemma_product_commutes(t, b.minus(a));
        if k < 68 {
            let i = k - 52;
            lemma_listed_lerp(from, to, s, i);
            lemma_listed_lerp(from, to, t, i);
        }
    }
}

proof fn lemma_listed_lerp(from: AvatarControlFrame, to: AvatarControlFrame, t: Binary32, i: int)
    requires
        0 <= i < 16,
    ensures
        from.expressions.lerped(to.expressions, t).listed()[i] == crate::avatar::lerp_of(
            from.expressions.listed()[i],
            to.expressions.listed()[i],
            t,
        ),
{
}

proof fn lemma_nothing_stays(s: Binary32, t: Binary32)
    requires
        is_share(s),
        is_share(t),
        s.at_most(t),
    ensures
        ({
            let zero = Binary32 { bits: 0 };
            &&& is_on_the_way(zero, zero, s, zero)
            &&& is_on_the_way(zero, zero, t, zero)
            &&& goes_on(zero, zero, zero, zero)
            &&& comes_closer(zero, zero, zero)
        }),
{
    lemma_units_of_zero();
    lemma_pow2_pos(128);
    let unit = pow2(149) as int;
    assert(0 * (unit - s.units()) + 0 * s.units() == 0) by (nonlinear_arith);
    assert(0 * (unit - t.units()) + 0 * t.units() == 0) by (nonlinear_arith);
    assert(unit * slack() >= 0 && 0 * unit == 0) by (nonlinear_arith)
        requires
            unit >= 0,
            slack() >= 0,
    ;
}

/// A blend starts at the frame that it comes from: at a factor of zero every number is
/// that frame's.
pub proof fn lemma_blend_starts_at_its_origin(
    from: AvatarControlFrame,
    to: AvatarControlFrame,
    t: Binary32,
    inputs: StepInputs,
    frame: AvatarControlFrame,
)
    requires
        in_range(from),
        in_range(to),
        is_blended_frame(from, to, t, inputs, frame),
        t == (Binary32 { bits: 0 }),
    ensures
        forall|k: int| 0 <= k < 72 ==> (#[trigger] control(frame, k)).same_number(control(from, k)),
        frame.detailed_face is Some <==> from.detailed_face is Some || to.detailed_face is Some,
{
    assert forall|k: int| 0 <= k < 72 implies (#[trigger] control(frame, k)).same_number(
        control(from, k),
    ) by {
        lemma_control(from, to, t, t, inputs, inputs, frame, frame, k);
    }
}

/// A blend ends at the tracked frame: at a factor of one every detailed channel, every
/// expression and the confidence is the tracked one, up to roundings.
pub proof fn lemma_blend_ends_at_the_target(
    from: AvatarControlFrame,
    to: AvatarControlFrame,
    t: Binary32,
    inputs: StepInputs,
    frame: AvatarControlFrame,
)
    requires
        in_range(from),
        in_range(to),
        is_blended_frame(from, to, t, inputs, frame),
        t == one(),
    ensures
        forall|k: int|
            0 <= k < 69 ==> distance(#[trigger] control(frame, k), control(to, k)) <= slack(),
{
    let unit = pow2(149) as int;
    lemma_units_of_one();
    lemma_pow2_pos(149);
    assert forall|k: int| 0 <= k < 69 implies distance(
        #[trigger] control(frame, k),
        control(to, k),
    ) <= slack() by {
        lemma_control(from, to, t, t, inputs, inputs, frame, frame, k);
        let (a, b, v, z) = (
            control(from, k).units(),
            control(to, k).units(),
            control(frame, k).units(),
            slack(),
        );
        assert(b - z <= v <= b + z) by (nonlinear_arith)
            requires
                -(unit * z) <= v * unit - (a * (unit - unit) + b * unit) <= unit * z,
                unit > 0,
        ;
    }
}

/// A blend goes straight: every number lies at the factor's share of the way from the
/// frame that it comes from to the tracked one, up to roundings.
pub proof fn lemma_blend_is_proportional(
    from: AvatarControlFrame,
    to: AvatarControlFrame,
    t: Binary32,
    inputs: StepInputs,
    frame: AvatarControlFrame,
)
    requires
        in_range(from),
        in_range(to),
        is_blended_frame(from, to, t, inputs, frame),
        is_share(t),
        t.less(one()),
    ensures
        forall|k: int|
            0 <= k < 72 ==> lies_at(
                #[trigger] control(frame, k),
                control(from, k),
                control(to, k),
                t,
            ),
{
    assert forall|k: int| 0 <= k < 72 implies lies_at(
        #[trigger] control(frame, k),
        control(from, k),
        control(to, k),
        t,
    ) by {
        lemma_control(from, to, t, t, inputs, inputs, frame, frame, k);
    }
}

/// A blend only approaches: with a larger factor every number is farther from the frame
/// that the blend comes from, and no farther from the tracked one, up to roundings.
pub proof fn lemma_blend_approaches_the_target(
    from: AvatarControlFrame,
    to: AvatarControlFrame,
    s: Binary32,
    t: Binary32,
    before: StepInputs,
    after: StepInputs,
    earlier: AvatarControlFrame,
    later: AvatarControlFrame,
)
    requires
        in_range(from),
        in_range(to),
        is_share(s),
        is_share(t),
        s.at_most(t),
        t.less(one()),
        is_blended_frame(from, to, s, before, earlier),
        is_blended_frame(from, to, t, after, later),
    ensures
        forall|k: int|
            0 <= k < 72 ==> goes_on(
                control(from, k),
                control(to, k),
                #[trigger] control(earlier, k),
                control(later, k),
            ) && comes_closer(control(earlier, k), control(later, k), control(to, k)),
{
    assert forall|k: int| 0 <= k < 72 implies goes_on(
        control(from, k),
        control(to, k),
        #[trigger] control(earlier, k),
        control(later, k),
    ) && comes_closer(control(earlier, k), control(later, k), control(to, k)) by {
        lemma_control(from, to, s, t, before, after, earlier, later, k);
    }
}

/// Where a blend into the tracked frame comes from: a running one from the frame that it
/// started at, a new one from the last frame that was published.
pub open spec fn origin_of(machine: LossRecovery) -> Option<AvatarControlFrame> {
    match machine.state {
        RecoveryState::Recovering { from, .. } => Some(from),
        _ => machine.last_output,
    }
}

/// A step on a tracked frame publishes, number by number, something from the blend's
/// origin to the tracked frame, and never leads away from the tracked frame; where no
/// blend runs on, the tracked frame itself.
pub proof fn lemma_recovery_leads_to_the_tracked_frame(
    machine: LossRecovery,
    inputs: StepInputs,
    next: RecoveryState,
    output: Option<AvatarControlFrame>,
)
    requires
        is_step(machine, inputs, next, output),
        machine.params.valid(),
        origin_of(machine) is Some,
        inputs.state.acquired(),
        inputs.observed is Some,
        in_range(origin_of(machine)->0),
        in_range(inputs.observed->0),
    ensures
        output is Some,
        next is Idle || next is Recovering,
        next is Idle ==> output == inputs.observed,
        next is Recovering ==> next->Recovering_from == origin_of(machine)->0,
        ({
            let from = origin_of(machine)->0;
            let to = inputs.observed->0;
            forall|k: int|
                0 <= k < 72 ==> comes_closer(
                    control(from, k),
                    #[trigger] control(output->0, k),
                    control(to, k),
                )
        }),
        next is Recovering ==> ({
            let from = origin_of(machine)->0;
            let to = inputs.observed->0;
            forall|k: int|
                0 <= k < 72 ==> goes_on(
                    control(from, k),
                    control(to, k),
                    control(from, k),
                    #[trigger] control(output->0, k),
                )
        }),
{
    let from = origin_of(machine)->0;
    let to = inputs.observed->0;
    let spent = match machine.state {
        RecoveryState::Recovering { elapsed, .. } => elapsed@,
        _ => 0,
    };
    let elapsed = span_after(spent, inputs.dt@);
    let t = acquire_factor_of(elapsed, machine.params);
    let frame = output->0;
    lemma_pow2_pos(128);
    if next is Recovering {
        lemma_acquire_factor_is_a_share(elapsed, machine.params);
        assert forall|k: int| 0 <= k < 72 implies comes_closer(
            control(from, k),
            #[trigger] control(frame, k),
            control(to, k),
        ) && goes_on(control(from, k), control(to, k), control(from, k), control(frame, k)) by {
            lemma_control(from, to, t, t, inputs, inputs, frame, frame, k);
            let (a, b, v) = (control(from, k).units(), control(to, k).units(), control(frame, k).units());
            lemma_stays_between(a, b, v, t.units());
            lemma_range(t);
        }
    } else {
        assert forall|k: int| 0 <= k < 72 implies comes_closer(
            control(from, k),
            #[trigger] control(frame, k),
            control(to, k),
        ) by {
            assert(distance(control(frame, k), control(to, k)) == 0);
        }
    }
}

proof fn lemma_stays_between(from: int, to: int, value: int, share: int)
    requires
        0 <= share <= pow2(149) ==> {
            -(pow2(149) * slack()) <= value * pow2(149) - (from * (pow2(149) - share) + to * share)
                <= pow2(149) * slack()
        },
    ensures
        0 <= share <= pow2(149) && from <= to ==> value <= to + slack(),
        0 <= share <= pow2(149) && to <= from ==> value >= to - slack(),
{
    let unit = pow2(149) as int;
    let z = slack();
    lemma_pow2_pos(149);
    if 0 <= share <= unit && from <= to {
        assert(value <= to + z) by (nonlinear_arith)
            requires
                value * unit - (from * (unit - share) + to * share) <= unit * z,
                0 <= share <= unit,
                unit > 0,
                from <= to,
        ;
    }
    if 0 <= share <= unit && to <= from {
        assert(value >= to - z) by (nonlinear_arith)
            requires
                -(unit * z) <= value * unit - (from * (unit - share) + to * share),
                0 <= share <= unit,
                unit > 0,
                to <= from,
        ;
    }
}

/// The acquire factor is a share.
pub proof fn lemma_acquire_factor_is_a_share(elapsed: nat, params: LossBlendProfile)
    requires
        params.valid(),
    ensures
        is_share(acquire_factor_of(elapsed, params)),
{
    if elapsed < params.acquire@ {
        lemma_seconds_are_plain(elapsed);
        lemma_seconds_are_plain(params.acquire@);
        lemma_quotient_is_plain(seconds_of(elapsed), seconds_of(params.acquire@));
        lemma_smoothstep_is_a_share(seconds_of(elapsed).over(seconds_of(params.acquire@)));
    }
}

/// A held frame is the frame of the loss with its authority taken back: the detailed
/// channels, the expressions and the confidences are the factor's share of what they
/// were, up to roundings, while the gaze goes on looking where it looked.
pub proof fn lemma_held_frame_is_the_faded_origin(
    origin: AvatarControlFrame,
    factor: Binary32,
    inputs: StepInputs,
    frame: AvatarControlFrame,
)
    requires
        in_range(origin),
        is_share(factor),
        is_held_frame(origin, factor, inputs, frame),
        !(origin.gaze.state is Unavailable),
    ensures
        forall|k: int|
            0 <= k < 72 && k != 69 && k != 70 ==> lies_at(
                #[trigger] control(frame, k),
                Binary32 { bits: 0 },
                control(origin, k),
                factor,
            ),
        control(frame, 69) == control(origin, 69),
        control(frame, 70) == control(origin, 70),
        frame.head == origin.head,
        frame.head_translation == origin.head_translation,
{
    let zero = Binary32 { bits: 0 };
    assert(unit_clamped(factor) == factor);
    assert forall|k: int| 0 <= k < 72 && k != 69 && k != 70 implies lies_at(
        #[trigger] control(frame, k),
        zero,
        control(origin, k),
        factor,
    ) by {
        let b = control(origin, k);
        if k < 52 {
            match origin.detailed_face {
                Some(face) => {
                    assert(in_unit_range(face@[k]));
                    lemma_rising(b, factor, factor);
                },
                None => {
                    lemma_nothing_stays(factor, factor);
                },
            }
        } else {
            assert(in_signed_range(b));
            lemma_scaled_signed(b, factor);
            if k < 68 {
                lemma_listed_scale(origin, factor, k - 52);
            }
        }
    }
}

proof fn lemma_listed_scale(origin: AvatarControlFrame, factor: Binary32, i: int)
    requires
        0 <= i < 16,
    ensures
        origin.expressions.scaled_by(factor).listed()[i] == origin.expressions.listed()[i].times(factor),
{
}

/// A signed number times a share lies at that share of it.
proof fn lemma_scaled_signed(b: Binary32, share: Binary32)
    requires
        in_signed_range(b),
        is_share(share),
    ensures
        lies_at(b.times(share), Binary32 { bits: 0 }, b, share),
{
    let zero = Binary32 { bits: 0 };
    lemma_units_of_zero();
    lemma_unit_product(b.absolute(), share);
    if b.negative() {
        lemma_product_flips_sign(b.absolute(), share);
        assert(b == b.absolute().negated());
    } else {
        assert(b == b.absolute());
    }
    lemma_small_product_error(b, share);
    lemma_scaled_place(zero.units(), b.units(), b.times(share).units(), share.units());
}

/// A blend takes the shorter way: the chosen rotation is the target or its opposite, and
/// never points away from the current one.
pub proof fn lemma_chosen_arc_points_ahead(current: RotationParts, target: RotationParts)
    requires
        !current.dot(target).nan(),
        current.w.finite() && current.i.finite() && current.j.finite() && current.k.finite(),
        target.w.finite() && target.i.finite() && target.j.finite() && target.k.finite(),
        current.dot(target).finite(),
        current.w.times(target.w).finite(),
        current.i.times(target.i).finite(),
        current.j.times(target.j).finite(),
        current.k.times(target.k).finite(),
        current.w.times(target.w).plus(current.i.times(target.i)).finite(),
        current.w.times(target.w).plus(current.i.times(target.i)).plus(current.j.times(target.j)).finite(),
    ensures
        ({
            let chosen = if current.dot(target).less(Binary32 { bits: 0 }) {
                target.opposite()
            } else {
                target
            };
            current.dot(chosen).rank() >= 0
        }),
{
    let (a, b) = (current.w.times(target.w), current.i.times(target.i));
    let (c, d) = (current.j.times(target.j), current.k.times(target.k));
    if current.dot(target).less(Binary32 { bits: 0 }) {
        lemma_opposite_factor(current.w, target.w);
        lemma_opposite_factor(current.i, target.i);
        lemma_opposite_factor(current.j, target.j);
        lemma_opposite_factor(current.k, target.k);
        lemma_opposite_sum(a, b);
        lemma_opposite_sum(a.plus(b), c);
        lemma_opposite_sum_of(a.plus(b), c, a.negated().plus(b.negated()), c.negated());
        lemma_opposite_sum_of(
            a.plus(b).plus(c),
            d,
            a.negated().plus(b.negated()).plus(c.negated()),
            d.negated(),
        );
    }
}

proof fn lemma_opposite_factor(left: Binary32, right: Binary32)
    requires
        left.finite(),
        right.finite(),
    ensures
        left.times(right.negated()) == left.times(right).negated(),
{
    lemma_product_commutes(left, right);
    lemma_product_commutes(left, right.negated());
    lemma_product_flips_sign(right, left);
}

/// Opposite summands have an opposite sum.
proof fn lemma_opposite_sum(left: Binary32, right: Binary32)
    requires
        left.finite(),
        right.finite(),
        left.plus(right).finite(),
    ensures
        left.negated().plus(right.negated()).rank() == -left.plus(right).rank(),
        left.negated().plus(right.negated()).finite(),
{
    lemma_opposite_sum_of(left, right, left.negated(), right.negated());
}

proof fn lemma_opposite_sum_of(left: Binary32, right: Binary32, first: Binary32, second: Binary32)
    requires
        left.finite(),
        right.finite(),
        left.plus(right).finite(),
        first.finite(),
        second.finite(),
        first.rank() == -left.rank(),
        second.rank() == -right.rank(),
    ensures
        first.plus(second).rank() == -left.plus(right).rank(),
        first.plus(second).finite(),
{
    lemma_units_of_zero();
    assert(first.magnitude() == left.magnitude());
    assert(second.magnitude() == right.magnitude());
    assert(first.units() == -left.units()) by {
        if left.magnitude() > 0 {
            assert(first.negative() != left.negative());
        }
    }
    assert(second.units() == -right.units()) by {
        if right.magnitude() > 0 {
            assert(second.negative() != right.negative());
        }
    }
    let exact = left.units() + right.units();
    if exact != 0 {
        let size = (if exact < 0 {
            -exact
        } else {
            exact
        }) as nat;
        lemma_rounded_is_a_number(size, 1);
    }
}

/// A reacquired face that matches what was last published is not blended in, whatever
/// else the frame holds: equal expressions and gaze, and a head no farther than the
/// threshold, pass straight through.
pub proof fn lemma_matching_frame_passes_through(
    machine: LossRecovery,
    inputs: StepInputs,
    next: RecoveryState,
    output: Option<AvatarControlFrame>,
)
    requires
        is_step(machine, inputs, next, output),
        machine.state is Idle,
        machine.last_output is Some,
        inputs.state.acquired(),
        inputs.observed is Some,
        inputs.observed->0.expressions == machine.last_output->0.expressions,
        inputs.observed->0.gaze == machine.last_output->0.gaze,
        in_range(inputs.observed->0),
        inputs.head.gap.magnitude() == 0,
    ensures
        next is Idle,
        output == inputs.observed,
{
    let target = inputs.observed->0;
    let from = machine.last_output->0;
    let zero = Binary32 { bits: 0 };
    assert forall|i: int| 0 <= i < 16 implies (#[trigger] from.expressions.listed()[i]).minus(
        target.expressions.listed()[i],
    ).absolute().magnitude() == 0 by {
        assert(control(target, 52 + i) == target.expressions.listed()[i]);
        lemma_signed_difference(target.expressions.listed()[i], from.expressions.listed()[i]);
    }
    lemma_signed_difference(control(target, 69), control(target, 69));
    lemma_signed_difference(control(target, 70), control(target, 70));
}

/// A reacquired face whose expression lies more than a quarter of the range from what was
/// last published after a loss is blended in.
pub proof fn lemma_distant_frame_is_blended(
    machine: LossRecovery,
    inputs: StepInputs,
    next: RecoveryState,
    output: Option<AvatarControlFrame>,
    i: int,
)
    requires
        is_step(machine, inputs, next, output),
        machine.params.valid(),
        machine.state is Idle,
        machine.last_output is Some,
        machine.last_output->0.state.lost(),
        inputs.state.acquired(),
        inputs.observed is Some,
        in_range(inputs.observed->0),
        in_range(machine.last_output->0),
        0 <= i < 16,
        ({
            let gap = machine.last_output->0.expressions.listed()[i].units()
                - inputs.observed->0.expressions.listed()[i].units();
            4 * gap >= pow2(149) || -4 * gap >= pow2(149)
        }),
        inputs.dt@ == 0,
    ensures
        next is Recovering,
        next->Recovering_from == machine.last_output->0,
{
    let target = inputs.observed->0;
    let from = machine.last_output->0;
    let (a, b) = (from.expressions.listed()[i], target.expressions.listed()[i]);
    assert(control(from, 52 + i) == a && control(target, 52 + i) == b);
    lemma_signed_difference(b, a);
    lemma_small_sum_error(a, b.negated());
    lemma_pow2_pos(126);
    lemma_pow2_adds(23, 126);
    lemma2_to64();
    lemma2_to64_rest();
    let gap = a.minus(b).absolute();
    let part = Binary32 { bits: 0x3e40_0000 };
    lemma_three_sixteenths();
    assert(gap.units() >= part.units());
    part.lemma_rank_orders_values(gap);
    assert(expressions_differ(from.expressions.listed(), target.expressions.listed())) by {
        assert((Binary32 { bits: REACQUIRE_MIN_EXPRESSION_GAP_BITS }).less(
            from.expressions.listed()[i].minus(target.expressions.listed()[i]).absolute(),
        ));
    }
    lemma_no_time_is_zero();
    lemma_seconds_are_plain(machine.params.acquire@);
    lemma_eased_starts();
    assert(acquire_factor_of(0, machine.params) == (Binary32 { bits: 0 }));
}

/// Three sixteenths in units.
proof fn lemma_three_sixteenths()
    ensures
        16 * (Binary32 { bits: 0x3e40_0000 }).units() == 3 * pow2(149),
{
    lemma2_to64();
    lemma2_to64_rest();
    lemma_fundamental_div_mod_converse(0x3e40_0000, pow2(23) as int, 124, 0x40_0000);
    lemma_pow2_adds(22, 123);
    lemma_pow2_adds(4, 145);
    assert((pow2(23) + 0x40_0000) * pow2(123) == 3 * (pow2(22) * pow2(123))) by (nonlinear_arith)
        requires
            pow2(23) + 0x40_0000 == 3 * pow2(22),
    ;
}

} // verus!
