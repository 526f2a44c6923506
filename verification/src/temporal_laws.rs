//! What the temporal metrics compare: movements of the output with movements of the
//! teacher.

use vstd::arithmetic::div_mod::lemma_fundamental_div_mod_converse;
use vstd::arithmetic::power2::{
    lemma2_to64, lemma2_to64_rest, lemma_pow2_adds, lemma_pow2_pos, pow2,
};
use vstd::prelude::*;

use crate::arithmetic::{lemma_infinity_64, lemma_nearest_of_exact_64};
use crate::arkit::in_unit_range;
use crate::binary::{magnitude_units, Binary32, Binary64};
use crate::closeness::{
    abs_of, lemma_difference_parts, lemma_quotient_near_64, lemma_value_64, value_64,
};
use crate::mean_laws::{lemma_count_value, lemma_parts_64, lemma_tiny_64};
use crate::metric_laws::{lemma_difference_term, lemma_widened_value};
use crate::prediction_laws::{lemma_close_rate, seconds};
use crate::rounding::{lemma_nearest_ratio_exists, lemma_nearest_ratio_is_monotone};
use crate::rounding_error::{half_least_64, lemma_sizes, value_32};
use crate::temporal_metrics::{
    acceleration, apart, gathered, jerk, mean_term, seconds_64, temporal_of, term_at, velocity, with_channels,
    with_terms, TemporalTerm,
};
use crate::unified_ablation::{take_runs, VariantFrame};

verus! {

/// The frames with teacher and output exchanged.
pub open spec fn roles_exchanged(frames: Seq<VariantFrame>, other: Seq<VariantFrame>) -> bool {
    &&& frames.len() == other.len()
    &&& forall|i: int|
        0 <= i < frames.len() ==> {
            &&& (#[trigger] other[i]).take_id@ == frames[i].take_id@
            &&& other[i].timestamp_micros == frames[i].timestamp_micros
            &&& other[i].teacher@ == frames[i].output@
            &&& other[i].output@ == frames[i].teacher@
        }
}

/// Distances do not depend on the order.
proof fn lemma_apart_is_symmetric(left: Binary64, right: Binary64)
    ensures
        apart(left, right) == apart(right, left),
{
    lemma_infinity_64();
    let exact = left.units() - right.units();
    if left.finite() && right.finite() {
        crate::arithmetic::lemma_sign_of_units_64(left);
        crate::arithmetic::lemma_sign_of_units_64(right);
        assert(right.negated().units() == -right.units());
        assert(left.negated().units() == -left.units());
        if exact != 0 {
            let size = (if exact < 0 {
                -exact
            } else {
                exact
            }) as nat;
            lemma2_to64();
            lemma2_to64_rest();
            lemma_nearest_ratio_exists(size, 1, 52, 2047);
        }
    }
}

proof fn lemma_exchanged_velocity(frames: Seq<VariantFrame>, other: Seq<VariantFrame>, c: int, output: bool, i: int)
    requires
        roles_exchanged(frames, other),
        0 <= i < frames.len() - 1,
    ensures
        velocity(other, c, output, i) == velocity(frames, c, !output, i),
{
    assert(other[i].teacher@ == frames[i].output@ && other[i + 1].teacher@ == frames[i + 1].output@);
}

proof fn lemma_exchanged_acceleration(
    frames: Seq<VariantFrame>,
    other: Seq<VariantFrame>,
    c: int,
    output: bool,
    i: int,
)
    requires
        roles_exchanged(frames, other),
        1 <= i < frames.len() - 1,
    ensures
        acceleration(other, c, output, i) == acceleration(frames, c, !output, i),
{
    lemma_exchanged_velocity(frames, other, c, output, i);
    lemma_exchanged_velocity(frames, other, c, output, i - 1);
    assert(other[i].timestamp_micros == frames[i].timestamp_micros);
    assert(other[i - 1].timestamp_micros == frames[i - 1].timestamp_micros);
    assert(other[i + 1].timestamp_micros == frames[i + 1].timestamp_micros);
}

/// The kinds of terms that compare movements only.
pub open spec fn is_even(kind: TemporalTerm) -> bool {
    kind is Velocity || kind is Acceleration
}

proof fn lemma_exchanged_term(
    frames: Seq<VariantFrame>,
    other: Seq<VariantFrame>,
    c: int,
    kind: TemporalTerm,
    start: int,
    i: int,
)
    requires
        roles_exchanged(frames, other),
        is_even(kind),
        0 <= start <= i < frames.len() - 1,
    ensures
        term_at(frames, c, kind, start, i) == term_at(other, c, kind, start, i),
{
    reveal(term_at);
    lemma_exchanged_velocity(frames, other, c, true, i);
    lemma_exchanged_velocity(frames, other, c, false, i);
    lemma_apart_is_symmetric(velocity(frames, c, true, i), velocity(frames, c, false, i));
    if i >= start + 1 {
        lemma_exchanged_acceleration(frames, other, c, true, i);
        lemma_exchanged_acceleration(frames, other, c, false, i);
        lemma_apart_is_symmetric(acceleration(frames, c, true, i), acceleration(frames, c, false, i));
    }
}

proof fn lemma_exchanged_terms(
    before: (Binary64, nat),
    frames: Seq<VariantFrame>,
    other: Seq<VariantFrame>,
    c: int,
    kind: TemporalTerm,
    start: int,
    i: int,
)
    requires
        roles_exchanged(frames, other),
        is_even(kind),
        0 <= start,
        i < frames.len(),
    ensures
        with_terms(before, frames, c, kind, start, i) == with_terms(before, other, c, kind, start, i),
    decreases i - start,
{
    if i > start {
        lemma_exchanged_terms(before, frames, other, c, kind, start, i - 1);
        lemma_exchanged_term(frames, other, c, kind, start, i - 1);
    }
}

proof fn lemma_exchanged_channels(
    before: (Binary64, nat),
    frames: Seq<VariantFrame>,
    other: Seq<VariantFrame>,
    kind: TemporalTerm,
    run: (usize, usize),
    c: int,
)
    requires
        roles_exchanged(frames, other),
        is_even(kind),
        run.1 <= frames.len(),
    ensures
        with_channels(before, frames, kind, run, c) == with_channels(before, other, kind, run, c),
    decreases c,
{
    if c > 0 {
        lemma_exchanged_channels(before, frames, other, kind, run, c - 1);
        lemma_exchanged_terms(
            with_channels(before, frames, kind, run, c - 1),
            frames,
            other,
            c - 1,
            kind,
            run.0 as int,
            run.1 - 1,
        );
    }
}

proof fn lemma_exchanged_runs(frames: Seq<VariantFrame>, other: Seq<VariantFrame>, n: int)
    requires
        roles_exchanged(frames, other),
        0 <= n <= frames.len(),
        frames.len() <= usize::MAX,
    ensures
        take_runs(frames, n) == take_runs(other, n),
    decreases n,
{
    if n > 1 {
        lemma_exchanged_runs(frames, other, n - 1);
        crate::unified_ablation::lemma_take_runs_partition(frames, n - 1);
        let runs = take_runs(frames, n - 1);
        let start = runs.last().0 as int;
        assert(runs.last() == runs[runs.len() - 1]);
        assert(other[n - 1].take_id@ == frames[n - 1].take_id@);
        assert(other[start].take_id@ == frames[start].take_id@);
    }
}

proof fn lemma_exchanged_gathered(
    frames: Seq<VariantFrame>,
    other: Seq<VariantFrame>,
    kind: TemporalTerm,
    n: int,
)
    requires
        roles_exchanged(frames, other),
        is_even(kind),
        0 < frames.len() <= usize::MAX,
        0 <= n <= take_runs(frames, frames.len() as int).len(),
    ensures
        gathered(frames, take_runs(frames, frames.len() as int), kind, n) == gathered(
            other,
            take_runs(frames, frames.len() as int),
            kind,
            n,
        ),
    decreases n,
{
    if n > 0 {
        let runs = take_runs(frames, frames.len() as int);
        lemma_exchanged_gathered(frames, other, kind, n - 1);
        crate::unified_ablation::lemma_take_runs_partition(frames, frames.len() as int);
        assert(runs[n - 1].1 <= frames.len());
        lemma_exchanged_channels(gathered(frames, runs, kind, n - 1), frames, other, kind, runs[n - 1], 51);
    }
}

/// Velocity and acceleration errors compare two movements: which of them is the teacher's
/// does not matter.
pub proof fn lemma_movement_errors_are_symmetric(frames: Seq<VariantFrame>, other: Seq<VariantFrame>)
    requires
        roles_exchanged(frames, other),
        0 < frames.len() <= usize::MAX,
    ensures
        temporal_of(frames).velocity_mae == temporal_of(other).velocity_mae,
        temporal_of(frames).acceleration_mae == temporal_of(other).acceleration_mae,
{
    let n = take_runs(frames, frames.len() as int).len() as int;
    lemma_exchanged_runs(frames, other, frames.len() as int);
    lemma_exchanged_gathered(frames, other, TemporalTerm::Velocity, n);
    lemma_exchanged_gathered(frames, other, TemporalTerm::Acceleration, n);
}

/// The output repeats the teacher in every channel but the tongue.
pub open spec fn repeats_the_teacher(frames: Seq<VariantFrame>) -> bool {
    forall|i: int, c: int|
        0 <= i < frames.len() && 0 <= c < 51 ==> (#[trigger] frames[i].output@[c]) == frames[i].teacher@[c]
}

/// The sum is zero.
pub open spec fn is_zero(number: Binary64) -> bool {
    number.magnitude() == 0
}

proof fn lemma_repeated_term(
    frames: Seq<VariantFrame>,
    c: int,
    kind: TemporalTerm,
    start: int,
    i: int,
)
    requires
        repeats_the_teacher(frames),
        kind is Velocity || kind is Acceleration || kind is Jerk,
        0 <= start <= i < frames.len() - 1,
        0 <= c < 51,
        term_at(frames, c, kind, start, i) is Some,
        term_at(frames, c, kind, start, i)->0.finite(),
    ensures
        is_zero(term_at(frames, c, kind, start, i)->0),
{
    reveal(term_at);
    lemma_repeated_velocity(frames, c, i);
    match kind {
        TemporalTerm::Velocity => {
            lemma_apart_from_itself(velocity(frames, c, true, i));
        },
        TemporalTerm::Acceleration => {
            lemma_repeated_velocity(frames, c, i - 1);
            lemma_apart_from_itself(acceleration(frames, c, true, i));
        },
        _ => {
            lemma_repeated_velocity(frames, c, i - 1);
            lemma_repeated_velocity(frames, c, i - 2);
            lemma_apart_from_itself(jerk(frames, c, true, i));
        },
    }
}

proof fn lemma_repeated_velocity(frames: Seq<VariantFrame>, c: int, i: int)
    requires
        repeats_the_teacher(frames),
        0 <= i < frames.len() - 1,
        0 <= c < 51,
    ensures
        velocity(frames, c, true, i) == velocity(frames, c, false, i),
{
    assert(frames[i].output@[c] == frames[i].teacher@[c]);
    assert(frames[i + 1].output@[c] == frames[i + 1].teacher@[c]);
}

proof fn lemma_apart_from_itself(number: Binary64)
    ensures
        apart(number, number).finite() ==> is_zero(apart(number, number)),
{
    lemma_infinity_64();
    if number.finite() {
        crate::arithmetic::lemma_sign_of_units_64(number);
    }
}

/// Every term of the kind vanishes, or is not finite.
spec fn all_vanish(frames: Seq<VariantFrame>, kind: TemporalTerm) -> bool {
    forall|c: int, start: int, i: int|
        0 <= c < 51 && 0 <= start <= i < frames.len() - 1 ==> {
            let term = #[trigger] term_at(frames, c, kind, start, i);
            term is Some ==> is_zero(term->0) || !term->0.finite()
        }
}

proof fn lemma_vanishing_terms(
    before: (Binary64, nat),
    frames: Seq<VariantFrame>,
    c: int,
    kind: TemporalTerm,
    start: int,
    i: int,
)
    requires
        all_vanish(frames, kind),
        0 <= start,
        i < frames.len(),
        0 <= c < 51,
        is_zero(before.0) || !before.0.finite(),
    ensures
        is_zero(with_terms(before, frames, c, kind, start, i).0) || !with_terms(
            before,
            frames,
            c,
            kind,
            start,
            i,
        ).0.finite(),
    decreases i - start,
{
    if i > start {
        lemma_vanishing_terms(before, frames, c, kind, start, i - 1);
        let held = with_terms(before, frames, c, kind, start, i - 1);
        match term_at(frames, c, kind, start, i - 1) {
            Some(term) => {
                lemma_zero_or_not_finite(held.0, term);
            },
            None => {},
        }
    }
}

/// Zeros add up to zero; what is not finite stays so.
proof fn lemma_zero_or_not_finite(left: Binary64, right: Binary64)
    requires
        is_zero(left) || !left.finite(),
        is_zero(right) || !right.finite(),
    ensures
        is_zero(left.plus(right)) || !left.plus(right).finite(),
{
    lemma_infinity_64();
    if is_zero(left) && is_zero(right) {
        crate::arithmetic::lemma_sign_of_units_64(left);
        crate::arithmetic::lemma_sign_of_units_64(right);
        crate::arithmetic::lemma_sign_of_units_64(Binary64 { bits: 0 });
    }
}

proof fn lemma_vanishing_channels(
    before: (Binary64, nat),
    frames: Seq<VariantFrame>,
    kind: TemporalTerm,
    run: (usize, usize),
    c: int,
)
    requires
        all_vanish(frames, kind),
        run.1 <= frames.len(),
        c <= 51,
        is_zero(before.0) || !before.0.finite(),
    ensures
        is_zero(with_channels(before, frames, kind, run, c).0) || !with_channels(
            before,
            frames,
            kind,
            run,
            c,
        ).0.finite(),
    decreases c,
{
    if c > 0 {
        lemma_vanishing_channels(before, frames, kind, run, c - 1);
        lemma_vanishing_terms(
            with_channels(before, frames, kind, run, c - 1),
            frames,
            c - 1,
            kind,
            run.0 as int,
            run.1 - 1,
        );
    }
}

proof fn lemma_vanishing_gathered(frames: Seq<VariantFrame>, kind: TemporalTerm, n: int)
    requires
        all_vanish(frames, kind),
        0 < frames.len() <= usize::MAX,
        0 <= n <= take_runs(frames, frames.len() as int).len(),
    ensures
        ({
            let sum = gathered(frames, take_runs(frames, frames.len() as int), kind, n).0;
            is_zero(sum) || !sum.finite()
        }),
    decreases n,
{
    lemma_infinity_64();
    if n > 0 {
        let runs = take_runs(frames, frames.len() as int);
        lemma_vanishing_gathered(frames, kind, n - 1);
        crate::unified_ablation::lemma_take_runs_partition(frames, frames.len() as int);
        assert(runs[n - 1].1 <= frames.len());
        lemma_vanishing_channels(gathered(frames, runs, kind, n - 1), frames, kind, runs[n - 1], 51);
    }
}

proof fn lemma_vanishing_mean(frames: Seq<VariantFrame>, kind: TemporalTerm)
    requires
        all_vanish(frames, kind),
        0 < frames.len() <= usize::MAX,
        mean_term(frames, kind).finite(),
    ensures
        is_zero(mean_term(frames, kind)),
{
    let runs = take_runs(frames, frames.len() as int);
    lemma_infinity_64();
    lemma_vanishing_gathered(frames, kind, runs.len() as int);
    let (sum, count) = gathered(frames, runs, kind, runs.len() as int);
    let divisor = Binary64::of_integer(
        if count == 0 {
            1
        } else {
            count
        },
    );
    if !sum.finite() {
        lemma_infinite_quotient(sum, divisor);
    }
}

/// An output that repeats the teacher has no velocity, acceleration or jerk error,
/// wherever the error is a finite number.
pub proof fn lemma_repeated_movement_has_no_error(frames: Seq<VariantFrame>)
    requires
        repeats_the_teacher(frames),
        0 < frames.len() <= usize::MAX,
        temporal_of(frames).velocity_mae.finite(),
        temporal_of(frames).acceleration_mae.finite(),
        temporal_of(frames).peak_jerk_mae.finite(),
    ensures
        is_zero(temporal_of(frames).velocity_mae),
        is_zero(temporal_of(frames).acceleration_mae),
        is_zero(temporal_of(frames).peak_jerk_mae),
{
    lemma_repeated_terms_vanish(frames, TemporalTerm::Velocity);
    lemma_repeated_terms_vanish(frames, TemporalTerm::Acceleration);
    lemma_repeated_terms_vanish(frames, TemporalTerm::Jerk);
    lemma_vanishing_mean(frames, TemporalTerm::Velocity);
    lemma_vanishing_mean(frames, TemporalTerm::Acceleration);
    lemma_vanishing_mean(frames, TemporalTerm::Jerk);
}

proof fn lemma_repeated_terms_vanish(frames: Seq<VariantFrame>, kind: TemporalTerm)
    requires
        repeats_the_teacher(frames),
        kind is Velocity || kind is Acceleration || kind is Jerk,
    ensures
        all_vanish(frames, kind),
{
    assert forall|c: int, start: int, i: int|
        0 <= c < 51 && 0 <= start <= i < frames.len() - 1 implies {
        let term = #[trigger] term_at(frames, c, kind, start, i);
        term is Some ==> is_zero(term->0) || !term->0.finite()
    } by {
        let term = term_at(frames, c, kind, start, i);
        if term is Some && term->0.finite() {
            lemma_repeated_term(frames, c, kind, start, i);
        }
    }
}

/// The output stands still in every channel but the tongue.
pub open spec fn output_stands_still(frames: Seq<VariantFrame>) -> bool {
    forall|i: int, c: int|
        0 <= i < frames.len() && 0 <= c < 51 ==> (#[trigger] frames[i].output@[c]).finite() && frames[i].output@[c]
            == frames[0].output@[c]
}

/// An output that stands still has no jitter, however the teacher moves, wherever the jitter
/// is a finite number.
pub proof fn lemma_still_output_has_no_jitter(frames: Seq<VariantFrame>)
    requires
        output_stands_still(frames),
        0 < frames.len() <= usize::MAX,
        mean_term(frames, TemporalTerm::Jitter).finite(),
    ensures
        is_zero(temporal_of(frames).neutral_jitter),
{
    let kind = TemporalTerm::Jitter;
    assert forall|c: int, start: int, i: int|
        0 <= c < 51 && 0 <= start <= i < frames.len() - 1 implies {
        let term = #[trigger] term_at(frames, c, kind, start, i);
        term is Some ==> is_zero(term->0) || !term->0.finite()
    } by {
        reveal(term_at);
        assert(frames[i].output@[c].finite() && frames[i + 1].output@[c].finite());
        let value = frames[0].output@[c];
        assert(frames[i].output@[c] == value && frames[i + 1].output@[c] == value);
        crate::arithmetic_laws::lemma_units_of_zero();
        assert(value.minus(value).magnitude() == 0);
        crate::gain_laws::lemma_widened_zero(value.minus(value));
        lemma_infinity_64();
        let v = velocity(frames, c, true, i);
        lemma_zero_square(value.minus(value).widened(), seconds_64(
            frames[i + 1].timestamp_micros - frames[i].timestamp_micros,
        ));
    }
    lemma_vanishing_mean(frames, kind);
}

/// Zero by a number, squared.
proof fn lemma_zero_square(zero: Binary64, divisor: Binary64)
    requires
        zero.magnitude() == 0,
    ensures
        is_zero(zero.over(divisor).times(zero.over(divisor))) || !zero.over(divisor).times(zero.over(divisor)).finite(),
{
    lemma_infinity_64();
}

/// A teacher that is never neutral counts no jitter, and one that never peaks counts no
/// jerk.
pub proof fn lemma_only_marked_moments_count(frames: Seq<VariantFrame>)
    requires
        0 < frames.len() <= usize::MAX,
    ensures
        (forall|i: int, c: int|
            0 <= i < frames.len() && 0 <= c < 51 ==> (Binary32 { bits: 0x3d4c_cccd }).less(
                #[trigger] frames[i].teacher@[c],
            )) ==> is_zero(temporal_of(frames).neutral_jitter) || !mean_term(frames, TemporalTerm::Jitter).finite(),
        (forall|i: int, c: int|
            0 <= i < frames.len() && 0 <= c < 51 ==> (#[trigger] frames[i].teacher@[c]).less(
                Binary32 { bits: 0x3f00_0000 },
            )) ==> is_zero(temporal_of(frames).peak_jerk_mae) || !temporal_of(frames).peak_jerk_mae.finite(),
{
    lemma_infinity_64();
    if forall|i: int, c: int|
        0 <= i < frames.len() && 0 <= c < 51 ==> (Binary32 { bits: 0x3d4c_cccd }).less(
            #[trigger] frames[i].teacher@[c],
        ) {
        let kind = TemporalTerm::Jitter;
        assert forall|c: int, start: int, i: int|
            0 <= c < 51 && 0 <= start <= i < frames.len() - 1 implies {
            let term = #[trigger] term_at(frames, c, kind, start, i);
            term is Some ==> is_zero(term->0) || !term->0.finite()
        } by {
            reveal(term_at);
            assert((Binary32 { bits: 0x3d4c_cccd }).less(frames[i].teacher@[c]));
        }
        if mean_term(frames, kind).finite() {
            lemma_vanishing_mean(frames, kind);
        }
    }
    if forall|i: int, c: int|
        0 <= i < frames.len() && 0 <= c < 51 ==> (#[trigger] frames[i].teacher@[c]).less(
            Binary32 { bits: 0x3f00_0000 },
        ) {
        let kind = TemporalTerm::Jerk;
        assert forall|c: int, start: int, i: int|
            0 <= c < 51 && 0 <= start <= i < frames.len() - 1 implies {
            let term = #[trigger] term_at(frames, c, kind, start, i);
            term is Some ==> is_zero(term->0) || !term->0.finite()
        } by {
            reveal(term_at);
            if i >= start + 2 {
                assert(frames[i - 2].teacher@[c].less(Binary32 { bits: 0x3f00_0000 }));
                assert(frames[i - 1].teacher@[c].less(Binary32 { bits: 0x3f00_0000 }));
                assert(frames[i].teacher@[c].less(Binary32 { bits: 0x3f00_0000 }));
                assert(frames[i + 1].teacher@[c].less(Binary32 { bits: 0x3f00_0000 }));
            }
        }
        if mean_term(frames, kind).finite() {
            lemma_vanishing_mean(frames, kind);
        }
    }
}

/// What is not finite stays so when it is divided.
proof fn lemma_infinite_quotient(left: Binary64, right: Binary64)
    requires
        !left.finite(),
    ensures
        !left.over(right).finite(),
{
    lemma_infinity_64();
}

/// A million.
proof fn lemma_million_64()
    ensures
        Binary64::of_integer(1_000_000) == (Binary64 { bits: 0x412e_8480_0000_0000 }),
{
    lemma2_to64();
    lemma2_to64_rest();
    lemma_infinity_64();
    let m: nat = 0x412e_8480_0000_0000;
    lemma_fundamental_div_mod_converse(m as int, pow2(52) as int, 1042, 0xe_8480_0000_0000);
    lemma_pow2_adds(33, 1041);
    assert((pow2(52) + 0xe_8480_0000_0000) * pow2(1041) == 1_000_000 * (pow2(33) * pow2(1041))) by (nonlinear_arith)
        requires
            pow2(52) + 0xe_8480_0000_0000 == 1_000_000 * pow2(33),
    ;
    lemma_nearest_of_exact_64(m, 1);
    let unit = pow2(1074);
    assert((1_000_000 * unit) * 1 == 1_000_000 * unit) by (nonlinear_arith);
    assert(crate::arithmetic::unit_places(52) == 1074);
}

/// The seconds of a span are its microseconds by a million, up to a rounding.
pub proof fn lemma_seconds_64_are_close(micros: int)
    requires
        1 <= micros <= 0x1000_0000_0000,
    ensures
        seconds_64(micros).finite(),
        seconds_64(micros).magnitude() > 0,
        value_64(seconds_64(micros)) > 0 as real,
        0x100_0000 as real * abs_of(value_64(seconds_64(micros)) - seconds(micros)) <= value_64(
            seconds_64(micros),
        ),
{
    let number = Binary64::of_integer(micros as nat);
    let million = Binary64 { bits: 0x412e_8480_0000_0000 };
    lemma_million_64();
    lemma_infinity_64();
    lemma_count_value(micros as nat);
    lemma_count_value(1_000_000);
    lemma_million_quotient(micros as nat);
    lemma_quotient_near_64(number, million);
    lemma_tiny_64();
    let q = value_64(number.over(million));
    let exact = micros as real / 1_000_000 as real;
    lemma_parts_64(abs_of(q - exact) - half_least_64(), abs_of(q));
    lemma_value_64(number.over(million));
    assert(exact * 1_000_000 as real == micros as real);
    assert(exact >= 1 as real / 1_000_000 as real);
    let h = half_least_64();
    assert(0x20_0000_0000_0000 as real * h <= 1 as real);
    assert(number.over(million).magnitude() > 0) by {
        if number.over(million).magnitude() == 0 {
            lemma_sizes(Binary32 { bits: 0 }, number.over(million));
        }
    }
    assert(!number.over(million).negative());
}

proof fn lemma_million_quotient(micros: nat)
    requires
        micros <= 0x1000_0000_0000,
    ensures
        Binary64::of_integer(micros).over(Binary64::of_integer(1_000_000)).finite(),
        !Binary64::of_integer(micros).over(Binary64::of_integer(1_000_000)).negative(),
{
    lemma2_to64();
    lemma2_to64_rest();
    lemma_infinity_64();
    lemma_pow2_pos(1074);
    lemma_count_value(micros);
    lemma_count_value(1_000_000);
    crate::latency_laws::lemma_small_whole(micros);
    crate::latency_laws::lemma_small_whole(1_000_000);
    let unit = pow2(1074);
    let number = Binary64::of_integer(micros);
    let a = magnitude_units(number.magnitude() as nat, 52);
    let b = magnitude_units(Binary64::of_integer(1_000_000).magnitude() as nat, 52);
    assert(b == 1_000_000 * unit && a == micros * unit);
    assert(a * unit <= a * b && b > 0) by (nonlinear_arith)
        requires
            b == 1_000_000 * unit,
            unit > 0,
            a >= 0,
    ;
    lemma_nearest_of_exact_64(number.magnitude() as nat, b);
    lemma_nearest_ratio_is_monotone(a * unit, a * b, b, 52, 2047);
    lemma_nearest_ratio_exists(a * unit, b, 52, 2047);
}

/// The velocity of a channel is its change between two frames by the time between them, up
/// to roundings.
pub proof fn lemma_velocity_is_the_change_by_time(
    frames: Seq<VariantFrame>,
    c: int,
    output: bool,
    i: int,
)
    requires
        0 <= i < frames.len() - 1,
        0 <= c < 51,
        frames[i].timestamp_micros < frames[i + 1].timestamp_micros,
        frames[i + 1].timestamp_micros - frames[i].timestamp_micros <= 0x1000_0000_0000,
        frames[i].teacher.valid() && frames[i].output.valid(),
        frames[i + 1].teacher.valid() && frames[i + 1].output.valid(),
        velocity(frames, c, output, i).finite(),
    ensures
        ({
            let v = value_64(velocity(frames, c, output, i));
            let span = seconds(frames[i + 1].timestamp_micros - frames[i].timestamp_micros);
            let change = if output {
                value_32(frames[i + 1].output@[c]) - value_32(frames[i].output@[c])
            } else {
                value_32(frames[i + 1].teacher@[c]) - value_32(frames[i].teacher@[c])
            };
            0x10_0000 as real * (abs_of(v - change / span) - 2 as real * half_least_64()) <= abs_of(v)
        }),
{
    let (a, b) = if output {
        (frames[i].output@[c], frames[i + 1].output@[c])
    } else {
        (frames[i].teacher@[c], frames[i + 1].teacher@[c])
    };
    assert(in_unit_range(a) && in_unit_range(b));
    let micros = frames[i + 1].timestamp_micros - frames[i].timestamp_micros;
    let dt = seconds_64(micros);
    let change = b.minus(a);
    lemma_difference_term(b, a);
    lemma_difference_parts(b, a);
    lemma_widened_value(change);
    lemma_seconds_64_are_close(micros);
    lemma_quotient_near_64(change.widened(), dt);
    lemma_tiny_64();
    let v = value_64(velocity(frames, c, output, i));
    let h = half_least_64();
    let q = value_32(change) / value_64(dt);
    lemma_parts_64(abs_of(v - q) - h, abs_of(v));
    lemma_close_rate(v, value_32(change), value_32(b) - value_32(a), value_64(dt), seconds(micros), h);
}

/// The middle of two times.
pub open spec fn middle_of(earlier: int, later: int) -> int {
    (earlier + later) / 2
}

/// A change of two wide numbers by a time.
proof fn lemma_wide_rate(now: Binary64, before: Binary64, micros: int)
    requires
        now.finite(),
        before.finite(),
        now.minus(before).finite(),
        1 <= micros <= 0x1000_0000_0000,
        now.minus(before).over(seconds_64(micros)).finite(),
    ensures
        ({
            let rate = value_64(now.minus(before).over(seconds_64(micros)));
            let change = value_64(now) - value_64(before);
            0x10_0000 as real * (abs_of(rate - change / seconds(micros)) - 2 as real * half_least_64()) <= abs_of(rate)
        }),
{
    let dt = seconds_64(micros);
    let change = now.minus(before);
    let other = before.negated();
    lemma_infinity_64();
    lemma_value_64(before);
    lemma_value_64(other);
    crate::closeness::lemma_sum_near_64(now, other);
    let d = value_64(change);
    lemma_parts_64(abs_of(d - (value_64(now) + value_64(other))), abs_of(d));
    lemma_seconds_64_are_close(micros);
    lemma_quotient_near_64(change, dt);
    lemma_tiny_64();
    let v = value_64(change.over(dt));
    let h = half_least_64();
    lemma_parts_64(abs_of(v - d / value_64(dt)) - h, abs_of(v));
    lemma_close_rate(v, d, value_64(now) - value_64(before), value_64(dt), seconds(micros), h);
}

/// The acceleration of a channel is the change of its velocity by the time between the
/// middles of their frames, up to roundings.
pub proof fn lemma_acceleration_is_the_change_of_velocity(
    frames: Seq<VariantFrame>,
    c: int,
    output: bool,
    i: int,
)
    requires
        1 <= i < frames.len() - 1,
        frames[i - 1].timestamp_micros < frames[i].timestamp_micros,
        frames[i].timestamp_micros < frames[i + 1].timestamp_micros,
        frames[i + 1].timestamp_micros - frames[i - 1].timestamp_micros <= 0x1000_0000_0000,
        velocity(frames, c, output, i).finite(),
        velocity(frames, c, output, i - 1).finite(),
        velocity(frames, c, output, i).minus(velocity(frames, c, output, i - 1)).finite(),
        acceleration(frames, c, output, i).finite(),
    ensures
        ({
            let a = value_64(acceleration(frames, c, output, i));
            let change = value_64(velocity(frames, c, output, i)) - value_64(velocity(frames, c, output, i - 1));
            let span = seconds(
                middle_of(frames[i].timestamp_micros as int, frames[i + 1].timestamp_micros as int) - middle_of(
                    frames[i - 1].timestamp_micros as int,
                    frames[i].timestamp_micros as int,
                ),
            );
            0x10_0000 as real * (abs_of(a - change / span) - 2 as real * half_least_64()) <= abs_of(a)
        }),
{
    let (first, second, third) = (
        frames[i - 1].timestamp_micros as int,
        frames[i].timestamp_micros as int,
        frames[i + 1].timestamp_micros as int,
    );
    let micros = middle_of(second, third) - middle_of(first, second);
    assert(1 <= micros <= third - first);
    lemma_wide_rate(velocity(frames, c, output, i), velocity(frames, c, output, i - 1), micros);
}

} // verus!
