//! What the blink events count: the closures of both eyes, each eye for itself.

use vstd::arithmetic::power2::{lemma2_to64, lemma2_to64_rest, lemma_pow2_pos, pow2};
use vstd::prelude::*;

use crate::arithmetic::{
    lemma_infinity_64, lemma_nearest_of_exact_64, lemma_sign_of_units_64, lemma_units_of_one_64,
};
use crate::arkit::ArkitBlendshape;
use crate::binary::{lemma_units_increase, magnitude_units, Binary64};
use crate::blink_events::{
    all_matches, blink_pulses, elapsed, gap_ms, is_closest, is_eligible, is_median, is_onset, matched_pulse,
    matches_before, median_in_order, metrics_of, number_keys, output_pulses, output_series, output_total,
    pulse_between, pulses_before, released_at, running_peak, scored_before, teacher_pulses, teacher_series,
    teacher_total, time_gap, track_count, BlinkEventMetrics, BlinkPulse, BlinkSample, MatchedPulse,
};
use crate::closeness::{abs_of, lemma_quotient_near_64, value_64};
use crate::mean_laws::{lemma_count_value, lemma_parts_64};
use crate::ordering::{is_stable_order, key_before, lists};
use crate::rounding::{lemma_nearest_ratio_exists, lemma_nearest_ratio_is_monotone};
use crate::rounding_error::half_least_64;
use crate::unified_ablation::{take_runs, VariantFrame};

verus! {

/// One of the two eyes.
pub enum Eye {
    /// The left eye.
    Left,
    /// The right eye.
    Right,
}

/// One of the two faces of a frame.
pub enum Face {
    /// The teacher's.
    Teacher,
    /// The variant's output.
    Output,
}

/// How far an eye is closed in a frame.
pub open spec fn closure(frame: VariantFrame, face: Face, eye: Eye) -> Binary64 {
    let channel = match eye {
        Eye::Left => ArkitBlendshape::EyeBlinkLeft,
        Eye::Right => ArkitBlendshape::EyeBlinkRight,
    };
    match face {
        Face::Teacher => frame.teacher@[channel.position()].widened(),
        Face::Output => frame.output@[channel.position()].widened(),
    }
}

/// The closure of an eye over the frames of one run.
pub open spec fn closures(
    frames: Seq<VariantFrame>,
    run: (usize, usize),
    face: Face,
    eye: Eye,
) -> Seq<BlinkSample> {
    Seq::new(
        (run.1 - run.0) as nat,
        |i: int|
            BlinkSample {
                time_micros: frames[run.0 + i].timestamp_micros,
                value: closure(frames[run.0 + i], face, eye),
            },
    )
}

/// The takes of the frames, one after the other.
pub open spec fn runs_of(frames: Seq<VariantFrame>) -> Seq<(usize, usize)> {
    take_runs(frames, frames.len() as int)
}

/// The pulses of an eye in run `r`.
pub open spec fn eye_pulses(
    frames: Seq<VariantFrame>,
    r: int,
    face: Face,
    eye: Eye,
) -> Seq<BlinkPulse> {
    blink_pulses(closures(frames, runs_of(frames)[r], face, eye))
}

/// The number of pulses of an eye in the first `n` runs.
pub open spec fn pulse_count(frames: Seq<VariantFrame>, face: Face, eye: Eye, n: int) -> nat
    decreases n,
{
    if n <= 0 {
        0
    } else {
        pulse_count(frames, face, eye, n - 1) + eye_pulses(frames, n - 1, face, eye).len()
    }
}

/// The matches of an eye in run `r`.
pub open spec fn eye_matches(frames: Seq<VariantFrame>, r: int, eye: Eye) -> Option<
    Seq<(usize, usize)>,
> {
    all_matches(eye_pulses(frames, r, Face::Teacher, eye), eye_pulses(frames, r, Face::Output, eye))
}

/// The number of matches of an eye in the first `n` runs.
pub open spec fn match_count(frames: Seq<VariantFrame>, eye: Eye, n: int) -> nat
    decreases n,
{
    if n <= 0 {
        0
    } else {
        match_count(frames, eye, n - 1) + eye_matches(frames, n - 1, eye)->0.len()
    }
}

/// The eye that a track follows.
spec fn eye_of(k: int) -> Eye {
    if k % 2 == 0 {
        Eye::Left
    } else {
        Eye::Right
    }
}

/// A track follows one eye through one take.
proof fn lemma_track_follows_an_eye(frames: Seq<VariantFrame>, k: int)
    ensures
        teacher_pulses(frames, k) == eye_pulses(frames, k / 2, Face::Teacher, eye_of(k)),
        output_pulses(frames, k) == eye_pulses(frames, k / 2, Face::Output, eye_of(k)),
{
    let run = runs_of(frames)[k / 2];
    let channel = crate::blink_events::track_channel(k);
    assert(teacher_series(frames, run, channel) =~= closures(frames, run, Face::Teacher, eye_of(k)));
    assert(output_series(frames, run, channel) =~= closures(frames, run, Face::Output, eye_of(k)));
}

/// The errors of the matches of an eye in run `r`.
spec fn eye_scores(frames: Seq<VariantFrame>, r: int, eye: Eye) -> Seq<MatchedPulse> {
    let teachers = eye_pulses(frames, r, Face::Teacher, eye);
    let outputs = eye_pulses(frames, r, Face::Output, eye);
    let matches = eye_matches(frames, r, eye)->0;
    Seq::new(
        matches.len(),
        |i: int| matched_pulse(teachers[matches[i].0 as int], outputs[matches[i].1 as int]),
    )
}

/// One run adds the scores of both eyes.
proof fn lemma_run_adds_both_eyes(frames: Seq<VariantFrame>, n: int)
    requires
        0 <= n,
    ensures
        ({
            let before = scored_before(frames, 2 * n);
            let after = scored_before(frames, 2 * (n + 1));
            let left = eye_matches(frames, n, Eye::Left);
            let right = eye_matches(frames, n, Eye::Right);
            &&& after is Some <==> before is Some && left is Some && right is Some
            &&& after is Some ==> after->0 == before->0 + eye_scores(frames, n, Eye::Left)
                + eye_scores(frames, n, Eye::Right)
        }),
        teacher_total(frames, 2 * (n + 1)) == teacher_total(frames, 2 * n) + eye_pulses(
            frames,
            n,
            Face::Teacher,
            Eye::Left,
        ).len() + eye_pulses(frames, n, Face::Teacher, Eye::Right).len(),
        output_total(frames, 2 * (n + 1)) == output_total(frames, 2 * n) + eye_pulses(
            frames,
            n,
            Face::Output,
            Eye::Left,
        ).len() + eye_pulses(frames, n, Face::Output, Eye::Right).len(),
{
    let k = 2 * n;
    assert(k / 2 == n && (k + 1) / 2 == n && k % 2 == 0 && (k + 1) % 2 == 1);
    assert(2 * (n + 1) == k + 2);
    lemma_track_follows_an_eye(frames, k);
    lemma_track_follows_an_eye(frames, k + 1);
    reveal_with_fuel(scored_before, 3);
    reveal_with_fuel(teacher_total, 3);
    reveal_with_fuel(output_total, 3);
    if scored_before(frames, k + 2) is Some {
        let scored = scored_before(frames, k + 2)->0;
        assert(scored =~= scored_before(frames, k)->0 + eye_scores(frames, n, Eye::Left)
            + eye_scores(frames, n, Eye::Right));
    }
}

/// The totals of the first `n` runs are those of both eyes.
proof fn lemma_totals_are_of_both_eyes(frames: Seq<VariantFrame>, n: int)
    requires
        0 <= n,
        scored_before(frames, 2 * n) is Some,
    ensures
        teacher_total(frames, 2 * n) == pulse_count(frames, Face::Teacher, Eye::Left, n)
            + pulse_count(frames, Face::Teacher, Eye::Right, n),
        output_total(frames, 2 * n) == pulse_count(frames, Face::Output, Eye::Left, n)
            + pulse_count(frames, Face::Output, Eye::Right, n),
        scored_before(frames, 2 * n)->0.len() == match_count(frames, Eye::Left, n) + match_count(
            frames,
            Eye::Right,
            n,
        ),
        forall|r: int|
            0 <= r < n ==> #[trigger] eye_matches(frames, r, Eye::Left) is Some && eye_matches(
                frames,
                r,
                Eye::Right,
            ) is Some,
    decreases n,
{
    if n > 0 {
        lemma_run_adds_both_eyes(frames, n - 1);
        lemma_totals_are_of_both_eyes(frames, n - 1);
    }
}

/// The metrics that were measured on the frames.
pub open spec fn is_measured(frames: Seq<VariantFrame>, metrics: BlinkEventMetrics) -> bool {
    &&& scored_before(frames, track_count(frames)) is Some
    &&& metrics_of(metrics, frames, scored_before(frames, track_count(frames))->0)
}

/// The events are those of both eyes: teacher pulses, output pulses and matches are
/// those of the left eye plus those of the right eye, over all takes.
pub proof fn lemma_events_are_those_of_both_eyes(
    frames: Seq<VariantFrame>,
    metrics: BlinkEventMetrics,
)
    requires
        is_measured(frames, metrics),
    ensures
        ({
            let n = runs_of(frames).len() as int;
            let teachers = pulse_count(frames, Face::Teacher, Eye::Left, n) + pulse_count(
                frames,
                Face::Teacher,
                Eye::Right,
                n,
            );
            let outputs = pulse_count(frames, Face::Output, Eye::Left, n) + pulse_count(
                frames,
                Face::Output,
                Eye::Right,
                n,
            );
            let matched = match_count(frames, Eye::Left, n) + match_count(frames, Eye::Right, n);
            &&& metrics.teacher_events == teachers
            &&& metrics.matched_events == matched
            &&& metrics.missed_events == teachers - matched
            &&& metrics.extra_events == outputs - matched
        }),
{
    lemma_totals_are_of_both_eyes(frames, runs_of(frames).len() as int);
}

/// Nothing is matched where there is no output pulse.
proof fn lemma_no_output_no_match(teachers: Seq<BlinkPulse>, n: int)
    requires
        0 <= n,
    ensures
        matches_before(teachers, Seq::empty(), n) == Some(Seq::<(usize, usize)>::empty()),
    decreases n,
{
    if n > 0 {
        lemma_no_output_no_match(teachers, n - 1);
        let none = Seq::<BlinkPulse>::empty();
        let matches = Seq::<(usize, usize)>::empty();
        assert forall|j: int| !(#[trigger] is_closest(teachers[n - 1], none, matches, j)) by {
            assert(!is_eligible(teachers[n - 1], none, matches, j));
        }
    }
}

proof fn lemma_no_output_no_match_in_runs(frames: Seq<VariantFrame>, eye: Eye, n: int)
    requires
        0 <= n,
        forall|r: int|
            0 <= r < n ==> (#[trigger] eye_pulses(frames, r, Face::Output, eye)).len() == 0,
    ensures
        match_count(frames, eye, n) == 0,
        pulse_count(frames, Face::Output, eye, n) == 0,
    decreases n,
{
    if n > 0 {
        lemma_no_output_no_match_in_runs(frames, eye, n - 1);
        let teachers = eye_pulses(frames, n - 1, Face::Teacher, eye);
        let outputs = eye_pulses(frames, n - 1, Face::Output, eye);
        assert(outputs =~= Seq::empty());
        lemma_no_output_no_match(teachers, teachers.len() as int);
    }
}

/// The other eye.
pub open spec fn other_eye(eye: Eye) -> Eye {
    match eye {
        Eye::Left => Eye::Right,
        Eye::Right => Eye::Left,
    }
}

/// An eye that the output never closes misses all its events: each of its teacher
/// pulses is a missed event, and every match and extra event is the other eye's.
pub proof fn lemma_still_eye_misses_its_events(
    frames: Seq<VariantFrame>,
    metrics: BlinkEventMetrics,
    eye: Eye,
)
    requires
        is_measured(frames, metrics),
        forall|r: int|
            0 <= r < runs_of(frames).len() ==> (#[trigger] eye_pulses(
                frames,
                r,
                Face::Output,
                eye,
            )).len() == 0,
    ensures
        ({
            let n = runs_of(frames).len() as int;
            let other = other_eye(eye);
            let matched = match_count(frames, other, n);
            &&& metrics.missed_events >= pulse_count(frames, Face::Teacher, eye, n)
            &&& metrics.matched_events == matched
            &&& metrics.missed_events == pulse_count(frames, Face::Teacher, eye, n) + (pulse_count(
                frames,
                Face::Teacher,
                other,
                n,
            ) - matched)
            &&& metrics.extra_events == pulse_count(frames, Face::Output, other, n) - matched
        }),
{
    let n = runs_of(frames).len() as int;
    lemma_events_are_those_of_both_eyes(frames, metrics);
    lemma_no_output_no_match_in_runs(frames, eye, n);
    lemma_totals_are_of_both_eyes(frames, n);
    assert forall|r: int| 0 <= r < n implies #[trigger] eye_matches(frames, r, Eye::Right) is Some by {
        assert(eye_matches(frames, r, Eye::Left) is Some);
    }
    lemma_matches_within_pulses(frames, other_eye(eye), n);
}

proof fn lemma_matches_within_pulses(frames: Seq<VariantFrame>, eye: Eye, n: int)
    requires
        0 <= n,
        forall|r: int| 0 <= r < n ==> #[trigger] eye_matches(frames, r, Eye::Left) is Some,
        forall|r: int| 0 <= r < n ==> #[trigger] eye_matches(frames, r, Eye::Right) is Some,
    ensures
        match_count(frames, eye, n) <= pulse_count(frames, Face::Teacher, eye, n),
    decreases n,
{
    if n > 0 {
        lemma_matches_within_pulses(frames, eye, n - 1);
        assert(eye_matches(frames, n - 1, Eye::Left) is Some);
        assert(eye_matches(frames, n - 1, Eye::Right) is Some);
        let teachers = eye_pulses(frames, n - 1, Face::Teacher, eye);
        let outputs = eye_pulses(frames, n - 1, Face::Output, eye);
        lemma_no_more_matches_than_teachers(teachers, outputs, teachers.len() as int);
    }
}

proof fn lemma_no_more_matches_than_teachers(
    teachers: Seq<BlinkPulse>,
    outputs: Seq<BlinkPulse>,
    n: int,
)
    requires
        0 <= n,
        matches_before(teachers, outputs, n) is Some,
    ensures
        matches_before(teachers, outputs, n)->0.len() <= n,
    decreases n,
{
    if n > 0 {
        lemma_no_more_matches_than_teachers(teachers, outputs, n - 1);
    }
}

/// The frames with their eyes exchanged, in teacher and output.
pub open spec fn eyes_exchanged(frames: Seq<VariantFrame>, other: Seq<VariantFrame>) -> bool {
    &&& frames.len() == other.len()
    &&& forall|i: int|
        0 <= i < frames.len() ==> {
            let left = ArkitBlendshape::EyeBlinkLeft.position();
            let right = ArkitBlendshape::EyeBlinkRight.position();
            &&& (#[trigger] other[i]).take_id@ == frames[i].take_id@
            &&& other[i].timestamp_micros == frames[i].timestamp_micros
            &&& other[i].teacher@[left] == frames[i].teacher@[right]
            &&& other[i].teacher@[right] == frames[i].teacher@[left]
            &&& other[i].output@[left] == frames[i].output@[right]
            &&& other[i].output@[right] == frames[i].output@[left]
        }
}

proof fn lemma_runs_go_by_takes(frames: Seq<VariantFrame>, other: Seq<VariantFrame>, n: int)
    requires
        eyes_exchanged(frames, other),
        0 <= n <= frames.len(),
        frames.len() <= usize::MAX,
    ensures
        take_runs(frames, n) == take_runs(other, n),
    decreases n,
{
    if n > 1 {
        lemma_runs_go_by_takes(frames, other, n - 1);
        crate::unified_ablation::lemma_take_runs_partition(frames, n - 1);
        let runs = take_runs(frames, n - 1);
        let start = runs.last().0 as int;
        assert(runs.last() == runs[runs.len() - 1]);
        assert(other[n - 1].take_id@ == frames[n - 1].take_id@);
        assert(other[start].take_id@ == frames[start].take_id@);
    }
}

proof fn lemma_exchanged_pulses(
    frames: Seq<VariantFrame>,
    other: Seq<VariantFrame>,
    r: int,
    face: Face,
    eye: Eye,
)
    requires
        eyes_exchanged(frames, other),
        0 < frames.len() <= usize::MAX,
        0 <= r < runs_of(frames).len(),
    ensures
        eye_pulses(other, r, face, eye) == eye_pulses(frames, r, face, other_eye(eye)),
{
    lemma_runs_go_by_takes(frames, other, frames.len() as int);
    crate::unified_ablation::lemma_take_runs_partition(frames, frames.len() as int);
    let run = runs_of(frames)[r];
    assert(closures(other, run, face, eye) =~= closures(frames, run, face, other_eye(eye)));
}

/// The first `n` runs of exchanged frames have the same totals, and the same scores in
/// another order.
proof fn lemma_exchanged_totals(frames: Seq<VariantFrame>, other: Seq<VariantFrame>, n: int)
    requires
        eyes_exchanged(frames, other),
        0 < frames.len() <= usize::MAX,
        0 <= n <= runs_of(frames).len(),
    ensures
        scored_before(frames, 2 * n) is Some <==> scored_before(other, 2 * n) is Some,
        scored_before(frames, 2 * n) is Some ==> scored_before(frames, 2 * n)->0.to_multiset()
            == scored_before(other, 2 * n)->0.to_multiset(),
        teacher_total(frames, 2 * n) == teacher_total(other, 2 * n),
        output_total(frames, 2 * n) == output_total(other, 2 * n),
    decreases n,
{
    if n > 0 {
        lemma_exchanged_totals(frames, other, n - 1);
        lemma_run_adds_both_eyes(frames, n - 1);
        lemma_run_adds_both_eyes(other, n - 1);
        lemma_exchanged_pulses(frames, other, n - 1, Face::Teacher, Eye::Left);
        lemma_exchanged_pulses(frames, other, n - 1, Face::Teacher, Eye::Right);
        lemma_exchanged_pulses(frames, other, n - 1, Face::Output, Eye::Left);
        lemma_exchanged_pulses(frames, other, n - 1, Face::Output, Eye::Right);
        assert(eye_matches(other, n - 1, Eye::Left) == eye_matches(frames, n - 1, Eye::Right));
        assert(eye_matches(other, n - 1, Eye::Right) == eye_matches(frames, n - 1, Eye::Left));
        if scored_before(frames, 2 * n) is Some {
            let a = eye_scores(frames, n - 1, Eye::Left);
            let b = eye_scores(frames, n - 1, Eye::Right);
            assert(eye_scores(other, n - 1, Eye::Left) =~= b);
            assert(eye_scores(other, n - 1, Eye::Right) =~= a);
            let left = scored_before(frames, 2 * (n - 1))->0;
            let right = scored_before(other, 2 * (n - 1))->0;
            vstd::seq_lib::lemma_multiset_commutative(left, a);
            vstd::seq_lib::lemma_multiset_commutative(left + a, b);
            vstd::seq_lib::lemma_multiset_commutative(right, b);
            vstd::seq_lib::lemma_multiset_commutative(right + b, a);
            assert(scored_before(frames, 2 * n)->0.to_multiset() =~= scored_before(
                other,
                2 * n,
            )->0.to_multiset());
        }
    } else {
        assert(scored_before(frames, 0) == scored_before(other, 0));
    }
}

/// The values in the order of a listing have the multiset of the values.
proof fn lemma_listing_keeps_the_multiset<A>(values: Seq<A>, order: Seq<usize>)
    requires
        order.len() == values.len(),
        forall|i: int| 0 <= i < order.len() ==> #[trigger] order[i] < values.len(),
        forall|i: int, j: int|
            0 <= i < j < order.len() ==> #[trigger] order[i] != #[trigger] order[j],
        forall|m: int| 0 <= m < values.len() ==> #[trigger] lists(order, m),
    ensures
        Seq::new(values.len(), |i: int| values[order[i] as int]).to_multiset()
            == values.to_multiset(),
    decreases values.len(),
{
    broadcast use vstd::seq_lib::group_to_multiset_ensures;

    let listed = Seq::new(values.len(), |i: int| values[order[i] as int]);
    if values.len() > 0 {
        let last = values.len() - 1;
        assert(lists(order, last));
        let at = choose|i: int| 0 <= i < order.len() && (#[trigger] order[i]) as int == last;
        let fewer = order.remove(at);
        let rest = values.drop_last();
        assert forall|i: int| 0 <= i < fewer.len() implies #[trigger] fewer[i] < rest.len() by {
            let j = if i < at {
                i
            } else {
                i + 1
            };
            assert(fewer[i] == order[j]);
            assert(order[j] != order[at]) by {
                if j < at {
                    assert(order[j] != order[at]);
                } else {
                    assert(order[at] != order[j]);
                }
            }
        }
        assert forall|m: int| 0 <= m < rest.len() implies #[trigger] lists(fewer, m) by {
            assert(lists(order, m));
            let i = choose|i: int| 0 <= i < order.len() && (#[trigger] order[i]) as int == m;
            if i < at {
                assert(fewer[i] as int == m);
            } else {
                assert(fewer[i - 1] as int == m);
            }
        }
        lemma_listing_keeps_the_multiset(rest, fewer);
        let short = Seq::new(rest.len(), |i: int| rest[fewer[i] as int]);
        assert(listed.remove(at) =~= short);
        assert(listed[at] == values.last());
        assert(values =~= rest.push(values.last()));
        assert(listed.to_multiset() =~= listed.remove(at).to_multiset().insert(listed[at])) by {
            assert(listed.contains(listed[at]));
            assert(listed.remove(at).to_multiset() =~= listed.to_multiset().remove(listed[at]));
        }
        assert(values.to_multiset() =~= rest.to_multiset().insert(values.last()));
    } else {
        assert(listed =~= values);
    }
}

/// The median does not depend on the order of the numbers.
pub proof fn lemma_median_goes_by_the_numbers(
    left: Seq<Binary64>,
    right: Seq<Binary64>,
    first: Option<Binary64>,
    second: Option<Binary64>,
)
    requires
        left.to_multiset() == right.to_multiset(),
        is_median(left, first),
        is_median(right, second),
    ensures
        first == second,
{
    broadcast use vstd::seq_lib::group_to_multiset_ensures;

    let a = choose|order: Seq<usize>|
        #[trigger] is_stable_order(number_keys(left), order) && first == median_in_order(
            left,
            order,
        );
    let b = choose|order: Seq<usize>|
        #[trigger] is_stable_order(number_keys(right), order) && second == median_in_order(
            right,
            order,
        );
    lemma_stable_order_sorts(left, a);
    lemma_stable_order_sorts(right, b);
    let x = Seq::new(left.len(), |i: int| left[a[i] as int]);
    let y = Seq::new(right.len(), |i: int| right[b[i] as int]);
    let leq = |p: Binary64, q: Binary64| p.total_rank() <= q.total_rank();
    assert(vstd::relations::total_ordering(leq)) by {
        assert forall|p: Binary64, q: Binary64| #[trigger] leq(p, q) && #[trigger] leq(q, p) implies p
            == q by {
            p.lemma_total_rank_is_injective(q);
        }
    }
    vstd::seq_lib::lemma_sorted_unique(x, y, leq);
    assert(left.to_multiset().len() == left.len());
    assert(right.to_multiset().len() == right.len());
    assert(left.len() == right.len());
    let half = left.len() as int / 2;
    if left.len() > 0 {
        assert(x[half] == y[half]);
        if left.len() % 2 == 0 {
            assert(x[half - 1] == y[half - 1]);
        }
    }
}

/// A stable order sorts the numbers.
proof fn lemma_stable_order_sorts(values: Seq<Binary64>, order: Seq<usize>)
    requires
        is_stable_order(number_keys(values), order),
    ensures
        ({
            let sorted = Seq::new(values.len(), |i: int| values[order[i] as int]);
            let leq = |p: Binary64, q: Binary64| p.total_rank() <= q.total_rank();
            &&& vstd::relations::sorted_by(sorted, leq)
            &&& sorted.to_multiset() == values.to_multiset()
        }),
{
    let keys = number_keys(values);
    let sorted = Seq::new(values.len(), |i: int| values[order[i] as int]);
    assert forall|i: int, j: int| 0 <= i < j < order.len() implies #[trigger] order[i]
        != #[trigger] order[j] by {
        assert(key_before(keys, order[i] as int, order[j] as int));
    }
    assert forall|m: int| 0 <= m < values.len() implies #[trigger] lists(order, m) by {
        assert(0 <= m < keys.len());
    }
    lemma_listing_keeps_the_multiset(values, order);
    assert forall|i: int, j: int| 0 <= i < j < sorted.len() implies (#[trigger] sorted[i]).total_rank()
        <= (#[trigger] sorted[j]).total_rank() by {
        assert(key_before(keys, order[i] as int, order[j] as int));
        assert(keys[order[i] as int] == values[order[i] as int].total_rank());
        assert(keys[order[j] as int] == values[order[j] as int].total_rank());
    }
}

/// Equal multisets stay equal when each value is replaced by one of its fields.
proof fn lemma_fields_keep_the_multiset(
    left: Seq<MatchedPulse>,
    right: Seq<MatchedPulse>,
    field: spec_fn(MatchedPulse) -> Binary64,
)
    requires
        left.to_multiset() == right.to_multiset(),
    ensures
        Seq::new(left.len(), |i: int| field(left[i])).to_multiset() == Seq::new(
            right.len(),
            |i: int| field(right[i]),
        ).to_multiset(),
    decreases left.len(),
{
    broadcast use vstd::seq_lib::group_to_multiset_ensures;

    let a = Seq::new(left.len(), |i: int| field(left[i]));
    let b = Seq::new(right.len(), |i: int| field(right[i]));
    assert(left.to_multiset().len() == left.len());
    assert(right.to_multiset().len() == right.len());
    assert(left.len() == right.len());
    if left.len() > 0 {
        let last = left.last();
        assert(left.contains(last));
        assert(right.to_multiset().count(last) > 0);
        assert(right.contains(last));
        let at = choose|i: int| 0 <= i < right.len() && right[i] == last;
        let fewer = left.drop_last();
        let rest = right.remove(at);
        assert(left =~= fewer.push(last));
        assert(fewer.to_multiset() =~= rest.to_multiset()) by {
            assert(left.to_multiset() =~= fewer.to_multiset().insert(last));
            assert(rest.to_multiset() =~= right.to_multiset().remove(last));
        }
        lemma_fields_keep_the_multiset(fewer, rest, field);
        let x = Seq::new(fewer.len(), |i: int| field(fewer[i]));
        let y = Seq::new(rest.len(), |i: int| field(rest[i]));
        assert(a =~= x.push(field(last)));
        assert(b.remove(at) =~= y);
        assert(b[at] == field(last));
        assert(b.contains(b[at]));
        assert(b.to_multiset() =~= y.to_multiset().insert(field(last))) by {
            assert(b.remove(at).to_multiset() =~= b.to_multiset().remove(b[at]));
        }
    } else {
        assert(a =~= b);
    }
}

/// Neither eye counts more than the other: frames with their eyes exchanged, in teacher
/// and output, have the same metrics.
pub proof fn lemma_exchanged_eyes_have_equal_metrics(
    frames: Seq<VariantFrame>,
    other: Seq<VariantFrame>,
    metrics: BlinkEventMetrics,
    exchanged: BlinkEventMetrics,
)
    requires
        eyes_exchanged(frames, other),
        0 < frames.len() <= usize::MAX,
        is_measured(frames, metrics),
        is_measured(other, exchanged),
    ensures
        metrics.teacher_events == exchanged.teacher_events,
        metrics.matched_events == exchanged.matched_events,
        metrics.missed_events == exchanged.missed_events,
        metrics.extra_events == exchanged.extra_events,
        metrics.median_absolute_onset_error_ms == exchanged.median_absolute_onset_error_ms,
        metrics.median_absolute_peak_error_ms == exchanged.median_absolute_peak_error_ms,
        metrics.median_absolute_release_error_ms == exchanged.median_absolute_release_error_ms,
        metrics.median_absolute_peak_attenuation == exchanged.median_absolute_peak_attenuation,
{
    broadcast use vstd::seq_lib::group_to_multiset_ensures;

    lemma_runs_go_by_takes(frames, other, frames.len() as int);
    let n = runs_of(frames).len() as int;
    lemma_exchanged_totals(frames, other, n);
    let left = scored_before(frames, 2 * n)->0;
    let right = scored_before(other, 2 * n)->0;
    assert(left.to_multiset().len() == left.len());
    assert(right.to_multiset().len() == right.len());
    assert(left.len() == right.len());
    lemma_fields_keep_the_multiset(left, right, |s: MatchedPulse| s.onset_error_ms);
    lemma_fields_keep_the_multiset(left, right, |s: MatchedPulse| s.peak_error_ms);
    lemma_fields_keep_the_multiset(left, right, |s: MatchedPulse| s.release_error_ms);
    lemma_fields_keep_the_multiset(left, right, |s: MatchedPulse| s.attenuation);
    lemma_equal_medians(
        left,
        right,
        |s: MatchedPulse| s.onset_error_ms,
        Seq::new(left.len(), |i: int| left[i].onset_error_ms),
        Seq::new(right.len(), |i: int| right[i].onset_error_ms),
        metrics.median_absolute_onset_error_ms,
        exchanged.median_absolute_onset_error_ms,
    );
    lemma_equal_medians(
        left,
        right,
        |s: MatchedPulse| s.peak_error_ms,
        Seq::new(left.len(), |i: int| left[i].peak_error_ms),
        Seq::new(right.len(), |i: int| right[i].peak_error_ms),
        metrics.median_absolute_peak_error_ms,
        exchanged.median_absolute_peak_error_ms,
    );
    lemma_equal_medians(
        left,
        right,
        |s: MatchedPulse| s.release_error_ms,
        Seq::new(left.len(), |i: int| left[i].release_error_ms),
        Seq::new(right.len(), |i: int| right[i].release_error_ms),
        metrics.median_absolute_release_error_ms,
        exchanged.median_absolute_release_error_ms,
    );
    lemma_equal_medians(
        left,
        right,
        |s: MatchedPulse| s.attenuation,
        Seq::new(left.len(), |i: int| left[i].attenuation),
        Seq::new(right.len(), |i: int| right[i].attenuation),
        metrics.median_absolute_peak_attenuation,
        exchanged.median_absolute_peak_attenuation,
    );
}

proof fn lemma_equal_medians(
    left: Seq<MatchedPulse>,
    right: Seq<MatchedPulse>,
    field: spec_fn(MatchedPulse) -> Binary64,
    a: Seq<Binary64>,
    b: Seq<Binary64>,
    first: Option<Binary64>,
    second: Option<Binary64>,
)
    requires
        left.to_multiset() == right.to_multiset(),
        a.len() == left.len(),
        b.len() == right.len(),
        forall|i: int| 0 <= i < a.len() ==> #[trigger] a[i] == field(left[i]),
        forall|i: int| 0 <= i < b.len() ==> #[trigger] b[i] == field(right[i]),
        is_median(a, first),
        is_median(b, second),
    ensures
        first == second,
{
    lemma_fields_keep_the_multiset(left, right, field);
    assert(a =~= Seq::new(left.len(), |i: int| field(left[i])));
    assert(b =~= Seq::new(right.len(), |i: int| field(right[i])));
    lemma_median_goes_by_the_numbers(a, b, first, second);
}

/// Times go forward.
pub open spec fn going_forward(samples: Seq<BlinkSample>) -> bool {
    forall|i: int, j: int|
        0 <= i < j < samples.len() ==> (#[trigger] samples[i]).time_micros < (#[trigger] samples[j]).time_micros
}

/// Every value is finite.
pub open spec fn values_finite(samples: Seq<BlinkSample>) -> bool {
    forall|i: int| 0 <= i < samples.len() ==> (#[trigger] samples[i]).value.finite()
}

/// The pulse is a closure of the eye: it starts at a sample of at least three tenths,
/// peaks at the highest sample until its release, and is released at the first sample
/// after the peak that is down to half of it, no later than 350 ms after its start.
pub open spec fn is_closure(
    samples: Seq<BlinkSample>,
    pulse: BlinkPulse,
    onset: int,
    peak: int,
    release: int,
) -> bool {
    let half = Binary64 { bits: 0x3fe0_0000_0000_0000 };
    let least = Binary64 { bits: 0x3fd3_3333_3333_3333 };
    &&& 1 <= onset <= peak < release < samples.len()
    &&& pulse.onset_micros == samples[onset].time_micros
    &&& pulse.peak_micros == samples[peak].time_micros
    &&& pulse.release_micros == samples[release].time_micros
    &&& pulse.peak == samples[peak].value
    &&& least.at_most(samples[onset].value)
    &&& samples[onset - 1].value.less(samples[onset].value)
    &&& forall|i: int| onset <= i <= release ==> (#[trigger] samples[i]).value.at_most(samples[peak].value)
    &&& samples[release].value.at_most(half.times(samples[peak].value))
    &&& samples[release].time_micros - samples[onset].time_micros <= 350_000
}

/// The pulse is a closure somewhere in the series.
pub open spec fn has_closure(samples: Seq<BlinkSample>, pulse: BlinkPulse) -> bool {
    exists|onset: int, peak: int, release: int| #[trigger] is_closure(samples, pulse, onset, peak, release)
}

/// The highest sample since an onset.
proof fn lemma_running_peak_is_highest(samples: Seq<BlinkSample>, onset: int, at: int)
    requires
        0 <= onset <= at < samples.len(),
        values_finite(samples),
    ensures
        onset <= running_peak(samples, onset, at) <= at,
        forall|i: int|
            onset <= i <= at ==> (#[trigger] samples[i]).value.at_most(
                samples[running_peak(samples, onset, at)].value,
            ),
    decreases at - onset,
{
    lemma_infinity_64();
    assert(samples[at].value.finite());
    if at > onset {
        lemma_running_peak_is_highest(samples, onset, at - 1);
        let before = running_peak(samples, onset, at - 1);
        assert(samples[before].value.finite());
        assert(samples[at].value.finite());
    }
}

/// A number at least three tenths is more than six tenths of itself.
proof fn lemma_fraction_is_less(value: Binary64)
    requires
        value.finite(),
        !value.less(Binary64 { bits: 0x3fd3_3333_3333_3333 }),
    ensures
        (Binary64 { bits: 0x3fe3_3333_3333_3333 }).times(value).at_most(value),
{
    let fraction = Binary64 { bits: 0x3fe3_3333_3333_3333 };
    let one = Binary64 { bits: 0x3ff0_0000_0000_0000 };
    let unit = pow2(1074);
    let a = magnitude_units(fraction.magnitude() as nat, 52);
    let b = magnitude_units(value.magnitude() as nat, 52);
    lemma2_to64();
    lemma2_to64_rest();
    lemma_infinity_64();
    lemma_pow2_pos(1074);
    lemma_units_of_one_64();
    lemma_units_increase(fraction.magnitude() as nat, one.magnitude() as nat, 52);
    assert(a * b <= b * unit) by (nonlinear_arith)
        requires
            a <= unit,
            b >= 0,
    ;
    lemma_nearest_of_exact_64(value.magnitude() as nat, unit);
    lemma_nearest_ratio_is_monotone(a * b, b * unit, unit, 52, 2047);
    lemma_nearest_ratio_exists(a * b, unit, 52, 2047);
}

/// Every pulse is a closure of the eye, and closures start at least 300 ms apart.
pub proof fn lemma_pulses_are_closures(samples: Seq<BlinkSample>, n: int)
    requires
        going_forward(samples),
        values_finite(samples),
        0 <= n <= samples.len(),
    ensures
        ({
            let (pulses, last) = pulses_before(samples, n);
            &&& forall|k: int|
                0 <= k < pulses.len() ==> has_closure(samples, #[trigger] pulses[k])
            &&& forall|k: int|
                0 <= k < pulses.len() - 1 ==> (#[trigger] pulses[k + 1]).onset_micros - pulses[k].onset_micros
                    >= 300_000
        }),
        ({
            let (pulses, last) = pulses_before(samples, n);
            &&& pulses.len() > 0 ==> last == pulses.last().onset_micros
            &&& pulses.len() == 0 ==> last == 0
        }),
    decreases n,
{
    if n > 1 {
        lemma_pulses_are_closures(samples, n - 1);
        let (before, held) = pulses_before(samples, n - 1);
        let (pulses, last) = pulses_before(samples, n);
        let at = n - 1;
        if is_onset(samples, at, held) && exists|r: int| released_at(samples, at, r) {
            let release = choose|r: int| released_at(samples, at, r);
            let peak = running_peak(samples, at, release);
            let pulse = pulse_between(samples, at, release);
            assert(pulses == before.push(pulse));
            lemma_running_peak_is_highest(samples, at, release);
            assert(samples[at].value.finite() && samples[at - 1].value.finite());
            lemma_infinity_64();
            lemma_fraction_is_less(samples[at].value);
            assert(samples[release].time_micros - samples[at].time_micros <= 350_000);
            assert(is_closure(samples, pulse, at, peak, release));
            assert forall|k: int| 0 <= k < pulses.len() implies has_closure(samples, #[trigger] pulses[k]) by {
                if k < before.len() {
                    assert(pulses[k] == before[k]);
                } else {
                    assert(is_closure(samples, pulses[k], at, peak, release));
                }
            }
            assert forall|k: int| 0 <= k < pulses.len() - 1 implies (#[trigger] pulses[k + 1]).onset_micros
                - pulses[k].onset_micros >= 300_000 by {
                if k + 1 < before.len() {
                    assert(pulses[k + 1] == before[k + 1] && pulses[k] == before[k]);
                    assert(before[k + 1].onset_micros - before[k].onset_micros >= 300_000);
                } else {
                    assert(pulses[k] == before.last());
                    assert(elapsed(samples[at].time_micros, held) >= 300_000);
                }
            }
        } else {
            assert(pulses == before && last == held);
        }
    }
}

/// A matched output starts at most 150 ms before and 600 ms after its teacher, each
/// teacher and each output is matched at most once.
pub proof fn lemma_matches_lie_in_the_window(
    teachers: Seq<BlinkPulse>,
    outputs: Seq<BlinkPulse>,
    n: int,
)
    requires
        0 <= n <= teachers.len() <= usize::MAX,
        outputs.len() <= usize::MAX,
        matches_before(teachers, outputs, n) is Some,
    ensures
        ({
            let matches = matches_before(teachers, outputs, n)->0;
            forall|k: int|
                0 <= k < matches.len() ==> {
                    &&& (#[trigger] matches[k]).0 < n
                    &&& matches[k].1 < outputs.len()
                    &&& outputs[matches[k].1 as int].onset_micros + 150_000
                        >= teachers[matches[k].0 as int].onset_micros
                    &&& outputs[matches[k].1 as int].onset_micros
                        <= teachers[matches[k].0 as int].onset_micros + 600_000
                }
        }),
    decreases n,
{
    if n > 0 {
        lemma_matches_lie_in_the_window(teachers, outputs, n - 1);
    }
}

/// The time errors of a match are the distances of its times in milliseconds, whichever of
/// the two comes first.
pub proof fn lemma_time_errors_are_distances(teacher: BlinkPulse, output: BlinkPulse)
    requires
        teacher.onset_micros <= 0x1000_0000_0000,
        output.onset_micros <= 0x1000_0000_0000,
        teacher.peak_micros <= 0x1000_0000_0000,
        output.peak_micros <= 0x1000_0000_0000,
        teacher.release_micros <= 0x1000_0000_0000,
        output.release_micros <= 0x1000_0000_0000,
    ensures
        ({
            let scored = matched_pulse(teacher, output);
            &&& is_milliseconds(scored.onset_error_ms, teacher.onset_micros - output.onset_micros)
            &&& is_milliseconds(scored.peak_error_ms, teacher.peak_micros - output.peak_micros)
            &&& is_milliseconds(scored.release_error_ms, teacher.release_micros - output.release_micros)
            &&& matched_pulse(output, teacher).onset_error_ms == scored.onset_error_ms
        }),
{
    lemma_gap(output.onset_micros, teacher.onset_micros);
    lemma_gap(output.peak_micros, teacher.peak_micros);
    lemma_gap(output.release_micros, teacher.release_micros);
}

/// The number is the size of a time in milliseconds, up to roundings.
pub open spec fn is_milliseconds(number: Binary64, micros: int) -> bool {
    let exact = abs_of(micros as real) / 1000 as real;
    number.finite() && 0x10_0000_0000_0000 as real * (abs_of(value_64(number) - exact) - half_least_64()) <= abs_of(
        value_64(number),
    )
}

proof fn lemma_gap(left: u64, right: u64)
    requires
        left <= 0x1000_0000_0000,
        right <= 0x1000_0000_0000,
    ensures
        is_milliseconds(gap_ms(left, right), right - left),
{
    let gap = time_gap(left, right) as nat;
    let thousand = Binary64 { bits: 0x408f_4000_0000_0000 };
    let number = Binary64::of_integer(gap);
    lemma_count_value(gap);
    lemma_count_value(1000);
    lemma_thousand();
    lemma_infinity_64();
    lemma_small_quotient_is_finite(gap);
    lemma_quotient_near_64(number, thousand);
    let q = value_64(number.over(thousand));
    let exact = gap as real / 1000 as real;
    lemma_parts_64(abs_of(q - exact) - half_least_64(), abs_of(q));
}

/// A thousand.
proof fn lemma_thousand()
    ensures
        Binary64::of_integer(1000) == (Binary64 { bits: 0x408f_4000_0000_0000 }),
{
    lemma2_to64();
    lemma2_to64_rest();
    lemma_infinity_64();
    let m: nat = 0x408f_4000_0000_0000;
    vstd::arithmetic::div_mod::lemma_fundamental_div_mod_converse(m as int, pow2(52) as int, 1032, 0xf_4000_0000_0000);
    vstd::arithmetic::power2::lemma_pow2_adds(43, 1031);
    assert((pow2(52) + 0xf_4000_0000_0000) * pow2(1031) == 1000 * (pow2(43) * pow2(1031))) by (nonlinear_arith)
        requires
            pow2(52) + 0xf_4000_0000_0000 == 1000 * pow2(43),
    ;
    lemma_nearest_of_exact_64(m, 1);
    let unit = pow2(1074);
    assert((1000 * unit) * 1 == 1000 * unit) by (nonlinear_arith);
    assert(crate::arithmetic::unit_places(52) == 1074);
}

proof fn lemma_small_quotient_is_finite(gap: nat)
    requires
        gap <= 0x1000_0000_0000,
    ensures
        Binary64::of_integer(gap).over(Binary64::of_integer(1000)).finite(),
{
    lemma2_to64();
    lemma2_to64_rest();
    lemma_infinity_64();
    lemma_pow2_pos(1074);
    lemma_count_value(gap);
    lemma_count_value(1000);
    crate::latency_laws::lemma_small_whole(gap);
    crate::latency_laws::lemma_small_whole(1000);
    let unit = pow2(1074);
    let number = Binary64::of_integer(gap);
    let a = magnitude_units(number.magnitude() as nat, 52);
    let b = magnitude_units(Binary64::of_integer(1000).magnitude() as nat, 52);
    assert(b == 1000 * unit && a == gap * unit);
    assert(a * unit <= a * b && b > 0) by (nonlinear_arith)
        requires
            b == 1000 * unit,
            unit > 0,
            a >= 0,
    ;
    lemma_nearest_of_exact_64(number.magnitude() as nat, b);
    lemma_nearest_ratio_is_monotone(a * unit, a * b, b, 52, 2047);
    lemma_nearest_ratio_exists(a * unit, b, 52, 2047);
}

/// Attenuation is what the output misses of the teacher's amplitude: none where the peaks
/// are equal, all of it where the output stays at the teacher's baseline.
pub proof fn lemma_attenuation_is_the_missing_share(teacher: BlinkPulse, output: BlinkPulse)
    requires
        teacher.peak.finite(),
        teacher.baseline.finite(),
        teacher.peak.minus(teacher.baseline).finite(),
        teacher.peak.minus(teacher.baseline).rank() > 0,
    ensures
        output.peak == teacher.peak ==> matched_pulse(teacher, output).attenuation.magnitude() == 0,
        output.peak == teacher.baseline ==> matched_pulse(teacher, output).attenuation == (Binary64 {
            bits: 0x3ff0_0000_0000_0000,
        }),
{
    lemma_infinity_64();
    let amplitude = teacher.peak.minus(teacher.baseline);
    lemma_sign_of_units_64(teacher.peak);
    lemma_sign_of_units_64(Binary64 { bits: 0 });
    if output.peak == teacher.peak {
        assert(teacher.peak.minus(output.peak).magnitude() == 0);
    }
    if output.peak == teacher.baseline {
        lemma_by_itself(amplitude);
    }
}

/// A number by itself is one.
proof fn lemma_by_itself(number: Binary64)
    requires
        number.finite(),
        number.rank() > 0,
    ensures
        number.over(number) == (Binary64 { bits: 0x3ff0_0000_0000_0000 }),
{
    lemma2_to64();
    lemma2_to64_rest();
    lemma_infinity_64();
    lemma_units_of_one_64();
    lemma_pow2_pos(1074);
    lemma_sign_of_units_64(Binary64 { bits: 0 });
    lemma_units_increase(0, number.magnitude() as nat, 52);
    let a = magnitude_units(number.magnitude() as nat, 52);
    let unit = pow2(1074);
    lemma_nearest_of_exact_64(0x3ff0_0000_0000_0000, a);
    assert(unit * a == a * unit) by (nonlinear_arith);
}

/// The numbers from the smallest to the largest.
pub open spec fn is_sorted_from(sorted: Seq<Binary64>, values: Seq<Binary64>) -> bool {
    &&& sorted.to_multiset() == values.to_multiset()
    &&& forall|i: int, j: int|
        0 <= i <= j < sorted.len() ==> (#[trigger] sorted[i]).total_rank() <= (#[trigger] sorted[j]).total_rank()
}

/// The median is the middle of the sorted numbers, or the mean of the two in the middle;
/// there is none of no numbers.
pub proof fn lemma_median_is_the_middle(values: Seq<Binary64>, sorted: Seq<Binary64>, middle: Option<Binary64>)
    requires
        is_median(values, middle),
        is_sorted_from(sorted, values),
    ensures
        match middle {
            None => values.len() == 0,
            Some(number) => {
                let half = sorted.len() as int / 2;
                &&& values.len() > 0
                &&& sorted.len() % 2 == 1 ==> number == sorted[half]
                &&& sorted.len() % 2 == 0 ==> number == sorted[half - 1].plus(sorted[half]).over(
                    Binary64 { bits: 0x4000_0000_0000_0000 },
                )
            },
        },
{
    broadcast use vstd::seq_lib::group_to_multiset_ensures;

    let order = choose|order: Seq<usize>|
        #[trigger] is_stable_order(number_keys(values), order) && middle == median_in_order(values, order);
    lemma_stable_order_sorts(values, order);
    let listed = Seq::new(values.len(), |i: int| values[order[i] as int]);
    let leq = |p: Binary64, q: Binary64| p.total_rank() <= q.total_rank();
    assert(vstd::relations::total_ordering(leq)) by {
        assert forall|p: Binary64, q: Binary64| #[trigger] leq(p, q) && #[trigger] leq(q, p) implies p == q by {
            p.lemma_total_rank_is_injective(q);
        }
    }
    assert(vstd::relations::sorted_by(sorted, leq)) by {
        assert forall|i: int, j: int| 0 <= i < j < sorted.len() implies #[trigger] leq(sorted[i], sorted[j]) by {
            assert(sorted[i].total_rank() <= sorted[j].total_rank());
        }
    }
    vstd::seq_lib::lemma_sorted_unique(listed, sorted, leq);
    assert(values.to_multiset().len() == values.len());
    assert(sorted.to_multiset().len() == sorted.len());
    let half = values.len() as int / 2;
    if values.len() > 0 {
        assert(listed[half] == sorted[half]);
        if values.len() % 2 == 0 {
            assert(listed[half - 1] == sorted[half - 1]);
        }
    }
}

/// The distance of two peaks.
pub open spec fn peak_distance(left: BlinkPulse, right: BlinkPulse) -> int {
    if left.peak_micros >= right.peak_micros {
        left.peak_micros - right.peak_micros
    } else {
        right.peak_micros - left.peak_micros
    }
}

/// The output may answer the teacher: it starts at most 150 ms before and 600 ms after it.
pub open spec fn may_answer(teacher: BlinkPulse, output: BlinkPulse) -> bool {
    &&& output.onset_micros + 150_000 >= teacher.onset_micros
    &&& output.onset_micros <= teacher.onset_micros + 600_000
}

/// No match holds the output yet.
pub open spec fn is_free(matches: Seq<(usize, usize)>, j: int) -> bool {
    forall|k: int| 0 <= k < matches.len() ==> (#[trigger] matches[k]).1 != j
}

/// A teacher is matched with the output whose peak lies nearest, of those that may answer it
/// and that no earlier teacher took.
pub proof fn lemma_teacher_takes_the_nearest_output(
    teachers: Seq<BlinkPulse>,
    outputs: Seq<BlinkPulse>,
    n: int,
    k: int,
)
    requires
        0 < n <= teachers.len() <= usize::MAX,
        outputs.len() <= usize::MAX,
        matches_before(teachers, outputs, n - 1) is Some,
        matches_before(teachers, outputs, n) is Some,
        0 <= k < outputs.len(),
        may_answer(teachers[n - 1], outputs[k]),
        is_free(matches_before(teachers, outputs, n - 1)->0, k),
    ensures
        ({
            let before = matches_before(teachers, outputs, n - 1)->0;
            let after = matches_before(teachers, outputs, n)->0;
            after.len() > before.len() ==> {
                let found = after.last();
                &&& after.len() == before.len() + 1
                &&& found.0 == n - 1
                &&& 0 <= found.1 < outputs.len()
                &&& may_answer(teachers[n - 1], outputs[found.1 as int])
                &&& is_free(before, found.1 as int)
                &&& peak_distance(outputs[found.1 as int], teachers[n - 1]) <= peak_distance(
                    outputs[k],
                    teachers[n - 1],
                )
            }
        }),
{
    let before = matches_before(teachers, outputs, n - 1)->0;
    let after = matches_before(teachers, outputs, n)->0;
    let teacher = teachers[n - 1];
    if exists|j: int| is_closest(teacher, outputs, before, j) {
        let j = choose|j: int| is_closest(teacher, outputs, before, j);
        assert(is_eligible(teacher, outputs, before, j));
        assert(is_eligible(teacher, outputs, before, k));
    }
}

} // verus!
