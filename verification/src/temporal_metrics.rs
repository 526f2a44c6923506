//! Timestamp-aware errors of one variant: derivatives of every non-tongue channel
//! inside every take.

use vstd::prelude::*;

use crate::arkit::ARKIT_NON_TONGUE_CHANNEL_COUNT;
use crate::binary::{Binary32, Binary64};
use crate::unified_ablation::{lemma_take_runs_partition, take_runs, take_slices, VariantFrame};

verus! {

/// Largest teacher value that counts as neutral (`0.05`).
pub const NEUTRAL_BITS: u32 = 0x3d4c_cccd;

/// Smallest teacher value that counts as a peak (`0.5`).
pub const PEAK_BITS: u32 = 0x3f00_0000;

/// Microseconds per second.
pub const MICROS_64_BITS: u64 = 0x412e_8480_0000_0000;

/// Timestamp-aware aggregate errors.
#[derive(Clone, Copy, Debug, PartialEq, Eq, Structural)]
pub struct NonTongueTemporalMetrics {
    /// Mean absolute first-derivative error.
    pub velocity_mae: Binary64,
    /// Mean absolute second-derivative error.
    pub acceleration_mae: Binary64,
    /// RMS predicted velocity while the corresponding teacher channel is neutral.
    pub neutral_jitter: Binary64,
    /// Mean absolute third-derivative error in intervals touching a teacher peak of
    /// at least `0.5`.
    pub peak_jerk_mae: Binary64,
}

/// What is summed up.
#[derive(Clone, Copy, Debug, PartialEq, Eq, Structural)]
pub enum TemporalTerm {
    /// Absolute velocity error.
    Velocity,
    /// Squared output velocity between neutral teacher frames.
    Jitter,
    /// Absolute acceleration error.
    Acceleration,
    /// Absolute jerk error near a teacher peak.
    Jerk,
}

/// A channel's value in a frame.
pub open spec fn value_of(frame: VariantFrame, c: int, output: bool) -> Binary32 {
    if output {
        frame.output@[c]
    } else {
        frame.teacher@[c]
    }
}

/// Seconds of so many microseconds.
pub open spec fn seconds_64(micros: int) -> Binary64 {
    Binary64::of_integer(micros as nat).over(Binary64 { bits: MICROS_64_BITS })
}

/// Velocity from frame `i` to the next.
pub open spec fn velocity(frames: Seq<VariantFrame>, c: int, output: bool, i: int) -> Binary64 {
    value_of(frames[i + 1], c, output).minus(value_of(frames[i], c, output)).widened().over(
        seconds_64(frames[i + 1].timestamp_micros - frames[i].timestamp_micros),
    )
}

/// Time of a velocity: the middle of its frames.
pub open spec fn velocity_time(frames: Seq<VariantFrame>, i: int) -> int {
    (frames[i].timestamp_micros + frames[i + 1].timestamp_micros) / 2
}

/// Acceleration from velocity `i - 1` to velocity `i`.
pub open spec fn acceleration(frames: Seq<VariantFrame>, c: int, output: bool, i: int) -> Binary64 {
    velocity(frames, c, output, i).minus(velocity(frames, c, output, i - 1)).over(
        seconds_64(velocity_time(frames, i) - velocity_time(frames, i - 1)),
    )
}

/// Time of an acceleration: the middle of its velocities.
pub open spec fn acceleration_time(frames: Seq<VariantFrame>, i: int) -> int {
    (velocity_time(frames, i - 1) + velocity_time(frames, i)) / 2
}

/// Jerk from acceleration `i - 1` to acceleration `i`.
pub open spec fn jerk(frames: Seq<VariantFrame>, c: int, output: bool, i: int) -> Binary64 {
    acceleration(frames, c, output, i).minus(acceleration(frames, c, output, i - 1)).over(
        seconds_64(acceleration_time(frames, i) - acceleration_time(frames, i - 1)),
    )
}

/// The teacher is neutral in a frame.
pub open spec fn is_neutral(frame: VariantFrame, c: int) -> bool {
    frame.teacher@[c].at_most(Binary32 { bits: NEUTRAL_BITS })
}

/// The teacher peaks in a frame.
pub open spec fn is_peak(frame: VariantFrame, c: int) -> bool {
    let level = Binary32 { bits: PEAK_BITS };
    level.at_most(frame.teacher@[c])
}

/// The teacher peaks in one of the four frames that a jerk is computed from.
pub open spec fn near_peak(frames: Seq<VariantFrame>, c: int, i: int) -> bool {
    is_peak(frames[i - 2], c) || is_peak(frames[i - 1], c) || is_peak(frames[i], c) || is_peak(
        frames[i + 1],
        c,
    )
}

/// Distance of two numbers.
pub open spec fn apart(left: Binary64, right: Binary64) -> Binary64 {
    left.minus(right).absolute()
}

/// The term of the interval from frame `i` to the next in the take that starts at
/// frame `start`, if it has one.
#[verifier::opaque]
pub open spec fn term_at(
    frames: Seq<VariantFrame>,
    c: int,
    kind: TemporalTerm,
    start: int,
    i: int,
) -> Option<Binary64> {
    match kind {
        TemporalTerm::Velocity => Some(
            apart(velocity(frames, c, true, i), velocity(frames, c, false, i)),
        ),
        TemporalTerm::Jitter => if is_neutral(frames[i], c) && is_neutral(frames[i + 1], c) {
            Some(velocity(frames, c, true, i).times(velocity(frames, c, true, i)))
        } else {
            None
        },
        TemporalTerm::Acceleration => if i >= start + 1 {
            Some(apart(acceleration(frames, c, true, i), acceleration(frames, c, false, i)))
        } else {
            None
        },
        TemporalTerm::Jerk => if i >= start + 2 && near_peak(frames, c, i) {
            Some(apart(jerk(frames, c, true, i), jerk(frames, c, false, i)))
        } else {
            None
        },
    }
}

/// A sum and a count continued by the terms of a channel from frame `start` up to
/// frame `i`.
pub open spec fn with_terms(
    before: (Binary64, nat),
    frames: Seq<VariantFrame>,
    c: int,
    kind: TemporalTerm,
    start: int,
    i: int,
) -> (Binary64, nat)
    decreases i - start,
{
    if i <= start {
        before
    } else {
        let held = with_terms(before, frames, c, kind, start, i - 1);
        match term_at(frames, c, kind, start, i - 1) {
            Some(term) => (held.0.plus(term), held.1 + 1),
            None => held,
        }
    }
}

/// A sum and a count continued by the first `c` channels of a take.
pub open spec fn with_channels(
    before: (Binary64, nat),
    frames: Seq<VariantFrame>,
    kind: TemporalTerm,
    run: (usize, usize),
    c: int,
) -> (Binary64, nat)
    decreases c,
{
    if c <= 0 {
        before
    } else {
        with_terms(
            with_channels(before, frames, kind, run, c - 1),
            frames,
            c - 1,
            kind,
            run.0 as int,
            run.1 - 1,
        )
    }
}

/// Sum and count of the first `n` takes.
pub open spec fn gathered(
    frames: Seq<VariantFrame>,
    runs: Seq<(usize, usize)>,
    kind: TemporalTerm,
    n: int,
) -> (Binary64, nat)
    decreases n,
{
    if n <= 0 {
        (Binary64 { bits: 0 }, 0)
    } else {
        with_channels(gathered(frames, runs, kind, n - 1), frames, kind, runs[n - 1], 51)
    }
}

/// Mean of the gathered terms; zero of none.
pub open spec fn mean_term(frames: Seq<VariantFrame>, kind: TemporalTerm) -> Binary64 {
    let runs = take_runs(frames, frames.len() as int);
    let (sum, count) = gathered(frames, runs, kind, runs.len() as int);
    let divisor: nat = if count == 0 {
        1
    } else {
        count
    };
    sum.over(Binary64::of_integer(divisor))
}

/// The temporal metrics of a variant.
pub open spec fn temporal_of(frames: Seq<VariantFrame>) -> NonTongueTemporalMetrics {
    NonTongueTemporalMetrics {
        velocity_mae: mean_term(frames, TemporalTerm::Velocity),
        acceleration_mae: mean_term(frames, TemporalTerm::Acceleration),
        neutral_jitter: mean_term(frames, TemporalTerm::Jitter).root(),
        peak_jerk_mae: mean_term(frames, TemporalTerm::Jerk),
    }
}

/// Timestamps advance from frame `first` to frame `last`.
pub open spec fn advancing(frames: Seq<VariantFrame>, first: int, last: int) -> bool {
    forall|i: int|
        first <= i < last ==> (#[trigger] frames[i]).timestamp_micros < frames[i + 1].timestamp_micros
}

fn seconds_of_span(earlier: u64, later: u64) -> (seconds: Binary64)
    requires
        earlier <= later,
    ensures
        seconds == seconds_64(later - earlier),
{
    Binary64::from_integer(later - earlier).quotient(Binary64::from_bits(MICROS_64_BITS))
}

fn middle(earlier: u64, later: u64) -> (middle: u64)
    ensures
        middle == (earlier + later) / 2,
{
    ((earlier as u128 + later as u128) / 2) as u64
}

fn read_value(frames: &Vec<VariantFrame>, at: usize, c: usize, output: bool) -> (value: Binary32)
    requires
        at < frames@.len(),
        c < 51,
    ensures
        value == value_of(frames@[at as int], c as int, output),
{
    if output {
        frames[at].output.values[c]
    } else {
        frames[at].teacher.values[c]
    }
}

fn measure_velocity(frames: &Vec<VariantFrame>, c: usize, output: bool, i: usize) -> (result:
    Binary64)
    requires
        i + 1 < frames@.len(),
        c < 51,
        advancing(frames@, i as int, i + 1),
    ensures
        result == velocity(frames@, c as int, output, i as int),
{
    assert(frames.len() == frames@.len());
    assert(frames@[i as int].timestamp_micros < frames@[i + 1].timestamp_micros);
    read_value(frames, i + 1, c, output).difference(
        read_value(frames, i, c, output),
    ).widen().quotient(
        seconds_of_span(frames[i].timestamp_micros, frames[i + 1].timestamp_micros),
    )
}

fn time_of_velocity(frames: &Vec<VariantFrame>, i: usize) -> (micros: u64)
    requires
        i + 1 < frames@.len(),
    ensures
        micros == velocity_time(frames@, i as int),
{
    assert(frames.len() == frames@.len());
    middle(frames[i].timestamp_micros, frames[i + 1].timestamp_micros)
}

fn measure_acceleration(frames: &Vec<VariantFrame>, c: usize, output: bool, i: usize) -> (result:
    Binary64)
    requires
        1 <= i,
        i + 1 < frames@.len(),
        c < 51,
        advancing(frames@, i - 1, i + 1),
    ensures
        result == acceleration(frames@, c as int, output, i as int),
{
    assert(frames@[i - 1].timestamp_micros < frames@[i as int].timestamp_micros);
    assert(frames@[i as int].timestamp_micros < frames@[i + 1].timestamp_micros);
    let now = measure_velocity(frames, c, output, i);
    let before = measure_velocity(frames, c, output, i - 1);
    now.difference(before).quotient(
        seconds_of_span(time_of_velocity(frames, i - 1), time_of_velocity(frames, i)),
    )
}

fn time_of_acceleration(frames: &Vec<VariantFrame>, i: usize) -> (micros: u64)
    requires
        1 <= i,
        i + 1 < frames@.len(),
    ensures
        micros == acceleration_time(frames@, i as int),
{
    middle(time_of_velocity(frames, i - 1), time_of_velocity(frames, i))
}

fn measure_jerk(frames: &Vec<VariantFrame>, c: usize, output: bool, i: usize) -> (result: Binary64)
    requires
        2 <= i,
        i + 1 < frames@.len(),
        c < 51,
        advancing(frames@, i - 2, i + 1),
    ensures
        result == jerk(frames@, c as int, output, i as int),
{
    assert(frames@[i - 2].timestamp_micros < frames@[i - 1].timestamp_micros);
    assert(frames@[i - 1].timestamp_micros < frames@[i as int].timestamp_micros);
    assert(frames@[i as int].timestamp_micros < frames@[i + 1].timestamp_micros);
    let now = measure_acceleration(frames, c, output, i);
    let before = measure_acceleration(frames, c, output, i - 1);
    now.difference(before).quotient(
        seconds_of_span(time_of_acceleration(frames, i - 1), time_of_acceleration(frames, i)),
    )
}

fn is_frame_neutral(frames: &Vec<VariantFrame>, at: usize, c: usize) -> (neutral: bool)
    requires
        at < frames@.len(),
        c < 51,
    ensures
        neutral == is_neutral(frames@[at as int], c as int),
{
    frames[at].teacher.values[c].is_at_most(Binary32::from_bits(NEUTRAL_BITS))
}

fn is_frame_peak(frames: &Vec<VariantFrame>, at: usize, c: usize) -> (peak: bool)
    requires
        at < frames@.len(),
        c < 51,
    ensures
        peak == is_peak(frames@[at as int], c as int),
{
    Binary32::from_bits(PEAK_BITS).is_at_most(frames[at].teacher.values[c])
}

fn measure_term(frames: &Vec<VariantFrame>, c: usize, kind: TemporalTerm, start: usize, i: usize) -> (term:
    Option<Binary64>)
    requires
        start <= i,
        i + 1 < frames@.len(),
        c < 51,
        advancing(frames@, start as int, i + 1),
    ensures
        term == term_at(frames@, c as int, kind, start as int, i as int),
{
    proof {
        reveal(term_at);
        assert(frames.len() == frames@.len());
    }
    match kind {
        TemporalTerm::Velocity => {
            let output = measure_velocity(frames, c, true, i);
            let teacher = measure_velocity(frames, c, false, i);
            Some(output.difference(teacher).abs())
        },
        TemporalTerm::Jitter => {
            if is_frame_neutral(frames, i, c) && is_frame_neutral(frames, i + 1, c) {
                let output = measure_velocity(frames, c, true, i);
                Some(output.product(output))
            } else {
                None
            }
        },
        TemporalTerm::Acceleration => {
            if i - start >= 1 {
                let output = measure_acceleration(frames, c, true, i);
                let teacher = measure_acceleration(frames, c, false, i);
                Some(output.difference(teacher).abs())
            } else {
                None
            }
        },
        TemporalTerm::Jerk => {
            if i - start >= 2 && (is_frame_peak(frames, i - 2, c) || is_frame_peak(frames, i - 1, c)
                || is_frame_peak(frames, i, c) || is_frame_peak(frames, i + 1, c)) {
                let output = measure_jerk(frames, c, true, i);
                let teacher = measure_jerk(frames, c, false, i);
                Some(output.difference(teacher).abs())
            } else {
                None
            }
        },
    }
}

/// Continues a sum and a count by the terms of one channel of one take.
fn gather_channel(
    sum: Binary64,
    count: u64,
    frames: &Vec<VariantFrame>,
    c: usize,
    kind: TemporalTerm,
    run: (usize, usize),
) -> (result: (Binary64, u64))
    requires
        run.0 < run.1 <= frames@.len(),
        c < 51,
        count + (run.1 - run.0) <= u64::MAX,
        advancing(frames@, run.0 as int, run.1 - 1),
    ensures
        (result.0, result.1 as nat) == with_terms(
            (sum, count as nat),
            frames@,
            c as int,
            kind,
            run.0 as int,
            run.1 - 1,
        ),
        count <= result.1 <= count + (run.1 - run.0),
{
    let mut held = sum;
    let mut terms: u64 = count;
    let mut i: usize = run.0;
    while i < run.1 - 1
        invariant
            run.0 < run.1 <= frames@.len(),
            c < 51,
            count + (run.1 - run.0) <= u64::MAX,
            advancing(frames@, run.0 as int, run.1 - 1),
            run.0 <= i <= run.1 - 1,
            (held, terms as nat) == with_terms(
                (sum, count as nat),
                frames@,
                c as int,
                kind,
                run.0 as int,
                i as int,
            ),
            count <= terms <= count + (i - run.0),
        decreases run.1 - i,
    {
        if let Some(term) = measure_term(frames, c, kind, run.0, i) {
            held = held.sum(term);
            terms = terms + 1;
        }
        i = i + 1;
    }
    (held, terms)
}

/// Continues a sum and a count by every channel of one take.
fn gather_take(
    sum: Binary64,
    count: u64,
    frames: &Vec<VariantFrame>,
    kind: TemporalTerm,
    run: (usize, usize),
) -> (result: (Binary64, u64))
    requires
        run.0 < run.1 <= frames@.len(),
        count <= run.0 * 51,
        frames@.len() * 51 <= usize::MAX,
        advancing(frames@, run.0 as int, run.1 - 1),
    ensures
        (result.0, result.1 as nat) == with_channels(
            (sum, count as nat),
            frames@,
            kind,
            run,
            51,
        ),
        result.1 <= run.1 * 51,
{
    let mut held = sum;
    let mut terms: u64 = count;
    let ghost length = run.1 - run.0;
    for c in 0..ARKIT_NON_TONGUE_CHANNEL_COUNT
        invariant
            run.0 < run.1 <= frames@.len(),
            count <= run.0 * 51,
            frames@.len() * 51 <= usize::MAX,
            advancing(frames@, run.0 as int, run.1 - 1),
            length == run.1 - run.0,
            (held, terms as nat) == with_channels(
                (sum, count as nat),
                frames@,
                kind,
                run,
                c as int,
            ),
            terms <= run.0 * 51 + c * length,
    {
        assert(run.0 * 51 + c * length + length <= run.1 * 51) by (nonlinear_arith)
            requires
                c < 51,
                length == run.1 - run.0,
                length > 0,
        ;
        assert((c + 1) * length == c * length + length) by (nonlinear_arith);
        let (next, counted) = gather_channel(held, terms, frames, c, kind, run);
        held = next;
        terms = counted;
    }
    assert(51 * length == run.1 * 51 - run.0 * 51) by (nonlinear_arith)
        requires
            length == run.1 - run.0,
    ;
    (held, terms)
}

fn measure_mean(frames: &Vec<VariantFrame>, runs: &Vec<(usize, usize)>, kind: TemporalTerm) -> (mean:
    Binary64)
    requires
        frames@.len() > 0,
        frames@.len() * 51 <= usize::MAX,
        runs@ == take_runs(frames@, frames@.len() as int),
        runs_advance(frames@, runs@),
    ensures
        mean == mean_term(frames@, kind),
{
    let mut sum = Binary64::zero();
    let mut count: u64 = 0;
    for r in 0..runs.len()
        invariant
            frames@.len() * 51 <= usize::MAX,
            runs_advance(frames@, runs@),
            (sum, count as nat) == gathered(frames@, runs@, kind, r as int),
            count <= covered(runs@, r as int) * 51,
    {
        let run = runs[r];
        proof {
            lemma_run_advances(frames@, runs@, r as int);
        }
        let (next, counted) = gather_take(sum, count, frames, kind, run);
        sum = next;
        count = counted;
    }
    let divisor: u64 = if count == 0 {
        1
    } else {
        count
    };
    sum.quotient(Binary64::from_integer(divisor))
}

/// Timestamp-aware errors of frames whose takes advance.
pub fn measure_temporal(frames: &Vec<VariantFrame>) -> (metrics: NonTongueTemporalMetrics)
    requires
        frames@.len() > 0,
        frames@.len() * 51 <= usize::MAX,
        takes_advance(frames@),
    ensures
        metrics == temporal_of(frames@),
{
    let runs = take_slices(frames);
    proof {
        assert(frames.len() == frames@.len());
        lemma_runs_advance(frames@);
    }
    NonTongueTemporalMetrics {
        velocity_mae: measure_mean(frames, &runs, TemporalTerm::Velocity),
        acceleration_mae: measure_mean(frames, &runs, TemporalTerm::Acceleration),
        neutral_jitter: measure_mean(frames, &runs, TemporalTerm::Jitter).square_root(),
        peak_jerk_mae: measure_mean(frames, &runs, TemporalTerm::Jerk),
    }
}

/// Neighbours of one take advance in time.
pub open spec fn takes_advance(frames: Seq<VariantFrame>) -> bool {
    forall|i: int|
        0 <= i < frames.len() - 1 && (#[trigger] frames[i]).take_id@ == frames[i + 1].take_id@
            ==> frames[i].timestamp_micros < frames[i + 1].timestamp_micros
}

/// How many frames the first `n` takes cover.
pub open spec fn covered(runs: Seq<(usize, usize)>, n: int) -> int {
    if n <= 0 {
        0
    } else {
        runs[n - 1].1 as int
    }
}

/// Each take starts where the one before ended, and advances from its first to its
/// last frame.
#[verifier::opaque]
pub open spec fn runs_advance(frames: Seq<VariantFrame>, runs: Seq<(usize, usize)>) -> bool {
    forall|r: int|
        0 <= r < runs.len() ==> {
            &&& covered(runs, r) == (#[trigger] runs[r]).0
            &&& runs[r].0 < runs[r].1 <= frames.len()
            &&& advancing(frames, runs[r].0 as int, runs[r].1 - 1)
        }
}

proof fn lemma_run_advances(frames: Seq<VariantFrame>, runs: Seq<(usize, usize)>, r: int)
    requires
        runs_advance(frames, runs),
        0 <= r < runs.len(),
    ensures
        covered(runs, r) == runs[r].0,
        runs[r].0 < runs[r].1 <= frames.len(),
        advancing(frames, runs[r].0 as int, runs[r].1 - 1),
{
    reveal(runs_advance);
}

/// Every take advances from its first to its last frame.
proof fn lemma_runs_advance(frames: Seq<VariantFrame>)
    requires
        frames.len() > 0,
        frames.len() <= usize::MAX,
        takes_advance(frames),
    ensures
        runs_advance(frames, take_runs(frames, frames.len() as int)),
{
    reveal(runs_advance);
    let n = frames.len() as int;
    let runs = take_runs(frames, n);
    lemma_take_runs_partition(frames, n);
    assert forall|r: int| 0 <= r < runs.len() implies {
        &&& covered(runs, r) == (#[trigger] runs[r]).0
        &&& runs[r].0 < runs[r].1 <= frames.len()
        &&& advancing(frames, runs[r].0 as int, runs[r].1 - 1)
    } by {
        let run = runs[r];
        assert forall|i: int| run.0 <= i < run.1 - 1 implies (#[trigger] frames[i]).timestamp_micros
            < frames[i + 1].timestamp_micros by {
            assert(frames[i].take_id@ == frames[run.0 as int].take_id@);
            assert(frames[i + 1].take_id@ == frames[run.0 as int].take_id@);
        }
    }
}

/// The frames agree in everything but the tongue.
pub open spec fn alike_but_tongue(left: Seq<VariantFrame>, right: Seq<VariantFrame>) -> bool {
    &&& left.len() == right.len()
    &&& forall|i: int|
        0 <= i < left.len() ==> {
            &&& (#[trigger] left[i]).take_id@ == right[i].take_id@
            &&& left[i].frame_seq == right[i].frame_seq
            &&& left[i].timestamp_micros == right[i].timestamp_micros
            &&& left[i].teacher@.take(51) == right[i].teacher@.take(51)
            &&& left[i].output@.take(51) == right[i].output@.take(51)
        }
}

/// Channels other than the tongue agree.
pub proof fn lemma_channel_is_alike(
    left: Seq<VariantFrame>,
    right: Seq<VariantFrame>,
    i: int,
    c: int,
)
    requires
        alike_but_tongue(left, right),
        0 <= i < left.len(),
        0 <= c < 51,
    ensures
        left[i].teacher@[c] == right[i].teacher@[c],
        left[i].output@[c] == right[i].output@[c],
        left[i].timestamp_micros == right[i].timestamp_micros,
{
    assert(left[i].teacher@.take(51)[c] == right[i].teacher@.take(51)[c]);
    assert(left[i].output@.take(51)[c] == right[i].output@.take(51)[c]);
}

proof fn lemma_term_is_alike(
    left: Seq<VariantFrame>,
    right: Seq<VariantFrame>,
    c: int,
    kind: TemporalTerm,
    start: int,
    i: int,
)
    requires
        alike_but_tongue(left, right),
        0 <= c < 51,
        0 <= start <= i < left.len() - 1,
    ensures
        term_at(left, c, kind, start, i) == term_at(right, c, kind, start, i),
{
    reveal(term_at);
    lemma_channel_is_alike(left, right, i, c);
    lemma_channel_is_alike(left, right, i + 1, c);
    if i >= start + 1 {
        lemma_channel_is_alike(left, right, i - 1, c);
    }
    if i >= start + 2 {
        lemma_channel_is_alike(left, right, i - 2, c);
    }
}

proof fn lemma_terms_are_alike(
    before: (Binary64, nat),
    left: Seq<VariantFrame>,
    right: Seq<VariantFrame>,
    c: int,
    kind: TemporalTerm,
    start: int,
    i: int,
)
    requires
        alike_but_tongue(left, right),
        0 <= c < 51,
        0 <= start,
        i <= left.len() - 1,
    ensures
        with_terms(before, left, c, kind, start, i) == with_terms(before, right, c, kind, start, i),
    decreases i - start,
{
    if i > start {
        lemma_terms_are_alike(before, left, right, c, kind, start, i - 1);
        lemma_term_is_alike(left, right, c, kind, start, i - 1);
    }
}

proof fn lemma_channels_are_alike(
    before: (Binary64, nat),
    left: Seq<VariantFrame>,
    right: Seq<VariantFrame>,
    kind: TemporalTerm,
    run: (usize, usize),
    c: int,
)
    requires
        alike_but_tongue(left, right),
        c <= 51,
        run.1 <= left.len(),
    ensures
        with_channels(before, left, kind, run, c) == with_channels(before, right, kind, run, c),
    decreases c,
{
    if c > 0 {
        lemma_channels_are_alike(before, left, right, kind, run, c - 1);
        lemma_terms_are_alike(
            with_channels(before, left, kind, run, c - 1),
            left,
            right,
            c - 1,
            kind,
            run.0 as int,
            run.1 - 1,
        );
    }
}

proof fn lemma_runs_are_alike(left: Seq<VariantFrame>, right: Seq<VariantFrame>, n: int)
    requires
        alike_but_tongue(left, right),
        n <= left.len() <= usize::MAX,
    ensures
        take_runs(left, n) == take_runs(right, n),
        n > 0 ==> take_runs(left, n).len() > 0,
        forall|r: int|
            0 <= r < take_runs(left, n).len() ==> (#[trigger] take_runs(left, n)[r]).0 < n && take_runs(
                left,
                n,
            )[r].1 <= n,
    decreases n,
{
    if n > 1 {
        lemma_runs_are_alike(left, right, n - 1);
        let runs = take_runs(left, n - 1);
        let start = runs.last().0 as int;
        assert(left[n - 1].take_id@ == right[n - 1].take_id@);
        assert(left[start].take_id@ == right[start].take_id@);
    }
}

proof fn lemma_gathered_is_alike(
    left: Seq<VariantFrame>,
    right: Seq<VariantFrame>,
    runs: Seq<(usize, usize)>,
    kind: TemporalTerm,
    n: int,
)
    requires
        alike_but_tongue(left, right),
        n <= runs.len(),
        forall|r: int| 0 <= r < runs.len() ==> (#[trigger] runs[r]).1 <= left.len(),
    ensures
        gathered(left, runs, kind, n) == gathered(right, runs, kind, n),
    decreases n,
{
    if n > 0 {
        lemma_gathered_is_alike(left, right, runs, kind, n - 1);
        lemma_channels_are_alike(
            gathered(left, runs, kind, n - 1),
            left,
            right,
            kind,
            runs[n - 1],
            51,
        );
    }
}

/// The tongue does not enter the temporal errors.
pub proof fn lemma_tongue_does_not_move(left: Seq<VariantFrame>, right: Seq<VariantFrame>)
    requires
        alike_but_tongue(left, right),
        left.len() <= usize::MAX,
    ensures
        temporal_of(left) == temporal_of(right),
{
    let n = left.len() as int;
    lemma_runs_are_alike(left, right, n);
    let runs = take_runs(left, n);
    let count = runs.len() as int;
    lemma_gathered_is_alike(left, right, runs, TemporalTerm::Velocity, count);
    lemma_gathered_is_alike(left, right, runs, TemporalTerm::Acceleration, count);
    lemma_gathered_is_alike(left, right, runs, TemporalTerm::Jitter, count);
    lemma_gathered_is_alike(left, right, runs, TemporalTerm::Jerk, count);
}

} // verus!
