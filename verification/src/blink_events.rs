//! Teacher-driven blink pulses: detection, matching and scoring.

use vstd::prelude::*;

use crate::arithmetic::lemma_sign_of_units_64;
use crate::arkit::ArkitBlendshape;
use crate::binary::{Binary64, SIGN_64};
use crate::ordering::{ascending_order, is_stable_order, key_values, lemma_stable_order_is_unique};
use crate::unified_ablation::{
    frame_order_error, take_runs, take_slices, validate_frame_order, UnifiedAblationError, VariantFrame,
};

verus! {

/// Bit pattern of 0.30, the lowest value at which a pulse starts.
pub const ONSET_LEVEL_BITS: u64 = 0x3fd3_3333_3333_3333;

/// Bit pattern of 0.6: a pulse starts when the sample before lies below this
/// fraction of the onset.
pub const ONSET_FRACTION_BITS: u64 = 0x3fe3_3333_3333_3333;

/// Bit pattern of 0.5: a pulse is released at this fraction of its peak.
pub const RELEASE_FRACTION_BITS: u64 = 0x3fe0_0000_0000_0000;

/// Bit pattern of three, the number of samples in a baseline.
pub const BASELINE_COUNT_BITS: u64 = 0x4008_0000_0000_0000;

/// Bit pattern of 0.7, the largest attenuation of a matched pulse.
pub const MAX_ATTENUATION_BITS: u64 = 0x3fe6_6666_6666_6666;

/// Bit pattern of 1000, the number of microseconds in a millisecond.
pub const MICROS_PER_MILLI_BITS: u64 = 0x408f_4000_0000_0000;

/// Bit pattern of two.
pub const TWO_BITS: u64 = 0x4000_0000_0000_0000;

/// Least distance between two onsets.
pub const ONSET_SEPARATION_MICROS: u64 = 300_000;

/// A pulse is released within this time of its onset.
pub const RELEASE_WINDOW_MICROS: u64 = 350_000;

/// An output onset may lead the teacher onset by this much.
pub const MATCH_LEAD_MICROS: u64 = 150_000;

/// An output onset may trail the teacher onset by this much.
pub const MATCH_LAG_MICROS: u64 = 600_000;

/// One sample of an eye-closure series.
#[derive(Clone, Copy, Debug, PartialEq, Eq, Structural)]
pub struct BlinkSample {
    /// Source timestamp.
    pub time_micros: u64,
    /// Eye closure.
    pub value: Binary64,
}

/// A detected closure pulse.
#[derive(Clone, Copy, Debug, PartialEq, Eq, Structural)]
pub struct BlinkPulse {
    /// Time of the onset sample.
    pub onset_micros: u64,
    /// Time of the highest sample.
    pub peak_micros: u64,
    /// Time at which the value fell to half of the peak.
    pub release_micros: u64,
    /// Level before the onset.
    pub baseline: Binary64,
    /// Highest value.
    pub peak: Binary64,
}

/// Time from `earlier` to `later`, zero when out of order.
pub open spec fn elapsed(later: u64, earlier: u64) -> int {
    if later >= earlier {
        later - earlier
    } else {
        0
    }
}

/// First highest sample of `onset..=at`.
pub open spec fn running_peak(samples: Seq<BlinkSample>, onset: int, at: int) -> int
    decreases at - onset,
{
    if at <= onset {
        onset
    } else {
        let before = running_peak(samples, onset, at - 1);
        if samples[before].value.less(samples[at].value) {
            at
        } else {
            before
        }
    }
}

/// The value has fallen to half of the peak reached since the onset.
pub open spec fn has_fallen(samples: Seq<BlinkSample>, onset: int, at: int) -> bool {
    let peak = running_peak(samples, onset, at);
    at > peak && samples[at].value.at_most(
        (Binary64 { bits: RELEASE_FRACTION_BITS }).times(samples[peak].value),
    )
}

/// The pulse that starts at `onset` is released at `at`: the first fall, with
/// every sample up to it inside the release window.
pub open spec fn released_at(samples: Seq<BlinkSample>, onset: int, at: int) -> bool {
    &&& onset <= at < samples.len()
    &&& has_fallen(samples, onset, at)
    &&& forall|j: int| onset <= j < at ==> !#[trigger] has_fallen(samples, onset, j)
    &&& forall|j: int|
        onset <= j <= at ==> elapsed((#[trigger] samples[j]).time_micros, samples[onset].time_micros)
            <= RELEASE_WINDOW_MICROS
}

/// Sample `at` starts a pulse when the previous one started at `last_onset`.
pub open spec fn is_onset(samples: Seq<BlinkSample>, at: int, last_onset: u64) -> bool {
    &&& elapsed(samples[at].time_micros, last_onset) >= ONSET_SEPARATION_MICROS
    &&& !samples[at].value.less(Binary64 { bits: ONSET_LEVEL_BITS })
    &&& !(Binary64 { bits: ONSET_FRACTION_BITS }).times(samples[at].value).at_most(
        samples[at - 1].value,
    )
}

/// Level before an onset: the mean of the three samples before it, or the
/// sample before it when there are fewer.
pub open spec fn baseline_at(samples: Seq<BlinkSample>, onset: int) -> Binary64 {
    if onset >= 3 {
        (Binary64 { bits: SIGN_64 }).plus(samples[onset - 3].value).plus(samples[onset - 2].value).plus(
            samples[onset - 1].value,
        ).over(Binary64 { bits: BASELINE_COUNT_BITS })
    } else {
        samples[onset - 1].value
    }
}

/// The pulse from `onset` to its release at `release`.
pub open spec fn pulse_between(samples: Seq<BlinkSample>, onset: int, release: int) -> BlinkPulse {
    let peak = running_peak(samples, onset, release);
    BlinkPulse {
        onset_micros: samples[onset].time_micros,
        peak_micros: samples[peak].time_micros,
        release_micros: samples[release].time_micros,
        baseline: baseline_at(samples, onset),
        peak: samples[peak].value,
    }
}

/// Pulses that start among the first `n` samples, and the last onset time
/// (zero before the first pulse).
pub open spec fn pulses_before(samples: Seq<BlinkSample>, n: int) -> (Seq<BlinkPulse>, u64)
    decreases n,
{
    if n <= 1 {
        (Seq::empty(), 0)
    } else {
        let (pulses, last_onset) = pulses_before(samples, n - 1);
        let at = n - 1;
        if is_onset(samples, at, last_onset) && exists|r: int| released_at(samples, at, r) {
            let release = choose|r: int| released_at(samples, at, r);
            (pulses.push(pulse_between(samples, at, release)), samples[at].time_micros)
        } else {
            (pulses, last_onset)
        }
    }
}

/// All pulses of a series, in order of their onsets.
pub open spec fn blink_pulses(samples: Seq<BlinkSample>) -> Seq<BlinkPulse> {
    pulses_before(samples, samples.len() as int).0
}

proof fn lemma_running_peak_in_range(samples: Seq<BlinkSample>, onset: int, at: int)
    requires
        onset <= at,
    ensures
        onset <= running_peak(samples, onset, at) <= at,
    decreases at - onset,
{
    if at > onset {
        lemma_running_peak_in_range(samples, onset, at - 1);
    }
}

proof fn lemma_release_is_unique(samples: Seq<BlinkSample>, onset: int, left: int, right: int)
    requires
        released_at(samples, onset, left),
        released_at(samples, onset, right),
    ensures
        left == right,
{
    if left < right {
        assert(!has_fallen(samples, onset, left));
    }
    if right < left {
        assert(!has_fallen(samples, onset, right));
    }
}

/// Finds the release of a pulse; the pair holds the peak and release positions.
fn find_release(samples: &Vec<BlinkSample>, onset: usize) -> (found: Option<(usize, usize)>)
    requires
        onset < samples@.len(),
    ensures
        match found {
            Some((peak, release)) => {
                &&& released_at(samples@, onset as int, release as int)
                &&& peak == running_peak(samples@, onset as int, release as int)
                &&& peak < samples@.len()
            },
            None => forall|r: int| !released_at(samples@, onset as int, r),
        },
{
    let mut peak: usize = onset;
    let start: u64 = samples[onset].time_micros;
    for at in onset..samples.len()
        invariant
            onset < samples@.len(),
            start == samples@[onset as int].time_micros,
            onset <= peak < samples@.len(),
            at == onset ==> peak == onset,
            at > onset ==> peak == running_peak(samples@, onset as int, at - 1),
            forall|j: int| onset <= j < at ==> !#[trigger] has_fallen(samples@, onset as int, j),
            forall|j: int|
                onset <= j < at ==> elapsed((#[trigger] samples@[j]).time_micros, start)
                    <= RELEASE_WINDOW_MICROS,
    {
        if samples[at].time_micros.saturating_sub(start) > RELEASE_WINDOW_MICROS {
            assert forall|r: int| !released_at(samples@, onset as int, r) by {
                if released_at(samples@, onset as int, r) {
                    if r < at {
                        assert(!has_fallen(samples@, onset as int, r));
                    } else {
                        assert(elapsed(samples@[at as int].time_micros, start)
                            <= RELEASE_WINDOW_MICROS);
                    }
                }
            }
            return None;
        }
        if samples[peak].value.is_less(samples[at].value) {
            peak = at;
        }
        assert(peak == running_peak(samples@, onset as int, at as int));
        if at > peak && samples[at].value.is_at_most(
            Binary64::from_bits(RELEASE_FRACTION_BITS).product(samples[peak].value),
        ) {
            return Some((peak, at));
        }
    }
    assert forall|r: int| !released_at(samples@, onset as int, r) by {
        if released_at(samples@, onset as int, r) {
            assert(!has_fallen(samples@, onset as int, r));
        }
    }
    None
}

/// Level before an onset.
fn baseline(samples: &Vec<BlinkSample>, onset: usize) -> (level: Binary64)
    requires
        1 <= onset < samples@.len(),
    ensures
        level == baseline_at(samples@, onset as int),
{
    if onset >= 3 {
        Binary64::from_bits(SIGN_64).sum(samples[onset - 3].value).sum(samples[onset - 2].value).sum(
            samples[onset - 1].value,
        ).quotient(Binary64::from_bits(BASELINE_COUNT_BITS))
    } else {
        samples[onset - 1].value
    }
}

/// Detects closure pulses: a rise above 0.30 that leaves the previous sample
/// behind, at least 0.3 s after the previous onset, released to half of its
/// peak within 350 ms.
pub fn detect_blink_pulses(samples: &Vec<BlinkSample>) -> (pulses: Vec<BlinkPulse>)
    ensures
        pulses@ == blink_pulses(samples@),
{
    let mut pulses: Vec<BlinkPulse> = Vec::new();
    let mut last_onset: u64 = 0;
    let mut at: usize = 1;
    if samples.len() == 0 {
        return pulses;
    }
    while at < samples.len()
        invariant
            1 <= at <= samples@.len(),
            (pulses@, last_onset) == pulses_before(samples@, at as int),
        decreases samples@.len() - at,
    {
        let onset: u64 = samples[at].time_micros;
        let starts = onset.saturating_sub(last_onset) >= ONSET_SEPARATION_MICROS
            && !samples[at].value.is_less(Binary64 { bits: ONSET_LEVEL_BITS })
            && !Binary64::from_bits(ONSET_FRACTION_BITS).product(samples[at].value).is_at_most(
            samples[at - 1].value,
        );
        assert(starts == is_onset(samples@, at as int, last_onset));
        if starts {
            if let Some((peak, release)) = find_release(samples, at) {
                proof {
                    let chosen = choose|r: int| released_at(samples@, at as int, r);
                    lemma_release_is_unique(samples@, at as int, chosen, release as int);
                }
                pulses.push(
                    BlinkPulse {
                        onset_micros: onset,
                        peak_micros: samples[peak].time_micros,
                        release_micros: samples[release].time_micros,
                        baseline: baseline(samples, at),
                        peak: samples[peak].value,
                    },
                );
                last_onset = onset;
            }
        }
        at = at + 1;
    }
    pulses
}

/// The output onset lies around the teacher onset.
pub open spec fn in_match_window(teacher: BlinkPulse, output: BlinkPulse) -> bool {
    &&& output.onset_micros >= elapsed(teacher.onset_micros, MATCH_LEAD_MICROS)
    &&& output.onset_micros <= teacher.onset_micros + MATCH_LAG_MICROS
}

/// Absolute difference of two times.
pub open spec fn time_gap(left: u64, right: u64) -> int {
    if left >= right {
        left - right
    } else {
        right - left
    }
}

/// An output pulse was matched already.
pub open spec fn is_used(matches: Seq<(usize, usize)>, output: int) -> bool {
    exists|i: int| 0 <= i < matches.len() && (#[trigger] matches[i]).1 as int == output
}

/// Output pulse `j` may still match teacher pulse `teacher`.
pub open spec fn is_eligible(
    teacher: BlinkPulse,
    outputs: Seq<BlinkPulse>,
    matches: Seq<(usize, usize)>,
    j: int,
) -> bool {
    0 <= j < outputs.len() && !is_used(matches, j) && in_match_window(teacher, outputs[j])
}

/// Output pulse `j` is the first eligible one with the closest peak.
pub open spec fn is_closest(
    teacher: BlinkPulse,
    outputs: Seq<BlinkPulse>,
    matches: Seq<(usize, usize)>,
    j: int,
) -> bool {
    let gap = |k: int| time_gap(outputs[k].peak_micros, teacher.peak_micros);
    &&& is_eligible(teacher, outputs, matches, j)
    &&& forall|k: int| #[trigger]
        is_eligible(teacher, outputs, matches, k) ==> gap(j) <= gap(k) && (k < j ==> gap(j) < gap(
            k,
        ))
}

/// Height of a pulse above its baseline.
pub open spec fn amplitude_of(pulse: BlinkPulse) -> Binary64 {
    pulse.peak.minus(pulse.baseline)
}

/// Part of the teacher's amplitude that the output's peak misses.
pub open spec fn attenuation_of(teacher: BlinkPulse, output: BlinkPulse) -> Binary64 {
    teacher.peak.minus(output.peak).over(amplitude_of(teacher))
}

/// Matches among the first `n` teacher pulses, as `(teacher, output)`
/// positions; `None` once a candidate pair has a teacher amplitude that is not
/// positive.
pub open spec fn matches_before(
    teachers: Seq<BlinkPulse>,
    outputs: Seq<BlinkPulse>,
    n: int,
) -> Option<Seq<(usize, usize)>>
    decreases n,
{
    if n <= 0 {
        Some(Seq::empty())
    } else {
        let t = n - 1;
        match matches_before(teachers, outputs, t) {
            None => None,
            Some(matches) => {
                let teacher = teachers[t];
                if exists|j: int| is_closest(teacher, outputs, matches, j) {
                    let j = choose|j: int| is_closest(teacher, outputs, matches, j);
                    if amplitude_of(teacher).at_most(Binary64 { bits: 0 }) {
                        None
                    } else if (Binary64 { bits: MAX_ATTENUATION_BITS }).less(
                        attenuation_of(teacher, outputs[j]),
                    ) {
                        Some(matches)
                    } else {
                        Some(matches.push((t as usize, j as usize)))
                    }
                } else {
                    Some(matches)
                }
            },
        }
    }
}

/// All matches between two pulse lists.
pub open spec fn all_matches(
    teachers: Seq<BlinkPulse>,
    outputs: Seq<BlinkPulse>,
) -> Option<Seq<(usize, usize)>> {
    matches_before(teachers, outputs, teachers.len() as int)
}

proof fn lemma_closest_is_unique(
    teacher: BlinkPulse,
    outputs: Seq<BlinkPulse>,
    matches: Seq<(usize, usize)>,
    left: int,
    right: int,
)
    requires
        is_closest(teacher, outputs, matches, left),
        is_closest(teacher, outputs, matches, right),
    ensures
        left == right,
{
    assert(is_eligible(teacher, outputs, matches, left));
    assert(is_eligible(teacher, outputs, matches, right));
}

fn absolute_gap(left: u64, right: u64) -> (gap: u64)
    ensures
        gap == time_gap(left, right),
{
    if left >= right {
        left - right
    } else {
        right - left
    }
}

/// The first eligible output pulse with the closest peak.
fn closest_output(teacher: &BlinkPulse, outputs: &Vec<BlinkPulse>, matches: &Vec<(usize, usize)>) -> (found:
    Option<usize>)
    ensures
        match found {
            Some(j) => is_closest(*teacher, outputs@, matches@, j as int),
            None => forall|j: int| !is_closest(*teacher, outputs@, matches@, j),
        },
{
    let mut found: Option<usize> = None;
    for j in 0..outputs.len()
        invariant
            match found {
                Some(best) => {
                    &&& best < j
                    &&& is_eligible(*teacher, outputs@, matches@, best as int)
                    &&& forall|k: int|
                        0 <= k < j && #[trigger] is_eligible(*teacher, outputs@, matches@, k)
                            ==> time_gap(outputs@[best as int].peak_micros, teacher.peak_micros)
                            <= time_gap(outputs@[k].peak_micros, teacher.peak_micros) && (k < best
                            ==> time_gap(outputs@[best as int].peak_micros, teacher.peak_micros)
                            < time_gap(outputs@[k].peak_micros, teacher.peak_micros))
                },
                None => forall|k: int|
                    0 <= k < j ==> !#[trigger] is_eligible(*teacher, outputs@, matches@, k),
            },
    {
        let pulse = &outputs[j];
        let mut used = false;
        for m in 0..matches.len()
            invariant
                used == (exists|i: int| 0 <= i < m && (#[trigger] matches@[i]).1 == j),
        {
            if matches[m].1 == j {
                used = true;
                assert(matches@[m as int].1 == j);
            }
        }
        assert(used == is_used(matches@, j as int));
        let inside = pulse.onset_micros >= teacher.onset_micros.saturating_sub(MATCH_LEAD_MICROS)
            && pulse.onset_micros <= teacher.onset_micros.saturating_add(MATCH_LAG_MICROS);
        assert(inside == in_match_window(*teacher, *pulse));
        if !used && inside {
            assert(is_eligible(*teacher, outputs@, matches@, j as int));
            match found {
                None => {
                    found = Some(j);
                },
                Some(best) => {
                    if absolute_gap(pulse.peak_micros, teacher.peak_micros) < absolute_gap(
                        outputs[best].peak_micros,
                        teacher.peak_micros,
                    ) {
                        found = Some(j);
                    }
                },
            }
        }
    }
    proof {
        match found {
            Some(best) => {
                assert(is_closest(*teacher, outputs@, matches@, best as int));
            },
            None => {
                assert forall|j: int| !is_closest(*teacher, outputs@, matches@, j) by {
                    assert(!is_eligible(*teacher, outputs@, matches@, j));
                }
            },
        }
    }
    found
}

/// Matches teacher pulses with output pulses: each teacher pulse in turn takes
/// the unused output pulse in its window whose peak is closest, unless that
/// pulse is attenuated too far.
///
/// # Errors
///
/// Rejects a teacher amplitude that is not positive.
pub fn match_blink_pulses(teachers: &Vec<BlinkPulse>, outputs: &Vec<BlinkPulse>) -> (result: Result<
    Vec<(usize, usize)>,
    UnifiedAblationError,
>)
    ensures
        match result {
            Ok(matches) => all_matches(teachers@, outputs@) == Some(matches@),
            Err(error) => all_matches(teachers@, outputs@) is None && error
                == UnifiedAblationError::InvalidData("blink amplitude"),
        },
{
    let mut matches: Vec<(usize, usize)> = Vec::new();
    for t in 0..teachers.len()
        invariant
            matches_before(teachers@, outputs@, t as int) == Some(matches@),
    {
        let teacher = &teachers[t];
        if let Some(j) = closest_output(teacher, outputs, &matches) {
            proof {
                let chosen = choose|k: int| is_closest(teachers@[t as int], outputs@, matches@, k);
                lemma_closest_is_unique(teachers@[t as int], outputs@, matches@, chosen, j as int);
            }
            let amplitude = teacher.peak.difference(teacher.baseline);
            if amplitude.is_at_most(Binary64::zero()) {
                proof {
                    lemma_failure_persists(teachers@, outputs@, t + 1, teachers@.len() as int);
                }
                return Err(UnifiedAblationError::InvalidData("blink amplitude"));
            }
            let cap = Binary64::from_bits(MAX_ATTENUATION_BITS);
            if !cap.is_less(teacher.peak.difference(outputs[j].peak).quotient(amplitude)) {
                matches.push((t, j));
            }
        }
    }
    Ok(matches)
}

proof fn lemma_failure_persists(
    teachers: Seq<BlinkPulse>,
    outputs: Seq<BlinkPulse>,
    n: int,
    later: int,
)
    requires
        n <= later,
        matches_before(teachers, outputs, n) is None,
    ensures
        matches_before(teachers, outputs, later) is None,
    decreases later - n,
{
    if n < later && later > 0 {
        lemma_failure_persists(teachers, outputs, n, later - 1);
    }
}

/// A matched pair's absolute errors.
#[derive(Clone, Copy, Debug, PartialEq, Eq, Structural)]
pub struct MatchedPulse {
    /// Distance of the onsets in milliseconds.
    pub onset_error_ms: Binary64,
    /// Distance of the peaks in milliseconds.
    pub peak_error_ms: Binary64,
    /// Distance of the releases in milliseconds.
    pub release_error_ms: Binary64,
    /// Peak attenuation without its sign.
    pub attenuation: Binary64,
}

/// Distance of two times in milliseconds.
pub open spec fn gap_ms(a: u64, b: u64) -> Binary64 {
    Binary64::of_integer(time_gap(a, b) as nat).over(Binary64 { bits: MICROS_PER_MILLI_BITS })
}

/// Distance of two times in milliseconds.
fn gap_in_ms(a: u64, b: u64) -> (gap: Binary64)
    ensures
        gap == gap_ms(a, b),
{
    Binary64::from_integer(absolute_gap(a, b)).quotient(Binary64::from_bits(MICROS_PER_MILLI_BITS))
}

/// The errors of one matched pair.
pub open spec fn matched_pulse(teacher: BlinkPulse, output: BlinkPulse) -> MatchedPulse {
    MatchedPulse {
        onset_error_ms: gap_ms(output.onset_micros, teacher.onset_micros),
        peak_error_ms: gap_ms(output.peak_micros, teacher.peak_micros),
        release_error_ms: gap_ms(output.release_micros, teacher.release_micros),
        attenuation: attenuation_of(teacher, output).absolute(),
    }
}

/// The eye of track `k`: left and right in turn.
pub open spec fn track_channel(k: int) -> ArkitBlendshape {
    if k % 2 == 0 {
        ArkitBlendshape::EyeBlinkLeft
    } else {
        ArkitBlendshape::EyeBlinkRight
    }
}

/// Teacher series of one eye over one run of frames.
pub open spec fn teacher_series(
    frames: Seq<VariantFrame>,
    run: (usize, usize),
    channel: ArkitBlendshape,
) -> Seq<BlinkSample> {
    Seq::new(
        (run.1 - run.0) as nat,
        |i: int|
            BlinkSample {
                time_micros: frames[run.0 + i].timestamp_micros,
                value: frames[run.0 + i].teacher@[channel.position()].widened(),
            },
    )
}

/// Output series of one eye over one run of frames.
pub open spec fn output_series(
    frames: Seq<VariantFrame>,
    run: (usize, usize),
    channel: ArkitBlendshape,
) -> Seq<BlinkSample> {
    Seq::new(
        (run.1 - run.0) as nat,
        |i: int|
            BlinkSample {
                time_micros: frames[run.0 + i].timestamp_micros,
                value: frames[run.0 + i].output@[channel.position()].widened(),
            },
    )
}

/// Teacher pulses of track `k`: two tracks per take, left eye first.
pub open spec fn teacher_pulses(frames: Seq<VariantFrame>, k: int) -> Seq<BlinkPulse> {
    let run = take_runs(frames, frames.len() as int)[k / 2];
    blink_pulses(teacher_series(frames, run, track_channel(k)))
}

/// Output pulses of track `k`.
pub open spec fn output_pulses(frames: Seq<VariantFrame>, k: int) -> Seq<BlinkPulse> {
    let run = take_runs(frames, frames.len() as int)[k / 2];
    blink_pulses(output_series(frames, run, track_channel(k)))
}

/// Number of tracks.
pub open spec fn track_count(frames: Seq<VariantFrame>) -> int {
    2 * (take_runs(frames, frames.len() as int).len() as int)
}

/// Errors of all matched pairs of the first `n` tracks; `None` once a track
/// has a bad amplitude.
pub open spec fn scored_before(frames: Seq<VariantFrame>, n: int) -> Option<Seq<MatchedPulse>>
    decreases n,
{
    if n <= 0 {
        Some(Seq::empty())
    } else {
        let teachers = teacher_pulses(frames, n - 1);
        let outputs = output_pulses(frames, n - 1);
        match (scored_before(frames, n - 1), all_matches(teachers, outputs)) {
            (Some(scored), Some(matches)) => Some(
                scored + Seq::new(
                    matches.len(),
                    |i: int|
                        matched_pulse(
                            teachers[matches[i].0 as int],
                            outputs[matches[i].1 as int],
                        ),
                ),
            ),
            _ => None,
        }
    }
}

/// Teacher pulses of the first `n` tracks.
pub open spec fn teacher_total(frames: Seq<VariantFrame>, n: int) -> nat
    decreases n,
{
    if n <= 0 {
        0
    } else {
        teacher_total(frames, n - 1) + teacher_pulses(frames, n - 1).len()
    }
}

/// Output pulses of the first `n` tracks.
pub open spec fn output_total(frames: Seq<VariantFrame>, n: int) -> nat
    decreases n,
{
    if n <= 0 {
        0
    } else {
        output_total(frames, n - 1) + output_pulses(frames, n - 1).len()
    }
}

/// The median of `values` when read in `order`: the middle value, or the mean of
/// the two middle values.
pub open spec fn median_in_order(values: Seq<Binary64>, order: Seq<usize>) -> Option<Binary64> {
    let half = values.len() as int / 2;
    if values.len() == 0 {
        None
    } else if values.len() % 2 == 0 {
        Some(
            values[order[half - 1] as int].plus(values[order[half] as int]).over(
                Binary64 { bits: TWO_BITS },
            ),
        )
    } else {
        Some(values[order[half] as int])
    }
}

/// The numbers' positions in the total order.
pub open spec fn number_keys(values: Seq<Binary64>) -> Seq<int> {
    Seq::new(values.len(), |i: int| values[i].total_rank())
}

/// `middle` is the median of the numbers in total order.
pub open spec fn is_median(values: Seq<Binary64>, middle: Option<Binary64>) -> bool {
    exists|order: Seq<usize>|
        #[trigger] is_stable_order(number_keys(values), order)
            && middle == median_in_order(values, order)
}

/// A list of numbers has one median.
pub proof fn lemma_median_is_unique(
    values: Seq<Binary64>,
    first: Option<Binary64>,
    second: Option<Binary64>,
)
    requires
        is_median(values, first),
        is_median(values, second),
    ensures
        first == second,
{
    let a = choose|order: Seq<usize>|
        #[trigger] is_stable_order(number_keys(values), order)
            && first == median_in_order(values, order);
    let b = choose|order: Seq<usize>|
        #[trigger] is_stable_order(number_keys(values), order)
            && second == median_in_order(values, order);
    lemma_stable_order_is_unique(number_keys(values), a, b);
}

/// The median of a list of numbers.
pub fn median(values: &Vec<Binary64>) -> (middle: Option<Binary64>)
    ensures
        is_median(values@, middle),
{
    let mut keys: Vec<i128> = Vec::new();
    for i in 0..values.len()
        invariant
            keys@.len() == i,
            forall|j: int| 0 <= j < i ==> keys@[j] == (#[trigger] values@[j]).total_rank(),
    {
        keys.push(values[i].total_order() as i128);
    }
    let order = ascending_order(&keys);
    assert(key_values(keys@) =~= number_keys(values@));
    let half: usize = values.len() / 2;
    if values.len() == 0 {
        None
    } else if values.len() % 2 == 0 {
        Some(
            values[order[half - 1]].sum(values[order[half]]).quotient(
                Binary64::from_bits(TWO_BITS),
            ),
        )
    } else {
        Some(values[order[half]])
    }
}

/// Teacher-driven blink event metrics for one exact-common variant.
#[derive(Clone, Debug, PartialEq)]
pub struct BlinkEventMetrics {
    /// Teacher pulse count across both eyes.
    pub teacher_events: usize,
    /// Teacher pulses with a matching output pulse.
    pub matched_events: usize,
    /// Teacher pulses without a matching output pulse.
    pub missed_events: usize,
    /// Output pulses left unmatched.
    pub extra_events: usize,
    /// Median absolute onset timing error in milliseconds.
    pub median_absolute_onset_error_ms: Option<Binary64>,
    /// Median absolute peak timing error in milliseconds.
    pub median_absolute_peak_error_ms: Option<Binary64>,
    /// Median absolute release timing error in milliseconds.
    pub median_absolute_release_error_ms: Option<Binary64>,
    /// Median absolute peak attenuation relative to teacher amplitude.
    pub median_absolute_peak_attenuation: Option<Binary64>,
}

/// The metrics of all tracks, given the errors of their matched pairs.
pub open spec fn metrics_of(
    metrics: BlinkEventMetrics,
    frames: Seq<VariantFrame>,
    scored: Seq<MatchedPulse>,
) -> bool {
    let teachers = teacher_total(frames, track_count(frames));
    let outputs = output_total(frames, track_count(frames));
    &&& metrics.teacher_events == teachers
    &&& metrics.matched_events == scored.len()
    &&& metrics.missed_events == teachers - scored.len()
    &&& metrics.extra_events == outputs - scored.len()
    &&& is_median(
        Seq::new(scored.len(), |i: int| scored[i].onset_error_ms),
        metrics.median_absolute_onset_error_ms,
    )
    &&& is_median(
        Seq::new(scored.len(), |i: int| scored[i].peak_error_ms),
        metrics.median_absolute_peak_error_ms,
    )
    &&& is_median(
        Seq::new(scored.len(), |i: int| scored[i].release_error_ms),
        metrics.median_absolute_release_error_ms,
    )
    &&& is_median(
        Seq::new(scored.len(), |i: int| scored[i].attenuation),
        metrics.median_absolute_peak_attenuation,
    )
}

/// Match positions are in range, teacher positions increase, and no output
/// position repeats.
pub proof fn lemma_matches_are_injective(
    teachers: Seq<BlinkPulse>,
    outputs: Seq<BlinkPulse>,
    n: int,
)
    requires
        0 <= n <= teachers.len(),
        n <= usize::MAX,
        outputs.len() <= usize::MAX,
        matches_before(teachers, outputs, n) is Some,
    ensures
        matches_before(teachers, outputs, n)->0.len() <= n,
        forall|i: int|
            0 <= i < matches_before(teachers, outputs, n)->0.len() ==> (#[trigger] matches_before(
                teachers,
                outputs,
                n,
            )->0[i]).0 < n && matches_before(teachers, outputs, n)->0[i].1 < outputs.len(),
        forall|i: int, j: int|
            0 <= i < j < matches_before(teachers, outputs, n)->0.len() ==> (
            #[trigger] matches_before(teachers, outputs, n)->0[i]).0 < (#[trigger] matches_before(
                teachers,
                outputs,
                n,
            )->0[j]).0 && matches_before(teachers, outputs, n)->0[i].1 != matches_before(
                teachers,
                outputs,
                n,
            )->0[j].1,
    decreases n,
{
    if n > 0 {
        lemma_matches_are_injective(teachers, outputs, n - 1);
        let matches = matches_before(teachers, outputs, n - 1)->0;
        let teacher = teachers[n - 1];
        if exists|j: int| is_closest(teacher, outputs, matches, j) {
            let j = choose|j: int| is_closest(teacher, outputs, matches, j);
            assert(is_eligible(teacher, outputs, matches, j));
            assert forall|i: int| 0 <= i < matches.len() implies (#[trigger] matches[i]).1 != j by {
                assert(!is_used(matches, j));
            }
        }
    }
}

/// Distinct positions below `bound` number at most `bound`.
proof fn lemma_distinct_positions_fit(matches: Seq<(usize, usize)>, bound: nat)
    requires
        forall|i: int| 0 <= i < matches.len() ==> (#[trigger] matches[i]).1 < bound,
        forall|i: int, j: int|
            0 <= i < j < matches.len() ==> (#[trigger] matches[i]).1 != (#[trigger] matches[j]).1,
    ensures
        matches.len() <= bound,
{
    let seconds = Seq::new(matches.len(), |i: int| matches[i].1 as int);
    assert(seconds.no_duplicates());
    let range = vstd::set_lib::set_int_range(0, bound as int);
    vstd::set_lib::lemma_int_range(0, bound as int);
    seconds.unique_seq_to_set();
    assert(seconds.to_set().subset_of(range)) by {
        assert forall|x: int| seconds.to_set().contains(x) implies range.contains(x) by {
            let i = choose|i: int| 0 <= i < seconds.len() && seconds[i] == x;
            assert(matches[i].1 < bound);
        }
    }
    vstd::set_lib::lemma_len_subset(seconds.to_set(), range);
}

/// No more pulses are matched than either side has.
pub proof fn lemma_matched_is_bounded(teachers: Seq<BlinkPulse>, outputs: Seq<BlinkPulse>)
    requires
        all_matches(teachers, outputs) is Some,
        teachers.len() <= usize::MAX,
        outputs.len() <= usize::MAX,
    ensures
        all_matches(teachers, outputs)->0.len() <= teachers.len(),
        all_matches(teachers, outputs)->0.len() <= outputs.len(),
{
    lemma_matches_are_injective(teachers, outputs, teachers.len() as int);
    lemma_distinct_positions_fit(all_matches(teachers, outputs)->0, outputs.len());
}

/// A series has no more pulses than samples.
proof fn lemma_pulses_are_bounded(samples: Seq<BlinkSample>, n: int)
    requires
        0 <= n,
    ensures
        pulses_before(samples, n).0.len() <= n,
    decreases n,
{
    if n > 1 {
        lemma_pulses_are_bounded(samples, n - 1);
    }
}

/// The first `n` tracks have no more pulses than twice the frames they cover.
proof fn lemma_totals_are_bounded(frames: Seq<VariantFrame>, n: int)
    requires
        0 < frames.len() <= usize::MAX,
        0 <= n <= track_count(frames),
    ensures
        ({
            let runs = take_runs(frames, frames.len() as int);
            let covered = if n == track_count(frames) {
                2 * frames.len()
            } else if n % 2 == 0 {
                2 * runs[n / 2].0 as nat
            } else {
                (runs[n / 2].0 + runs[n / 2].1) as nat
            };
            teacher_total(frames, n) <= covered && output_total(frames, n) <= covered && covered
                <= 2 * frames.len()
        }),
    decreases n,
{
    let runs = take_runs(frames, frames.len() as int);
    crate::unified_ablation::lemma_take_runs_partition(frames, frames.len() as int);
    if n < track_count(frames) {
        assert(runs[n / 2].0 < runs[n / 2].1);
    }
    if n > 0 {
        lemma_totals_are_bounded(frames, n - 1);
        let run = runs[(n - 1) / 2];
        assert(run.0 < run.1);
        let teacher = teacher_series(frames, run, track_channel(n - 1));
        let output = output_series(frames, run, track_channel(n - 1));
        lemma_pulses_are_bounded(teacher, teacher.len() as int);
        lemma_pulses_are_bounded(output, output.len() as int);
        if n % 2 == 0 && n < track_count(frames) {
            assert(runs[n / 2 - 1].1 == runs[n / 2].0);
        }
        if n == track_count(frames) {
            assert(runs.last().1 == frames.len());
        }
    }
}

proof fn lemma_scored_failure_persists(frames: Seq<VariantFrame>, n: int, later: int)
    requires
        n <= later,
        scored_before(frames, n) is None,
    ensures
        scored_before(frames, later) is None,
    decreases later - n,
{
    if n < later && later > 0 {
        lemma_scored_failure_persists(frames, n, later - 1);
    }
}

/// The series of one eye over one run of frames: teacher, then output.
fn eye_series(frames: &Vec<VariantFrame>, run: (usize, usize), channel: ArkitBlendshape) -> (series: (
    Vec<BlinkSample>,
    Vec<BlinkSample>,
))
    requires
        run.0 <= run.1 <= frames@.len(),
    ensures
        series.0@ == teacher_series(frames@, run, channel),
        series.1@ == output_series(frames@, run, channel),
{
    let mut teacher: Vec<BlinkSample> = Vec::new();
    let mut output: Vec<BlinkSample> = Vec::new();
    for at in run.0..run.1
        invariant
            run.0 <= run.1 <= frames@.len(),
            teacher@ =~= teacher_series(frames@, (run.0, at), channel),
            output@ =~= output_series(frames@, (run.0, at), channel),
    {
        let frame = &frames[at];
        let time_micros: u64 = frame.timestamp_micros;
        teacher.push(BlinkSample { time_micros, value: frame.teacher.get(channel).widen() });
        output.push(BlinkSample { time_micros, value: frame.output.get(channel).widen() });
    }
    (teacher, output)
}

/// Errors of the matched pairs, appended to `scored`.
fn score_matches(
    teachers: &Vec<BlinkPulse>,
    outputs: &Vec<BlinkPulse>,
    matches: &Vec<(usize, usize)>,
    scored: &mut Vec<MatchedPulse>,
)
    requires
        all_matches(teachers@, outputs@) == Some(matches@),
    ensures
        final(scored)@ == old(scored)@ + Seq::new(
            matches@.len(),
            |i: int|
                matched_pulse(
                    teachers@[matches@[i].0 as int],
                    outputs@[matches@[i].1 as int],
                ),
        ),
{
    let ghost before = scored@;
    proof {
        assert(teachers.len() == teachers@.len() && outputs.len() == outputs@.len());
        lemma_matches_are_injective(teachers@, outputs@, teachers@.len() as int);
    }
    for i in 0..matches.len()
        invariant
            forall|k: int|
                0 <= k < matches@.len() ==> (#[trigger] matches@[k]).0 < teachers@.len()
                    && matches@[k].1 < outputs@.len(),
            scored@ =~= before + Seq::new(
                i as nat,
                |k: int|
                    matched_pulse(
                        teachers@[matches@[k].0 as int],
                        outputs@[matches@[k].1 as int],
                    ),
            ),
    {
        let pair = matches[i];
        let teacher = &teachers[pair.0];
        let output = &outputs[pair.1];
        let amplitude = teacher.peak.difference(teacher.baseline);
        scored.push(
            MatchedPulse {
                onset_error_ms: gap_in_ms(output.onset_micros, teacher.onset_micros),
                peak_error_ms: gap_in_ms(output.peak_micros, teacher.peak_micros),
                release_error_ms: gap_in_ms(output.release_micros, teacher.release_micros),
                attenuation: teacher.peak.difference(output.peak).quotient(amplitude).abs(),
            },
        );
    }
}

/// Summarises the scored pairs.
fn summarise(
    teacher_events: usize,
    output_events: usize,
    scored: &Vec<MatchedPulse>,
    Ghost(frames): Ghost<Seq<VariantFrame>>,
) -> (metrics: BlinkEventMetrics)
    requires
        teacher_events == teacher_total(frames, track_count(frames)),
        output_events == output_total(frames, track_count(frames)),
        scored@.len() <= teacher_events,
        scored@.len() <= output_events,
    ensures
        metrics_of(metrics, frames, scored@),
{
    let mut onsets: Vec<Binary64> = Vec::new();
    let mut peaks: Vec<Binary64> = Vec::new();
    let mut releases: Vec<Binary64> = Vec::new();
    let mut attenuations: Vec<Binary64> = Vec::new();
    for i in 0..scored.len()
        invariant
            onsets@ =~= Seq::new(i as nat, |k: int| scored@[k].onset_error_ms),
            peaks@ =~= Seq::new(i as nat, |k: int| scored@[k].peak_error_ms),
            releases@ =~= Seq::new(i as nat, |k: int| scored@[k].release_error_ms),
            attenuations@ =~= Seq::new(i as nat, |k: int| scored@[k].attenuation),
    {
        onsets.push(scored[i].onset_error_ms);
        peaks.push(scored[i].peak_error_ms);
        releases.push(scored[i].release_error_ms);
        attenuations.push(scored[i].attenuation);
    }
    BlinkEventMetrics {
        teacher_events,
        matched_events: scored.len(),
        missed_events: teacher_events - scored.len(),
        extra_events: output_events - scored.len(),
        median_absolute_onset_error_ms: median(&onsets),
        median_absolute_peak_error_ms: median(&peaks),
        median_absolute_release_error_ms: median(&releases),
        median_absolute_peak_attenuation: median(&attenuations),
    }
}

/// Scores left and right blink pulses on exact common frames.
///
/// A match is an output pulse whose onset is in `[-150, +600]` ms around the
/// teacher onset and whose peak attenuation is at most 0.7.
///
/// # Errors
///
/// Rejects empty or misordered frame series, and a teacher amplitude that is
/// not positive.
pub fn evaluate_blink_events(frames: &Vec<VariantFrame>) -> (result: Result<
    BlinkEventMetrics,
    UnifiedAblationError,
>)
    requires
        2 * frames@.len() <= usize::MAX,
    ensures
        match result {
            Ok(metrics) => {
                &&& frames@.len() > 0
                &&& frame_order_error(frames@) is None
                &&& scored_before(frames@, track_count(frames@)) is Some
                &&& metrics_of(metrics, frames@, scored_before(frames@, track_count(frames@))->0)
            },
            Err(error) => {
                if frames@.len() == 0 {
                    error == UnifiedAblationError::EmptyFrames
                } else if frame_order_error(frames@) is Some {
                    frame_order_error(frames@) == Some(error)
                } else {
                    scored_before(frames@, track_count(frames@)) is None && error
                        == UnifiedAblationError::InvalidData("blink amplitude")
                }
            },
        },
{
    if frames.len() == 0 {
        return Err(UnifiedAblationError::EmptyFrames);
    }
    if let Err(error) = validate_frame_order(frames) {
        return Err(error);
    }
    let runs = take_slices(frames);
    let mut teacher_events: usize = 0;
    let mut output_events: usize = 0;
    let mut scored: Vec<MatchedPulse> = Vec::new();
    let mut k: usize = 0;
    proof {
        crate::unified_ablation::lemma_take_runs_partition(frames@, frames@.len() as int);
    }
    let ghost count = track_count(frames@);
    while k / 2 < runs.len()
        invariant
            0 < frames@.len(),
            2 * frames@.len() <= usize::MAX,
            frame_order_error(frames@) is None,
            runs@ == take_runs(frames@, frames@.len() as int),
            forall|i: int|
                0 <= i < runs@.len() ==> (#[trigger] runs@[i]).0 < runs@[i].1 <= frames@.len(),
            runs@.len() <= frames@.len(),
            k <= count,
            count == track_count(frames@),
            teacher_events == teacher_total(frames@, k as int),
            output_events == output_total(frames@, k as int),
            scored_before(frames@, k as int) == Some(scored@),
            scored@.len() <= teacher_events,
            scored@.len() <= output_events,
        decreases count - k,
    {
        let run = runs[k / 2];
        let channel = if k % 2 == 0 {
            ArkitBlendshape::EyeBlinkLeft
        } else {
            ArkitBlendshape::EyeBlinkRight
        };
        let (teacher, output) = eye_series(frames, run, channel);
        let teachers = detect_blink_pulses(&teacher);
        let outputs = detect_blink_pulses(&output);
        proof {
            assert(teachers@ == teacher_pulses(frames@, k as int));
            assert(outputs@ == output_pulses(frames@, k as int));
            lemma_totals_are_bounded(frames@, k + 1);
            assert(teachers.len() == teachers@.len() && outputs.len() == outputs@.len());
        }
        teacher_events = teacher_events + teachers.len();
        output_events = output_events + outputs.len();
        match match_blink_pulses(&teachers, &outputs) {
            Ok(matches) => {
                proof {
                    lemma_matched_is_bounded(teachers@, outputs@);
                }
                score_matches(&teachers, &outputs, &matches, &mut scored);
            },
            Err(error) => {
                proof {
                    lemma_scored_failure_persists(frames@, k + 1, count);
                }
                return Err(error);
            },
        }
        k = k + 1;
    }
    Ok(summarise(teacher_events, output_events, &scored, Ghost(frames@)))
}

/// A pulse loses nothing against itself.
proof fn lemma_no_attenuation_against_itself(pulse: BlinkPulse)
    ensures
        !(Binary64 { bits: MAX_ATTENUATION_BITS }).less(attenuation_of(pulse, pulse)),
{
    lemma_sign_of_units_64(pulse.peak);
    lemma_sign_of_units_64(pulse.peak.negated());
}

/// Pulses matched against themselves are matched one to one, as far as the
/// amplitudes let them be matched.
pub proof fn lemma_pulses_match_themselves(pulses: Seq<BlinkPulse>, n: int)
    requires
        0 <= n <= pulses.len(),
        pulses.len() <= usize::MAX,
        matches_before(pulses, pulses, n) is Some,
    ensures
        matches_before(pulses, pulses, n) == Some(
            Seq::new(n as nat, |i: int| (i as usize, i as usize)),
        ),
    decreases n,
{
    let expected = Seq::new(n as nat, |i: int| (i as usize, i as usize));
    if n > 0 {
        let t = n - 1;
        lemma_pulses_match_themselves(pulses, t);
        let matches = matches_before(pulses, pulses, t)->0;
        let pulse = pulses[t];
        assert(!is_used(matches, t));
        assert(is_eligible(pulse, pulses, matches, t));
        assert forall|k: int| #[trigger] is_eligible(pulse, pulses, matches, k) implies k >= t by {
            if k < t {
                assert(matches[k].1 as int == k);
                assert(is_used(matches, k));
            }
        }
        assert(is_closest(pulse, pulses, matches, t));
        let j = choose|j: int| is_closest(pulse, pulses, matches, j);
        lemma_closest_is_unique(pulse, pulses, matches, j, t);
        lemma_no_attenuation_against_itself(pulse);
        assert(matches.push((t as usize, t as usize)) =~= expected);
    } else {
        assert(Seq::<(usize, usize)>::empty() =~= expected);
    }
}

/// On the eye channels every output equals its teacher.
pub open spec fn eyes_agree(frames: Seq<VariantFrame>) -> bool {
    forall|i: int|
        0 <= i < frames.len() ==> {
            let left = ArkitBlendshape::EyeBlinkLeft.position();
            let right = ArkitBlendshape::EyeBlinkRight.position();
            &&& (#[trigger] frames[i]).output@[left] == frames[i].teacher@[left]
            &&& frames[i].output@[right] == frames[i].teacher@[right]
        }
}

/// The tracks of equal series have the same pulses.
proof fn lemma_equal_series_have_equal_pulses(frames: Seq<VariantFrame>, k: int)
    requires
        eyes_agree(frames),
        frames.len() <= usize::MAX,
        0 <= k < track_count(frames),
    ensures
        output_pulses(frames, k) == teacher_pulses(frames, k),
{
    crate::unified_ablation::lemma_take_runs_partition(frames, frames.len() as int);
    let run = take_runs(frames, frames.len() as int)[k / 2];
    assert(output_series(frames, run, track_channel(k)) =~= teacher_series(
        frames,
        run,
        track_channel(k),
    ));
}

/// The first `n` tracks of equal series match in full.
proof fn lemma_equal_series_are_scored_in_full(frames: Seq<VariantFrame>, n: int)
    requires
        eyes_agree(frames),
        frames.len() <= usize::MAX,
        0 <= n <= track_count(frames),
        scored_before(frames, n) is Some,
    ensures
        scored_before(frames, n)->0.len() == teacher_total(frames, n),
        output_total(frames, n) == teacher_total(frames, n),
    decreases n,
{
    if n > 0 {
        lemma_equal_series_are_scored_in_full(frames, n - 1);
        lemma_equal_series_have_equal_pulses(frames, n - 1);
        let pulses = teacher_pulses(frames, n - 1);
        crate::unified_ablation::lemma_take_runs_partition(frames, frames.len() as int);
        let run = take_runs(frames, frames.len() as int)[(n - 1) / 2];
        let series = teacher_series(frames, run, track_channel(n - 1));
        lemma_pulses_are_bounded(series, series.len() as int);
        lemma_pulses_match_themselves(pulses, pulses.len() as int);
    }
}

/// Equal series match themselves: where every output equals its teacher on the eye
/// channels, each event that is found is matched, none is missed and none is extra.
pub proof fn lemma_equal_series_match_themselves(
    frames: Seq<VariantFrame>,
    metrics: BlinkEventMetrics,
)
    requires
        eyes_agree(frames),
        frames.len() <= usize::MAX,
        scored_before(frames, track_count(frames)) is Some,
        metrics_of(metrics, frames, scored_before(frames, track_count(frames))->0),
    ensures
        metrics.missed_events == 0,
        metrics.extra_events == 0,
        metrics.matched_events == metrics.teacher_events,
{
    lemma_equal_series_are_scored_in_full(frames, track_count(frames));
}

} // verus!
