//! Same-frame teacher-minus-Direct residual dataset and linear decoder.

use vstd::prelude::*;
use vstd::string::*;

use crate::arkit::{
    arkit52_with_zero_tongue, in_unit_range, with_zero_tongue, Arkit52Coefficients, Arkit52ValueError,
    ARKIT_NON_TONGUE_CHANNEL_COUNT, ONE_BITS,
};
use crate::arkit_teacher::{follows_within, is_following, PairedTemporalSample, TeacherDatasetError};
use crate::binary::Binary32;
use crate::content_hash::{
    b32_list_bytes, b32_rows_bytes, fnv1a, fnv_of, put_b32_rows, put_b32s, put_text, put_texts, put_u32, put_u64,
    text_list_bytes, u32_bytes, u64_bytes, TEXT_END,
};
use crate::linear_map::{
    all_finite, copy_numbers, is_all_finite, map_values, LinearPriorFitError, LinearPriorLoadError, NormalizedLinearMapArtifact,
};
use crate::takes::{
    lemma_other_takes_are_not_selected, selected_positions, contains_take, names_take, same_takes, sorted_takes, strictly_ordered};

verus! {

/// Residual-decoder artifact schema.
pub const TEACHER_RESIDUAL_DECODER_SCHEMA_VERSION: u32 = 1;

/// Width of one history slot: direct and projected channels and the fit
/// residual.
pub const HISTORY_SLOT_WIDTH: usize = 103;

/// Width of the velocity block.
pub const VELOCITY_WIDTH: usize = 102;

/// Causal feature construction settings.
#[derive(Clone, Copy, Debug, PartialEq, Eq, Structural)]
pub struct TeacherResidualFeatureConfig {
    /// Number of current/past snapshots in each feature row.
    pub history_len: usize,
    /// Largest timestamp gap retained in one causal run.
    pub max_gap_micros: u64,
}

impl TeacherResidualFeatureConfig {
    /// Exact feature width for this configuration.
    pub open spec fn width(self) -> int {
        self.history_len * HISTORY_SLOT_WIDTH + VELOCITY_WIDTH + 1
    }

    /// Exact feature width for this configuration.
    pub fn feature_width(self) -> (width: usize)
        requires
            self.width() <= usize::MAX,
        ensures
            width == self.width(),
    {
        self.history_len * HISTORY_SLOT_WIDTH + VELOCITY_WIDTH + 1
    }
}

/// Feature layout used by the residual decoder.
pub const TEACHER_RESIDUAL_FEATURE_ORDER: &'static str =
    "v1:newest-first-history(direct-51+gnm-projected-51+gnm-residual)+velocity(direct-51+gnm-projected-51)+dt-seconds";

/// One same-frame supervised residual row.
#[derive(Clone, Debug, PartialEq)]
pub struct TeacherResidualRow {
    /// Capture take identity.
    pub take_id: String,
    /// Source frame sequence.
    pub frame_seq: u64,
    /// Source timestamp in microseconds.
    pub timestamp_micros: u64,
    /// Current/past features only.
    pub features: Vec<Binary32>,
    /// `teacher - Direct` of the non-tongue channels for this exact frame.
    pub target_residual: Vec<Binary32>,
}

/// Typed reason that a candidate frame was not emitted.
#[derive(Clone, Copy, Debug, PartialEq, Eq, Structural)]
pub enum TeacherResidualExclusion {
    /// MediaPipe Direct coefficients were absent.
    MissingDirect,
    /// Projected GNM state was absent.
    MissingGnmState,
    /// ARKit teacher coefficients were absent.
    MissingTeacher,
    /// Frame identity or timestamp continuity broke. The dataset builder restarts
    /// its history there and emits the frame, so it counts none.
    SequenceBoundary,
    /// Residual or generated feature was non-finite.
    NonFinite,
}

/// Generated rows and exclusion counts.
#[derive(Clone, Debug, PartialEq)]
pub struct TeacherResidualDataset {
    /// Accepted rows in capture order.
    pub rows: Vec<TeacherResidualRow>,
    /// Aggregated typed exclusions, in order of first occurrence.
    pub exclusions: Vec<(TeacherResidualExclusion, usize)>,
}

/// A trace with the feature settings.
pub struct ResidualSource<'a> {
    /// Samples in capture order.
    pub samples: &'a Vec<PairedTemporalSample>,
    /// Feature settings.
    pub config: TeacherResidualFeatureConfig,
}

/// Bit pattern of one million, the microseconds in a second.
pub const MICROS_PER_SECOND_BITS: u32 = 0x4974_2400;

/// Seconds of a span in microseconds.
pub open spec fn micros_to_seconds(micros: nat) -> Binary32 {
    Binary32::of_integer(micros).over(Binary32 { bits: MICROS_PER_SECOND_BITS })
}

/// Seconds of a span in microseconds.
pub fn seconds_of_micros(micros: u64) -> (seconds: Binary32)
    ensures
        seconds == micros_to_seconds(micros as nat),
{
    Binary32::from_integer(micros).quotient(Binary32::from_bits(MICROS_PER_SECOND_BITS))
}

/// `left - right`, element by element, of the non-tongue channels.
pub open spec fn channel_differences(left: Seq<Binary32>, right: Seq<Binary32>) -> Seq<Binary32> {
    Seq::new(
        ARKIT_NON_TONGUE_CHANNEL_COUNT as nat,
        |i: int| left[i].minus(right[i]),
    )
}

/// `left - right` of the non-tongue channels.
pub fn subtract_channels(left: &Arkit52Coefficients, right: &Arkit52Coefficients) -> (differences: Vec<
    Binary32,
>)
    ensures
        differences@ == channel_differences(left@, right@),
{
    let mut differences: Vec<Binary32> = Vec::new();
    for i in 0..ARKIT_NON_TONGUE_CHANNEL_COUNT
        invariant
            differences@.len() == i,
            forall|k: int| 0 <= k < i ==> #[trigger] differences@[k] == left@[k].minus(right@[k]),
    {
        differences.push(left.values[i].difference(right.values[i]));
    }
    assert(differences@ =~= channel_differences(left@, right@));
    differences
}

/// The sample has everything a row needs.
pub open spec fn is_complete(sample: PairedTemporalSample) -> bool {
    &&& sample.mediapipe_observation is Some
    &&& sample.gnm_state is Some
    &&& sample.teacher is Some
}

/// Component `offset` of a history slot filled from `sample`.
pub open spec fn slot_value(sample: PairedTemporalSample, offset: int) -> Binary32 {
    if offset < ARKIT_NON_TONGUE_CHANNEL_COUNT {
        sample.mediapipe_observation->0.direct_coefficients@[offset]
    } else if offset < 2 * ARKIT_NON_TONGUE_CHANNEL_COUNT {
        sample.gnm_state->0.projected_coefficients@[offset - ARKIT_NON_TONGUE_CHANNEL_COUNT]
    } else {
        sample.gnm_state->0.residual
    }
}

impl<'a> ResidualSource<'a> {
    /// A row fits in memory.
    pub open spec fn wf(self) -> bool {
        self.config.width() <= usize::MAX
    }

    /// Seconds from sample `j - 1` to sample `j`.
    pub open spec fn step_seconds(self, j: int) -> Binary32 {
        let now = self.samples@[j].timestamp_micros;
        let before = self.samples@[j - 1].timestamp_micros;
        micros_to_seconds(
            if now >= before {
                (now - before) as nat
            } else {
                0
            },
        )
    }

    /// Change per second of component `offset` of a history slot.
    pub open spec fn velocity_at(self, j: int, offset: int) -> Binary32 {
        slot_value(self.samples@[j], offset).minus(slot_value(self.samples@[j - 1], offset)).over(
            self.step_seconds(j),
        )
    }

    /// `teacher - Direct` of sample `j`.
    pub open spec fn target(self, j: int) -> Seq<Binary32> {
        channel_differences(
            self.samples@[j].teacher->0@,
            self.samples@[j].mediapipe_observation->0.direct_coefficients@,
        )
    }

    /// Feature `k` of sample `j` when `past` snapshots precede it in its run:
    /// the newest-first history, the velocities, and the time step.
    pub open spec fn feature_at(self, j: int, past: int, k: int) -> Binary32 {
        let zero = Binary32 { bits: 0 };
        let history = self.config.history_len * HISTORY_SLOT_WIDTH;
        let slot = k / (HISTORY_SLOT_WIDTH as int);
        let offset = k % (HISTORY_SLOT_WIDTH as int);
        let velocity = k - history;
        if k < history {
            if slot <= past {
                slot_value(self.samples@[j - slot], offset)
            } else {
                zero
            }
        } else if past == 0 {
            zero
        } else if velocity < VELOCITY_WIDTH {
            self.velocity_at(j, velocity)
        } else {
            self.step_seconds(j)
        }
    }

    /// The feature row of sample `j` when `past` snapshots precede it.
    pub open spec fn features(self, j: int, past: int) -> Seq<Binary32> {
        Seq::new(self.config.width() as nat, |k: int| self.feature_at(j, past, k))
    }

    /// Every number of the row is finite.
    pub open spec fn row_finite(self, j: int, past: int) -> bool {
        all_finite(self.features(j, past)) && all_finite(self.target(j))
    }

    /// Sample `j` continues the sample before it.
    pub open spec fn continues(self, j: int) -> bool {
        follows_within(self.samples@[j - 1], self.samples@[j], self.config.max_gap_micros)
    }

    /// Number of accepted samples in the unbroken run that ends before sample
    /// `n`.
    pub open spec fn run_before(self, n: int) -> int
        decreases n,
    {
        if n <= 0 {
            0
        } else {
            let j = n - 1;
            let run = self.run_before(j);
            let past = if run > 0 && self.continues(j) {
                run
            } else {
                0
            };
            if is_complete(self.samples@[j]) && self.row_finite(j, past) {
                past + 1
            } else {
                0
            }
        }
    }

    /// Number of snapshots before sample `j` that its row looks back on.
    pub open spec fn past(self, j: int) -> int {
        if self.run_before(j) > 0 && self.continues(j) {
            self.run_before(j)
        } else {
            0
        }
    }

    /// A row is emitted for sample `j`.
    pub open spec fn accepts(self, j: int) -> bool {
        is_complete(self.samples@[j]) && self.row_finite(j, self.past(j))
    }

    /// Why no row is emitted for sample `j`, if none is. A break in the sequence
    /// is no such reason: it only empties the history.
    pub open spec fn exclusion_at(self, j: int) -> Option<TeacherResidualExclusion> {
        let sample = self.samples@[j];
        if sample.mediapipe_observation is None {
            Some(TeacherResidualExclusion::MissingDirect)
        } else if sample.gnm_state is None {
            Some(TeacherResidualExclusion::MissingGnmState)
        } else if sample.teacher is None {
            Some(TeacherResidualExclusion::MissingTeacher)
        } else if !self.accepts(j) {
            Some(TeacherResidualExclusion::NonFinite)
        } else {
            None
        }
    }

    /// Accepted samples among the first `n`.
    pub open spec fn accepted_before(self, n: int) -> Seq<int>
        decreases n,
    {
        if n <= 0 {
            Seq::empty()
        } else if self.accepts(n - 1) {
            self.accepted_before(n - 1).push(n - 1)
        } else {
            self.accepted_before(n - 1)
        }
    }

    /// Exclusion counts of the first `n` samples.
    pub open spec fn tallies_before(self, n: int) -> Seq<(TeacherResidualExclusion, usize)>
        decreases n,
    {
        if n <= 0 {
            Seq::empty()
        } else {
            match self.exclusion_at(n - 1) {
                Some(reason) => tally(self.tallies_before(n - 1), reason),
                None => self.tallies_before(n - 1),
            }
        }
    }

    /// The row of sample `j`.
    pub open spec fn is_row(self, take_id: Seq<char>, j: int, row: TeacherResidualRow) -> bool {
        &&& row.take_id@ == take_id
        &&& row.frame_seq == self.samples@[j].frame_seq
        &&& row.timestamp_micros == self.samples@[j].timestamp_micros
        &&& row.features@ == self.features(j, self.past(j))
        &&& row.target_residual@ == self.target(j)
    }
}

/// No reason is listed twice.
pub open spec fn reasons_distinct(tallies: Seq<(TeacherResidualExclusion, usize)>) -> bool {
    forall|i: int, j: int|
        0 <= i < j < tallies.len() ==> (#[trigger] tallies[i]).0 != (#[trigger] tallies[j]).0
}

/// The reason is listed at position `i`.
pub open spec fn listed_at(
    tallies: Seq<(TeacherResidualExclusion, usize)>,
    reason: TeacherResidualExclusion,
    i: int,
) -> bool {
    0 <= i < tallies.len() && tallies[i].0 == reason
}

/// Counts one more exclusion; a new reason goes to the end.
pub open spec fn tally(
    tallies: Seq<(TeacherResidualExclusion, usize)>,
    reason: TeacherResidualExclusion,
) -> Seq<(TeacherResidualExclusion, usize)> {
    if exists|i: int| listed_at(tallies, reason, i) {
        let i = choose|i: int| listed_at(tallies, reason, i);
        tallies.update(i, (reason, (tallies[i].1 + 1) as usize))
    } else {
        tallies.push((reason, 1))
    }
}

/// Number of exclusions counted, over all reasons.
pub open spec fn total_count(tallies: Seq<(TeacherResidualExclusion, usize)>) -> nat
    decreases tallies.len(),
{
    if tallies.len() == 0 {
        0
    } else {
        total_count(tallies.drop_last()) + tallies.last().1 as nat
    }
}

/// Changing one count changes the total by as much.
proof fn lemma_total_of_update(
    tallies: Seq<(TeacherResidualExclusion, usize)>,
    i: int,
    entry: (TeacherResidualExclusion, usize),
)
    requires
        0 <= i < tallies.len(),
    ensures
        total_count(tallies.update(i, entry)) == total_count(tallies) + entry.1 - tallies[i].1,
    decreases tallies.len(),
{
    let changed = tallies.update(i, entry);
    if i < tallies.len() - 1 {
        assert(changed.drop_last() =~= tallies.drop_last().update(i, entry));
        lemma_total_of_update(tallies.drop_last(), i, entry);
    } else {
        assert(changed.drop_last() =~= tallies.drop_last());
    }
}

/// No single count exceeds the total.
proof fn lemma_count_within_total(tallies: Seq<(TeacherResidualExclusion, usize)>, i: int)
    requires
        0 <= i < tallies.len(),
    ensures
        tallies[i].1 <= total_count(tallies),
    decreases tallies.len(),
{
    if i < tallies.len() - 1 {
        assert(tallies.drop_last()[i] == tallies[i]);
        lemma_count_within_total(tallies.drop_last(), i);
    }
}

impl TeacherResidualDataset {
    /// Counts one more exclusion.
    fn exclude(&mut self, reason: TeacherResidualExclusion)
        requires
            reasons_distinct(old(self).exclusions@),
            total_count(old(self).exclusions@) < usize::MAX,
        ensures
            final(self).rows == old(self).rows,
            final(self).exclusions@ == tally(old(self).exclusions@, reason),
            reasons_distinct(final(self).exclusions@),
            total_count(final(self).exclusions@) == total_count(old(self).exclusions@) + 1,
    {
        let ghost before = self.exclusions@;
        let listed: usize = self.exclusions.len();
        for i in 0..listed
            invariant
                listed == before.len(),
                self.exclusions@ == before,
                self.rows == old(self).rows,
                before == old(self).exclusions@,
                reasons_distinct(before),
                total_count(before) < usize::MAX,
                forall|k: int| 0 <= k < i ==> (#[trigger] before[k]).0 != reason,
        {
            if self.exclusions[i].0 == reason {
                let count: usize = self.exclusions[i].1;
                assert(listed_at(before, reason, i as int));
                proof {
                    let chosen = choose|k: int| listed_at(before, reason, k);
                    assert(chosen == i);
                    lemma_count_within_total(before, i as int);
                    lemma_total_of_update(before, i as int, (reason, (count + 1) as usize));
                }
                self.exclusions[i] = (reason, count + 1);
                return;
            }
        }
        assert forall|k: int| !listed_at(before, reason, k) by {}
        self.exclusions.push((reason, 1));
        assert(self.exclusions@.drop_last() =~= before);
    }
}

proof fn lemma_run_is_bounded(source: ResidualSource, n: int)
    requires
        0 <= n,
    ensures
        0 <= source.run_before(n) <= n,
    decreases n,
{
    if n > 0 {
        lemma_run_is_bounded(source, n - 1);
    }
}

/// Samples inside a run are complete.
proof fn lemma_run_is_complete(source: ResidualSource, n: int, back: int)
    requires
        0 <= n,
        1 <= back <= source.run_before(n),
    ensures
        back <= n,
        is_complete(source.samples@[n - back]),
    decreases n,
{
    lemma_run_is_bounded(source, n);
    if back > 1 {
        lemma_run_is_complete(source, n - 1, back - 1);
    }
}

/// Component `offset` of a history slot filled from `sample`.
fn slot_component(sample: &PairedTemporalSample, offset: usize) -> (value: Binary32)
    requires
        is_complete(*sample),
        offset < HISTORY_SLOT_WIDTH,
    ensures
        value == slot_value(*sample, offset as int),
{
    if offset < ARKIT_NON_TONGUE_CHANNEL_COUNT {
        match &sample.mediapipe_observation {
            Some(observation) => observation.direct_coefficients.values[offset],
            None => Binary32::zero(),
        }
    } else {
        match &sample.gnm_state {
            Some(state) => if offset < 2 * ARKIT_NON_TONGUE_CHANNEL_COUNT {
                state.projected_coefficients.values[offset - ARKIT_NON_TONGUE_CHANNEL_COUNT]
            } else {
                state.residual
            },
            None => Binary32::zero(),
        }
    }
}

/// Feature `k` of sample `j`; `step` is the time since the sample before.
fn feature_value(source: &ResidualSource, j: usize, past: usize, step: Binary32, k: usize) -> (value:
    Binary32)
    requires
        source.wf(),
        j < source.samples@.len(),
        past == source.past(j as int),
        past > 0 ==> step == source.step_seconds(j as int),
        is_complete(source.samples@[j as int]),
        k < source.config.width(),
    ensures
        value == source.feature_at(j as int, past as int, k as int),
{
    let history: usize = source.config.history_len * HISTORY_SLOT_WIDTH;
    proof {
        lemma_run_is_bounded(*source, j as int);
    }
    if k < history {
        let slot: usize = k / HISTORY_SLOT_WIDTH;
        let offset: usize = k % HISTORY_SLOT_WIDTH;
        if slot > past {
            return Binary32::zero();
        }
        proof {
            if slot > 0 {
                lemma_run_is_complete(*source, j as int, slot as int);
            }
        }
        slot_component(&source.samples[j - slot], offset)
    } else if past == 0 {
        Binary32::zero()
    } else {
        let velocity: usize = k - history;
        if velocity < VELOCITY_WIDTH {
            proof {
                lemma_run_is_complete(*source, j as int, 1);
            }
            slot_component(&source.samples[j], velocity).difference(
                slot_component(&source.samples[j - 1], velocity),
            ).quotient(step)
        } else {
            step
        }
    }
}

/// The feature row of sample `j`.
fn feature_row(source: &ResidualSource, j: usize, past: usize) -> (features: Vec<Binary32>)
    requires
        source.wf(),
        j < source.samples@.len(),
        past == source.past(j as int),
        is_complete(source.samples@[j as int]),
    ensures
        features@ == source.features(j as int, past as int),
{
    let width: usize = source.config.feature_width();
    let mut features: Vec<Binary32> = Vec::with_capacity(width);
    proof {
        lemma_run_is_bounded(*source, j as int);
    }
    let step = if past > 0 {
        seconds_of_micros(
            source.samples[j].timestamp_micros.saturating_sub(
                source.samples[j - 1].timestamp_micros,
            ),
        )
    } else {
        Binary32::zero()
    };
    for k in 0..width
        invariant
            source.wf(),
            j < source.samples@.len(),
            past == source.past(j as int),
            past > 0 ==> step == source.step_seconds(j as int),
            is_complete(source.samples@[j as int]),
            width == source.config.width(),
            features@ =~= Seq::new(
                k as nat,
                |i: int| source.feature_at(j as int, past as int, i),
            ),
    {
        features.push(feature_value(source, j, past, step, k));
    }
    features
}

/// The dataset and the run length after the first `j` samples.
spec fn is_progress(
    source: ResidualSource,
    take_id: Seq<char>,
    dataset: TeacherResidualDataset,
    run: usize,
    j: int,
) -> bool {
    &&& run == source.run_before(j)
    &&& run <= j
    &&& dataset.rows@.len() == source.accepted_before(j).len()
    &&& forall|i: int|
        0 <= i < dataset.rows@.len() ==> source.is_row(
            take_id,
            source.accepted_before(j)[i],
            #[trigger] dataset.rows@[i],
        )
    &&& dataset.exclusions@ == source.tallies_before(j)
    &&& reasons_distinct(dataset.exclusions@)
    &&& dataset.rows@.len() + total_count(dataset.exclusions@) == j
}

/// Adds sample `j` to the dataset and gives the new run length.
fn take_sample(
    take_id: &String,
    source: &ResidualSource,
    dataset: &mut TeacherResidualDataset,
    run: usize,
    j: usize,
) -> (next: usize)
    requires
        source.wf(),
        j < source.samples@.len(),
        is_progress(*source, take_id@, *old(dataset), run, j as int),
    ensures
        is_progress(*source, take_id@, *final(dataset), next, j + 1),
{
    let sample = &source.samples[j];
    proof {
        assert(source.samples.len() == source.samples@.len());
    }
    if sample.mediapipe_observation.is_none() {
        dataset.exclude(TeacherResidualExclusion::MissingDirect);
        return 0;
    }
    if sample.gnm_state.is_none() {
        dataset.exclude(TeacherResidualExclusion::MissingGnmState);
        return 0;
    }
    if sample.teacher.is_none() {
        dataset.exclude(TeacherResidualExclusion::MissingTeacher);
        return 0;
    }
    let continuous = run > 0 && is_following(
        &source.samples[j - 1],
        sample,
        source.config.max_gap_micros,
    );
    let past: usize = if continuous {
        run
    } else {
        0
    };
    let features = feature_row(source, j, past);
    let target_residual = match (&sample.teacher, &sample.mediapipe_observation) {
        (Some(teacher), Some(observation)) => subtract_channels(
            teacher,
            &observation.direct_coefficients,
        ),
        _ => Vec::new(),
    };
    assert(target_residual@ == source.target(j as int));
    if !is_all_finite(&features) || !is_all_finite(&target_residual) {
        dataset.exclude(TeacherResidualExclusion::NonFinite);
        return 0;
    }
    let ghost before = dataset.rows@;
    dataset.rows.push(
        TeacherResidualRow {
            take_id: take_id.clone(),
            frame_seq: sample.frame_seq,
            timestamp_micros: sample.timestamp_micros,
            features,
            target_residual,
        },
    );
    proof {
        let accepted = source.accepted_before(j as int);
        assert(source.accepted_before(j + 1) == accepted.push(j as int));
        assert forall|i: int| 0 <= i < dataset.rows@.len() implies source.is_row(
            take_id@,
            source.accepted_before(j + 1)[i],
            #[trigger] dataset.rows@[i],
        ) by {
            if i < before.len() {
                assert(dataset.rows@[i] == before[i]);
                assert(source.is_row(take_id@, accepted[i], before[i]));
            }
        }
    }
    past + 1
}

/// Builds same-frame teacher residual rows without future-frame features. Each
/// sample gives a row or is counted under one reason; a break in the sequence
/// empties the history and still gives a row.
///
/// `pairing` is the outcome of validating the trace's frame pairing.
///
/// # Errors
///
/// Rejects an empty history, and passes a pairing failure on.
pub fn build_teacher_residual_rows(
    take_id: &String,
    source: &ResidualSource,
    pairing: Result<(), TeacherDatasetError>,
) -> (result: Result<TeacherResidualDataset, TeacherDatasetError>)
    requires
        source.wf(),
    ensures
        match result {
            Ok(dataset) => {
                let accepted = source.accepted_before(source.samples@.len() as int);
                &&& source.config.history_len > 0
                &&& pairing is Ok
                &&& dataset.rows@.len() == accepted.len()
                &&& forall|i: int|
                    0 <= i < accepted.len() ==> source.is_row(
                        take_id@,
                        accepted[i],
                        #[trigger] dataset.rows@[i],
                    )
                &&& dataset.exclusions@ == source.tallies_before(source.samples@.len() as int)
                &&& reasons_distinct(dataset.exclusions@)
                &&& dataset.rows@.len() + total_count(dataset.exclusions@)
                    == source.samples@.len()
            },
            Err(error) => {
                if source.config.history_len == 0 {
                    error == (TeacherDatasetError::NonFinite {
                        field: "history_len must be positive",
                    })
                } else {
                    pairing == Err::<(), TeacherDatasetError>(error)
                }
            },
        },
{
    if source.config.history_len == 0 {
        return Err(TeacherDatasetError::NonFinite { field: "history_len must be positive" });
    }
    if let Err(error) = pairing {
        return Err(error);
    }
    let mut dataset = TeacherResidualDataset { rows: Vec::new(), exclusions: Vec::new() };
    let mut run: usize = 0;
    let count: usize = source.samples.len();
    for j in 0..count
        invariant
            source.wf(),
            count == source.samples@.len(),
            source.config.history_len > 0,
            is_progress(*source, take_id@, dataset, run, j as int),
    {
        run = take_sample(take_id, source, &mut dataset, run, j);
    }
    Ok(dataset)
}

/// Rows look back only: what a trace emits for its first samples does not
/// depend on the samples after them.
pub proof fn lemma_future_does_not_change_rows(left: ResidualSource, right: ResidualSource, n: int)
    requires
        left.wf(),
        right.wf(),
        left.config == right.config,
        0 <= n <= left.samples@.len(),
        n <= right.samples@.len(),
        left.samples@.take(n) == right.samples@.take(n),
    ensures
        left.run_before(n) == right.run_before(n),
        left.accepted_before(n) == right.accepted_before(n),
        left.tallies_before(n) == right.tallies_before(n),
        forall|j: int|
            0 <= j < n ==> #[trigger] left.past(j) == right.past(j) && left.features(
                j,
                left.past(j),
            ) == right.features(j, right.past(j)),
    decreases n,
{
    if n > 0 {
        let j = n - 1;
        assert(left.samples@.take(j) =~= left.samples@.take(n).take(j));
        assert(right.samples@.take(j) =~= right.samples@.take(n).take(j));
        lemma_future_does_not_change_rows(left, right, j);
        assert forall|i: int| 0 <= i < n implies left.samples@[i] == right.samples@[i] by {
            assert(left.samples@[i] == left.samples@.take(n)[i]);
            assert(right.samples@[i] == right.samples@.take(n)[i]);
        }
        lemma_run_is_bounded(left, j);
        assert(left.past(j) == right.past(j));
        let past = left.past(j);
        assert(left.features(j, past) =~= right.features(j, past)) by {
            assert forall|k: int| 0 <= k < left.config.width() implies left.feature_at(j, past, k)
                == right.feature_at(j, past, k) by {
                let slot = k / (HISTORY_SLOT_WIDTH as int);
                if k < left.config.history_len * HISTORY_SLOT_WIDTH && slot <= past {
                    assert(0 <= j - slot < n);
                }
                if past > 0 {
                    assert(left.samples@[j - 1] == right.samples@[j - 1]);
                }
            }
        }
    }
}

/// Reusable per-frame feature lookup built by the dataset builder.
#[derive(Clone, Debug, PartialEq)]
pub struct TeacherResidualHistory {
    /// Sequence, timestamp and features of each row.
    pub rows: Vec<(u64, u64, Vec<Binary32>)>,
}

/// Features of the last row with this identity.
pub open spec fn history_lookup(
    rows: Seq<(u64, u64, Vec<Binary32>)>,
    frame_seq: u64,
    timestamp_micros: u64,
) -> Option<Seq<Binary32>>
    decreases rows.len(),
{
    if rows.len() == 0 {
        None
    } else if rows.last().0 == frame_seq && rows.last().1 == timestamp_micros {
        Some(rows.last().2@)
    } else {
        history_lookup(rows.drop_last(), frame_seq, timestamp_micros)
    }
}

impl TeacherResidualHistory {
    /// Builds causal features once for offline evaluation.
    ///
    /// # Errors
    ///
    /// Returns the dataset error when the source is invalid.
    pub fn build(
        take_id: &String,
        source: &ResidualSource,
        pairing: Result<(), TeacherDatasetError>,
    ) -> (result: Result<Self, TeacherDatasetError>)
        requires
            source.wf(),
        ensures
            match result {
                Ok(history) => {
                    let accepted = source.accepted_before(source.samples@.len() as int);
                    &&& source.config.history_len > 0
                    &&& pairing is Ok
                    &&& history.rows@.len() == accepted.len()
                    &&& forall|i: int|
                        0 <= i < accepted.len() ==> {
                            let row = #[trigger] history.rows@[i];
                            let j = accepted[i];
                            &&& row.0 == source.samples@[j].frame_seq
                            &&& row.1 == source.samples@[j].timestamp_micros
                            &&& row.2@ == source.features(j, source.past(j))
                        }
                },
                Err(error) => {
                    if source.config.history_len == 0 {
                        error == (TeacherDatasetError::NonFinite {
                            field: "history_len must be positive",
                        })
                    } else {
                        pairing == Err::<(), TeacherDatasetError>(error)
                    }
                },
            },
    {
        match build_teacher_residual_rows(take_id, source, pairing) {
            Err(error) => Err(error),
            Ok(dataset) => {
                let mut rows: Vec<(u64, u64, Vec<Binary32>)> = Vec::new();
                let ghost accepted = source.accepted_before(source.samples@.len() as int);
                for i in 0..dataset.rows.len()
                    invariant
                        dataset.rows@.len() == accepted.len(),
                        rows@.len() == i,
                        forall|k: int|
                            0 <= k < accepted.len() ==> source.is_row(
                                take_id@,
                                accepted[k],
                                #[trigger] dataset.rows@[k],
                            ),
                        forall|k: int|
                            0 <= k < i ==> {
                                let row = #[trigger] rows@[k];
                                let j = accepted[k];
                                &&& row.0 == source.samples@[j].frame_seq
                                &&& row.1 == source.samples@[j].timestamp_micros
                                &&& row.2@ == source.features(j, source.past(j))
                            },
                {
                    let row = &dataset.rows[i];
                    assert(source.is_row(take_id@, accepted[i as int], dataset.rows@[i as int]));
                    rows.push((row.frame_seq, row.timestamp_micros, copy_numbers(&row.features)));
                }
                Ok(TeacherResidualHistory { rows })
            },
        }
    }

    /// Features of the frame with this identity.
    pub fn features(&self, frame_seq: u64, timestamp_micros: u64) -> (features: Option<
        &Vec<Binary32>,
    >)
        ensures
            match features {
                Some(found) => history_lookup(self.rows@, frame_seq, timestamp_micros) == Some(
                    found@,
                ),
                None => history_lookup(self.rows@, frame_seq, timestamp_micros) is None,
            },
    {
        let mut at: usize = self.rows.len();
        assert(self.rows@.take(at as int) =~= self.rows@);
        while at > 0
            invariant
                at <= self.rows@.len(),
                history_lookup(self.rows@, frame_seq, timestamp_micros) == history_lookup(
                    self.rows@.take(at as int),
                    frame_seq,
                    timestamp_micros,
                ),
            decreases at,
        {
            at = at - 1;
            assert(self.rows@.take(at + 1).drop_last() =~= self.rows@.take(at as int));
            let row = &self.rows[at];
            if row.0 == frame_seq && row.1 == timestamp_micros {
                return Some(&row.2);
            }
        }
        None
    }
}

/// Versioned teacher-residual decoder artifact.
#[derive(Clone, Debug, PartialEq)]
pub struct TeacherResidualDecoderArtifact {
    /// Artifact schema.
    pub schema_version: u32,
    /// Exact feature order.
    pub feature_order: String,
    /// History slots used during fitting.
    pub history_len: usize,
    /// Maximum continuous gap used during fitting.
    pub max_gap_micros: u64,
    /// Sorted training-take identities.
    pub training_takes: Vec<String>,
    /// Ridge strength.
    pub ridge_lambda: Binary32,
    /// Normalized linear map.
    pub linear_map: NormalizedLinearMapArtifact,
    /// Stable hash of every preceding semantic field.
    pub content_hash: u64,
}

impl TeacherResidualDecoderArtifact {
    /// The bytes that the content hash covers.
    pub open spec fn hashed_bytes(self) -> Seq<u8> {
        u32_bytes(self.schema_version) + vstd::utf8::encode_utf8(self.feature_order@).push(TEXT_END)
            + u64_bytes(self.history_len as u64) + u64_bytes(self.max_gap_micros)
            + text_list_bytes(self.training_takes@) + u32_bytes(self.ridge_lambda.bits)
            + b32_list_bytes(self.linear_map.feature_mean@) + b32_list_bytes(
            self.linear_map.feature_std@,
        ) + b32_list_bytes(self.linear_map.target_mean@) + b32_list_bytes(
            self.linear_map.target_std@,
        ) + b32_rows_bytes(self.linear_map.weights@)
    }

    /// The stored hash covers the contents.
    pub open spec fn hash_matches(self) -> bool {
        self.content_hash == fnv_of(self.hashed_bytes())
    }

    /// The artifact and the features pass every check before prediction.
    pub open spec fn accepts(self, features: Seq<Binary32>) -> bool {
        &&& self.schema_version == TEACHER_RESIDUAL_DECODER_SCHEMA_VERSION
        &&& self.hash_matches()
        &&& self.linear_map.fits(features.len() as int)
        &&& all_finite(features)
        &&& self.linear_map.scales_usable()
    }

    /// The error owed for the first failed check.
    pub open spec fn is_refusal(
        self,
        features: Seq<Binary32>,
        error: LinearPriorLoadError,
    ) -> bool {
        if self.schema_version != TEACHER_RESIDUAL_DECODER_SCHEMA_VERSION {
            error == (LinearPriorLoadError::UnsupportedSchemaVersion {
                found: self.schema_version,
            })
        } else if !self.hash_matches() {
            error == (LinearPriorLoadError::ContentHashMismatch {
                recorded: self.content_hash,
                computed: fnv_of(self.hashed_bytes()),
            })
        } else if !self.linear_map.fits(features.len() as int) {
            &&& error matches LinearPriorLoadError::DimensionMismatch { detail }
            &&& detail@ == "teacher residual map dimensions disagree"@
        } else {
            &&& !(all_finite(features) && self.linear_map.scales_usable())
            &&& error matches LinearPriorLoadError::InvalidNormalization { field }
            &&& field@ == "teacher residual feature/normalization"@
        }
    }
}

/// Hash of every semantic field of a decoder artifact.
pub fn hash_teacher_residual_artifact(artifact: &TeacherResidualDecoderArtifact) -> (hash: u64)
    ensures
        hash == fnv_of(artifact.hashed_bytes()),
{
    let mut bytes: Vec<u8> = Vec::new();
    put_u32(&mut bytes, artifact.schema_version);
    put_text(&mut bytes, &artifact.feature_order);
    bytes.push(TEXT_END);
    put_u64(&mut bytes, artifact.history_len as u64);
    put_u64(&mut bytes, artifact.max_gap_micros);
    put_texts(&mut bytes, &artifact.training_takes);
    put_u32(&mut bytes, artifact.ridge_lambda.bits);
    put_b32s(&mut bytes, &artifact.linear_map.feature_mean);
    put_b32s(&mut bytes, &artifact.linear_map.feature_std);
    put_b32s(&mut bytes, &artifact.linear_map.target_mean);
    put_b32s(&mut bytes, &artifact.linear_map.target_std);
    put_b32_rows(&mut bytes, &artifact.linear_map.weights);
    assert(bytes@ =~= artifact.hashed_bytes());
    fnv1a(&bytes)
}

/// Checks schema, hash, dimensions, normalization and input values.
///
/// # Errors
///
/// Returns the first failed check.
pub fn check_teacher_residual(
    artifact: &TeacherResidualDecoderArtifact,
    features: &Vec<Binary32>,
) -> (result: Result<(), LinearPriorLoadError>)
    ensures
        match result {
            Ok(_) => artifact.accepts(features@),
            Err(error) => !artifact.accepts(features@) && artifact.is_refusal(features@, error),
        },
{
    if artifact.schema_version != TEACHER_RESIDUAL_DECODER_SCHEMA_VERSION {
        return Err(
            LinearPriorLoadError::UnsupportedSchemaVersion { found: artifact.schema_version },
        );
    }
    let computed: u64 = hash_teacher_residual_artifact(artifact);
    if computed != artifact.content_hash {
        return Err(
            LinearPriorLoadError::ContentHashMismatch {
                recorded: artifact.content_hash,
                computed,
            },
        );
    }
    if !artifact.linear_map.is_fitting(features.len()) {
        return Err(
            LinearPriorLoadError::DimensionMismatch {
                detail: "teacher residual map dimensions disagree".to_owned(),
            },
        );
    }
    if !is_all_finite(features) || !artifact.linear_map.has_usable_scales() {
        return Err(
            LinearPriorLoadError::InvalidNormalization {
                field: "teacher residual feature/normalization".to_owned(),
            },
        );
    }
    Ok(())
}

/// The residual that the artifact's map gives for the features.
pub open spec fn residual_prediction(
    artifact: TeacherResidualDecoderArtifact,
    features: Seq<Binary32>,
) -> Seq<Binary32> {
    map_values(artifact.linear_map, features, Binary32 { bits: 0 })
}

/// The outcome of predicting from the features.
pub open spec fn is_prediction(
    artifact: TeacherResidualDecoderArtifact,
    features: Seq<Binary32>,
    result: Result<Vec<Binary32>, LinearPriorLoadError>,
) -> bool {
    let raw = residual_prediction(artifact, features);
    match result {
        Ok(prediction) => {
            &&& artifact.accepts(features)
            &&& all_finite(raw)
            &&& prediction@ == raw
        },
        Err(error) => {
            if artifact.accepts(features) {
                &&& !all_finite(raw)
                &&& error matches LinearPriorLoadError::InvalidNormalization { field }
                &&& field@ == "teacher residual prediction"@
            } else {
                artifact.is_refusal(features, error)
            }
        },
    }
}

/// Predicts an unclamped signed teacher residual of the non-tongue channels.
///
/// # Errors
///
/// Rejects invalid schema, hash, dimensions, normalization, or input values,
/// and a prediction that is not finite.
pub fn predict_teacher_residual(
    artifact: &TeacherResidualDecoderArtifact,
    features: &Vec<Binary32>,
) -> (result: Result<Vec<Binary32>, LinearPriorLoadError>)
    ensures
        is_prediction(*artifact, features@, result),
{
    match check_teacher_residual(artifact, features) {
        Err(error) => Err(error),
        Ok(_) => {
            let raw = artifact.linear_map.apply(features, Binary32::zero());
            if !is_all_finite(&raw) {
                return Err(
                    LinearPriorLoadError::InvalidNormalization {
                        field: "teacher residual prediction".to_owned(),
                    },
                );
            }
            Ok(raw)
        },
    }
}

/// Validated residual decoder ready for offline prediction.
#[derive(Clone, Debug, PartialEq)]
pub struct LoadedTeacherResidualDecoder {
    /// The artifact that passed every check.
    pub artifact: TeacherResidualDecoderArtifact,
}

/// A feature row of zeros.
pub open spec fn zero_features(width: int) -> Seq<Binary32> {
    Seq::new(width as nat, |i: int| Binary32 { bits: 0 })
}

impl LoadedTeacherResidualDecoder {
    /// Validates schema, hash, order, and dimensions, by predicting from a
    /// feature row of zeros.
    ///
    /// # Errors
    ///
    /// Returns a typed load error when the artifact is incompatible.
    pub fn load(artifact: TeacherResidualDecoderArtifact, expected_feature_order: &str) -> (result: Result<
        Self,
        LinearPriorLoadError,
    >)
        requires
            artifact.history_len * HISTORY_SLOT_WIDTH + VELOCITY_WIDTH + 1 <= usize::MAX,
        ensures
            ({
                let zeros = zero_features(
                    artifact.history_len * HISTORY_SLOT_WIDTH + VELOCITY_WIDTH + 1,
                );
                match result {
                    Ok(decoder) => {
                        &&& decoder.artifact == artifact
                        &&& artifact.feature_order@ == expected_feature_order@
                        &&& artifact.accepts(zeros)
                        &&& all_finite(residual_prediction(artifact, zeros))
                    },
                    Err(error) => {
                        if artifact.feature_order@ != expected_feature_order@ {
                            &&& error matches LinearPriorLoadError::FeatureOrderMismatch {
                                expected,
                                found,
                            }
                            &&& expected@ == expected_feature_order@
                            &&& found@ == artifact.feature_order@
                        } else {
                            is_prediction(artifact, zeros, Err(error))
                        }
                    },
                }
            }),
    {
        let expected: String = expected_feature_order.to_owned();
        if artifact.feature_order != expected {
            return Err(
                LinearPriorLoadError::FeatureOrderMismatch {
                    expected,
                    found: artifact.feature_order.clone(),
                },
            );
        }
        let width: usize = artifact.history_len * HISTORY_SLOT_WIDTH + VELOCITY_WIDTH + 1;
        let mut zeros: Vec<Binary32> = Vec::new();
        for i in 0..width
            invariant
                zeros@ =~= zero_features(i as int),
        {
            zeros.push(Binary32::zero());
        }
        match predict_teacher_residual(&artifact, &zeros) {
            Ok(_) => Ok(LoadedTeacherResidualDecoder { artifact }),
            Err(error) => Err(error),
        }
    }
}

/// D/G0/H0 values aligned to one existing trace frame.
#[derive(Clone, Debug, PartialEq)]
pub struct ExistingTraceResidualVariants {
    /// MediaPipe Direct coefficients.
    pub direct: Arkit52Coefficients,
    /// Hand-projected GNM coefficients.
    pub gnm_projected: Arkit52Coefficients,
    /// Direct plus the learned residual, clamped only at this final boundary.
    pub hybrid_projected_residual: Arkit52Coefficients,
}

/// Typed failure while producing aligned offline ablation variants.
#[derive(Clone, Debug, PartialEq)]
pub enum ResidualAblationError {
    /// The frame has no Direct coefficients.
    MissingDirect,
    /// The frame has no projected GNM state.
    MissingGnmState,
    /// The history holds no row for this frame.
    MissingHistory,
    /// Decoder validation or prediction failed.
    Decoder(LinearPriorLoadError),
    /// Final ARKit52 reconstruction failed.
    InvalidOutput(Arkit52ValueError),
}

/// Each number clamped to `0..=1`.
pub open spec fn clamped_units(numbers: Seq<Binary32>) -> Seq<Binary32> {
    Seq::new(
        numbers.len(),
        |i: int| numbers[i].clamped(Binary32 { bits: 0 }, Binary32 { bits: ONE_BITS }),
    )
}

/// Position of the first number that is not finite.
pub open spec fn is_first_non_finite(numbers: Seq<Binary32>, at: int) -> bool {
    &&& 0 <= at < numbers.len()
    &&& !numbers[at].finite()
    &&& forall|i: int| 0 <= i < at ==> (#[trigger] numbers[i]).finite()
}

/// The outcome of clamping values to coefficients.
pub open spec fn is_clamping(
    values: Seq<Binary32>,
    result: Result<Arkit52Coefficients, Arkit52ValueError>,
) -> bool {
    match result {
        Ok(coefficients) => {
            &&& all_finite(values)
            &&& coefficients.valid()
            &&& coefficients@ == with_zero_tongue(clamped_units(values))
        },
        Err(error) => {
            &&& error matches Arkit52ValueError::NonFinite { channel }
            &&& is_first_non_finite(values, channel as int)
        },
    }
}

/// Clamps values that are numbers to `0..=1` and completes them with a zero
/// tongue.
fn clamp_numbers(values: &Vec<Binary32>) -> (result: Result<Arkit52Coefficients, Arkit52ValueError>)
    requires
        values@.len() == ARKIT_NON_TONGUE_CHANNEL_COUNT,
        forall|i: int| 0 <= i < values@.len() ==> !(#[trigger] values@[i]).nan(),
    ensures
        result matches Ok(coefficients) && coefficients.valid() && coefficients@
            == with_zero_tongue(clamped_units(values@)),
{
    let low = Binary32::zero();
    let high = Binary32::from_bits(ONE_BITS);
    let mut clamped: Vec<Binary32> = Vec::new();
    for i in 0..values.len()
        invariant
            low == (Binary32 { bits: 0 }),
            high == (Binary32 { bits: ONE_BITS }),
            clamped@ =~= clamped_units(values@.take(i as int)),
    {
        clamped.push(values[i].clamp(low, high));
    }
    assert(values@.take(values@.len() as int) =~= values@);
    assert forall|i: int| 0 <= i < clamped@.len() implies in_unit_range(#[trigger] clamped@[i]) by {
        assert(!values@[i].nan());
    }
    arkit52_with_zero_tongue(&clamped)
}

/// Clamps non-tongue values to `0..=1` and completes them with a zero tongue.
///
/// # Errors
///
/// Reports the first value that is not finite.
pub fn clamp_to_arkit52(values: &Vec<Binary32>) -> (result: Result<
    Arkit52Coefficients,
    Arkit52ValueError,
>)
    requires
        values@.len() == ARKIT_NON_TONGUE_CHANNEL_COUNT,
    ensures
        is_clamping(values@, result),
{
    for i in 0..values.len()
        invariant
            forall|j: int| 0 <= j < i ==> (#[trigger] values@[j]).finite(),
    {
        if !values[i].is_finite() {
            return Err(Arkit52ValueError::NonFinite { channel: i });
        }
    }
    clamp_numbers(values)
}

/// Direct value plus correction of each non-tongue channel.
pub open spec fn corrected(direct: Seq<Binary32>, residual: Seq<Binary32>) -> Seq<Binary32> {
    Seq::new(
        ARKIT_NON_TONGUE_CHANNEL_COUNT as nat,
        |i: int| direct[i].plus(residual[i]),
    )
}

/// The first channel whose Direct value or correction is not finite.
pub open spec fn is_first_bad_channel(
    direct: Seq<Binary32>,
    residual: Seq<Binary32>,
    at: int,
) -> bool {
    &&& 0 <= at < ARKIT_NON_TONGUE_CHANNEL_COUNT
    &&& !(direct[at].finite() && residual[at].finite())
    &&& forall|i: int| 0 <= i < at ==> (#[trigger] direct[i]).finite()
    &&& forall|i: int| 0 <= i < at ==> (#[trigger] residual[i]).finite()
}

/// The outcome of correcting Direct values.
pub open spec fn is_correction(
    direct: Seq<Binary32>,
    residual: Seq<Binary32>,
    result: Result<Arkit52Coefficients, Arkit52ValueError>,
) -> bool {
    match result {
        Ok(coefficients) => {
            &&& all_finite(direct.take(ARKIT_NON_TONGUE_CHANNEL_COUNT as int))
            &&& all_finite(residual)
            &&& coefficients.valid()
            &&& coefficients@ == with_zero_tongue(clamped_units(corrected(direct, residual)))
        },
        Err(error) => {
            &&& error matches Arkit52ValueError::NonFinite { channel }
            &&& is_first_bad_channel(direct, residual, channel as int)
        },
    }
}

/// Adds a signed residual to the non-tongue Direct values and clamps the final
/// output.
///
/// # Errors
///
/// Returns a typed ARKit value error for non-finite inputs.
pub fn apply_non_tongue_residual(direct: &Arkit52Coefficients, residual: &Vec<Binary32>) -> (result: Result<
    Arkit52Coefficients,
    Arkit52ValueError,
>)
    requires
        residual@.len() == ARKIT_NON_TONGUE_CHANNEL_COUNT,
    ensures
        is_correction(direct@, residual@, result),
{
    let mut sums: Vec<Binary32> = Vec::new();
    for i in 0..ARKIT_NON_TONGUE_CHANNEL_COUNT
        invariant
            residual@.len() == ARKIT_NON_TONGUE_CHANNEL_COUNT,
            sums@.len() == i,
            forall|k: int| 0 <= k < i ==> #[trigger] sums@[k] == direct@[k].plus(residual@[k]),
            forall|k: int| 0 <= k < i ==> !(#[trigger] sums@[k]).nan(),
            forall|k: int| 0 <= k < i ==> (#[trigger] direct@[k]).finite(),
            forall|k: int| 0 <= k < i ==> (#[trigger] residual@[k]).finite(),
    {
        if !direct.values[i].is_finite() || !residual[i].is_finite() {
            return Err(Arkit52ValueError::NonFinite { channel: i });
        }
        sums.push(direct.values[i].sum(residual[i]));
    }
    proof {
        assert(sums@ =~= corrected(direct@, residual@));
        assert forall|i: int| 0 <= i < 51 implies (#[trigger] direct@.take(51)[i]).finite() by {
            assert(direct@[i].finite());
        }
    }
    clamp_numbers(&sums)
}

/// Produces aligned D/G0/H0 variants of one trace frame.
///
/// # Errors
///
/// Returns a typed error for missing aligned inputs, features, or invalid
/// prediction.
pub fn existing_trace_residual_variants(
    sample: &PairedTemporalSample,
    history: &TeacherResidualHistory,
    decoder: &LoadedTeacherResidualDecoder,
) -> (result: Result<ExistingTraceResidualVariants, ResidualAblationError>)
    ensures
        ({
            let found = history_lookup(history.rows@, sample.frame_seq, sample.timestamp_micros);
            let raw = residual_prediction(decoder.artifact, found->0);
            let direct = sample.mediapipe_observation->0.direct_coefficients@;
            let predicted = found is Some && decoder.artifact.accepts(found->0) && all_finite(raw);
            match result {
                Ok(variants) => {
                    &&& sample.mediapipe_observation is Some
                    &&& sample.gnm_state is Some
                    &&& predicted
                    &&& variants.direct == sample.mediapipe_observation->0.direct_coefficients
                    &&& variants.gnm_projected == sample.gnm_state->0.projected_coefficients
                    &&& is_correction(direct, raw, Ok(variants.hybrid_projected_residual))
                },
                Err(ResidualAblationError::MissingDirect) => sample.mediapipe_observation is None,
                Err(ResidualAblationError::MissingGnmState) => {
                    sample.mediapipe_observation is Some && sample.gnm_state is None
                },
                Err(ResidualAblationError::MissingHistory) => {
                    &&& sample.mediapipe_observation is Some
                    &&& sample.gnm_state is Some
                    &&& found is None
                },
                Err(ResidualAblationError::Decoder(error)) => {
                    &&& sample.mediapipe_observation is Some
                    &&& sample.gnm_state is Some
                    &&& found is Some
                    &&& is_prediction(decoder.artifact, found->0, Err(error))
                },
                Err(ResidualAblationError::InvalidOutput(error)) => {
                    &&& sample.mediapipe_observation is Some
                    &&& sample.gnm_state is Some
                    &&& predicted
                    &&& is_correction(direct, raw, Err(error))
                },
            }
        }),
{
    let direct = match &sample.mediapipe_observation {
        Some(observation) => observation.direct_coefficients,
        None => {
            return Err(ResidualAblationError::MissingDirect);
        },
    };
    let gnm_projected = match &sample.gnm_state {
        Some(state) => state.projected_coefficients,
        None => {
            return Err(ResidualAblationError::MissingGnmState);
        },
    };
    let features = match history.features(sample.frame_seq, sample.timestamp_micros) {
        Some(features) => features,
        None => {
            return Err(ResidualAblationError::MissingHistory);
        },
    };
    match predict_teacher_residual(&decoder.artifact, features) {
        Err(error) => Err(ResidualAblationError::Decoder(error)),
        Ok(residual) => match apply_non_tongue_residual(&direct, &residual) {
            Ok(hybrid_projected_residual) => Ok(
                ExistingTraceResidualVariants { direct, gnm_projected, hybrid_projected_residual },
            ),
            Err(error) => Err(ResidualAblationError::InvalidOutput(error)),
        },
    }
}

/// Take ids of the rows.
pub open spec fn row_takes(rows: Seq<TeacherResidualRow>) -> Seq<Seq<char>> {
    Seq::new(rows.len(), |i: int| rows[i].take_id@)
}

/// Positions of the rows that belong to the takes.
pub open spec fn training_positions(rows: Seq<TeacherResidualRow>, takes: Seq<String>) -> Seq<
    usize,
> {
    selected_positions(row_takes(rows), takes, rows.len() as int)
}

/// Selects the rows to fit on: those of the explicitly selected takes.
///
/// # Errors
///
/// Rejects a selection without rows.
pub fn select_training_rows(rows: &Vec<TeacherResidualRow>, takes: &Vec<String>) -> (result: Result<
    Vec<usize>,
    LinearPriorFitError,
>)
    ensures
        match result {
            Ok(positions) => {
                &&& positions@.len() > 0
                &&& positions@ == training_positions(rows@, takes@)
            },
            Err(error) => {
                &&& error == LinearPriorFitError::EmptyTrainingSet
                &&& training_positions(rows@, takes@).len() == 0
            },
        },
{
    let mut positions: Vec<usize> = Vec::new();
    for i in 0..rows.len()
        invariant
            positions@ == selected_positions(row_takes(rows@), takes@, i as int),
    {
        if contains_take(takes, &rows[i].take_id) {
            positions.push(i);
        }
    }
    if positions.len() == 0 {
        return Err(LinearPriorFitError::EmptyTrainingSet);
    }
    Ok(positions)
}

/// Assembles a residual decoder fitted on the explicitly selected takes;
/// `fitted` is the ridge solver's outcome on the selected rows.
///
/// # Errors
///
/// Rejects a selection without rows, and passes a solver failure on.
pub fn fit_teacher_residual_decoder(
    rows: &Vec<TeacherResidualRow>,
    takes: &Vec<String>,
    feature_config: TeacherResidualFeatureConfig,
    ridge_lambda: Binary32,
    feature_order: &String,
    fitted: Result<NormalizedLinearMapArtifact, LinearPriorFitError>,
) -> (result: Result<TeacherResidualDecoderArtifact, LinearPriorFitError>)
    ensures
        match result {
            Ok(artifact) => {
                &&& training_positions(rows@, takes@).len() > 0
                &&& fitted == Ok::<_, LinearPriorFitError>(artifact.linear_map)
                &&& artifact.schema_version == TEACHER_RESIDUAL_DECODER_SCHEMA_VERSION
                &&& artifact.feature_order@ == feature_order@
                &&& artifact.history_len == feature_config.history_len
                &&& artifact.max_gap_micros == feature_config.max_gap_micros
                &&& strictly_ordered(artifact.training_takes@)
                &&& same_takes(artifact.training_takes@, takes@)
                &&& artifact.ridge_lambda == ridge_lambda
                &&& artifact.hash_matches()
            },
            Err(error) => {
                if training_positions(rows@, takes@).len() == 0 {
                    error == LinearPriorFitError::EmptyTrainingSet
                } else {
                    fitted == Err::<NormalizedLinearMapArtifact, _>(error)
                }
            },
        },
{
    if let Err(error) = select_training_rows(rows, takes) {
        return Err(error);
    }
    match fitted {
        Err(error) => Err(error),
        Ok(linear_map) => {
            let mut artifact = TeacherResidualDecoderArtifact {
                schema_version: TEACHER_RESIDUAL_DECODER_SCHEMA_VERSION,
                feature_order: feature_order.clone(),
                history_len: feature_config.history_len,
                max_gap_micros: feature_config.max_gap_micros,
                training_takes: sorted_takes(takes),
                ridge_lambda,
                linear_map,
                content_hash: 0,
            };
            artifact.content_hash = hash_teacher_residual_artifact(&artifact);
            Ok(artifact)
        },
    }
}

/// Rows of other takes do not take part in fitting: adding any number of them changes
/// neither the selection nor what the selected rows hold.
pub proof fn lemma_other_takes_do_not_take_part(
    rows: Seq<TeacherResidualRow>,
    takes: Seq<String>,
    extras: Seq<TeacherResidualRow>,
)
    requires
        forall|i: int| 0 <= i < extras.len() ==> !names_take(takes, (#[trigger] extras[i]).take_id@),
    ensures
        training_positions(rows + extras, takes) == training_positions(rows, takes),
{
    lemma_other_takes_are_not_selected(row_takes(rows), takes, row_takes(extras));
    assert(row_takes(rows + extras) =~= row_takes(rows) + row_takes(extras));
}

} // verus!
