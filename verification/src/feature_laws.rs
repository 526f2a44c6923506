//! What the feature rows hold: the newest frame first, older frames behind it as the rows
//! before held them, rates of change, and regions in one order whatever order they come in.

use vstd::prelude::*;

use crate::binary::Binary32;
use crate::closeness::{abs_of, lemma_difference_parts, lemma_quotient_parts};
use crate::gnm_semantic_decoder::{
    diagnostic_region, newest_step, point_share, region_count, region_features, region_position, regions_valid,
    semantic_features, slot_features, slots_before, velocities, GnmSemanticDecoderKind, SemanticFrameView,
};
use crate::landmark_control::{
    direct_values, landmark_features, landmark_slots_before, landmark_step, LandmarkFrameView,
};
use crate::arkit_teacher::{FaceRegion, GnmRegionFitRecord};
use crate::prediction_laws::{
    lemma_close_rate, lemma_micro_seconds_are_close, lemma_seconds_bounds, seconds,
};
use crate::rounding_error::{half_least_32, lemma_half_least, value_32};
use crate::teacher_residual::{micros_to_seconds, ResidualSource, HISTORY_SLOT_WIDTH};

verus! {

/// The rate is a change by a time, up to roundings.
pub open spec fn is_rate(rate: Binary32, now: Binary32, before: Binary32, micros: int) -> bool {
    let change = value_32(now) - value_32(before);
    0x10_0000 as real * (abs_of(value_32(rate) - change / seconds(micros)) - 2 as real * half_least_32()) <= abs_of(
        value_32(rate),
    )
}

/// A rounded rate of change.
proof fn lemma_rate(now: Binary32, before: Binary32, micros: int)
    requires
        now.finite(),
        before.finite(),
        1 <= micros <= u64::MAX,
        now.minus(before).over(micros_to_seconds(micros as nat)).finite(),
    ensures
        is_rate(now.minus(before).over(micros_to_seconds(micros as nat)), now, before, micros),
{
    let dt = micros_to_seconds(micros as nat);
    assert(dt == crate::reduced_temporal::micro_seconds(micros));
    let change = now.minus(before);
    lemma_half_least();
    lemma_seconds_bounds(micros);
    crate::prediction_laws::lemma_power(-20);
    assert(dt.magnitude() > 0);
    lemma_finite_dividend(change, dt);
    lemma_difference_parts(now, before);
    lemma_quotient_parts(change, dt);
    lemma_micro_seconds_are_close(micros);
    lemma_close_rate(
        value_32(change.over(dt)),
        value_32(change),
        value_32(now) - value_32(before),
        value_32(dt),
        seconds(micros),
        half_least_32(),
    );
}

/// A finite quotient by a finite number has a finite dividend.
proof fn lemma_finite_dividend(left: Binary32, right: Binary32)
    requires
        left.over(right).finite(),
        right.finite(),
    ensures
        left.finite(),
{
}

/// Behind its slots a semantic row holds the rates at which the reduced expression
/// changed between its two newest frames, and behind them the step itself.
pub proof fn lemma_semantic_rates_are_changes_by_time(
    history: Seq<SemanticFrameView>,
    kind: GnmSemanticDecoderKind,
    history_len: int,
    i: int,
)
    requires
        history.len() >= 2,
        history[0].timestamp_micros > history[1].timestamp_micros,
        0 <= i < history[0].reduced.len(),
        history[0].reduced.len() == history[1].reduced.len(),
        history[0].reduced[i].finite(),
        history[1].reduced[i].finite(),
        semantic_features(history, kind, history_len)[slots_before(history, kind, history_len).len() + i].finite(),
    ensures
        is_rate(
            semantic_features(history, kind, history_len)[slots_before(history, kind, history_len).len() + i],
            history[0].reduced[i],
            history[1].reduced[i],
            history[0].timestamp_micros - history[1].timestamp_micros,
        ),
{
    let step = history[0].timestamp_micros - history[1].timestamp_micros;
    let rates = velocities(history[0].reduced, history[1].reduced, newest_step(history));
    let at = slots_before(history, kind, history_len).len() + i;
    assert(semantic_features(history, kind, history_len)[at as int] == rates[i]);
    lemma_rate(history[0].reduced[i], history[1].reduced[i], step);
}

/// Behind its slots a landmark row holds the rates at which the latent changed between its
/// two newest frames.
pub proof fn lemma_landmark_rates_are_changes_by_time(
    history: Seq<LandmarkFrameView>,
    history_len: int,
    i: int,
)
    requires
        history.len() >= 2,
        history[0].timestamp_micros > history[1].timestamp_micros,
        0 <= i < history[0].latent.len(),
        history[0].latent.len() == history[1].latent.len(),
        history[0].latent[i].finite(),
        history[1].latent[i].finite(),
        landmark_features(history, history_len)[landmark_slots_before(history, history_len).len() + i].finite(),
    ensures
        is_rate(
            landmark_features(history, history_len)[landmark_slots_before(history, history_len).len() + i],
            history[0].latent[i],
            history[1].latent[i],
            history[0].timestamp_micros - history[1].timestamp_micros,
        ),
{
    let step = history[0].timestamp_micros - history[1].timestamp_micros;
    let rates = velocities(history[0].latent, history[1].latent, landmark_step(history));
    let at = landmark_slots_before(history, history_len).len() + i;
    assert(landmark_features(history, history_len)[at as int] == rates[i]);
    lemma_rate(history[0].latent[i], history[1].latent[i], step);
}

/// A new frame comes first: the slots of a history with one more frame are the slot of
/// that frame and behind it the slots that the history had before.
pub proof fn lemma_newest_frame_comes_first(
    frame: SemanticFrameView,
    history: Seq<SemanticFrameView>,
    kind: GnmSemanticDecoderKind,
    n: int,
)
    requires
        0 <= n <= history.len(),
    ensures
        slots_before(seq![frame] + history, kind, n + 1) == slot_features(frame, kind) + slots_before(
            history,
            kind,
            n,
        ),
    decreases n,
{
    let longer = seq![frame] + history;
    if n > 0 {
        lemma_newest_frame_comes_first(frame, history, kind, n - 1);
        assert(longer[n] == history[n - 1]);
        assert(slots_before(longer, kind, n + 1) =~= slot_features(frame, kind) + slots_before(history, kind, n));
    } else {
        assert(longer[0] == frame);
        reveal_with_fuel(slots_before, 2);
        assert(slots_before(longer, kind, 1) =~= slot_features(frame, kind) + slots_before(history, kind, 0));
    }
}

/// A new landmark frame comes first.
pub proof fn lemma_newest_landmarks_come_first(
    frame: LandmarkFrameView,
    history: Seq<LandmarkFrameView>,
    n: int,
)
    requires
        0 <= n <= history.len(),
    ensures
        landmark_slots_before(seq![frame] + history, n + 1) == frame.latent + direct_values(frame.direct)
            + landmark_slots_before(history, n),
    decreases n,
{
    let longer = seq![frame] + history;
    let first = frame.latent + direct_values(frame.direct);
    if n > 0 {
        lemma_newest_landmarks_come_first(frame, history, n - 1);
        assert(longer[n] == history[n - 1]);
        assert(landmark_slots_before(longer, n + 1) =~= first + landmark_slots_before(history, n));
    } else {
        assert(longer[0] == frame);
        reveal_with_fuel(landmark_slots_before, 2);
        assert(landmark_slots_before(longer, 1) =~= first + landmark_slots_before(history, 0));
    }
}

/// A residual row holds behind its first slot what the row of the sample before held from
/// its first slot on.
pub proof fn lemma_residual_history_moves_on(source: ResidualSource, j: int, past: int, k: int)
    requires
        source.wf(),
        1 <= j < source.samples@.len(),
        1 <= past <= j,
        0 <= k,
        k + HISTORY_SLOT_WIDTH < source.config.history_len * HISTORY_SLOT_WIDTH,
        k / (HISTORY_SLOT_WIDTH as int) < past,
    ensures
        source.feature_at(j, past, k + HISTORY_SLOT_WIDTH) == source.feature_at(j - 1, past - 1, k),
{
    let width = HISTORY_SLOT_WIDTH as int;
    assert((k + width) / width == k / width + 1 && (k + width) % width == k % width) by {
        vstd::arithmetic::div_mod::lemma_div_plus_one(k, width);
        vstd::arithmetic::div_mod::lemma_mod_add_multiples_vanish(k, width);
    }
}

/// Counting finds every record of a region.
proof fn lemma_count_covers(regions: Seq<GnmRegionFitRecord>, region: FaceRegion, i: int, j: int, n: int)
    requires
        0 <= i < n,
        0 <= j < n,
        n <= regions.len(),
        regions[i].region == region,
        regions[j].region == region,
    ensures
        region_count(regions, region, n) >= if i == j {
            1int
        } else {
            2int
        },
    decreases n,
{
    lemma_count_not_negative(regions, region, n - 1);
    if i == n - 1 || j == n - 1 {
        if i != j {
            let other = if i == n - 1 {
                j
            } else {
                i
            };
            lemma_count_covers(regions, region, other, other, n - 1);
        }
    } else {
        lemma_count_covers(regions, region, i, j, n - 1);
    }
}

proof fn lemma_count_not_negative(regions: Seq<GnmRegionFitRecord>, region: FaceRegion, n: int)
    ensures
        region_count(regions, region, n) >= 0,
    decreases n,
{
    if n > 0 {
        lemma_count_not_negative(regions, region, n - 1);
    }
}

proof fn lemma_position_is_first(
    regions: Seq<GnmRegionFitRecord>,
    region: FaceRegion,
    from: int,
    i: int,
)
    requires
        0 <= from <= i < regions.len(),
        regions[i].region == region,
    ensures
        from <= region_position(regions, region, from) <= i,
        regions[region_position(regions, region, from)].region == region,
    decreases regions.len() - from,
{
    if regions[from].region != region {
        lemma_position_is_first(regions, region, from + 1, i);
    }
}

proof fn lemma_region_features(regions: Seq<GnmRegionFitRecord>, n: int, r: int)
    requires
        0 <= r < n,
    ensures
        ({
            let record = regions[region_position(regions, diagnostic_region(r), 0)];
            &&& region_features(regions, n).len() == 2 * n
            &&& region_features(regions, n)[2 * r] == record.weighted_rms
            &&& region_features(regions, n)[2 * r + 1] == point_share(record)
        }),
    decreases n,
{
    lemma_region_features_len(regions, n - 1);
    if r < n - 1 {
        lemma_region_features(regions, n - 1, r);
    }
}

proof fn lemma_region_features_len(regions: Seq<GnmRegionFitRecord>, n: int)
    requires
        0 <= n,
    ensures
        region_features(regions, n).len() == 2 * n,
    decreases n,
{
    if n > 0 {
        lemma_region_features_len(regions, n - 1);
    }
}

/// Regions have their places in a row, whatever order their records come in: the record of
/// a region, wherever it stands, fills the region's two places.
pub proof fn lemma_regions_have_their_places(regions: Seq<GnmRegionFitRecord>, r: int, i: int)
    requires
        regions_valid(regions),
        0 <= r < 7,
        0 <= i < 7,
        regions[i].region == diagnostic_region(r),
    ensures
        region_features(regions, 7)[2 * r] == regions[i].weighted_rms,
        region_features(regions, 7)[2 * r + 1] == point_share(regions[i]),
{
    let region = diagnostic_region(r);
    lemma_region_features(regions, 7, r);
    lemma_position_is_first(regions, region, 0, i);
    let at = region_position(regions, region, 0);
    assert(region_count(regions, diagnostic_region(r), 7) == 1);
    if at != i {
        lemma_count_covers(regions, region, at, i, 7);
    }
}

} // verus!
