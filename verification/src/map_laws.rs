//! What the linear decoders do: they answer mean features with mean targets, respond to
//! each feature by its weight, and corrections undo what they were learned from.

use vstd::prelude::*;

use crate::arithmetic::lemma_plus_zero_keeps_value_32;
use crate::arithmetic_laws::{lemma_sum_is_monotone, lemma_units_of_zero, one};
use crate::arkit::{all_in_unit_range, in_unit_range, with_zero_tongue};
use crate::binary::Binary32;
use crate::closeness::{abs_of, lemma_sum_parts};
use crate::linear_map::{map_values, weighted_sum, NormalizedLinearMapArtifact};
use crate::metric_laws::{lemma_difference_term, lemma_unit_difference};
use crate::prediction_laws::{lemma_cut_value, lemma_unit_value};
use crate::rounding_error::value_32;
use crate::teacher_residual::{channel_differences, clamped_units, corrected};
use crate::unit_range::{lemma_self_quotient, lemma_signed_difference};

verus! {

/// The map has finite numbers and scales that can be divided by.
pub open spec fn is_sound(map: NormalizedLinearMapArtifact, width: int) -> bool {
    &&& map.fits(width)
    &&& forall|i: int| 0 <= i < width ==> (#[trigger] map.feature_mean@[i]).finite()
    &&& forall|i: int| 0 <= i < width ==> (#[trigger] map.feature_std@[i]).finite()
    &&& forall|i: int| 0 <= i < width ==> (#[trigger] map.feature_std@[i]).positive()
    &&& forall|t: int| 0 <= t < 51 ==> (#[trigger] map.target_mean@[t]).finite()
    &&& forall|t: int| 0 <= t < 51 ==> (#[trigger] map.target_std@[t]).finite()
    &&& forall|t: int, i: int|
        0 <= t < 51 && 0 <= i < width ==> (#[trigger] map.weights@[t]@[i]).finite()
}

/// The term of a feature that has its mean.
proof fn lemma_mean_feature_adds_nothing(feature: Binary32, mean: Binary32, std: Binary32, weight: Binary32)
    requires
        feature.finite(),
        mean.finite(),
        feature.same_number(mean),
        std.finite(),
        std.positive(),
        weight.finite(),
    ensures
        feature.minus(mean).over(std).times(weight).magnitude() == 0,
{
    feature.lemma_rank_orders_values(mean);
    lemma_units_of_zero();
    assert(feature.units() + mean.negated().units() == 0);
    assert(feature.minus(mean).magnitude() == 0);
    assert(feature.minus(mean).over(std).magnitude() == 0);
}

proof fn lemma_sum_at_the_means(
    map: NormalizedLinearMapArtifact,
    features: Seq<Binary32>,
    target: int,
    start: Binary32,
    n: int,
)
    requires
        is_sound(map, features.len() as int),
        0 <= target < 51,
        0 <= n <= features.len(),
        start.magnitude() == 0,
        forall|i: int| 0 <= i < n ==> (#[trigger] features[i]).same_number(map.feature_mean@[i]),
    ensures
        weighted_sum(map, features, target, start, n).magnitude() == 0,
    decreases n,
{
    if n > 0 {
        lemma_sum_at_the_means(map, features, target, start, n - 1);
        let i = n - 1;
        assert(map.feature_mean@[i].finite() && map.feature_std@[i].finite() && map.feature_std@[i].positive());
        assert(map.weights@[target]@[i].finite());
        assert(features[i].same_number(map.feature_mean@[i]));
        lemma_mean_feature_adds_nothing(
            features[i],
            map.feature_mean@[i],
            map.feature_std@[i],
            map.weights@[target]@[i],
        );
        let term = features[i].minus(map.feature_mean@[i]).over(map.feature_std@[i]).times(
            map.weights@[target]@[i],
        );
        lemma_plus_zero_keeps_value_32(weighted_sum(map, features, target, start, i), term);
    }
}

/// Mean features give mean targets.
pub proof fn lemma_mean_features_give_mean_targets(
    map: NormalizedLinearMapArtifact,
    features: Seq<Binary32>,
    start: Binary32,
    target: int,
)
    requires
        is_sound(map, features.len() as int),
        start.magnitude() == 0,
        0 <= target < 51,
        forall|i: int|
            0 <= i < features.len() ==> (#[trigger] features[i]).same_number(map.feature_mean@[i]),
    ensures
        map_values(map, features, start)[target].same_number(map.target_mean@[target]),
{
    lemma_sum_at_the_means(map, features, target, start, features.len() as int);
    let sum = weighted_sum(map, features, target, start, features.len() as int);
    assert(map.target_mean@[target].finite() && map.target_std@[target].finite());
    assert(sum.times(map.target_std@[target]).magnitude() == 0);
    lemma_plus_zero_keeps_value_32(map.target_mean@[target], sum.times(map.target_std@[target]));
}

proof fn lemma_sum_off_one_mean(
    map: NormalizedLinearMapArtifact,
    features: Seq<Binary32>,
    target: int,
    start: Binary32,
    k: int,
    n: int,
)
    requires
        is_sound(map, features.len() as int),
        0 <= target < 51,
        0 <= k < n <= features.len(),
        start.magnitude() == 0,
        features[k].minus(map.feature_mean@[k]) == map.feature_std@[k],
        forall|i: int|
            0 <= i < features.len() && i != k ==> (#[trigger] features[i]).same_number(map.feature_mean@[i]),
    ensures
        weighted_sum(map, features, target, start, n).same_number(map.weights@[target]@[k]),
    decreases n,
{
    let i = n - 1;
    let weight = map.weights@[target]@[i];
    let term = features[i].minus(map.feature_mean@[i]).over(map.feature_std@[i]).times(weight);
    let before = weighted_sum(map, features, target, start, i);
    assert(map.feature_mean@[i].finite() && map.feature_std@[i].finite() && map.feature_std@[i].positive());
    assert(weight.finite() && map.weights@[target]@[k].finite());
    if i == k {
        lemma_sum_at_the_means(map, features, target, start, i);
        lemma_self_quotient(map.feature_std@[i]);
        crate::arithmetic_laws::lemma_one_times(weight);
        assert(term == weight);
        lemma_zero_plus(before, weight);
    } else {
        lemma_sum_off_one_mean(map, features, target, start, k, i);
        assert(features[i].same_number(map.feature_mean@[i]));
        lemma_mean_feature_adds_nothing(features[i], map.feature_mean@[i], map.feature_std@[i], weight);
        lemma_plus_zero_keeps_value_32(before, term);
    }
}

/// Zero plus a number is the number.
proof fn lemma_zero_plus(zero: Binary32, number: Binary32)
    requires
        zero.magnitude() == 0,
        number.finite(),
    ensures
        zero.plus(number).same_number(number),
{
    lemma_plus_zero_keeps_value_32(number, zero);
    lemma_units_of_zero();
    assert(zero.units() + number.units() == number.units() + zero.units());
}

/// A feature one deviation above its mean moves each target by its weight in deviations
/// of the target.
pub proof fn lemma_a_feature_moves_targets_by_its_weight(
    map: NormalizedLinearMapArtifact,
    features: Seq<Binary32>,
    start: Binary32,
    target: int,
    k: int,
)
    requires
        is_sound(map, features.len() as int),
        start.magnitude() == 0,
        0 <= target < 51,
        0 <= k < features.len(),
        features[k].minus(map.feature_mean@[k]) == map.feature_std@[k],
        forall|i: int|
            0 <= i < features.len() && i != k ==> (#[trigger] features[i]).same_number(map.feature_mean@[i]),
        map.weights@[target]@[k].times(map.target_std@[target]).finite(),
        map.target_mean@[target].plus(map.weights@[target]@[k].times(map.target_std@[target])).finite(),
    ensures
        map_values(map, features, start)[target].same_number(
            map.target_mean@[target].plus(map.weights@[target]@[k].times(map.target_std@[target])),
        ),
{
    lemma_sum_off_one_mean(map, features, target, start, k, features.len() as int);
    let sum = weighted_sum(map, features, target, start, features.len() as int);
    let weight = map.weights@[target]@[k];
    assert(map.target_mean@[target].finite() && map.target_std@[target].finite());
    assert(weight.finite());
    if weight.magnitude() > 0 {
        assert(sum == weight);
    } else {
        assert(sum.times(map.target_std@[target]).magnitude() == 0);
        assert(weight.times(map.target_std@[target]).magnitude() == 0);
        lemma_plus_zero_keeps_value_32(map.target_mean@[target], sum.times(map.target_std@[target]));
        lemma_plus_zero_keeps_value_32(map.target_mean@[target], weight.times(map.target_std@[target]));
    }
}

/// The residual of a teacher corrects the direct values back to the teacher, up to
/// roundings, and the tongue stays at zero.
pub proof fn lemma_residual_restores_the_teacher(
    teacher: Seq<Binary32>,
    direct: Seq<Binary32>,
    restored: Seq<Binary32>,
    i: int,
)
    requires
        teacher.len() == 52,
        direct.len() == 52,
        all_in_unit_range(teacher),
        all_in_unit_range(direct),
        restored == with_zero_tongue(clamped_units(corrected(direct, channel_differences(teacher, direct)))),
        0 <= i < 51,
    ensures
        0x10_0000 as real * abs_of(value_32(restored[i]) - value_32(teacher[i])) <= 1 as real,
        restored[51] == (Binary32 { bits: 0 }),
{
    let (t, d) = (teacher[i], direct[i]);
    assert(in_unit_range(t) && in_unit_range(d));
    let residual = t.minus(d);
    let sum = d.plus(residual);
    lemma_unit_difference(t, d);
    lemma_difference_term(t, d);
    lemma_unit_value(t);
    lemma_unit_value(d);
    lemma_signed_difference(residual.negated(), d);
    assert(residual.negated().negated() == residual);
    lemma_sum_parts(d, residual);
    lemma_cut_value(sum);
}

/// No residual leaves the direct values alone, and a residual only moves its channel the
/// way its sign says.
pub proof fn lemma_residual_moves_by_its_sign(
    direct: Seq<Binary32>,
    residual: Seq<Binary32>,
    applied: Seq<Binary32>,
    i: int,
)
    requires
        direct.len() == 52,
        residual.len() == 51,
        all_in_unit_range(direct),
        residual[i].finite(),
        applied == with_zero_tongue(clamped_units(corrected(direct, residual))),
        0 <= i < 51,
    ensures
        residual[i].magnitude() == 0 ==> applied[i].same_number(direct[i]),
        residual[i].rank() >= 0 ==> direct[i].at_most(applied[i]),
        residual[i].rank() <= 0 ==> applied[i].at_most(direct[i]),
{
    let (d, r) = (direct[i], residual[i]);
    let zero = Binary32 { bits: 0 };
    assert(in_unit_range(d));
    lemma_plus_zero_keeps_value_32(d, zero);
    crate::arithmetic_laws::lemma_sum_is_a_number(d, r);
    if r.magnitude() == 0 {
        lemma_plus_zero_keeps_value_32(d, r);
    }
    if r.rank() >= 0 {
        lemma_sum_is_monotone(d, zero, d, r);
    }
    if r.rank() <= 0 {
        lemma_sum_is_monotone(d, r, d, zero);
    }
}

} // verus!
