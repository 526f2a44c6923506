//! Normalized linear maps and the checks that guard their use.

use vstd::prelude::*;

use crate::arkit::ARKIT_NON_TONGUE_CHANNEL_COUNT;
use crate::binary::Binary32;

verus! {

/// Why a decoder artifact cannot be used on given features.
#[derive(Clone, Debug, PartialEq, Eq)]
#[allow(inconsistent_fields)]
pub enum LinearPriorLoadError {
    /// The artifact has another schema.
    UnsupportedSchemaVersion {
        /// Schema found in the artifact.
        found: u32,
    },
    /// The stored hash does not match the contents.
    ContentHashMismatch {
        /// Hash stored in the artifact.
        recorded: u64,
        /// Hash of the artifact's contents.
        computed: u64,
    },
    /// The feature layout differs.
    FeatureOrderMismatch {
        /// Layout that was asked for.
        expected: String,
        /// Layout of the artifact.
        found: String,
    },
    /// Dimensions disagree.
    DimensionMismatch {
        /// What disagrees.
        detail: String,
    },
    /// A number is not usable.
    InvalidNormalization {
        /// Which numbers.
        field: String,
    },
}

/// Why a decoder could not be fitted.
#[derive(Clone, Debug, PartialEq, Eq)]
pub enum LinearPriorFitError {
    /// No rows belong to the training takes.
    EmptyTrainingSet,
    /// The ridge solver rejected the rows.
    Rejected(String),
}

/// Normalized map embedded in a decoder artifact.
#[derive(Clone, Debug, PartialEq, Eq)]
pub struct NormalizedLinearMapArtifact {
    /// Per-feature training mean.
    pub feature_mean: Vec<Binary32>,
    /// Per-feature training standard deviation.
    pub feature_std: Vec<Binary32>,
    /// Per-target training mean.
    pub target_mean: Vec<Binary32>,
    /// Per-target training standard deviation.
    pub target_std: Vec<Binary32>,
    /// Normalized target-by-feature weight matrix.
    pub weights: Vec<Vec<Binary32>>,
}

/// Every number is finite.
pub open spec fn all_finite(numbers: Seq<Binary32>) -> bool {
    forall|i: int| 0 <= i < numbers.len() ==> (#[trigger] numbers[i]).finite()
}

/// Every number is finite and greater than zero.
pub open spec fn all_positive(numbers: Seq<Binary32>) -> bool {
    forall|i: int|
        0 <= i < numbers.len() ==> (#[trigger] numbers[i]).finite() && numbers[i].positive()
}

/// Every number of every row is finite.
pub open spec fn rows_finite(rows: Seq<Vec<Binary32>>) -> bool {
    forall|i: int| 0 <= i < rows.len() ==> all_finite((#[trigger] rows[i])@)
}

/// Every row has this width.
pub open spec fn rows_have_width(rows: Seq<Vec<Binary32>>, width: int) -> bool {
    forall|i: int| 0 <= i < rows.len() ==> (#[trigger] rows[i])@.len() == width
}

impl NormalizedLinearMapArtifact {
    /// The map takes `width` features to the non-tongue channels.
    pub open spec fn fits(self, width: int) -> bool {
        &&& self.feature_mean@.len() == width
        &&& self.feature_std@.len() == width
        &&& self.target_mean@.len() == ARKIT_NON_TONGUE_CHANNEL_COUNT
        &&& self.target_std@.len() == ARKIT_NON_TONGUE_CHANNEL_COUNT
        &&& self.weights@.len() == ARKIT_NON_TONGUE_CHANNEL_COUNT
        &&& rows_have_width(self.weights@, width)
    }

    /// Scales are positive and weights are finite.
    pub open spec fn scales_usable(self) -> bool {
        &&& all_positive(self.feature_std@)
        &&& all_positive(self.target_std@)
        &&& rows_finite(self.weights@)
    }

    /// Means are finite.
    pub open spec fn means_usable(self) -> bool {
        all_finite(self.feature_mean@) && all_finite(self.target_mean@)
    }

    /// Whether the map takes `width` features to the non-tongue channels.
    pub fn is_fitting(&self, width: usize) -> (fits: bool)
        ensures
            fits == self.fits(width as int),
    {
        if self.feature_mean.len() != width || self.feature_std.len() != width
            || self.target_mean.len() != ARKIT_NON_TONGUE_CHANNEL_COUNT || self.target_std.len()
            != ARKIT_NON_TONGUE_CHANNEL_COUNT || self.weights.len()
            != ARKIT_NON_TONGUE_CHANNEL_COUNT {
            return false;
        }
        for i in 0..self.weights.len()
            invariant
                forall|j: int| 0 <= j < i ==> (#[trigger] self.weights@[j])@.len() == width,
        {
            if self.weights[i].len() != width {
                return false;
            }
        }
        true
    }

    /// Whether scales are positive and weights are finite.
    pub fn has_usable_scales(&self) -> (usable: bool)
        ensures
            usable == self.scales_usable(),
    {
        is_all_positive(&self.feature_std) && is_all_positive(&self.target_std) && are_rows_finite(
            &self.weights,
        )
    }

    /// Whether means are finite.
    pub fn has_usable_means(&self) -> (usable: bool)
        ensures
            usable == self.means_usable(),
    {
        is_all_finite(&self.feature_mean) && is_all_finite(&self.target_mean)
    }
}

/// Weighted sum of the first `n` normalized features for one target, added to
/// `start` in order.
pub open spec fn weighted_sum(
    map: NormalizedLinearMapArtifact,
    features: Seq<Binary32>,
    target: int,
    start: Binary32,
    n: int,
) -> Binary32
    decreases n,
{
    if n <= 0 {
        start
    } else {
        let i = n - 1;
        weighted_sum(map, features, target, start, i).plus(
            features[i].minus(map.feature_mean@[i]).over(map.feature_std@[i]).times(
                map.weights@[target]@[i],
            ),
        )
    }
}

/// Value of the map for one target.
pub open spec fn map_value(
    map: NormalizedLinearMapArtifact,
    features: Seq<Binary32>,
    target: int,
    start: Binary32,
) -> Binary32 {
    map.target_mean@[target].plus(
        weighted_sum(map, features, target, start, features.len() as int).times(
            map.target_std@[target],
        ),
    )
}

/// Value of the map for every non-tongue channel; sums begin at `start`.
pub open spec fn map_values(
    map: NormalizedLinearMapArtifact,
    features: Seq<Binary32>,
    start: Binary32,
) -> Seq<Binary32> {
    Seq::new(
        ARKIT_NON_TONGUE_CHANNEL_COUNT as nat,
        |target: int| map_value(map, features, target, start),
    )
}

impl NormalizedLinearMapArtifact {
    /// Applies the map to a feature row; sums begin at `start`.
    pub fn apply(&self, features: &Vec<Binary32>, start: Binary32) -> (values: Vec<Binary32>)
        requires
            self.fits(features@.len() as int),
        ensures
            values@ == map_values(*self, features@, start),
    {
        let mut values: Vec<Binary32> = Vec::new();
        for target in 0..ARKIT_NON_TONGUE_CHANNEL_COUNT
            invariant
                self.fits(features@.len() as int),
                values@.len() == target,
                forall|t: int|
                    0 <= t < target ==> #[trigger] values@[t] == map_value(
                        *self,
                        features@,
                        t,
                        start,
                    ),
        {
            let weights = &self.weights[target];
            assert(self.weights@[target as int]@.len() == features@.len());
            let mut total = start;
            for i in 0..features.len()
                invariant
                    self.fits(features@.len() as int),
                    target < ARKIT_NON_TONGUE_CHANNEL_COUNT,
                    weights@ == self.weights@[target as int]@,
                    weights@.len() == features@.len(),
                    total == weighted_sum(*self, features@, target as int, start, i as int),
            {
                total =
                total.sum(
                    features[i].difference(self.feature_mean[i]).quotient(
                        self.feature_std[i],
                    ).product(weights[i]),
                );
            }
            values.push(self.target_mean[target].sum(total.product(self.target_std[target])));
        }
        assert(values@ =~= map_values(*self, features@, start));
        values
    }
}

/// Whether every number is finite.
pub fn is_all_finite(numbers: &[Binary32]) -> (finite: bool)
    ensures
        finite == all_finite(numbers@),
{
    for i in 0..numbers.len()
        invariant
            forall|j: int| 0 <= j < i ==> (#[trigger] numbers@[j]).finite(),
    {
        if !numbers[i].is_finite() {
            assert(!numbers@[i as int].finite());
            return false;
        }
    }
    true
}

/// Whether every number is finite and greater than zero.
pub fn is_all_positive(numbers: &[Binary32]) -> (positive: bool)
    ensures
        positive == all_positive(numbers@),
{
    for i in 0..numbers.len()
        invariant
            forall|j: int|
                0 <= j < i ==> (#[trigger] numbers@[j]).finite() && numbers@[j].positive(),
    {
        if !numbers[i].is_finite() || !numbers[i].is_positive() {
            assert(!(numbers@[i as int].finite() && numbers@[i as int].positive()));
            return false;
        }
    }
    true
}

/// Whether every number of every row is finite.
pub fn are_rows_finite(rows: &Vec<Vec<Binary32>>) -> (finite: bool)
    ensures
        finite == rows_finite(rows@),
{
    for i in 0..rows.len()
        invariant
            forall|j: int| 0 <= j < i ==> all_finite((#[trigger] rows@[j])@),
    {
        if !is_all_finite(&rows[i]) {
            assert(!all_finite(rows@[i as int]@));
            return false;
        }
    }
    true
}

/// Copies a list of numbers.
pub fn copy_numbers(numbers: &[Binary32]) -> (copy: Vec<Binary32>)
    ensures
        copy@ == numbers@,
{
    let mut copy: Vec<Binary32> = Vec::with_capacity(numbers.len());
    for i in 0..numbers.len()
        invariant
            copy@ =~= numbers@.take(i as int),
    {
        copy.push(numbers[i]);
    }
    assert(numbers@.take(numbers@.len() as int) =~= numbers@);
    copy
}

} // verus!
