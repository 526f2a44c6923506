//! Coefficient accuracy of one variant against the teacher, over the non-tongue
//! channels of exact common frames.

use vstd::prelude::*;

use crate::arkit::{same_numbers, ArkitBlendshape, ARKIT_NON_TONGUE_CHANNEL_COUNT};
use crate::binary::Binary64;
use crate::matrix::{sum_all, total};
use crate::temporal_metrics::{
    alike_but_tongue, lemma_channel_is_alike, lemma_tongue_does_not_move, measure_temporal, temporal_of,
    NonTongueTemporalMetrics,
};
use crate::unified_ablation::{
    distinct_identities, frame_order_error, identity, take_regresses, validate_frame_order, UnifiedAblationError,
    VariantFrame,
};

verus! {

/// Largest teacher value that counts as neutral (`0.05`).
pub const NEUTRAL_LEVEL_BITS: u64 = 0x3fa9_9999_9999_999a;

/// Smallest spread that a correlation is computed from.
pub const SPREAD_EPSILON_BITS: u64 = 0x3cb0_0000_0000_0000;

/// Accuracy for one non-tongue channel.
#[derive(Clone, Copy, Debug, PartialEq)]
pub struct NonTongueChannelMetrics {
    /// ARKit semantic.
    pub channel: ArkitBlendshape,
    /// Mean absolute error.
    pub mae: Binary64,
    /// Root mean square error.
    pub rmse: Binary64,
    /// Pearson correlation when the teacher has variance.
    pub pearson: Option<Binary64>,
    /// Signed prediction bias on frames where this teacher channel is at most `0.05`.
    pub neutral_bias: Option<Binary64>,
}

/// Error in one real bilateral `(left - right)` semantic pair.
#[derive(Clone, Copy, Debug, PartialEq)]
pub struct LeftRightDifferenceMetrics {
    /// Left semantic.
    pub left: ArkitBlendshape,
    /// Right semantic.
    pub right: ArkitBlendshape,
    /// MAE of predicted versus teacher `(left - right)`.
    pub difference_mae: Binary64,
}

/// Complete coefficient and temporal metrics for one variant.
#[derive(Clone, Debug, PartialEq)]
pub struct NonTongueVariantMetrics {
    /// Evaluated exact-common frame count.
    pub frame_count: usize,
    /// Mean of channel MAEs.
    pub macro_mae: Binary64,
    /// Mean of channel RMSE values.
    pub macro_rmse: Binary64,
    /// MAE over every frame/channel cell.
    pub micro_mae: Binary64,
    /// RMSE over every frame/channel cell.
    pub micro_rmse: Binary64,
    /// Per-channel accuracy in stable non-tongue order.
    pub channels: Vec<NonTongueChannelMetrics>,
    /// Bilateral semantic-difference errors.
    pub left_right: Vec<LeftRightDifferenceMetrics>,
    /// Timestamp-aware errors.
    pub temporal: NonTongueTemporalMetrics,
}

/// Teacher values of a channel.
pub open spec fn teacher_values(frames: Seq<VariantFrame>, c: int) -> Seq<Binary64> {
    Seq::new(frames.len(), |i: int| frames[i].teacher@[c].widened())
}

/// Output values of a channel.
pub open spec fn output_values(frames: Seq<VariantFrame>, c: int) -> Seq<Binary64> {
    Seq::new(frames.len(), |i: int| frames[i].output@[c].widened())
}

/// Differences of two lists.
pub open spec fn differences(left: Seq<Binary64>, right: Seq<Binary64>) -> Seq<Binary64> {
    Seq::new(left.len(), |i: int| left[i].minus(right[i]))
}

/// Errors of a channel.
pub open spec fn channel_errors(frames: Seq<VariantFrame>, c: int) -> Seq<Binary64> {
    differences(output_values(frames, c), teacher_values(frames, c))
}

/// Magnitudes of a list.
pub open spec fn magnitudes(numbers: Seq<Binary64>) -> Seq<Binary64> {
    Seq::new(numbers.len(), |i: int| numbers[i].absolute())
}

/// Products of two lists.
pub open spec fn products(left: Seq<Binary64>, right: Seq<Binary64>) -> Seq<Binary64> {
    Seq::new(left.len(), |i: int| left[i].times(right[i]))
}

/// Sum of the absolute errors of a channel.
pub open spec fn absolute_sum(frames: Seq<VariantFrame>, c: int) -> Binary64 {
    total(magnitudes(channel_errors(frames, c)))
}

/// Sum of the squared errors of a channel.
pub open spec fn square_sum(frames: Seq<VariantFrame>, c: int) -> Binary64 {
    total(products(channel_errors(frames, c), channel_errors(frames, c)))
}

/// Errors of the first `n` frames whose teacher is neutral.
pub open spec fn neutral_errors(teacher: Seq<Binary64>, errors: Seq<Binary64>, n: int) -> Seq<
    Binary64,
>
    decreases n,
{
    if n <= 0 {
        Seq::empty()
    } else if teacher[n - 1].at_most(Binary64 { bits: NEUTRAL_LEVEL_BITS }) {
        neutral_errors(teacher, errors, n - 1).push(errors[n - 1])
    } else {
        neutral_errors(teacher, errors, n - 1)
    }
}

/// Mean of a list; none of an empty one.
pub open spec fn mean_of(numbers: Seq<Binary64>) -> Option<Binary64> {
    if numbers.len() == 0 {
        None
    } else {
        Some(total(numbers).over(Binary64::of_integer(numbers.len())))
    }
}

/// A list less one number.
pub open spec fn centered(numbers: Seq<Binary64>, mean: Binary64) -> Seq<Binary64> {
    Seq::new(numbers.len(), |i: int| numbers[i].minus(mean))
}

/// Centered list of a list with its own mean.
pub open spec fn deviations(numbers: Seq<Binary64>) -> Seq<Binary64> {
    centered(numbers, total(numbers).over(Binary64::of_integer(numbers.len())))
}

/// Sum of the squared deviations of a list.
pub open spec fn spread(numbers: Seq<Binary64>) -> Binary64 {
    total(products(deviations(numbers), deviations(numbers)))
}

/// Pearson correlation; none where a spread is as good as zero.
pub open spec fn correlation(teacher: Seq<Binary64>, predicted: Seq<Binary64>) -> Option<Binary64> {
    let least = Binary64 { bits: SPREAD_EPSILON_BITS };
    if spread(teacher).at_most(least) || spread(predicted).at_most(least) {
        None
    } else {
        Some(
            total(products(deviations(teacher), deviations(predicted))).over(
                spread(teacher).times(spread(predicted)).root(),
            ),
        )
    }
}

/// Mean absolute error of a channel.
pub open spec fn channel_mae(frames: Seq<VariantFrame>, c: int) -> Binary64 {
    absolute_sum(frames, c).over(Binary64::of_integer(frames.len()))
}

/// Root mean square error of a channel.
pub open spec fn channel_rmse(frames: Seq<VariantFrame>, c: int) -> Binary64 {
    square_sum(frames, c).over(Binary64::of_integer(frames.len())).root()
}

/// The accuracy of channel `c`.
pub open spec fn is_channel_accuracy(
    frames: Seq<VariantFrame>,
    c: int,
    metrics: NonTongueChannelMetrics,
) -> bool {
    &&& metrics.channel.position() == c
    &&& metrics.mae == channel_mae(frames, c)
    &&& metrics.rmse == channel_rmse(frames, c)
    &&& metrics.pearson == correlation(teacher_values(frames, c), output_values(frames, c))
    &&& metrics.neutral_bias == mean_of(
        neutral_errors(
            teacher_values(frames, c),
            channel_errors(frames, c),
            frames.len() as int,
        ),
    )
}

/// Sum of the absolute errors of the first `n` channels.
pub open spec fn absolute_cells(frames: Seq<VariantFrame>, n: int) -> Binary64
    decreases n,
{
    if n <= 0 {
        Binary64 { bits: 0 }
    } else {
        absolute_cells(frames, n - 1).plus(absolute_sum(frames, n - 1))
    }
}

/// Sum of the squared errors of the first `n` channels.
pub open spec fn square_cells(frames: Seq<VariantFrame>, n: int) -> Binary64
    decreases n,
{
    if n <= 0 {
        Binary64 { bits: 0 }
    } else {
        square_cells(frames, n - 1).plus(square_sum(frames, n - 1))
    }
}

/// Difference error of a bilateral pair in one frame.
pub open spec fn difference_error(
    frame: VariantFrame,
    left: ArkitBlendshape,
    right: ArkitBlendshape,
) -> Binary64 {
    let teacher = frame.teacher@[left.position()].minus(frame.teacher@[right.position()]);
    let output = frame.output@[left.position()].minus(frame.output@[right.position()]);
    output.minus(teacher).absolute().widened()
}

/// The difference error of a bilateral pair over all frames.
pub open spec fn pair_metrics(
    frames: Seq<VariantFrame>,
    pair: (ArkitBlendshape, ArkitBlendshape),
) -> LeftRightDifferenceMetrics {
    LeftRightDifferenceMetrics {
        left: pair.0,
        right: pair.1,
        difference_mae: total(
            Seq::new(frames.len(), |i: int| difference_error(frames[i], pair.0, pair.1)),
        ).over(Binary64::of_integer(frames.len())),
    }
}

/// The metrics of a variant.
pub open spec fn is_variant_metrics(
    frames: Seq<VariantFrame>,
    pairs: Seq<(ArkitBlendshape, ArkitBlendshape)>,
    metrics: NonTongueVariantMetrics,
) -> bool {
    let cells = Binary64::of_integer((frames.len() * 51) as nat);
    let channels = Binary64::of_integer(51);
    &&& metrics.frame_count == frames.len()
    &&& metrics.macro_mae == total(Seq::new(51, |c: int| channel_mae(frames, c))).over(channels)
    &&& metrics.macro_rmse == total(Seq::new(51, |c: int| channel_rmse(frames, c))).over(channels)
    &&& metrics.micro_mae == absolute_cells(frames, 51).over(cells)
    &&& metrics.micro_rmse == square_cells(frames, 51).over(cells).root()
    &&& metrics.channels@.len() == 51
    &&& forall|c: int|
        0 <= c < 51 ==> is_channel_accuracy(frames, c, #[trigger] metrics.channels@[c])
    &&& metrics.left_right@ == Seq::new(
        pairs.len(),
        |p: int| pair_metrics(frames, pairs[p]),
    )
    &&& metrics.temporal == temporal_of(frames)
}

fn list_values(frames: &Vec<VariantFrame>, c: usize, teacher: bool) -> (values: Vec<Binary64>)
    requires
        c < 52,
    ensures
        values@ == (if teacher {
            teacher_values(frames@, c as int)
        } else {
            output_values(frames@, c as int)
        }),
{
    let mut values: Vec<Binary64> = Vec::new();
    for i in 0..frames.len()
        invariant
            c < 52,
            values@.len() == i,
            forall|j: int|
                0 <= j < i ==> #[trigger] values@[j] == (if teacher {
                    frames@[j].teacher@[c as int]
                } else {
                    frames@[j].output@[c as int]
                }).widened(),
    {
        let value = if teacher {
            frames[i].teacher.values[c]
        } else {
            frames[i].output.values[c]
        };
        values.push(value.widen());
    }
    if teacher {
        assert(values@ =~= teacher_values(frames@, c as int));
    } else {
        assert(values@ =~= output_values(frames@, c as int));
    }
    values
}

fn subtract_lists(left: &Vec<Binary64>, right: &Vec<Binary64>) -> (list: Vec<Binary64>)
    requires
        left@.len() == right@.len(),
    ensures
        list@ == differences(left@, right@),
{
    let mut list: Vec<Binary64> = Vec::new();
    for i in 0..left.len()
        invariant
            left@.len() == right@.len(),
            list@.len() == i,
            forall|j: int| 0 <= j < i ==> #[trigger] list@[j] == left@[j].minus(right@[j]),
    {
        list.push(left[i].difference(right[i]));
    }
    assert(list@ =~= differences(left@, right@));
    list
}

fn list_magnitudes(numbers: &Vec<Binary64>) -> (list: Vec<Binary64>)
    ensures
        list@ == magnitudes(numbers@),
{
    let mut list: Vec<Binary64> = Vec::new();
    for i in 0..numbers.len()
        invariant
            list@.len() == i,
            forall|j: int| 0 <= j < i ==> #[trigger] list@[j] == numbers@[j].absolute(),
    {
        list.push(numbers[i].abs());
    }
    assert(list@ =~= magnitudes(numbers@));
    list
}

fn multiply_lists(left: &Vec<Binary64>, right: &Vec<Binary64>) -> (list: Vec<Binary64>)
    requires
        left@.len() == right@.len(),
    ensures
        list@ == products(left@, right@),
{
    let mut list: Vec<Binary64> = Vec::new();
    for i in 0..left.len()
        invariant
            left@.len() == right@.len(),
            list@.len() == i,
            forall|j: int| 0 <= j < i ==> #[trigger] list@[j] == left@[j].times(right@[j]),
    {
        list.push(left[i].product(right[i]));
    }
    assert(list@ =~= products(left@, right@));
    list
}

fn list_neutral_errors(teacher: &Vec<Binary64>, errors: &Vec<Binary64>) -> (list: Vec<Binary64>)
    requires
        teacher@.len() == errors@.len(),
    ensures
        list@ == neutral_errors(teacher@, errors@, teacher@.len() as int),
{
    let level = Binary64::from_bits(NEUTRAL_LEVEL_BITS);
    let mut list: Vec<Binary64> = Vec::new();
    for i in 0..teacher.len()
        invariant
            level == (Binary64 { bits: NEUTRAL_LEVEL_BITS }),
            teacher@.len() == errors@.len(),
            list@ == neutral_errors(teacher@, errors@, i as int),
    {
        if teacher[i].is_at_most(level) {
            list.push(errors[i]);
        }
    }
    list
}

fn mean(numbers: &Vec<Binary64>) -> (mean: Option<Binary64>)
    ensures
        mean == mean_of(numbers@),
{
    if numbers.len() == 0 {
        None
    } else {
        Some(sum_all(numbers).quotient(Binary64::from_integer(numbers.len() as u64)))
    }
}

fn list_deviations(numbers: &Vec<Binary64>) -> (list: Vec<Binary64>)
    ensures
        list@ == deviations(numbers@),
{
    let mean = sum_all(numbers).quotient(Binary64::from_integer(numbers.len() as u64));
    let mut list: Vec<Binary64> = Vec::new();
    for i in 0..numbers.len()
        invariant
            list@.len() == i,
            forall|j: int| 0 <= j < i ==> #[trigger] list@[j] == numbers@[j].minus(mean),
    {
        list.push(numbers[i].difference(mean));
    }
    assert(list@ =~= deviations(numbers@));
    list
}

/// Pearson correlation of a prediction with a teacher that has variance.
pub fn pearson_with_teacher_variance(teacher: &Vec<Binary64>, predicted: &Vec<Binary64>) -> (result:
    Option<Binary64>)
    requires
        teacher@.len() == predicted@.len(),
    ensures
        result == correlation(teacher@, predicted@),
{
    let teacher_deviations = list_deviations(teacher);
    let predicted_deviations = list_deviations(predicted);
    let teacher_square = sum_all(&multiply_lists(&teacher_deviations, &teacher_deviations));
    let predicted_square = sum_all(&multiply_lists(&predicted_deviations, &predicted_deviations));
    let least = Binary64::from_bits(SPREAD_EPSILON_BITS);
    if teacher_square.is_at_most(least) || predicted_square.is_at_most(least) {
        return None;
    }
    let covariance = sum_all(&multiply_lists(&teacher_deviations, &predicted_deviations));
    Some(covariance.quotient(teacher_square.product(predicted_square).square_root()))
}

/// Bilateral semantic-difference errors of the given pairs.
pub fn left_right_metrics(
    frames: &Vec<VariantFrame>,
    pairs: &[(ArkitBlendshape, ArkitBlendshape)],
) -> (metrics: Vec<LeftRightDifferenceMetrics>)
    ensures
        metrics@ == Seq::new(pairs@.len(), |p: int| pair_metrics(frames@, pairs@[p])),
{
    let count = Binary64::from_integer(frames.len() as u64);
    let mut metrics: Vec<LeftRightDifferenceMetrics> = Vec::new();
    for p in 0..pairs.len()
        invariant
            count == Binary64::of_integer(frames@.len()),
            metrics@.len() == p,
            forall|q: int|
                0 <= q < p ==> #[trigger] metrics@[q] == pair_metrics(frames@, pairs@[q]),
    {
        let (left, right) = pairs[p];
        let mut errors: Vec<Binary64> = Vec::new();
        for i in 0..frames.len()
            invariant
                errors@.len() == i,
                forall|j: int|
                    0 <= j < i ==> #[trigger] errors@[j] == difference_error(
                        frames@[j],
                        left,
                        right,
                    ),
        {
            let teacher = frames[i].teacher.get(left).difference(frames[i].teacher.get(right));
            let output = frames[i].output.get(left).difference(frames[i].output.get(right));
            errors.push(output.difference(teacher).abs().widen());
        }
        assert(errors@ =~= Seq::new(
            frames@.len(),
            |i: int| difference_error(frames@[i], left, right),
        ));
        metrics.push(
            LeftRightDifferenceMetrics {
                left,
                right,
                difference_mae: sum_all(&errors).quotient(count),
            },
        );
    }
    assert(metrics@ =~= Seq::new(pairs@.len(), |p: int| pair_metrics(frames@, pairs@[p])));
    metrics
}

/// Accuracy of one channel, with its sums of absolute and squared errors.
fn measure_channel(frames: &Vec<VariantFrame>, channel: ArkitBlendshape, c: usize) -> (result: (
    NonTongueChannelMetrics,
    Binary64,
    Binary64,
))
    requires
        channel.position() == c,
        c < 51,
    ensures
        is_channel_accuracy(frames@, c as int, result.0),
        result.1 == absolute_sum(frames@, c as int),
        result.2 == square_sum(frames@, c as int),
{
    let teacher = list_values(frames, c, true);
    let predicted = list_values(frames, c, false);
    let errors = subtract_lists(&predicted, &teacher);
    let absolute = sum_all(&list_magnitudes(&errors));
    let square = sum_all(&multiply_lists(&errors, &errors));
    let neutral = list_neutral_errors(&teacher, &errors);
    let count = Binary64::from_integer(frames.len() as u64);
    (
        NonTongueChannelMetrics {
            channel,
            mae: absolute.quotient(count),
            rmse: square.quotient(count).square_root(),
            pearson: pearson_with_teacher_variance(&teacher, &predicted),
            neutral_bias: mean(&neutral),
        },
        absolute,
        square,
    )
}

/// Evaluates one already aligned variant over non-tongue channels only; `pairs` are
/// the bilateral semantics to compare.
///
/// # Errors
///
/// Rejects empty, misordered, or cross-take-regressing input.
pub fn evaluate_non_tongue_variant(
    frames: &Vec<VariantFrame>,
    pairs: &[(ArkitBlendshape, ArkitBlendshape)],
) -> (result: Result<NonTongueVariantMetrics, UnifiedAblationError>)
    requires
        frames@.len() * 51 <= usize::MAX,
    ensures
        match result {
            Ok(metrics) => {
                &&& frames@.len() > 0
                &&& frame_order_error(frames@) is None
                &&& is_variant_metrics(frames@, pairs@, metrics)
            },
            Err(error) => {
                if frames@.len() == 0 {
                    error == UnifiedAblationError::EmptyFrames
                } else {
                    frame_order_error(frames@) == Some(error)
                }
            },
        },
{
    if frames.len() == 0 {
        return Err(UnifiedAblationError::EmptyFrames);
    }
    if let Err(error) = validate_frame_order(frames) {
        return Err(error);
    }
    proof {
        assert forall|i: int|
            0 <= i < frames@.len() - 1 && (#[trigger] frames@[i]).take_id@ == frames@[i
                + 1].take_id@ implies frames@[i].timestamp_micros < frames@[i
            + 1].timestamp_micros by {
            assert(!take_regresses(frames@, i, i + 1));
        }
    }
    let all = ArkitBlendshape::all();
    let mut channels: Vec<NonTongueChannelMetrics> = Vec::new();
    let mut maes: Vec<Binary64> = Vec::new();
    let mut rmses: Vec<Binary64> = Vec::new();
    let mut micro_abs = Binary64::zero();
    let mut micro_square = Binary64::zero();
    for c in 0..ARKIT_NON_TONGUE_CHANNEL_COUNT
        invariant
            forall|i: int| 0 <= i < 52 ==> (#[trigger] all@[i]).position() == i,
            channels@.len() == c,
            maes@.len() == c,
            rmses@.len() == c,
            forall|i: int|
                0 <= i < c ==> is_channel_accuracy(frames@, i, #[trigger] channels@[i]),
            forall|i: int| 0 <= i < c ==> #[trigger] maes@[i] == channel_mae(frames@, i),
            forall|i: int| 0 <= i < c ==> #[trigger] rmses@[i] == channel_rmse(frames@, i),
            micro_abs == absolute_cells(frames@, c as int),
            micro_square == square_cells(frames@, c as int),
    {
        let (metrics, absolute, square) = measure_channel(frames, all[c], c);
        maes.push(metrics.mae);
        rmses.push(metrics.rmse);
        channels.push(metrics);
        micro_abs = micro_abs.sum(absolute);
        micro_square = micro_square.sum(square);
    }
    assert(maes@ =~= Seq::new(51, |c: int| channel_mae(frames@, c)));
    assert(rmses@ =~= Seq::new(51, |c: int| channel_rmse(frames@, c)));
    let cells = Binary64::from_integer((frames.len() * ARKIT_NON_TONGUE_CHANNEL_COUNT) as u64);
    let count = Binary64::from_integer(51);
    Ok(
        NonTongueVariantMetrics {
            frame_count: frames.len(),
            macro_mae: sum_all(&maes).quotient(count),
            macro_rmse: sum_all(&rmses).quotient(count),
            micro_mae: micro_abs.quotient(cells),
            micro_rmse: micro_square.quotient(cells).square_root(),
            channels,
            left_right: left_right_metrics(frames, pairs),
            temporal: measure_temporal(frames),
        },
    )
}

/// Two frames that a paired comparison may compare.
pub open spec fn paired(reference: VariantFrame, candidate: VariantFrame) -> bool {
    &&& reference.take_id@ == candidate.take_id@
    &&& reference.frame_seq == candidate.frame_seq
    &&& reference.timestamp_micros == candidate.timestamp_micros
    &&& same_numbers(reference.teacher@, candidate.teacher@)
}

/// Every frame is paired.
pub open spec fn all_paired(reference: Seq<VariantFrame>, candidate: Seq<VariantFrame>) -> bool {
    forall|i: int| 0 <= i < reference.len() ==> paired(#[trigger] reference[i], candidate[i])
}

/// How much farther the candidate is from the teacher than the reference, in one
/// channel.
pub open spec fn paired_term(reference: VariantFrame, candidate: VariantFrame, c: int) -> Binary64 {
    let teacher = reference.teacher@[c];
    candidate.output@[c].minus(teacher).absolute().minus(
        reference.output@[c].minus(teacher).absolute(),
    ).widened()
}

/// A sum continued over the first `c` channels of a frame.
pub open spec fn with_frame_terms(
    start: Binary64,
    reference: VariantFrame,
    candidate: VariantFrame,
    c: int,
) -> Binary64
    decreases c,
{
    if c <= 0 {
        start
    } else {
        with_frame_terms(start, reference, candidate, c - 1).plus(
            paired_term(reference, candidate, c - 1),
        )
    }
}

/// Sum over all channels of the first `n` frames.
pub open spec fn paired_sum(
    reference: Seq<VariantFrame>,
    candidate: Seq<VariantFrame>,
    n: int,
) -> Binary64
    decreases n,
{
    if n <= 0 {
        Binary64 { bits: 0 }
    } else {
        with_frame_terms(
            paired_sum(reference, candidate, n - 1),
            reference[n - 1],
            candidate[n - 1],
            51,
        )
    }
}

/// Mean paired absolute-error delta (`candidate - reference`) on exact frames.
///
/// # Errors
///
/// Rejects mismatched identities or frame counts.
pub fn paired_absolute_error_delta(
    reference: &Vec<VariantFrame>,
    candidate: &Vec<VariantFrame>,
) -> (result: Result<Binary64, UnifiedAblationError>)
    requires
        reference@.len() * 51 <= usize::MAX,
    ensures
        match result {
            Ok(delta) => {
                &&& reference@.len() == candidate@.len()
                &&& reference@.len() > 0
                &&& all_paired(reference@, candidate@)
                &&& delta == paired_sum(reference@, candidate@, reference@.len() as int).over(
                    Binary64::of_integer((reference@.len() * 51) as nat),
                )
            },
            Err(error) => {
                if reference@.len() != candidate@.len() || reference@.len() == 0 {
                    error == UnifiedAblationError::InvalidData("paired delta length")
                } else {
                    &&& !all_paired(reference@, candidate@)
                    &&& error == UnifiedAblationError::InvalidData("paired delta identity")
                }
            },
        },
{
    if reference.len() != candidate.len() || reference.len() == 0 {
        return Err(UnifiedAblationError::InvalidData("paired delta length"));
    }
    let mut delta = Binary64::zero();
    for i in 0..reference.len()
        invariant
            reference@.len() == candidate@.len(),
            delta == paired_sum(reference@, candidate@, i as int),
            forall|j: int| 0 <= j < i ==> paired(#[trigger] reference@[j], candidate@[j]),
    {
        let before = &reference[i];
        let after = &candidate[i];
        if before.take_id != after.take_id || before.frame_seq != after.frame_seq
            || before.timestamp_micros != after.timestamp_micros || !before.teacher.is_same(
            &after.teacher,
        ) {
            assert(!paired(reference@[i as int], candidate@[i as int]));
            return Err(UnifiedAblationError::InvalidData("paired delta identity"));
        }
        let ghost start = delta;
        for c in 0..ARKIT_NON_TONGUE_CHANNEL_COUNT
            invariant
                delta == with_frame_terms(start, *before, *after, c as int),
        {
            let teacher = before.teacher.values[c];
            let far = after.output.values[c].difference(teacher).abs();
            let near = before.output.values[c].difference(teacher).abs();
            delta = delta.sum(far.difference(near).widen());
        }
    }
    let cells = Binary64::from_integer((reference.len() * ARKIT_NON_TONGUE_CHANNEL_COUNT) as u64);
    Ok(delta.quotient(cells))
}

/// The tongue does not enter what another channel is measured by.
proof fn lemma_sums_are_alike(left: Seq<VariantFrame>, right: Seq<VariantFrame>, c: int)
    requires
        alike_but_tongue(left, right),
        0 <= c < 51,
    ensures
        teacher_values(left, c) == teacher_values(right, c),
        output_values(left, c) == output_values(right, c),
        absolute_sum(left, c) == absolute_sum(right, c),
        square_sum(left, c) == square_sum(right, c),
        channel_mae(left, c) == channel_mae(right, c),
        channel_rmse(left, c) == channel_rmse(right, c),
{
    assert forall|i: int| 0 <= i < left.len() implies (#[trigger] left[i]).teacher@[c]
        == right[i].teacher@[c] && left[i].output@[c] == right[i].output@[c] by {
        lemma_channel_is_alike(left, right, i, c);
    }
    assert(teacher_values(left, c) =~= teacher_values(right, c));
    assert(output_values(left, c) =~= output_values(right, c));
}

proof fn lemma_cells_are_alike(left: Seq<VariantFrame>, right: Seq<VariantFrame>, n: int)
    requires
        alike_but_tongue(left, right),
        n <= 51,
    ensures
        absolute_cells(left, n) == absolute_cells(right, n),
        square_cells(left, n) == square_cells(right, n),
    decreases n,
{
    if n > 0 {
        lemma_cells_are_alike(left, right, n - 1);
        lemma_sums_are_alike(left, right, n - 1);
    }
}

/// The tongue is not measured: frames that differ only in its coefficient are ordered
/// alike and have the same metrics, all of them, as long as no given pair names the
/// tongue.
pub proof fn lemma_tongue_is_not_measured(
    left: Seq<VariantFrame>,
    right: Seq<VariantFrame>,
    pairs: Seq<(ArkitBlendshape, ArkitBlendshape)>,
    metrics: NonTongueVariantMetrics,
)
    requires
        alike_but_tongue(left, right),
        left.len() <= usize::MAX,
        forall|p: int|
            0 <= p < pairs.len() ==> (#[trigger] pairs[p]).0.position() < 51 && pairs[p].1.position()
                < 51,
    ensures
        frame_order_error(left) == frame_order_error(right),
        is_variant_metrics(left, pairs, metrics) <==> is_variant_metrics(right, pairs, metrics),
        is_variant_metrics(left, pairs, metrics) ==> metrics.frame_count == left.len()
            && metrics.channels@.len() == 51,
{
    lemma_order_is_alike(left, right);
    assert forall|c: int| 0 <= c < 51 implies #[trigger] channel_mae(left, c) == channel_mae(
        right,
        c,
    ) && channel_rmse(left, c) == channel_rmse(right, c) by {
        lemma_sums_are_alike(left, right, c);
    }
    assert(Seq::new(51, |c: int| channel_mae(left, c)) =~= Seq::new(
        51,
        |c: int| channel_mae(right, c),
    ));
    assert forall|c: int| 0 <= c < 51 implies channel_rmse(left, c) == channel_rmse(right, c) by {
        assert(channel_mae(left, c) == channel_mae(right, c));
    }
    assert(Seq::new(51, |c: int| channel_rmse(left, c)) =~= Seq::new(
        51,
        |c: int| channel_rmse(right, c),
    ));
    lemma_cells_are_alike(left, right, 51);
    assert forall|c: int| 0 <= c < 51 implies is_channel_accuracy(
        left,
        c,
        #[trigger] metrics.channels@[c],
    ) == is_channel_accuracy(right, c, metrics.channels@[c]) by {
        lemma_sums_are_alike(left, right, c);
    }
    assert forall|p: int| 0 <= p < pairs.len() implies pair_metrics(left, #[trigger] pairs[p])
        == pair_metrics(right, pairs[p]) by {
        lemma_pair_is_alike(left, right, pairs[p]);
    }
    assert(Seq::new(pairs.len(), |p: int| pair_metrics(left, pairs[p])) =~= Seq::new(
        pairs.len(),
        |p: int| pair_metrics(right, pairs[p]),
    ));
    lemma_tongue_does_not_move(left, right);
    if is_variant_metrics(left, pairs, metrics) {
        assert forall|c: int| 0 <= c < 51 implies is_channel_accuracy(
            right,
            c,
            #[trigger] metrics.channels@[c],
        ) by {
            assert(is_channel_accuracy(left, c, metrics.channels@[c]));
        }
        assert(is_variant_metrics(right, pairs, metrics));
    }
    if is_variant_metrics(right, pairs, metrics) {
        assert forall|c: int| 0 <= c < 51 implies is_channel_accuracy(
            left,
            c,
            #[trigger] metrics.channels@[c],
        ) by {
            assert(is_channel_accuracy(right, c, metrics.channels@[c]));
        }
        assert(is_variant_metrics(left, pairs, metrics));
    }
}

/// The tongue does not enter the difference of a pair that does not name it.
proof fn lemma_pair_is_alike(
    left: Seq<VariantFrame>,
    right: Seq<VariantFrame>,
    pair: (ArkitBlendshape, ArkitBlendshape),
)
    requires
        alike_but_tongue(left, right),
        pair.0.position() < 51,
        pair.1.position() < 51,
    ensures
        pair_metrics(left, pair) == pair_metrics(right, pair),
{
    assert forall|i: int| 0 <= i < left.len() implies difference_error(
        #[trigger] left[i],
        pair.0,
        pair.1,
    ) == difference_error(right[i], pair.0, pair.1) by {
        lemma_channel_is_alike(left, right, i, pair.0.position());
        lemma_channel_is_alike(left, right, i, pair.1.position());
    }
    assert(Seq::new(left.len(), |i: int| difference_error(left[i], pair.0, pair.1)) =~= Seq::new(
        right.len(),
        |i: int| difference_error(right[i], pair.0, pair.1),
    ));
}

/// The tongue does not enter the order of the frames.
proof fn lemma_order_is_alike(left: Seq<VariantFrame>, right: Seq<VariantFrame>)
    requires
        alike_but_tongue(left, right),
    ensures
        frame_order_error(left) == frame_order_error(right),
{
    assert forall|i: int| 0 <= i < left.len() implies identity(#[trigger] right[i]) == identity(
        left[i],
    ) by {
        assert(left[i].take_id@ == right[i].take_id@);
    }
    if distinct_identities(left) {
        assert forall|i: int, j: int| 0 <= i < j < right.len() implies identity(
            #[trigger] right[i],
        ) != identity(#[trigger] right[j]) by {
            assert(identity(left[i]) != identity(left[j]));
        }
    }
    if distinct_identities(right) {
        assert forall|i: int, j: int| 0 <= i < j < left.len() implies identity(#[trigger] left[i])
            != identity(#[trigger] left[j]) by {
            assert(identity(right[i]) != identity(right[j]));
        }
    }
    assert(distinct_identities(left) == distinct_identities(right));
    assert forall|i: int, j: int| #[trigger] take_regresses(left, i, j) == take_regresses(
        right,
        i,
        j,
    ) by {
        if 0 <= i < j < left.len() {
            assert(left[i].take_id@ == right[i].take_id@);
            assert(left[j].take_id@ == right[j].take_id@);
        }
    }
    if exists|i: int, j: int| #[trigger] take_regresses(right, i, j) {
        let (i, j) = choose|i: int, j: int| #[trigger] take_regresses(right, i, j);
        assert(take_regresses(left, i, j));
    }
    if exists|i: int, j: int| #[trigger] take_regresses(left, i, j) {
        let (i, j) = choose|i: int, j: int| #[trigger] take_regresses(left, i, j);
        assert(take_regresses(right, i, j));
    }
}

} // verus!
