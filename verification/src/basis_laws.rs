//! What the bases do to single movements: projecting, reconstructing and lifting read one
//! entry of the basis, and normalizing keeps the order of what it normalizes.

use vstd::prelude::*;

use crate::arithmetic::lemma_plus_zero_keeps_value_32;
use crate::arithmetic_laws::{
    lemma_integer_is_plain, lemma_sum_is_monotone, lemma_units_of_zero, plain,
};
use crate::binary::{Binary32, Binary64};
use crate::closeness::{
    abs_of, lemma_half_least_is_tiny, lemma_quotient_parts, lemma_sum_parts, lemma_value_32,
};
use crate::landmark_basis::{
    centroid, landmark_fault, landmark_scale, latent, latent_before, normalized_xy, LandmarkAlignedBasisArtifact,
};
use crate::mean_laws::real_sum;
use crate::observable_basis::{column_product, projected, reconstructed, row_product};
use crate::prediction_laws::lemma_power;
use crate::projection_laws::lemma_signed_quotient_is_monotone;
use crate::rounding_error::{half_least_32, lemma_half_least, lemma_quotient, lemma_sizes, value_32};
use crate::sway_laws::lemma_small_whole_32;
use crate::teacher_aligned_basis::{channel_mean, channel_std, mean_before, normalized_residual};

verus! {

/// Only one of the numbers is not zero.
pub open spec fn is_impulse(numbers: Seq<Binary32>, at: int) -> bool {
    &&& 0 <= at < numbers.len()
    &&& numbers[at].finite()
    &&& forall|i: int| 0 <= i < numbers.len() && i != at ==> (#[trigger] numbers[i]).magnitude() == 0
}

/// Every number is finite.
pub open spec fn entries_finite(basis: Seq<Binary32>) -> bool {
    forall|i: int| 0 <= i < basis.len() ==> (#[trigger] basis[i]).finite()
}

/// A product with a zero adds nothing.
proof fn lemma_nothing_added(sum: Binary32, left: Binary32, right: Binary32)
    requires
        sum.finite(),
        left.finite(),
        right.finite(),
        left.magnitude() == 0 || right.magnitude() == 0,
    ensures
        sum.plus(left.times(right)).same_number(sum),
        sum.plus(left.times(right)).finite(),
{
    assert(left.times(right).magnitude() == 0);
    lemma_plus_zero_keeps_value_32(sum, left.times(right));
}

/// A product added to a zero is the product.
proof fn lemma_first_added(sum: Binary32, product: Binary32)
    requires
        sum.magnitude() == 0,
        product.finite(),
    ensures
        sum.plus(product).same_number(product),
        sum.plus(product).finite(),
{
    lemma_plus_zero_keeps_value_32(product, sum);
    lemma_units_of_zero();
    assert(sum.units() + product.units() == product.units() + sum.units());
}

proof fn lemma_entry_fits(row: int, rank: int, column: int, rows: int)
    requires
        0 <= row < rows,
        0 <= column < rank,
    ensures
        0 <= row * rank + column < rows * rank,
{
    assert(0 <= row * rank + column < rows * rank) by (nonlinear_arith)
        requires
            0 <= row < rows,
            0 <= column < rank,
    ;
}

proof fn lemma_column_of_impulse(
    basis: Seq<Binary32>,
    expression: Seq<Binary32>,
    rank: int,
    column: int,
    at: int,
    n: int,
)
    requires
        entries_finite(basis),
        basis.len() == expression.len() * rank,
        0 <= column < rank,
        is_impulse(expression, at),
        basis[at * rank + column].times(expression[at]).finite(),
        0 <= n <= expression.len(),
    ensures
        column_product(basis, expression, rank, column, n).finite(),
        n <= at ==> column_product(basis, expression, rank, column, n).magnitude() == 0,
        n > at ==> column_product(basis, expression, rank, column, n).same_number(
            basis[at * rank + column].times(expression[at]),
        ),
    decreases n,
{
    if n > 0 {
        lemma_column_of_impulse(basis, expression, rank, column, at, n - 1);
        let sum = column_product(basis, expression, rank, column, n - 1);
        lemma_entry_fits(n - 1, rank, column, expression.len() as int);
        let entry = basis[(n - 1) * rank + column];
        assert(entry.finite());
        if n - 1 == at {
            lemma_first_added(sum, entry.times(expression[at]));
        } else {
            assert(expression[n - 1].magnitude() == 0);
            lemma_nothing_added(sum, entry, expression[n - 1]);
        }
    }
}

/// Projecting an expression that moves one row only reads that row of the basis.
pub proof fn lemma_projecting_reads_the_row(
    basis: Seq<Binary32>,
    expression: Seq<Binary32>,
    rank: int,
    at: int,
    column: int,
)
    requires
        entries_finite(basis),
        basis.len() == expression.len() * rank,
        0 <= column < rank,
        is_impulse(expression, at),
        basis[at * rank + column].times(expression[at]).finite(),
    ensures
        projected(basis, expression, rank)[column].same_number(
            basis[at * rank + column].times(expression[at]),
        ),
{
    lemma_column_of_impulse(basis, expression, rank, column, at, expression.len() as int);
}

proof fn lemma_row_of_impulse(
    basis: Seq<Binary32>,
    reduced: Seq<Binary32>,
    rank: int,
    row: int,
    rows: int,
    at: int,
    n: int,
)
    requires
        entries_finite(basis),
        basis.len() == rows * rank,
        0 <= row < rows,
        reduced.len() == rank,
        is_impulse(reduced, at),
        basis[row * rank + at].times(reduced[at]).finite(),
        0 <= n <= rank,
    ensures
        row_product(basis, reduced, rank, row, n).finite(),
        n <= at ==> row_product(basis, reduced, rank, row, n).magnitude() == 0,
        n > at ==> row_product(basis, reduced, rank, row, n).same_number(
            basis[row * rank + at].times(reduced[at]),
        ),
    decreases n,
{
    if n > 0 {
        lemma_row_of_impulse(basis, reduced, rank, row, rows, at, n - 1);
        let sum = row_product(basis, reduced, rank, row, n - 1);
        lemma_entry_fits(row, rank, n - 1, rows);
        let entry = basis[row * rank + (n - 1)];
        assert(entry.finite());
        if n - 1 == at {
            lemma_first_added(sum, entry.times(reduced[at]));
        } else {
            assert(reduced[n - 1].magnitude() == 0);
            lemma_nothing_added(sum, entry, reduced[n - 1]);
        }
    }
}

/// Reconstructing one coordinate reads its column of the basis.
pub proof fn lemma_reconstructing_reads_the_column(
    basis: Seq<Binary32>,
    reduced: Seq<Binary32>,
    rank: int,
    at: int,
    row: int,
)
    requires
        entries_finite(basis),
        basis.len() == 351 * rank,
        0 <= row < 351,
        reduced.len() == rank,
        is_impulse(reduced, at),
        basis[row * rank + at].times(reduced[at]).finite(),
    ensures
        reconstructed(basis, reduced, rank)[row].same_number(basis[row * rank + at].times(reduced[at])),
{
    lemma_row_of_impulse(basis, reduced, rank, row, 351, at, rank);
}

/// The source is the training mean but for one value.
pub open spec fn differs_at(source: Seq<Binary32>, basis: LandmarkAlignedBasisArtifact, at: int) -> bool {
    &&& 0 <= at < 956
    &&& source.len() == 956
    &&& forall|i: int|
        0 <= i < 956 ==> (#[trigger] source[i]).finite() && basis.source_mean@[i].finite()
    &&& forall|i: int|
        0 <= i < 956 && i != at ==> (#[trigger] source[i]).same_number(basis.source_mean@[i])
}

proof fn lemma_latent_of_difference(
    source: Seq<Binary32>,
    basis: LandmarkAlignedBasisArtifact,
    column: int,
    at: int,
    n: int,
)
    requires
        entries_finite(basis.basis_row_major@),
        basis.basis_row_major@.len() == 956 * basis.rank,
        0 <= column < basis.rank,
        differs_at(source, basis, at),
        source[at].minus(basis.source_mean@[at]).times(
            basis.basis_row_major@[at * basis.rank + column],
        ).finite(),
        0 <= n <= 956,
    ensures
        latent_before(source, basis, column, n).finite(),
        n <= at ==> latent_before(source, basis, column, n).magnitude() == 0,
        n > at ==> latent_before(source, basis, column, n).same_number(
            source[at].minus(basis.source_mean@[at]).times(
                basis.basis_row_major@[at * basis.rank + column],
            ),
        ),
    decreases n,
{
    if n > 0 {
        lemma_latent_of_difference(source, basis, column, at, n - 1);
        let sum = latent_before(source, basis, column, n - 1);
        let rank = basis.rank as int;
        lemma_entry_fits(n - 1, rank, column, 956);
        let entry = basis.basis_row_major@[(n - 1) * rank + column];
        assert(entry.finite());
        assert(source[n - 1].finite());
        let gap = source[n - 1].minus(basis.source_mean@[n - 1]);
        if n - 1 == at {
            lemma_first_added(sum, gap.times(entry));
        } else {
            assert(source[n - 1].same_number(basis.source_mean@[n - 1]));
            source[n - 1].lemma_rank_orders_values(basis.source_mean@[n - 1]);
            lemma_units_of_zero();
            assert(gap.magnitude() == 0);
            lemma_nothing_added(sum, gap, entry);
        }
    }
}

/// The latent of landmarks that differ from the training mean in one value is that
/// difference along the value's row of the basis.
pub proof fn lemma_latent_is_the_difference_along_the_basis(
    source: Seq<Binary32>,
    basis: LandmarkAlignedBasisArtifact,
    at: int,
    column: int,
)
    requires
        entries_finite(basis.basis_row_major@),
        basis.basis_row_major@.len() == 956 * basis.rank,
        0 <= column < basis.rank,
        differs_at(source, basis, at),
        source[at].minus(basis.source_mean@[at]).times(
            basis.basis_row_major@[at * basis.rank + column],
        ).finite(),
    ensures
        latent(source, basis)[column].same_number(
            source[at].minus(basis.source_mean@[at]).times(
                basis.basis_row_major@[at * basis.rank + column],
            ),
        ),
{
    lemma_latent_of_difference(source, basis, column, at, 956);
}

/// Normalizing landmarks keeps their order along each axis: a point farther right, or
/// farther down, stays so; a point on the centroid comes to zero.
pub proof fn lemma_normalizing_keeps_the_order(
    landmarks: Seq<[Binary32; 2]>,
    i: int,
    j: int,
    axis: int,
)
    requires
        landmark_fault(landmarks) is None,
        landmarks.len() == 478,
        0 <= i < 478,
        0 <= j < 478,
        0 <= axis < 2,
        landmarks[i]@[axis].at_most(landmarks[j]@[axis]),
        centroid(landmarks, axis).finite(),
        landmarks[i]@[axis].minus(centroid(landmarks, axis)).finite(),
        landmarks[j]@[axis].minus(centroid(landmarks, axis)).finite(),
    ensures
        normalized_xy(landmarks)[2 * i + axis].at_most(normalized_xy(landmarks)[2 * j + axis]),
        landmarks[i]@[axis].same_number(centroid(landmarks, axis)) ==> normalized_xy(landmarks)[2 * i
            + axis].magnitude() == 0,
{
    let center = centroid(landmarks, axis);
    let scale = landmark_scale(landmarks);
    let (a, b) = (landmarks[i]@[axis], landmarks[j]@[axis]);
    assert(crate::linear_map::all_finite(landmarks[i]@) && crate::linear_map::all_finite(landmarks[j]@));
    assert(a.finite() && b.finite());
    assert((2 * i + axis) / 2 == i && (2 * i + axis) % 2 == axis);
    assert((2 * j + axis) / 2 == j && (2 * j + axis) % 2 == axis);
    lemma_sum_is_monotone(a, center.negated(), b, center.negated());
    assert(plain(scale) && scale.magnitude() > 0);
    lemma_signed_quotient_is_monotone(a.minus(center), b.minus(center), scale);
    if a.same_number(center) {
        a.lemma_rank_orders_values(center);
        lemma_units_of_zero();
        assert(a.minus(center).magnitude() == 0);
    }
}

/// Normalizing residuals keeps their order within a channel.
pub proof fn lemma_normalized_residuals_keep_the_order(
    residuals: Seq<Seq<Binary32>>,
    left: int,
    right: int,
    channel: int,
)
    requires
        residuals[left][channel].finite(),
        residuals[right][channel].finite(),
        residuals[left][channel].at_most(residuals[right][channel]),
        channel_mean(residuals, channel).finite(),
        channel_std(residuals, channel).finite(),
        residuals[left][channel].minus(channel_mean(residuals, channel)).finite(),
        residuals[right][channel].minus(channel_mean(residuals, channel)).finite(),
    ensures
        normalized_residual(residuals, left, channel).at_most(normalized_residual(residuals, right, channel)),
        residuals[left][channel].same_number(channel_mean(residuals, channel)) ==> normalized_residual(
            residuals,
            left,
            channel,
        ).magnitude() == 0,
{
    let (a, b) = (residuals[left][channel], residuals[right][channel]);
    let mean = channel_mean(residuals, channel);
    let std = channel_std(residuals, channel);
    if (Binary32 { bits: crate::teacher_aligned_basis::INACTIVE_RESIDUAL_STD_THRESHOLD_BITS }).less(std) {
        assert(plain(std) && std.magnitude() > 0);
        lemma_sum_is_monotone(a, mean.negated(), b, mean.negated());
        lemma_signed_quotient_is_monotone(a.minus(mean), b.minus(mean), std);
        if a.same_number(mean) {
            a.lemma_rank_orders_values(mean);
            lemma_units_of_zero();
            assert(a.minus(mean).magnitude() == 0);
        }
    }
}

proof fn lemma_mean_before(residuals: Seq<Seq<Binary32>>, channel: int, n: int)
    requires
        0 <= n <= residuals.len(),
        0 < residuals.len() <= 0x10_0000,
        forall|i: int| 0 <= i < residuals.len() ==> (#[trigger] residuals[i])[channel].magnitude() <= 0x3f80_0000,
    ensures
        ({
            let mean = mean_before(residuals, channel, n);
            let exact = real_sum(|i: int| value_32(residuals[i][channel]), n) / residuals.len() as real;
            &&& mean.magnitude() <= 0x4000_0000
            &&& 0x40_0000 as real * abs_of(value_32(mean) - exact) <= n as real
        }),
    decreases n,
{
    let count = residuals.len();
    let k = count as real;
    let values = |i: int| value_32(residuals[i][channel]);
    if n > 0 {
        lemma_mean_before(residuals, channel, n - 1);
        let before = mean_before(residuals, channel, n - 1);
        let value = residuals[n - 1][channel];
        assert(residuals[n - 1][channel].magnitude() <= 0x3f80_0000);
        let divisor = Binary32::of_integer(count);
        let share = value.over(divisor);
        lemma_count_32(count);
        lemma_share_of_count(value, count);
        lemma_quotient_parts(value, divisor);
        lemma_half_least();
        lemma_half_least_is_tiny();
        let h = half_least_32();
        let big = 0x1_0000_0000_0000_0000 as real;
        assert(h * big <= 1 as real) by (nonlinear_arith)
            requires
                h * big * big <= 1 as real,
                big >= 1 as real,
                h > 0 as real,
        ;
        crate::metric_laws::lemma_signed_value(share);
        let s = real_sum(values, n - 1);
        let v = value_32(value);
        assert((s + v) / k == s / k + v / k) by (nonlinear_arith)
            requires
                k > 0 as real,
        ;
        lemma_mean_stays_small(residuals, channel, n);
        lemma_two_value(before);
        lemma_two_value(before.plus(share));
        lemma_sum_parts(before, share);
        assert(real_sum(values, n) == s + v);
    } else {
        lemma_sizes(Binary32 { bits: 0 }, Binary64 { bits: 0 });
        lemma_value_32(Binary32 { bits: 0 });
        assert(0 as real / k == 0 as real) by (nonlinear_arith)
            requires
                k > 0 as real,
        ;
    }
}

/// The value of a number up to two.
proof fn lemma_two_value(number: Binary32)
    requires
        number.magnitude() <= 0x4000_0000,
    ensures
        number.finite(),
        abs_of(value_32(number)) <= 2 as real,
{
    let two = Binary32 { bits: 0x4000_0000 };
    lemma_power(1);
    assert(two == crate::prediction_laws::power(1));
    lemma_value_32(number);
    lemma_value_32(number.absolute());
    crate::translation_laws::lemma_order_of_values(number.absolute(), two);
    crate::arithmetic_laws::lemma_units_of_one();
    crate::arithmetic_laws::lemma_doubled_units(0x3f80_0000);
    vstd::arithmetic::power2::lemma_pow2_pos(149);
    let t = vstd::arithmetic::power2::pow2(149) as real;
    assert((2 as real * t) / t == 2 as real) by (nonlinear_arith)
        requires
            t > 0 as real,
    ;
}

/// A count is a number.
proof fn lemma_count_32(count: nat)
    requires
        0 < count <= 0x10_0000,
    ensures
        plain(Binary32::of_integer(count)),
        Binary32::of_integer(count).magnitude() > 0,
        value_32(Binary32::of_integer(count)) == count as real,
{
    lemma_small_whole_32(count);
    lemma_integer_is_plain(count);
    vstd::arithmetic::power2::lemma_pow2_pos(149);
    let t = vstd::arithmetic::power2::pow2(149) as real;
    crate::rounding_error::lemma_real_product(count as int, vstd::arithmetic::power2::pow2(149) as int);
    assert((count as real * t) / t == count as real) by (nonlinear_arith)
        requires
            t > 0 as real,
    ;
}

/// A share of a number of the signed range stays in it.
proof fn lemma_share_of_count(value: Binary32, count: nat)
    requires
        value.magnitude() <= 0x3f80_0000,
        0 < count <= 0x10_0000,
    ensures
        value.over(Binary32::of_integer(count)).magnitude() <= 0x3f80_0000,
{
    let divisor = Binary32::of_integer(count);
    lemma_count_32(count);
    lemma_small_whole_32(1);
    crate::arithmetic_laws::lemma_integers_are_monotone(1, count);
    let one = crate::arithmetic_laws::one();
    lemma_signed_quotient_is_monotone(value.absolute(), one, divisor);
    crate::projection_laws::lemma_sized_quotient(value, divisor);
    lemma_one_by_count(count);
}

/// One by a count is at most one.
proof fn lemma_one_by_count(count: nat)
    requires
        0 < count <= 0x10_0000,
    ensures
        crate::arithmetic_laws::one().over(Binary32::of_integer(count)).magnitude() <= 0x3f80_0000,
{
    let one = crate::arithmetic_laws::one();
    let divisor = Binary32::of_integer(count);
    lemma_count_32(count);
    lemma_small_whole_32(count);
    crate::arithmetic_laws::lemma_units_of_one();
    vstd::arithmetic::power2::lemma_pow2_pos(149);
    let unit = vstd::arithmetic::power2::pow2(149);
    let b = divisor.units() as nat;
    assert(unit * unit <= unit * b && b > 0) by (nonlinear_arith)
        requires
            b == count * unit,
            count >= 1,
            unit > 0,
    ;
    vstd::arithmetic::power2::lemma2_to64();
    vstd::arithmetic::power2::lemma2_to64_rest();
    crate::arithmetic::lemma_nearest_of_exact_32(0x3f80_0000, b);
    crate::rounding::lemma_nearest_ratio_is_monotone(unit * unit, unit * b, b, 23, 255);
    crate::arithmetic_laws::lemma_rounded_is_a_number(unit * unit, b);
}

/// Running means of numbers of the signed range stay below two.
proof fn lemma_mean_stays_small(residuals: Seq<Seq<Binary32>>, channel: int, n: int)
    requires
        0 < n <= residuals.len(),
        0 < residuals.len() <= 0x10_0000,
        forall|i: int| 0 <= i < residuals.len() ==> (#[trigger] residuals[i])[channel].magnitude() <= 0x3f80_0000,
        mean_before(residuals, channel, n - 1).magnitude() <= 0x4000_0000,
        0x40_0000 as real * abs_of(
            value_32(mean_before(residuals, channel, n - 1)) - real_sum(
                |i: int| value_32(residuals[i][channel]),
                n - 1,
            ) / residuals.len() as real,
        ) <= (n - 1) as real,
    ensures
        mean_before(residuals, channel, n).magnitude() <= 0x4000_0000,
{
    let before = mean_before(residuals, channel, n - 1);
    let value = residuals[n - 1][channel];
    assert(residuals[n - 1][channel].magnitude() <= 0x3f80_0000);
    let count = residuals.len();
    let k = count as real;
    let values = |i: int| value_32(residuals[i][channel]);
    let share = value.over(Binary32::of_integer(count));
    lemma_share_of_count(value, count);
    lemma_count_32(count);
    lemma_quotient_parts(value, Binary32::of_integer(count));
    lemma_half_least_is_tiny();
    let h = half_least_32();
    let big = 0x1_0000_0000_0000_0000 as real;
    assert(h * big <= 1 as real) by (nonlinear_arith)
        requires
            h * big * big <= 1 as real,
            big >= 1 as real,
            h > 0 as real,
    ;
    assert forall|i: int| 0 <= i < n implies -(1 as real) <= #[trigger] values(i) <= 1 as real by {
        assert(residuals[i][channel].magnitude() <= 0x3f80_0000);
        crate::metric_laws::lemma_signed_value(residuals[i][channel]);
    }
    crate::metric_laws::lemma_sum_is_bounded(values, n, 1 as real);
    assert((1 as real) * n as real == n as real) by (nonlinear_arith);
    let s = real_sum(values, n - 1);
    let v = value_32(value);
    let m = (s + v) / k;
    lemma_quotient(s + v, k);
    assert(-(1 as real) <= m <= 1 as real) by (nonlinear_arith)
        requires
            m * k == s + v,
            -k <= s + v <= k,
            k > 0 as real,
    ;
    assert(m == s / k + v / k) by (nonlinear_arith)
        requires
            m == (s + v) / k,
            k > 0 as real,
    ;
    crate::metric_laws::lemma_signed_value(share);
    lemma_two_value(before);
    // The sum of both is finite, and its value lies close to the mean so far.
    let three = crate::prediction_laws::power(2);
    lemma_power(2);
    lemma_sum_is_monotone(before, share, three, three);
    lemma_sum_is_monotone(three.negated(), three.negated(), before, share);
    crate::prediction_laws::lemma_double(2);
    let sum = before.plus(share);
    lemma_sum_parts(before, share);
    assert(abs_of(value_32(sum)) <= 3 as real / 2 as real);
    let two = Binary32 { bits: 0x4000_0000 };
    lemma_value_32(sum);
    lemma_value_32(sum.absolute());
    lemma_two_value(two);
    lemma_two_is_two();
    crate::translation_laws::lemma_order_of_values(sum.absolute(), two);
}

proof fn lemma_two_is_two()
    ensures
        value_32(Binary32 { bits: 0x4000_0000 }) == 2 as real,
{
    crate::arithmetic_laws::lemma_units_of_one();
    crate::arithmetic_laws::lemma_doubled_units(0x3f80_0000);
    vstd::arithmetic::power2::lemma_pow2_pos(149);
    let t = vstd::arithmetic::power2::pow2(149) as real;
    assert((2 as real * t) / t == 2 as real) by (nonlinear_arith)
        requires
            t > 0 as real,
    ;
}

/// The mean of a residual channel is the mean of its rows, up to one rounding for each.
pub proof fn lemma_residual_mean_is_the_mean(residuals: Seq<Seq<Binary32>>, channel: int)
    requires
        0 < residuals.len() <= 0x10_0000,
        forall|i: int| 0 <= i < residuals.len() ==> (#[trigger] residuals[i])[channel].magnitude() <= 0x3f80_0000,
    ensures
        0x40_0000 as real * abs_of(
            value_32(channel_mean(residuals, channel)) - real_sum(
                |i: int| value_32(residuals[i][channel]),
                residuals.len() as int,
            ) / residuals.len() as real,
        ) <= residuals.len() as real,
{
    lemma_mean_before(residuals, channel, residuals.len() as int);
}

} // verus!
