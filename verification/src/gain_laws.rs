//! How source-group gains reach the columns of a basis: a column that moves one group of
//! the face only gets that group's gains.

use vstd::arithmetic::power2::{
    lemma2_to64, lemma2_to64_rest, lemma_pow2_adds, lemma_pow2_pos, pow2,
};
use vstd::prelude::*;

use crate::arithmetic::{lemma_infinity_64, lemma_plus_zero_64, lemma_sign_of_units_64};
use crate::arkit::in_unit_range;
use crate::binary::{Binary32, Binary64};
use crate::closeness::{
    abs_of, lemma_product_near_64, lemma_quotient_near_64, lemma_value_32, lemma_value_64, value_64,
};
use crate::mean_laws::{lemma_parts_64, lemma_tiny_64, lemma_wide_power, wide_power};
use crate::metric_laws::lemma_widened_value;
use crate::prediction_laws::{lemma_abs_of_product, lemma_unit_value};
use crate::reduced_gnm::GnmReducedExpressionBasis;
use crate::reduced_temporal::{
    better, column_alpha, column_beta, column_energy, energy_mean, energy_usable, group_energy, is_best, lesser,
    rows_energy, sources_usable, SourceGroupGains, TemporalCandidateMetrics,
};
use crate::rounding_error::{
    half_least_64, lemma_half_least, lemma_narrow_error, lemma_quotient, lemma_sizes, value_32,
};
use crate::weighted_mean::{lemma_square_without_sign, lemma_sum_without_sign, lemma_wide_fraction};

verus! {

/// A group of the face.
pub enum FaceGroup {
    /// The eyes: the first two hundred rows of a basis.
    Eye,
    /// The lower face: the hundred and fifty rows after them.
    LowerFace,
    /// The irises: one row more.
    Iris,
}

/// The rows of a group.
pub open spec fn in_group(group: FaceGroup, row: int) -> bool {
    match group {
        FaceGroup::Eye => 0 <= row < 200,
        FaceGroup::LowerFace => 200 <= row < 350,
        FaceGroup::Iris => row == 350,
    }
}

/// The column moves no row outside of the group.
pub open spec fn moves_only(basis: GnmReducedExpressionBasis, column: int, group: FaceGroup) -> bool {
    forall|row: int|
        0 <= row < 351 && row < basis.values_row_major@.len() as int / basis.rank as int && !in_group(group, row)
            ==> (#[trigger] basis.values_row_major@[row * basis.rank + column]).magnitude() == 0
}

/// Adding nothing to a number without a sign keeps it.
proof fn lemma_add_zero(number: Binary64)
    requires
        number.finite(),
        !number.negative(),
    ensures
        number.plus(Binary64 { bits: 0 }) == number,
        (Binary64 { bits: 0 }).plus(number) == number,
{
    let zero = Binary64 { bits: 0 };
    lemma_infinity_64();
    lemma_sign_of_units_64(zero);
    lemma_sign_of_units_64(number);
    if number.magnitude() > 0 {
        lemma_plus_zero_64(number, zero);
    }
}

/// Rows that do not move have no energy.
proof fn lemma_still_rows(values: Seq<Binary32>, rank: int, column: int, first: int, last: int)
    requires
        forall|row: int| first <= row < last ==> (#[trigger] values[row * rank + column]).magnitude() == 0,
    ensures
        rows_energy(values, rank, column, first, last) == (Binary64 { bits: 0 }),
    decreases last - first,
{
    if last > first {
        lemma_still_rows(values, rank, column, first, last - 1);
        let entry = values[(last - 1) * rank + column];
        assert(entry.magnitude() == 0);
        lemma_infinity_64();
        lemma_sign_of_units_64(Binary64 { bits: 0 });
        crate::rounding_error::lemma_widened(entry);
        lemma_widened_zero(entry);
        let square = entry.widened().times(entry.widened());
        assert(square == (Binary64 { bits: 0 }));
        lemma_add_zero(square);
    }
}

/// A zero stays a zero when it is widened.
pub proof fn lemma_widened_zero(entry: Binary32)
    requires
        entry.magnitude() == 0,
    ensures
        entry.widened().magnitude() == 0,
        entry.widened().finite(),
{
    crate::rounding_error::lemma_widened(entry);
    lemma_infinity_64();
    crate::arithmetic_laws::lemma_units_of_zero();
    let wide = entry.widened();
    assert(0 * pow2(925) == 0) by (nonlinear_arith);
    assert(wide.units() == 0);
    lemma_sign_of_units_64(wide);
    if wide.magnitude() > 0 {
        crate::binary::lemma_units_increase(0, wide.magnitude() as nat, 52);
        lemma_sign_of_units_64(Binary64 { bits: 0 });
    }
}

/// A weight times a share, by the weight.
proof fn lemma_share_of_a_weight(weight: Binary64, share: Binary32)
    requires
        weight.finite(),
        !weight.negative(),
        weight.magnitude() >= 0x2000_0000_0000_0000,
        in_unit_range(share),
    ensures
        ({
            let product = weight.times(share.widened());
            let quotient = product.over(weight);
            &&& product.finite()
            &&& quotient.finite()
            &&& 0x1_0000_0000 as real * abs_of(value_64(quotient) - value_32(share)) <= 1 as real
        }),
{
    let wide = share.widened();
    let product = weight.times(wide);
    let quotient = product.over(weight);
    lemma_infinity_64();
    lemma_unit_value(share);
    crate::rounding_error::lemma_widened(share);
    lemma_wide_fraction(share, wide);
    lemma_widened_value(share);
    crate::weighted_mean::lemma_fraction_of_a_weight(weight, wide);
    lemma_value_64(weight);
    lemma_half_least();
    lemma_weight_is_large(weight);
    lemma_product_near_64(weight, wide);
    let (w, e, p) = (value_64(weight), value_32(share), value_64(product));
    let h = half_least_64();
    lemma_parts_64(abs_of(p - w * e) - h, abs_of(p));
    assert(0 as real <= w * e <= w) by (nonlinear_arith)
        requires
            0 as real <= e <= 1 as real,
            w > 0 as real,
    ;
    assert(abs_of(p) <= 2 as real * w);
    let x = p / w;
    lemma_quotient(p, w);
    let off = x - e;
    assert(off * w == p - w * e) by (nonlinear_arith)
        requires
            x * w == p,
            off == x - e,
    ;
    lemma_abs_of_product(off, w);
    let z = abs_of(off);
    assert(0x4_0000_0000_0000 as real * z <= 1 as real) by (nonlinear_arith)
        requires
            0x4_0000_0000_0000 as real * (z * w) <= w,
            w > 0 as real,
    ;
    lemma_share_quotient_is_finite(product, weight);
    lemma_quotient_near_64(product, weight);
    let q = value_64(quotient);
    lemma_parts_64(abs_of(q - x) - h, abs_of(q));
    lemma_tiny_64();
}

/// A weight is far above half of the smallest number.
proof fn lemma_weight_is_large(weight: Binary64)
    requires
        weight.finite(),
        !weight.negative(),
        weight.magnitude() >= 0x2000_0000_0000_0000,
    ensures
        value_64(weight) > 0 as real,
        0x20_0000_0000_0000 as real * half_least_64() <= value_64(weight),
{
    lemma2_to64();
    lemma2_to64_rest();
    lemma_infinity_64();
    lemma_wide_power(-511);
    assert(wide_power(-511).magnitude() == 0x2000_0000_0000_0000);
    if weight.magnitude() > 0x2000_0000_0000_0000 {
        crate::binary::lemma_units_increase(0x2000_0000_0000_0000, weight.magnitude() as nat, 52);
    }
    lemma_pow2_adds(53, 510);
    lemma_pow2_pos(510);
    lemma_pow2_pos(1074);
    let t = pow2(1074) as real;
    let u = weight.units() as real;
    lemma_quotient(u, t);
    lemma_half_least();
    let (w, h) = (value_64(weight), half_least_64());
    let rest = pow2(510);
    assert(0x20_0000_0000_0000 * rest >= 0x20_0000_0000_0000) by (nonlinear_arith)
        requires
            rest >= 1,
    ;
    assert(weight.units() >= 0x20_0000_0000_0000);
    let k = (2 * pow2(1074)) as real;
    assert(k == 2 as real * t);
    assert(0x20_0000_0000_0000 as real * h <= w && w > 0 as real) by (nonlinear_arith)
        requires
            w * t == u,
            h * k == 1 as real,
            k == 2 as real * t,
            u >= 0x20_0000_0000_0000 as real,
            t > 0 as real,
    ;
}

/// A share of a weight by the weight is finite.
pub proof fn lemma_share_quotient_is_finite(product: Binary64, weight: Binary64)
    requires
        product.finite(),
        weight.finite(),
        weight.magnitude() > 0,
        abs_of(value_64(product)) <= 2 as real * abs_of(value_64(weight)),
        value_64(weight) > 0 as real,
    ensures
        product.over(weight).finite(),
{
    lemma2_to64();
    lemma2_to64_rest();
    lemma_infinity_64();
    lemma_wide_power(1);
    lemma_pow2_adds(1, 1074);
    lemma_pow2_pos(1074);
    let unit = pow2(1074);
    let a = crate::binary::magnitude_units(product.magnitude() as nat, 52);
    let b = crate::binary::magnitude_units(weight.magnitude() as nat, 52);
    let t = unit as real;
    lemma_value_64(product);
    lemma_value_64(weight);
    lemma_quotient(a as real, t);
    lemma_quotient(b as real, t);
    let (x, y) = (crate::rounding_error::size_64(product), crate::rounding_error::size_64(weight));
    assert(a as real <= 2 as real * b as real) by (nonlinear_arith)
        requires
            x * t == a as real,
            y * t == b as real,
            x <= 2 as real * y,
            t > 0 as real,
    ;
    assert(a * unit <= (2 * unit) * b) by (nonlinear_arith)
        requires
            a <= 2 * b,
    ;
    crate::binary::lemma_units_increase(0, weight.magnitude() as nat, 52);
    lemma_sign_of_units_64(Binary64 { bits: 0 });
    crate::arithmetic::lemma_nearest_of_exact_64(wide_power(1).magnitude() as nat, b);
    crate::rounding::lemma_nearest_ratio_is_monotone(a * unit, (2 * unit) * b, b, 52, 2047);
    crate::rounding::lemma_nearest_ratio_exists(a * unit, b, 52, 2047);
}

/// The gain of one group.
pub open spec fn group_gain(source: SourceGroupGains, group: FaceGroup) -> (Binary32, Binary32) {
    match group {
        FaceGroup::Eye => (source.eye.alpha, source.eye.beta),
        FaceGroup::LowerFace => (source.lower_face.alpha, source.lower_face.beta),
        FaceGroup::Iris => (source.iris.alpha, source.iris.beta),
    }
}

/// The energy mean of a column with one group.
proof fn lemma_single_mean(
    basis: GnmReducedExpressionBasis,
    column: int,
    group: FaceGroup,
    eye: Binary32,
    lower: Binary32,
    iris: Binary32,
)
    requires
        moves_only(basis, column, group),
        column_energy(basis, column).finite(),
        column_energy(basis, column).magnitude() >= 0x2000_0000_0000_0000,
        in_unit_range(eye),
        in_unit_range(lower),
        in_unit_range(iris),
    ensures
        ({
            let mean = energy_mean(basis, column, eye, lower, iris);
            let exact = match group {
                FaceGroup::Eye => eye,
                FaceGroup::LowerFace => lower,
                FaceGroup::Iris => iris,
            };
            &&& mean.finite()
            &&& 0x10_0000 as real * abs_of(value_32(mean) - value_32(exact)) <= 1 as real
        }),
{
    let values = basis.values_row_major@;
    let rank = basis.rank as int;
    let rows = values.len() as int / rank;
    let zero = Binary64 { bits: 0 };
    let (a, b, c) = group_energy(basis, column);
    lemma_infinity_64();
    match group {
        FaceGroup::Eye => {
            lemma_still_rows(values, rank, column, 200, lesser(350, rows));
            lemma_still_rows(values, rank, column, 350, lesser(351, rows));
        },
        FaceGroup::LowerFace => {
            lemma_still_rows(values, rank, column, 0, lesser(200, rows));
            lemma_still_rows(values, rank, column, 350, lesser(351, rows));
        },
        FaceGroup::Iris => {
            lemma_still_rows(values, rank, column, 0, lesser(200, rows));
            lemma_still_rows(values, rank, column, 200, lesser(350, rows));
        },
    }
    lemma_energy_sign(values, rank, column, 0, lesser(200, rows));
    lemma_energy_sign(values, rank, column, 200, lesser(350, rows));
    lemma_energy_sign(values, rank, column, 350, lesser(351, rows));
    let (weight, share) = match group {
        FaceGroup::Eye => (a, eye),
        FaceGroup::LowerFace => (b, lower),
        FaceGroup::Iris => (c, iris),
    };
    lemma_total_of_one(a, b, c, weight);
    crate::rounding_error::lemma_widened(eye);
    crate::rounding_error::lemma_widened(lower);
    crate::rounding_error::lemma_widened(iris);
    lemma_wide_fraction(eye, eye.widened());
    lemma_wide_fraction(lower, lower.widened());
    lemma_wide_fraction(iris, iris.widened());
    lemma_share_of_a_weight(weight, share);
    let sum = a.times(eye.widened()).plus(b.times(lower.widened())).plus(c.times(iris.widened()));
    let product = weight.times(share.widened());
    lemma_sum_of_one(a.times(eye.widened()), b.times(lower.widened()), c.times(iris.widened()), product);
    let quotient = sum.over(weight);
    lemma_same_dividend(sum, product, weight);
    lemma_narrow_close(quotient, share);
}

/// Energies carry no sign.
proof fn lemma_energy_sign(values: Seq<Binary32>, rank: int, column: int, first: int, last: int)
    ensures
        !rows_energy(values, rank, column, first, last).negative(),
    decreases last - first,
{
    if last > first {
        lemma_energy_sign(values, rank, column, first, last - 1);
        let entry = values[(last - 1) * rank + column].widened();
        lemma_square_without_sign(entry);
        lemma_sum_without_sign(rows_energy(values, rank, column, first, last - 1), entry.times(entry));
    }
}

/// Zeros add nothing to a number without a sign.
proof fn lemma_total_of_one(a: Binary64, b: Binary64, c: Binary64, weight: Binary64)
    requires
        !a.negative() && !b.negative() && !c.negative(),
        (a == weight && b.magnitude() == 0 && c.magnitude() == 0) || (b == weight && a.magnitude() == 0
            && c.magnitude() == 0) || (c == weight && a.magnitude() == 0 && b.magnitude() == 0),
        a.plus(b).plus(c).finite(),
    ensures
        weight.finite(),
        a.plus(b).plus(c) == weight,
{
    lemma_infinity_64();
    let zero = Binary64 { bits: 0 };
    if a == weight {
        assert(b == zero && c == zero);
        assert(weight.finite());
        lemma_add_zero(weight);
    } else if b == weight {
        assert(a == zero && c == zero);
        assert(weight.finite());
        lemma_add_zero(weight);
        assert(zero.plus(weight) == weight.plus(zero));
    } else {
        assert(a == zero && b == zero);
        lemma_add_zero(zero);
        assert(weight.finite());
        lemma_add_zero(weight);
        assert(zero.plus(weight) == weight.plus(zero));
    }
}

/// Zeros add nothing to a sum.
proof fn lemma_sum_of_one(x: Binary64, y: Binary64, z: Binary64, product: Binary64)
    requires
        product.finite(),
        (x == product && y.magnitude() == 0 && z.magnitude() == 0) || (y == product && x.magnitude() == 0
            && z.magnitude() == 0) || (z == product && x.magnitude() == 0 && y.magnitude() == 0),
    ensures
        x.plus(y).plus(z).finite(),
        x.plus(y).plus(z).rank() == product.rank(),
{
    lemma_infinity_64();
    lemma_keeps_rank(x, y);
    lemma_keeps_rank(x.plus(y), z);
    lemma_keeps_rank(y, x);
    lemma_keeps_rank(z, x.plus(y));
    lemma_sum_commutes(x, y);
    lemma_sum_commutes(x.plus(y), z);
}

proof fn lemma_sum_commutes(left: Binary64, right: Binary64)
    ensures
        left.finite() && right.finite() ==> left.plus(right) == right.plus(left),
{
}

/// Adding a zero keeps the value.
proof fn lemma_keeps_rank(number: Binary64, zero: Binary64)
    ensures
        number.finite() && zero.magnitude() == 0 ==> number.plus(zero).finite() && number.plus(zero).rank()
            == number.rank(),
{
    lemma_infinity_64();
    if number.finite() && zero.magnitude() == 0 {
        lemma_sign_of_units_64(zero);
        lemma_sign_of_units_64(number);
        if number.magnitude() > 0 {
            lemma_plus_zero_64(number, zero);
        } else {
            lemma_sign_of_units_64(Binary64 { bits: 0 });
        }
    }
}

/// Equal dividends have equal quotients.
proof fn lemma_same_dividend(left: Binary64, right: Binary64, weight: Binary64)
    requires
        left.finite(),
        right.finite(),
        left.rank() == right.rank(),
        weight.finite(),
        !weight.negative(),
        weight.magnitude() > 0,
        right.over(weight).finite(),
    ensures
        left.over(weight).finite(),
        value_64(left.over(weight)) == value_64(right.over(weight)),
{
    lemma_infinity_64();
    if right.magnitude() > 0 {
        assert(left == right);
    } else {
        lemma_value_64(left.over(weight));
        lemma_value_64(right.over(weight));
        lemma_sizes(Binary32 { bits: 0 }, left.over(weight));
        lemma_sizes(Binary32 { bits: 0 }, right.over(weight));
    }
}

/// Narrowing a number that is as good as a share.
proof fn lemma_narrow_close(number: Binary64, share: Binary32)
    requires
        number.finite(),
        in_unit_range(share),
        0x1_0000_0000 as real * abs_of(value_64(number) - value_32(share)) <= 1 as real,
    ensures
        number.narrowed().finite(),
        0x10_0000 as real * abs_of(value_32(number.narrowed()) - value_32(share)) <= 1 as real,
{
    lemma_unit_value(share);
    lemma_narrow_is_finite(number);
    lemma_narrow_error(number);
    lemma_value_64(number);
    lemma_value_32(number.narrowed());
    crate::closeness::lemma_half_least_is_tiny();
    let h = crate::rounding_error::half_least_32();
    let big = 0x1_0000_0000_0000_0000 as real;
    assert(h * big <= 1 as real) by (nonlinear_arith)
        requires
            h * big * big <= 1 as real,
            big >= 1 as real,
            h > 0 as real,
    ;
    let (x, y) = (crate::rounding_error::size_64(number), crate::rounding_error::size_32(number.narrowed()));
    crate::closeness::lemma_parts_32(x - y - h, y);
    crate::closeness::lemma_parts_32(y - x - h, y);
}

/// A moderate number stays finite when it is narrowed.
proof fn lemma_narrow_is_finite(number: Binary64)
    requires
        number.finite(),
        abs_of(value_64(number)) <= 2 as real,
    ensures
        number.narrowed().finite(),
{
    lemma2_to64();
    lemma2_to64_rest();
    lemma_infinity_64();
    crate::mean_laws::lemma_units_of_value(number, 2);
    let a = crate::binary::magnitude_units(number.magnitude() as nat, 52);
    crate::rounding_error::lemma_narrowing_is_a_ratio(a);
    lemma_pow2_pos(925);
    lemma_pow2_adds(149, 925);
    lemma_pow2_pos(149);
    crate::arithmetic_laws::lemma_units_of_one();
    crate::arithmetic_laws::lemma_doubled_units(0x3f80_0000);
    let two = (2 * pow2(149)) as nat;
    assert(a <= two * pow2(925)) by (nonlinear_arith)
        requires
            a <= 2 * pow2(1074),
            pow2(1074) == pow2(149) * pow2(925),
            two == 2 * pow2(149),
    ;
    crate::arithmetic::lemma_nearest_of_exact_32(0x4000_0000, pow2(925));
    crate::rounding::lemma_nearest_ratio_is_monotone(a, two * pow2(925), pow2(925), 23, 255);
}

/// A column that moves one group of the face only gets that group's gains, up to
/// roundings.
pub proof fn lemma_column_of_one_group_gets_its_gains(
    basis: GnmReducedExpressionBasis,
    source: SourceGroupGains,
    column: int,
    group: FaceGroup,
)
    requires
        sources_usable(source),
        moves_only(basis, column, group),
        energy_usable(column_energy(basis, column)),
        column_energy(basis, column).magnitude() >= 0x2000_0000_0000_0000,
    ensures
        ({
            let (alpha, beta) = group_gain(source, group);
            &&& 0x10_0000 as real * abs_of(
                value_32(column_alpha(basis, source, column)) - value_32(alpha),
            ) <= 1 as real
            &&& 0x10_0000 as real * abs_of(
                value_32(column_beta(basis, source, column)) - value_32(beta),
            ) <= 1 as real
        }),
{
    lemma_single_mean(
        basis,
        column,
        group,
        source.eye.alpha,
        source.lower_face.alpha,
        source.iris.alpha,
    );
    lemma_single_mean(
        basis,
        column,
        group,
        source.eye.beta,
        source.lower_face.beta,
        source.iris.beta,
    );
}

/// The selected gains have the least error: no candidate that meets the constraints has a
/// smaller one, and none is selected that misses more blinks than the direct path.
pub proof fn lemma_selection_has_the_least_error(
    candidates: Seq<TemporalCandidateMetrics>,
    best: int,
    n: int,
    j: int,
)
    requires
        is_best(candidates, best, n),
        0 <= j < n,
        candidates[j].meets_constraints(),
    ensures
        !candidates[j].h_macro_mae.less(candidates[best].h_macro_mae),
        candidates[best].h_missed_blinks <= candidates[best].d_missed_blinks,
        candidates[j].h_macro_mae == candidates[best].h_macro_mae ==> !(Binary32 {
            bits: candidates[best].eye_preset.alpha.bits,
        }).less(candidates[j].eye_preset.alpha),
{
    let (a, b) = (candidates[j], candidates[best]);
    assert(!better(candidates[j], candidates[best]));
    if a.h_macro_mae.less(b.h_macro_mae) {
        a.h_macro_mae.lemma_total_rank_refines_rank(b.h_macro_mae);
    }
    if b.eye_preset.alpha.less(a.eye_preset.alpha) {
        b.eye_preset.alpha.lemma_total_rank_refines_rank(a.eye_preset.alpha);
    }
}

/// A candidate that may be selected was measured in every blink error, and is no worse than
/// the direct path in any.
pub proof fn lemma_selection_is_no_worse_than_direct(candidate: TemporalCandidateMetrics)
    requires
        candidate.meets_constraints(),
    ensures
        candidate.h_missed_blinks <= candidate.d_missed_blinks,
        candidate.h_onset_error_ms is Some && candidate.d_onset_error_ms is Some,
        candidate.h_peak_error_ms is Some && candidate.d_peak_error_ms is Some,
        candidate.h_peak_attenuation is Some && candidate.d_peak_attenuation is Some,
        candidate.h_onset_error_ms->0.at_most(candidate.d_onset_error_ms->0),
        candidate.h_peak_error_ms->0.at_most(candidate.d_peak_error_ms->0),
        candidate.h_peak_attenuation->0.at_most(candidate.d_peak_attenuation->0),
{
}

} // verus!
