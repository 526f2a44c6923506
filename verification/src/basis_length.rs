//! Fitted basis columns have unit length, up to rounding.

use vstd::arithmetic::power2::{lemma2_to64, lemma2_to64_rest, lemma_pow2_adds, lemma_pow2_pos, lemma_pow2_strictly_increases, pow2};
use vstd::prelude::*;

use crate::arithmetic::lemma_nearest_of_exact_32;
use crate::arithmetic_laws::{lemma_units_of_one, lemma_units_of_zero};
use crate::binary::{lemma_units_increase, magnitude_units, Binary32, Binary64, INFINITY_32};
use crate::binary_convert::nearest_narrow;
use crate::column_length::{
    entry_gap, lemma_column_is_near_one, lemma_length_is_close, lemma_scaled_squares, lemma_sq_not_negative,
    lemma_sq_of_opposite, lemma_sq_order, lemma_sq_order_back, lemma_square_within_the_sum, lemma_total_step,
    near_one, sq, squared_length, squares,
};
use crate::landmark_basis::{
    is_landmark_fit, landmark_columns, landmark_decomposition_fault, narrowed_all, signed_direction, wide_length,
    wide_squares_before, LandmarkAlignedBasisArtifact, LandmarkAlignmentSample,
};
use crate::matrix::{peak_sign, row_major, LeftSingularVectors};
use crate::observable_basis::ObservableGnmBasisArtifact;
use crate::rounding::lemma_nearest_ratio_is_monotone;
use crate::rounding_error::{
    fine_32, fine_64, half_least_32, half_least_64, lemma_half_least, lemma_narrow_error, lemma_quotient,
    lemma_product_error, lemma_quotient_error, lemma_real_product, lemma_root_error_64, lemma_sizes, lemma_square_error,
    lemma_sum_error, lemma_widened_size, size_32, size_64, value_32,
};
use crate::teacher_aligned_basis::{
    aligned_column, aligned_columns, decomposition_fault, is_aligned_fit, length_of, signed_unit, squares_before,
    unit_column, usable_length, TeacherAlignedGnmBasisArtifact, TeacherAlignmentSample,
};
use crate::unit_length::lemma_sum_grows;
use crate::weighted_mean::lemma_square_without_sign;

verus! {

/// The rounded length is a normal number: neither so small that its precision is lost
/// nor infinite.
pub open spec fn normal_length(length: Binary64) -> bool {
    0x80_0000 <= length.narrowed().magnitude() < INFINITY_32
}

proof fn lemma_divided_order(x: real, y: real, t: real)
    by (nonlinear_arith)
    requires
        x <= y,
        t > 0 as real,
    ensures
        x / t <= y / t,
{
}

/// Larger numbers have larger sizes.
proof fn lemma_size_order(small: Binary64, large: Binary64)
    requires
        large.finite(),
        0 <= small.rank() <= large.rank(),
    ensures
        size_64(small) <= size_64(large),
{
    lemma_pow2_pos(1074);
    if small.magnitude() < large.magnitude() {
        lemma_units_increase(small.magnitude() as nat, large.magnitude() as nat, 52);
    }
    lemma_divided_order(
        magnitude_units(small.magnitude() as nat, 52) as real,
        magnitude_units(large.magnitude() as nat, 52) as real,
        pow2(1074) as real,
    );
}

proof fn lemma_least_against_square(s: real, q: real, r: real, h: real)
    by (nonlinear_arith)
    requires
        s > 0 as real,
        q > 0 as real,
        h > 0 as real,
        s >= q,
        r >= 1 as real,
        h * (36893488147419103232 as real * r) == q,
    ensures
        1024 as real * h <= 1 as real / 9007199254740992 as real * s,
{
}

/// Half of the smallest binary64 number is small against the square of a normal length.
proof fn lemma_half_is_small(length: Binary32)
    requires
        0x80_0000 <= length.magnitude() < INFINITY_32,
    ensures
        size_32(length) > 0 as real,
        1024 as real * half_least_64() <= fine_64() * sq(size_32(length)),
{
    lemma2_to64();
    lemma2_to64_rest();
    lemma_half_least();
    lemma_pow2_pos(149);
    lemma_pow2_pos(126);
    lemma_pow2_pos(252);
    lemma_pow2_pos(758);
    lemma_pow2_adds(23, 126);
    lemma_pow2_adds(126, 126);
    lemma_pow2_adds(64, 758);
    lemma_pow2_adds(252, 822);
    crate::rounding_error::lemma_step_size(length.magnitude() as nat, 23);
    let units = magnitude_units(length.magnitude() as nat, 23);
    assert(units >= 0x80_0000);
    let q = pow2(126) as real;
    let u = pow2(149) as real;
    let x = size_32(length);
    lemma_quotient(units as real, u);
    lemma_real_product(pow2(23) as int, pow2(126) as int);
    // The length is at least the least normal number.
    let least = 1 as real / q;
    lemma_quotient(1 as real, q);
    lemma_normal_size(x, u, q, units as real, least);
    lemma_sq_order(least, x);
    lemma_real_product(pow2(126) as int, pow2(126) as int);
    lemma_real_product(pow2(252) as int, pow2(822) as int);
    lemma_real_product(pow2(64) as int, pow2(758) as int);
    assert(pow2(64) as real == 18446744073709551616 as real);
    let r = pow2(758) as real;
    lemma_least_of_least(q, least, half_least_64(), r, pow2(1074) as real, pow2(822) as real, pow2(252) as real);
    reveal(sq);
    lemma_least_against_square(x * x, least * least, r, half_least_64());
}

proof fn lemma_normal_size(x: real, u: real, q: real, units: real, least: real)
    by (nonlinear_arith)
    requires
        x * u == units,
        u == 8388608 as real * q,
        units >= 8388608 as real,
        q > 0 as real,
        least * q == 1 as real,
    ensures
        x >= least,
        least > 0 as real,
        x > 0 as real,
{
}

proof fn lemma_least_of_least(q: real, least: real, h: real, r: real, w: real, v: real, s: real)
    requires
        q > 0 as real,
        least * q == 1 as real,
        h * (2 as real * w) == 1 as real,
        w == s * v,
        s == q * q,
        v == 18446744073709551616 as real * r,
        r >= 1 as real,
    ensures
        h * (36893488147419103232 as real * r) == least * least,
        least * least > 0 as real,
{
    let k = h * (36893488147419103232 as real * r);
    let l = least * least;
    assert(l * s == 1 as real) by (nonlinear_arith)
        requires
            l == least * least,
            s == q * q,
            least * q == 1 as real,
    ;
    assert(k * s == 1 as real) by (nonlinear_arith)
        requires
            k == h * (36893488147419103232 as real * r),
            h * (2 as real * w) == 1 as real,
            w == s * v,
            v == 18446744073709551616 as real * r,
    ;
    assert(k == l) by (nonlinear_arith)
        requires
            k * s == 1 as real,
            l * s == 1 as real,
    ;
    assert(l > 0 as real) by (nonlinear_arith)
        requires
            l == least * least,
            least * q == 1 as real,
    ;
}

/// A rounded length lies close to the root of the exact sum.
proof fn lemma_rounded_length(total: Binary64, sum: real, n: int)
    requires
        total.finite(),
        total.rank() >= 0,
        usable_length(total.root()),
        normal_length(total.root()),
        0 <= n <= 1024,
        sum - size_64(total) <= (2 as real * fine_64() * size_64(total) + half_least_64()) * n as real,
        size_64(total) - sum <= (2 as real * fine_64() * size_64(total) + half_least_64()) * n as real,
    ensures
        ({
            let length = size_32(total.root().narrowed());
            &&& length > 0 as real
            &&& sum - sq(length) <= 3 as real * fine_32() * sq(length)
            &&& sq(length) - sum <= 3 as real * fine_32() * sq(length)
            &&& !total.root().narrowed().negative()
        }),
{
    let root = total.root();
    let narrow = root.narrowed();
    assert(total.rank() > 0);
    lemma_narrow_error(root);
    lemma_wide_root(root);
    lemma_root_error_64(total);
    lemma_half_is_small(narrow);
    lemma_half_least();
    lemma_sizes(narrow, total);
    lemma_sizes(narrow, root);
    let r = size_64(root);
    assert(sq(r - fine_64() * r) <= size_64(total) && size_64(total) <= sq(r + fine_64() * r)) by {
        reveal(sq);
    }
    lemma_length_is_close(n as real, sum, size_64(total), r, size_32(narrow), half_least_64());
}

/// What narrows to a normal number is a normal number.
proof fn lemma_wide_root(root: Binary64)
    requires
        root.finite(),
        normal_length(root),
    ensures
        root.magnitude() >= 0x10_0000_0000_0000,
{
    lemma2_to64();
    lemma2_to64_rest();
    let units = magnitude_units(root.magnitude() as nat, 52);
    crate::rounding_error::lemma_narrowing_is_a_ratio(units);
    let m = nearest_narrow(units as int);
    assert(root.narrowed().magnitude() == m);
    lemma_pow2_pos(925);
    lemma_pow2_strictly_increases(53, 925);
    crate::rounding_error::lemma_step_size(m as nat, 23);
    let a = magnitude_units(m as nat, 23);
    assert(a * pow2(925) >= pow2(925)) by (nonlinear_arith)
        requires
            a >= 1,
            pow2(925) > 0,
    ;
    let below = magnitude_units((m - 1) as nat, 23);
    assert(below * pow2(925) >= 0) by (nonlinear_arith);
    assert(2 * units >= pow2(925));
    if root.magnitude() < pow2(52) {
        crate::rounding::lemma_units_of_scaled(0, root.magnitude() as nat, 52);
        assert(0 * pow2(52) + root.magnitude() == root.magnitude()) by (nonlinear_arith);
        assert(root.magnitude() * 1 == root.magnitude()) by (nonlinear_arith);
    }
}

/// The sizes of a column's numbers.
pub open spec fn sizes_of(numbers: Seq<Binary32>) -> Seq<real> {
    Seq::new(numbers.len(), |r: int| size_32(numbers[r]))
}

/// A rounded sum of squares lies close to the exact one, and only finite numbers have
/// one.
proof fn lemma_rounded_squares(numbers: Seq<Binary32>, n: int)
    requires
        0 <= n <= numbers.len(),
        squares_before(numbers, n).finite(),
    ensures
        ({
            let total = squares_before(numbers, n);
            let sum = squares(sizes_of(numbers), n);
            let gap = (2 as real * fine_64() * size_64(total) + half_least_64()) * n as real;
            &&& total.rank() >= 0
            &&& sum - size_64(total) <= gap
            &&& size_64(total) - sum <= gap
            &&& forall|r: int| 0 <= r < n ==> (#[trigger] numbers[r]).finite()
        }),
    decreases n,
{
    let total = squares_before(numbers, n);
    lemma_sizes(Binary32 { bits: 0 }, total);
    if n > 0 {
        let before = squares_before(numbers, n - 1);
        let number = numbers[n - 1];
        let wide = number.widened();
        let square = wide.times(wide);
        if before.finite() {
            lemma_rounded_squares(numbers, n - 1);
        }
        lemma_square_without_sign(wide);
        lemma_sum_grows(before, square);
        lemma_square_error(wide);
        lemma_widened_size(number);
        lemma_sum_error(before, square);
        lemma_sizes(number, before);
        lemma_sizes(number, square);
        lemma_size_order(before, total);
        lemma_size_order(square, total);
        assert(size_32(number) * size_32(number) == sq(size_32(number))) by {
            reveal(sq);
        }
        let m = (n - 1) as real;
        assert(n as real == m + 1 as real);
        lemma_total_step(
            m,
            squares(sizes_of(numbers), n - 1),
            size_64(before),
            sq(size_32(number)),
            size_64(square),
            size_64(total),
            half_least_64(),
        );
    } else {
        let b = 2 as real * fine_64() * size_64(total) + half_least_64();
        assert(b * 0 as real == 0 as real) by (nonlinear_arith);
    }
}

proof fn lemma_four_times(q: real, sum: real, x: real, e: real)
    by (nonlinear_arith)
    requires
        e == 1 as real / 16777216 as real,
        q >= 0 as real,
        x <= sum,
        sum - q <= 3 as real * e * q,
    ensures
        x <= 4 as real * q,
{
}

/// No entry exceeds twice the rounded length.
proof fn lemma_entries_are_covered(sizes: Seq<real>, n: int, r: int, length: real)
    requires
        0 <= r < n,
        sizes[r] >= 0 as real,
        length > 0 as real,
        squares(sizes, n) - sq(length) <= 3 as real * fine_32() * sq(length),
    ensures
        sizes[r] <= 2 as real * length,
{
    lemma_square_within_the_sum(sizes, n, r);
    lemma_sq_not_negative(length);
    lemma_four_times(sq(length), squares(sizes, n), sq(sizes[r]), fine_32());
    assert(sq(2 as real * length) == 4 as real * sq(length)) by {
        reveal(sq);
        assert((2 as real * length) * (2 as real * length) == 4 as real * (length * length))
            by (nonlinear_arith);
    }
    lemma_sq_order_back(sizes[r], 2 as real * length);
}

proof fn lemma_units_are_covered(a: real, b: real, t: real)
    by (nonlinear_arith)
    requires
        t > 0 as real,
        a / t <= 2 as real * (b / t),
    ensures
        a <= 2 as real * b,
{
}

/// Entries divided by a length that covers half of them are finite.
proof fn lemma_covered_entry(entry: Binary32, length: Binary32)
    requires
        entry.finite(),
        length.finite(),
        length.magnitude() > 0,
        size_32(entry) <= 2 as real * size_32(length),
    ensures
        entry.over(length).finite(),
{
    lemma2_to64();
    lemma2_to64_rest();
    lemma_pow2_pos(149);
    let a = magnitude_units(entry.magnitude() as nat, 23);
    let b = magnitude_units(length.magnitude() as nat, 23);
    let unit = pow2(149);
    lemma_units_are_covered(a as real, b as real, unit as real);
    lemma_units_of_zero();
    lemma_units_increase(0, length.magnitude() as nat, 23);
    if entry.magnitude() > 0 {
        assert(magnitude_units(0x4000_0000, 23) == 2 * unit) by {
            lemma_pow2_adds(23, 127);
            lemma_pow2_adds(1, 149);
            assert((pow2(23) + 0) * pow2(127) == pow2(23) * pow2(127)) by (nonlinear_arith);
        }
        assert(a * unit <= (2 * unit) * b) by (nonlinear_arith)
            requires
                a <= 2 * b,
        ;
        lemma_nearest_of_exact_32(0x4000_0000, b);
        lemma_nearest_ratio_is_monotone(a * unit, (2 * unit) * b, b, 23, 255);
    }
}

proof fn lemma_half_within_gap(c: real, y: real, h: real, u: real, e: real)
    by (nonlinear_arith)
    requires
        e == 1 as real / 16777216 as real,
        c >= 0 as real,
        u >= 16777216 as real,
        h * (2 as real * u) == 1 as real,
        y - c <= e * c + h,
        c - y <= e * c + h,
    ensures
        y - c <= 4 as real * e * c + e * (101 as real / 100 as real),
        c - y <= 4 as real * e * c + e * (101 as real / 100 as real),
{
}

/// The sizes do not depend on a sign.
proof fn lemma_signed_sizes(left: Seq<Binary32>, right: Seq<Binary32>, n: int)
    requires
        0 <= n <= left.len(),
        left.len() == right.len(),
        forall|r: int|
            0 <= r < n ==> (#[trigger] left[r]).magnitude() == right[r].magnitude(),
    ensures
        squares(Seq::new(left.len(), |r: int| value_32(left[r])), n) == squares(sizes_of(right), n),
    decreases n,
{
    if n > 0 {
        lemma_signed_sizes(left, right, n - 1);
        let number = left[n - 1];
        let x = size_32(right[n - 1]);
        assert(size_32(number) == x);
        lemma_pow2_pos(149);
        let units = magnitude_units(number.magnitude() as nat, 23) as real;
        let t = pow2(149) as real;
        if number.negative() {
            lemma_opposite_quotient(units, t);
            assert(value_32(number) == -x);
        } else {
            assert(value_32(number) == x);
        }
        lemma_sq_of_opposite(x);
    }
}

proof fn lemma_opposite_quotient(x: real, t: real)
    by (nonlinear_arith)
    requires
        t > 0 as real,
    ensures
        (-x) / t == -(x / t),
{
}

/// Times one or minus one, a number keeps its magnitude.
proof fn lemma_sign_keeps_magnitude(number: Binary32, sign: Binary32)
    requires
        number.finite(),
        sign.magnitude() == 0x3f80_0000,
    ensures
        number.times(sign).magnitude() == number.magnitude(),
{
    if number.magnitude() > 0 {
        lemma_units_of_one();
        lemma2_to64();
        lemma2_to64_rest();
        lemma_pow2_pos(149);
        lemma_nearest_of_exact_32(number.magnitude() as nat, pow2(149));
    }
}

proof fn lemma_ratio_near_one(y: real, q: real, sum: real, e: real)
    by (nonlinear_arith)
    requires
        q > 0 as real,
        y * q == sum,
        sum - q <= 3 as real * e * q,
        q - sum <= 3 as real * e * q,
    ensures
        y - 1 as real <= 3 as real * e,
        1 as real - y <= 3 as real * e,
{
}

/// The exact entries of a column, divided by its rounded length, have nearly unit length.
proof fn lemma_exact_column(sizes: Seq<real>, exact: Seq<real>, length: real, n: int)
    requires
        0 <= n,
        length > 0 as real,
        forall|r: int| 0 <= r < n ==> #[trigger] exact[r] == sizes[r] / length,
        squares(sizes, n) - sq(length) <= 3 as real * fine_32() * sq(length),
        sq(length) - squares(sizes, n) <= 3 as real * fine_32() * sq(length),
    ensures
        squares(exact, n) - 1 as real <= 3 as real * fine_32(),
        1 as real - squares(exact, n) <= 3 as real * fine_32(),
{
    lemma_scaled_squares(sizes, exact, length, n);
    assert(sq(length) > 0 as real) by {
        reveal(sq);
        assert(length * length > 0 as real) by (nonlinear_arith)
            requires
                length > 0 as real,
        ;
    }
    lemma_ratio_near_one(squares(exact, n), sq(length), squares(sizes, n), fine_32());
}

/// A column that was divided by its length has unit length, up to rounding: where the
/// rounded length is a normal number, the squared length differs from one by at most
/// `2^-17`.
pub proof fn lemma_unit_column_has_unit_length(numbers: Seq<Binary32>)
    requires
        numbers.len() <= 956,
        usable_length(length_of(numbers)),
        normal_length(length_of(numbers)),
    ensures
        near_one(squared_length(signed_unit(numbers))),
{
    let n = numbers.len() as int;
    let total = squares_before(numbers, n);
    let length = total.root().narrowed();
    assert(total.finite());
    lemma_rounded_squares(numbers, n);
    let sizes = sizes_of(numbers);
    lemma_rounded_length(total, squares(sizes, n), n);
    let d = size_32(length);
    let exact = Seq::new(numbers.len(), |r: int| size_32(numbers[r]) / d);
    lemma_exact_column(sizes, exact, d, n);
    let unit = unit_column(numbers);
    let entries = sizes_of(unit);
    lemma2_to64();
    lemma2_to64_rest();
    lemma_half_least();
    lemma_pow2_strictly_increases(24, 149);
    assert forall|r: int| 0 <= r < n implies {
        &&& #[trigger] entries[r] >= 0 as real
        &&& exact[r] >= 0 as real
        &&& exact[r] - entries[r] <= entry_gap(entries[r])
        &&& entries[r] - exact[r] <= entry_gap(entries[r])
    } by {
        let number = numbers[r];
        assert(sizes[r] == size_32(number));
        assert(entries[r] == size_32(number.over(length)));
        lemma_sizes(number, total);
        lemma_entries_are_covered(sizes, n, r, d);
        lemma_covered_entry(number, length);
        lemma_quotient_error(number, length);
        lemma_sizes(number.over(length), total);
        lemma_divided_order(0 as real, size_32(number), d);
        assert((0 as real) / d == 0 as real) by (nonlinear_arith)
            requires
                d > 0 as real,
        ;
        lemma_half_within_gap(entries[r], exact[r], half_least_32(), pow2(149) as real, fine_32());
    }
    lemma_column_is_near_one(entries, exact, n);
    let signed = signed_unit(numbers);
    assert forall|r: int| 0 <= r < n implies (#[trigger] signed[r]).magnitude()
        == unit[r].magnitude() by {
        let number = numbers[r];
        assert(sizes[r] == size_32(number));
        lemma_sizes(number, total);
        lemma_entries_are_covered(sizes, n, r, d);
        lemma_covered_entry(number, length);
        assert(unit[r] == number.over(length));
        lemma_sign_keeps_magnitude(unit[r], peak_sign(unit));
    }
    lemma_signed_sizes(signed, unit, n);
}

/// The sizes of a direction's numbers.
pub open spec fn wide_sizes_of(numbers: Seq<Binary64>) -> Seq<real> {
    Seq::new(numbers.len(), |r: int| size_64(numbers[r]))
}

/// A rounded sum of squares lies close to the exact one, and only finite numbers have
/// one.
proof fn lemma_rounded_wide_squares(numbers: Seq<Binary64>, n: int)
    requires
        0 <= n <= numbers.len(),
        wide_squares_before(numbers, n).finite(),
    ensures
        ({
            let total = wide_squares_before(numbers, n);
            let sum = squares(wide_sizes_of(numbers), n);
            let gap = (2 as real * fine_64() * size_64(total) + half_least_64()) * n as real;
            &&& total.rank() >= 0
            &&& sum - size_64(total) <= gap
            &&& size_64(total) - sum <= gap
            &&& forall|r: int| 0 <= r < n ==> (#[trigger] numbers[r]).finite()
        }),
    decreases n,
{
    let total = wide_squares_before(numbers, n);
    lemma_sizes(Binary32 { bits: 0 }, total);
    if n > 0 {
        let before = wide_squares_before(numbers, n - 1);
        let wide = numbers[n - 1];
        let square = wide.times(wide);
        if before.finite() {
            lemma_rounded_wide_squares(numbers, n - 1);
        }
        lemma_square_without_sign(wide);
        lemma_sum_grows(before, square);
        lemma_square_error(wide);
        lemma_sum_error(before, square);
        lemma_sizes(Binary32 { bits: 0 }, before);
        lemma_sizes(Binary32 { bits: 0 }, square);
        lemma_size_order(before, total);
        lemma_size_order(square, total);
        assert(size_64(wide) * size_64(wide) == sq(size_64(wide))) by {
            reveal(sq);
        }
        let m = (n - 1) as real;
        assert(n as real == m + 1 as real);
        lemma_total_step(
            m,
            squares(wide_sizes_of(numbers), n - 1),
            size_64(before),
            sq(size_64(wide)),
            size_64(square),
            size_64(total),
            half_least_64(),
        );
    } else {
        let b = 2 as real * fine_64() * size_64(total) + half_least_64();
        assert(b * 0 as real == 0 as real) by (nonlinear_arith);
    }
}

proof fn lemma_wide_units_are_covered(a: real, b: real, u: real, v: real)
    requires
        u > 0 as real,
        v > 0 as real,
        a / (u * v) <= 2 as real * (b / u),
    ensures
        a <= 2 as real * b * v,
{
    let w = u * v;
    assert(w > 0 as real) by (nonlinear_arith)
        requires
            w == u * v,
            u > 0 as real,
            v > 0 as real,
    ;
    lemma_quotient(a, w);
    lemma_quotient(b, u);
    let x = a / w;
    let y = b / u;
    crate::column_length::lemma_scale_keeps_order(x, 2 as real * y, w);
    assert((2 as real * y) * w == 2 as real * (y * u) * v) by (nonlinear_arith)
        requires
            w == u * v,
    ;
}

/// Entries that half of the length covers narrow to finite numbers, where the length is
/// at most `2^126`.
proof fn lemma_covered_narrowing(entry: Binary64, length: Binary32)
    requires
        entry.finite(),
        length.magnitude() <= 0x7e80_0000,
        size_64(entry) <= 2 as real * size_32(length),
    ensures
        entry.narrowed().finite(),
{
    lemma2_to64();
    lemma2_to64_rest();
    lemma_pow2_pos(149);
    lemma_pow2_pos(925);
    lemma_pow2_adds(149, 925);
    lemma_real_product(pow2(149) as int, pow2(925) as int);
    let a = magnitude_units(entry.magnitude() as nat, 52);
    let b = magnitude_units(length.magnitude() as nat, 23);
    let v = pow2(925);
    lemma_wide_units_are_covered(a as real, b as real, pow2(149) as real, v as real);
    lemma_real_product((2 * b) as int, v as int);
    assert(a <= 2 * b * v);
    let most: nat = 0x7e80_0000;
    if length.magnitude() < most {
        lemma_units_increase(length.magnitude() as nat, most, 23);
    }
    let top = magnitude_units(most, 23);
    assert(magnitude_units(0x7f00_0000, 23) == 2 * top) by {
        lemma_pow2_adds(1, 252);
        assert((pow2(23) + 0) * (2 * pow2(252)) == 2 * ((pow2(23) + 0) * pow2(252)))
            by (nonlinear_arith);
    }
    assert(a <= (2 * top) * v) by (nonlinear_arith)
        requires
            a <= 2 * b * v,
            b <= top,
    ;
    lemma_nearest_of_exact_32(0x7f00_0000, v);
    lemma_nearest_ratio_is_monotone(a, (2 * top) * v, v, 23, 255);
    crate::rounding_error::lemma_narrowing_is_a_ratio(a);
}

/// The reciprocal of a normal length of at most `2^126` is a normal number of at most
/// `2^126`.
proof fn lemma_reciprocal(sign: Binary32, length: Binary32)
    requires
        sign.magnitude() == 0x3f80_0000,
        0x80_0000 <= length.magnitude() <= 0x7e80_0000,
    ensures
        0x80_0000 <= sign.over(length).magnitude() <= 0x7e80_0000,
{
    lemma2_to64();
    lemma2_to64_rest();
    lemma_pow2_pos(149);
    lemma_units_of_one();
    let unit = pow2(149);
    let b = magnitude_units(length.magnitude() as nat, 23);
    let least: nat = 0x80_0000;
    let most: nat = 0x7e80_0000;
    crate::arithmetic_laws::lemma_small_units(least);
    if least < length.magnitude() {
        lemma_units_increase(least, length.magnitude() as nat, 23);
    }
    if length.magnitude() < most {
        lemma_units_increase(length.magnitude() as nat, most, 23);
    }
    let top = magnitude_units(most, 23);
    assert(least * top == unit * unit) by {
        lemma_pow2_adds(149, 149);
        lemma_pow2_adds(23, 275);
        lemma_pow2_adds(23, 252);
        assert((pow2(23) + 0) * pow2(252) == pow2(23) * pow2(252)) by (nonlinear_arith);
    }
    assert(least * b <= unit * unit && unit * unit <= top * b) by (nonlinear_arith)
        requires
            least * top == unit * unit,
            least <= b <= top,
    ;
    lemma_nearest_of_exact_32(least, b);
    lemma_nearest_of_exact_32(most, b);
    lemma_nearest_ratio_is_monotone(least * b, unit * unit, b, 23, 255);
    lemma_nearest_ratio_is_monotone(unit * unit, top * b, b, 23, 255);
}

/// A product of two values.
#[verifier::opaque]
spec fn product_of(x: real, y: real) -> real {
    x * y
}

proof fn lemma_product_order(x: real, y: real, z: real)
    requires
        x <= y,
        z >= 0 as real,
    ensures
        product_of(x, z) <= product_of(y, z),
{
    reveal(product_of);
    crate::column_length::lemma_scale_keeps_order(x, y, z);
}

proof fn lemma_product_turns(x: real, y: real)
    ensures
        product_of(x, y) == product_of(y, x),
{
    reveal(product_of);
    assert(x * y == y * x) by (nonlinear_arith);
}

proof fn lemma_product_of_opposite(x: real, y: real, z: real)
    ensures
        product_of(x - y, z) == -product_of(y - x, z),
{
    reveal(product_of);
    assert((x - y) * z == -((y - x) * z)) by (nonlinear_arith);
}

proof fn lemma_product_splits(g: real, a: real, w: real, f: real)
    ensures
        product_of(g, w) - product_of(a, f) == product_of(g - a, w) + product_of(w - f, a),
{
    reveal(product_of);
    let p = g * w;
    let q = a * w;
    let r = a * f;
    assert((g - a) * w == g * w - a * w) by (nonlinear_arith);
    assert((w - f) * a == w * a - f * a) by (nonlinear_arith);
    assert(w * a == a * w) by (nonlinear_arith);
    assert(f * a == a * f) by (nonlinear_arith);
}

proof fn lemma_product_of_share(f: real, a: real, e: real)
    requires
        e == fine_32(),
    ensures
        product_of(e * f, a) == e * product_of(a, f),
{
    reveal(product_of);
    assert((e * f) * a == e * (a * f)) by (nonlinear_arith)
        requires
            e == 1 as real / 16777216 as real,
    ;
}

proof fn lemma_product_of_shares(a: real, f: real, h: real, e: real)
    requires
        e == fine_32(),
    ensures
        product_of(f + e * f, e * a + h) == (1 as real + e) * (e * product_of(a, f) + product_of(h, f)),
{
    reveal(product_of);
    assert((f + e * f) * (e * a + h) == (1 as real + e) * (e * (a * f) + h * f)) by (nonlinear_arith)
        requires
            e == 1 as real / 16777216 as real,
    ;
}

/// How far the scaled entry lies from the exact one: `entry` narrows to `narrow`, and
/// `factor` is the rounded reciprocal of the length, whose exact one is `whole`.
proof fn lemma_scaled_entry(
    entry: real,
    narrow: real,
    whole: real,
    factor: real,
    half: real,
    e: real,
)
    requires
        e == fine_32(),
        entry >= 0 as real,
        narrow >= 0 as real,
        whole > 0 as real,
        factor >= 0 as real,
        half >= 0 as real,
        entry - narrow <= e * narrow + half,
        narrow - entry <= e * narrow + half,
        whole - factor <= e * factor,
        factor - whole <= e * factor,
    ensures
        ({
            let p = product_of(narrow, factor);
            let gap = (1 as real + e) * (e * p + product_of(half, factor)) + e * p;
            &&& product_of(entry, whole) - p <= gap
            &&& p - product_of(entry, whole) <= gap
        }),
{
    let b = e * narrow + half;
    let c = factor + e * factor;
    lemma_not_negative(narrow, half, e);
    lemma_product_order(entry - narrow, b, whole);
    lemma_product_order(narrow - entry, b, whole);
    lemma_product_order(whole, c, b);
    lemma_product_order(whole - factor, e * factor, narrow);
    lemma_product_order(factor - whole, e * factor, narrow);
    lemma_product_turns(whole, b);
    lemma_product_of_opposite(narrow, entry, whole);
    lemma_product_of_opposite(factor, whole, narrow);
    lemma_product_of_share(factor, narrow, e);
    lemma_product_of_shares(narrow, factor, half, e);
    lemma_product_splits(entry, narrow, whole, factor);
}

proof fn lemma_not_negative(narrow: real, half: real, e: real)
    by (nonlinear_arith)
    requires
        e == 1 as real / 16777216 as real,
        narrow >= 0 as real,
        half >= 0 as real,
    ensures
        e * narrow + half >= 0 as real,
{
}

proof fn lemma_bounded_product(y: real, p: real, x: real, e: real)
    by (nonlinear_arith)
    requires
        e == 1 as real / 16777216 as real,
        0 as real <= y <= 2 as real,
        0 as real <= x <= e,
        p >= 0 as real,
        p - y <= (1 as real + e) * (e * p + x) + e * p,
    ensures
        p <= 3 as real,
{
}

proof fn lemma_scaled_entry_gap(y: real, p: real, c: real, x: real, h: real, e: real)
    by (nonlinear_arith)
    requires
        e == 1 as real / 16777216 as real,
        0 as real <= x <= e,
        0 as real <= h <= e * e,
        p >= 0 as real,
        c >= 0 as real,
        y - p <= (1 as real + e) * (e * p + x) + e * p,
        p - y <= (1 as real + e) * (e * p + x) + e * p,
        p - c <= e * c + h,
        c - p <= e * c + h,
    ensures
        y - c <= 4 as real * e * c + e * (101 as real / 100 as real),
        c - y <= 4 as real * e * c + e * (101 as real / 100 as real),
{
}

proof fn lemma_scaled_product_of(x: real, y: real, t: real)
    ensures
        product_of(x * t, y * t) == product_of(product_of(x, y), t * t),
{
    reveal(product_of);
    assert((x * t) * (y * t) == (x * y) * (t * t)) by (nonlinear_arith);
}

proof fn lemma_product_of_sizes(x: real, y: real, t: real, a: real, b: real)
    requires
        t > 0 as real,
        x * t == a,
        y * t == b,
        product_of(x, y) <= 3 as real,
    ensures
        product_of(a, b) <= product_of(3 as real, t * t),
{
    lemma_scaled_product_of(x, y, t);
    assert(t * t >= 0 as real) by (nonlinear_arith);
    lemma_product_order(product_of(x, y), 3 as real, t * t);
}

/// A product of at most three is finite.
proof fn lemma_bounded_product_is_finite(left: Binary32, right: Binary32)
    requires
        left.finite() && right.finite(),
        product_of(size_32(left), size_32(right)) <= 3 as real,
    ensures
        left.times(right).finite(),
{
    lemma2_to64();
    lemma2_to64_rest();
    lemma_pow2_pos(149);
    let unit = pow2(149);
    let a = magnitude_units(left.magnitude() as nat, 23);
    let b = magnitude_units(right.magnitude() as nat, 23);
    assert(a * b <= 3 * (unit * unit)) by {
        let t = unit as real;
        lemma_quotient(a as real, t);
        lemma_quotient(b as real, t);
        lemma_product_of_sizes(size_32(left), size_32(right), t, a as real, b as real);
        lemma_integer_products(a as int, b as int, unit as int);
    }
    if left.magnitude() > 0 && right.magnitude() > 0 {
        assert(magnitude_units(0x4080_0000, 23) == 4 * unit) by {
            lemma_pow2_adds(23, 128);
            lemma_pow2_adds(2, 149);
            assert((pow2(23) + 0) * pow2(128) == pow2(23) * pow2(128)) by (nonlinear_arith);
        }
        assert(a * b <= (4 * unit) * unit) by (nonlinear_arith)
            requires
                a * b <= 3 * (unit * unit),
                unit >= 0,
        ;
        lemma_nearest_of_exact_32(0x4080_0000, unit);
        lemma_nearest_ratio_is_monotone(a * b, (4 * unit) * unit, unit, 23, 255);
    }
}

proof fn lemma_integer_products(a: int, b: int, unit: int)
    requires
        product_of(a as real, b as real) <= product_of(3 as real, unit as real * unit as real),
    ensures
        a * b <= 3 * (unit * unit),
{
    reveal(product_of);
    lemma_real_product(a, b);
    lemma_real_product(unit, unit);
}

proof fn lemma_half_product(h: real, f: real, u: real)
    by (nonlinear_arith)
    ensures
        (h * f) * (2 as real * (u * u)) == (h * (2 as real * u)) * (f * u),
{
}

proof fn lemma_one_sixteen_millionth(x: real, s: real, most: real)
    by (nonlinear_arith)
    requires
        x * s <= most,
        most * 16777216 as real == s,
        s > 0 as real,
    ensures
        x <= 1 as real / 16777216 as real,
{
}

proof fn lemma_half_times_factor(h: real, u: real, f: real, units: real, most: real)
    requires
        u > 0 as real,
        h * (2 as real * u) == 1 as real,
        f * u == units,
        units <= most,
        most * 16777216 as real == 2 as real * (u * u),
        h >= 0 as real,
        f >= 0 as real,
    ensures
        0 as real <= product_of(h, f),
        product_of(h, f) <= 1 as real / 16777216 as real,
{
    let x = product_of(h, f);
    let s = 2 as real * (u * u);
    assert(x >= 0 as real) by {
        reveal(product_of);
        assert(h * f >= 0 as real) by (nonlinear_arith)
            requires
                h >= 0 as real,
                f >= 0 as real,
        ;
    }
    assert(s > 0 as real) by (nonlinear_arith)
        requires
            s == 2 as real * (u * u),
            u > 0 as real,
    ;
    assert(x * s <= most) by {
        reveal(product_of);
        lemma_half_product(h, f, u);
        let one = h * (2 as real * u);
        assert(one * units == units) by (nonlinear_arith)
            requires
                one == 1 as real,
        ;
    }
    lemma_one_sixteen_millionth(x, s, most);
}

proof fn lemma_small_half(h: real, u: real, e: real)
    by (nonlinear_arith)
    requires
        e == 1 as real / 16777216 as real,
        u >= 562949953421312 as real,
        h * (2 as real * u) == 1 as real,
    ensures
        0 as real <= h <= e * e,
{
}

proof fn lemma_quotient_by_reciprocal(x: real, d: real)
    by (nonlinear_arith)
    requires
        d > 0 as real,
    ensures
        x / d == x * (1 as real / d),
        1 as real / d > 0 as real,
{
}

proof fn lemma_twice_over(d: real)
    by (nonlinear_arith)
    requires
        d > 0 as real,
    ensures
        (2 as real * d) / d == 2 as real,
        (0 as real) / d == 0 as real,
{
}

/// The size of one and of minus one.
proof fn lemma_size_of_sign(sign: Binary32)
    requires
        sign.magnitude() == 0x3f80_0000,
    ensures
        size_32(sign) == 1 as real,
{
    lemma_units_of_one();
    lemma_pow2_pos(149);
    let t = pow2(149) as real;
    assert(t / t == 1 as real) by (nonlinear_arith)
        requires
            t > 0 as real,
    ;
}

/// Half of the smallest number, scaled by a reciprocal of at most `2^126`.
proof fn lemma_scaled_half(factor: Binary32)
    requires
        factor.magnitude() <= 0x7e80_0000,
    ensures
        0 as real <= product_of(half_least_32(), size_32(factor)),
        product_of(half_least_32(), size_32(factor)) <= 1 as real / 16777216 as real,
        0 as real <= half_least_32() <= fine_32() * fine_32(),
{
    lemma2_to64();
    lemma2_to64_rest();
    lemma_half_least();
    lemma_pow2_pos(149);
    lemma_pow2_strictly_increases(49, 149);
    lemma_sizes(factor, Binary64 { bits: 0 });
    let unit = pow2(149);
    let units = magnitude_units(factor.magnitude() as nat, 23);
    let most: nat = 0x7e80_0000;
    let top = magnitude_units(most, 23);
    if factor.magnitude() < most {
        lemma_units_increase(factor.magnitude() as nat, most, 23);
    }
    assert(top * 16777216 == 2 * (unit * unit)) by {
        lemma_pow2_adds(149, 149);
        lemma_pow2_adds(23, 252);
        lemma_pow2_adds(275, 24);
        lemma_pow2_adds(1, 298);
        assert((pow2(23) + 0) * pow2(252) == pow2(23) * pow2(252)) by (nonlinear_arith);
    }
    lemma_real_product(unit as int, unit as int);
    lemma_quotient(units as real, unit as real);
    lemma_half_times_factor(
        half_least_32(),
        unit as real,
        size_32(factor),
        units as real,
        top as real,
    );
    lemma_small_half(half_least_32(), unit as real, fine_32());
}

/// One entry of a scaled direction.
proof fn lemma_direction_entry(entry: Binary64, length: Binary32, sign: Binary32)
    requires
        entry.finite(),
        sign.magnitude() == 0x3f80_0000,
        0x80_0000 <= length.magnitude() <= 0x7e80_0000,
        size_64(entry) <= 2 as real * size_32(length),
        size_32(length) > 0 as real,
    ensures
        ({
            let exact = size_64(entry) / size_32(length);
            let result = size_32(entry.narrowed().times(sign.over(length)));
            &&& exact >= 0 as real
            &&& result >= 0 as real
            &&& exact - result <= entry_gap(result)
            &&& result - exact <= entry_gap(result)
        }),
{
    let d = size_32(length);
    let narrow = entry.narrowed();
    let factor = sign.over(length);
    let g = size_64(entry);
    let a = size_32(narrow);
    let f = size_32(factor);
    let e = fine_32();
    let h = half_least_32();
    lemma_covered_narrowing(entry, length);
    lemma_narrow_error(entry);
    lemma_reciprocal(sign, length);
    lemma_quotient_error(sign, length);
    lemma_size_of_sign(sign);
    lemma_scaled_half(factor);
    lemma_sizes(narrow, entry);
    lemma_sizes(factor, entry);
    lemma_quotient_by_reciprocal(g, d);
    let whole = 1 as real / d;
    lemma_scaled_entry(g, a, whole, f, h, e);
    let y = g / d;
    assert(product_of(g, whole) == y) by {
        reveal(product_of);
    }
    lemma_divided_order(g, 2 as real * d, d);
    lemma_divided_order(0 as real, g, d);
    lemma_twice_over(d);
    let p = product_of(a, f);
    assert(p >= 0 as real) by {
        reveal(product_of);
        assert(a * f >= 0 as real) by (nonlinear_arith)
            requires
                a >= 0 as real,
                f >= 0 as real,
        ;
    }
    lemma_bounded_product(y, p, product_of(h, f), e);
    lemma_bounded_product_is_finite(narrow, factor);
    let result = narrow.times(factor);
    lemma_sizes(result, entry);
    let c = size_32(result);
    assert(p - c <= e * c + h && c - p <= e * c + h) by {
        reveal(product_of);
        lemma_product_error(narrow, factor);
    }
    lemma_scaled_entry_gap(y, p, c, product_of(h, f), h, e);
}

/// A direction scaled by the reciprocal of its length has unit length, up to rounding:
/// where the rounded length and its reciprocal are normal numbers, the squared length
/// differs from one by at most `2^-17`.
pub proof fn lemma_signed_direction_has_unit_length(direction: Seq<Binary64>)
    requires
        direction.len() <= 956,
        usable_length(wide_length(direction)),
        normal_length(wide_length(direction)),
        wide_length(direction).narrowed().magnitude() <= 0x7e80_0000,
    ensures
        near_one(squared_length(signed_direction(direction))),
{
    let n = direction.len() as int;
    let total = wide_squares_before(direction, n);
    let length = total.root().narrowed();
    assert(total.finite());
    lemma_rounded_wide_squares(direction, n);
    let sizes = wide_sizes_of(direction);
    lemma_rounded_length(total, squares(sizes, n), n);
    let d = size_32(length);
    let exact = Seq::new(direction.len(), |r: int| size_64(direction[r]) / d);
    lemma_exact_column(sizes, exact, d, n);
    let sign = peak_sign(narrowed_all(direction));
    let column = signed_direction(direction);
    let entries = sizes_of(column);
    assert forall|r: int| 0 <= r < n implies {
        &&& #[trigger] entries[r] >= 0 as real
        &&& exact[r] >= 0 as real
        &&& exact[r] - entries[r] <= entry_gap(entries[r])
        &&& entries[r] - exact[r] <= entry_gap(entries[r])
    } by {
        let entry = direction[r];
        assert(sizes[r] == size_64(entry));
        lemma_sizes(length, entry);
        lemma_entries_are_covered(sizes, n, r, d);
        lemma_direction_entry(entry, length, sign);
        assert(column[r] == entry.narrowed().times(sign.over(length)));
        assert(entries[r] == size_32(column[r]));
    }
    lemma_column_is_near_one(entries, exact, n);
    lemma_signed_sizes(column, column, n);
}

/// Column `i` of a matrix that is laid out row by row.
pub open spec fn column_at(matrix: Seq<Binary32>, rank: int, rows: nat, i: int) -> Seq<Binary32> {
    Seq::new(rows, |r: int| matrix[r * rank + i])
}

proof fn lemma_column_at(columns: Seq<Seq<Binary32>>, rows: nat, i: int)
    requires
        0 <= i < columns.len(),
        columns[i].len() == rows,
    ensures
        column_at(row_major(columns, rows), columns.len() as int, rows, i) == columns[i],
{
    let rank = columns.len() as int;
    let column = column_at(row_major(columns, rows), rank, rows, i);
    assert forall|r: int| 0 <= r < rows implies #[trigger] column[r] == columns[i][r] by {
        let k = r * rank + i;
        assert(0 <= k < rows * rank) by (nonlinear_arith)
            requires
                k == r * rank + i,
                0 <= r < rows,
                0 <= i < rank,
        ;
        vstd::arithmetic::div_mod::lemma_fundamental_div_mod_converse(k, rank, r, i);
    }
    assert(column =~= columns[i]);
}

/// Every column of a fitted teacher-aligned basis has unit length, up to rounding.
pub proof fn lemma_aligned_basis_has_unit_columns(
    observable: ObservableGnmBasisArtifact,
    samples: Seq<TeacherAlignmentSample>,
    takes: Seq<String>,
    rank: usize,
    decomposition: LeftSingularVectors,
    artifact: TeacherAlignedGnmBasisArtifact,
    i: int,
)
    requires
        is_aligned_fit(observable, samples, takes, rank, decomposition, artifact),
        decomposition_fault(observable, decomposition, rank as int) is None,
        0 <= i < rank,
        normal_length(length_of(aligned_column(observable, decomposition, i))),
    ensures
        near_one(
            squared_length(column_at(artifact.basis_row_major@, artifact.rank as int, 351, i)),
        ),
{
    let columns = aligned_columns(observable, decomposition, rank as int);
    let column = aligned_column(observable, decomposition, i);
    assert(usable_length(length_of(column)));
    assert(columns[i] == signed_unit(column));
    lemma_column_at(columns, 351, i);
    lemma_unit_column_has_unit_length(column);
}

/// Every column of a fitted landmark basis has unit length, up to rounding.
pub proof fn lemma_landmark_basis_has_unit_columns(
    samples: Seq<LandmarkAlignmentSample>,
    takes: Seq<String>,
    rank: usize,
    decomposition: LeftSingularVectors,
    artifact: LandmarkAlignedBasisArtifact,
    i: int,
)
    requires
        is_landmark_fit(samples, takes, rank, decomposition, artifact),
        landmark_decomposition_fault(decomposition, rank as int) is None,
        0 <= i < rank,
        decomposition.direction(i).len() == 956,
        normal_length(wide_length(decomposition.direction(i))),
        wide_length(decomposition.direction(i)).narrowed().magnitude() <= 0x7e80_0000,
    ensures
        near_one(
            squared_length(column_at(artifact.basis_row_major@, artifact.rank as int, 956, i)),
        ),
{
    let columns = landmark_columns(decomposition, rank as int);
    let direction = decomposition.direction(i);
    assert(usable_length(wide_length(direction)));
    assert(columns[i] == signed_direction(direction));
    lemma_column_at(columns, 956, i);
    lemma_signed_direction_has_unit_length(direction);
}

} // verus!
