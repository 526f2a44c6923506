//! Columns that were divided by their rounded length have unit length, up to rounding.

use vstd::prelude::*;

use crate::binary::Binary32;
use crate::rounding_error::{fine_32, fine_64, value_32};

verus! {

/// The square of a value.
#[verifier::opaque]
pub open spec fn sq(x: real) -> real {
    x * x
}

/// Sum of the squares of the first `n` values.
pub open spec fn squares(values: Seq<real>, n: int) -> real
    decreases n,
{
    if n <= 0 {
        0 as real
    } else {
        squares(values, n - 1) + sq(values[n - 1])
    }
}

/// The squared length of a column of numbers.
pub open spec fn squared_length(column: Seq<Binary32>) -> real {
    squares(Seq::new(column.len(), |r: int| value_32(column[r])), column.len() as int)
}

/// Two to the minus seventeenth, less than eight millionths.
pub open spec fn length_bound() -> real {
    1 as real / 131072 as real
}

/// The number lies within the bound of one.
pub open spec fn near_one(number: real) -> bool {
    1 as real - length_bound() <= number <= 1 as real + length_bound()
}

/// How far a rounded entry may lie from its exact value.
pub open spec fn entry_gap(entry: real) -> real {
    4 as real * fine_32() * entry + fine_32() * (101 as real / 100 as real)
}

/// Squares are not negative.
pub proof fn lemma_sq_not_negative(x: real)
    ensures
        sq(x) >= 0 as real,
{
    reveal(sq);
    assert(x * x >= 0 as real) by (nonlinear_arith);
}

/// Squares keep the order of what is not negative.
pub proof fn lemma_sq_order(x: real, y: real)
    requires
        0 as real <= x <= y,
    ensures
        sq(x) <= sq(y),
{
    reveal(sq);
    assert(x * x <= y * y) by (nonlinear_arith)
        requires
            0 as real <= x,
            x <= y,
    ;
}

/// The other way round.
pub proof fn lemma_sq_order_back(x: real, y: real)
    requires
        0 as real <= x,
        0 as real <= y,
        sq(x) <= sq(y),
    ensures
        x <= y,
{
    reveal(sq);
    assert(x <= y) by (nonlinear_arith)
        requires
            0 as real <= x,
            0 as real <= y,
            x * x <= y * y,
    ;
}

/// The square of a quotient.
pub proof fn lemma_sq_of_quotient(x: real, length: real)
    requires
        length > 0 as real,
    ensures
        sq(x / length) * sq(length) == sq(x),
{
    reveal(sq);
    let y = x / length;
    crate::rounding_error::lemma_quotient(x, length);
    assert((y * y) * (length * length) == (y * length) * (y * length)) by (nonlinear_arith);
}

/// The sign of a value does not show in its square.
pub proof fn lemma_sq_of_opposite(x: real)
    ensures
        sq(-x) == sq(x),
{
    reveal(sq);
    assert((-x) * (-x) == x * x) by (nonlinear_arith);
}

/// Factors that are not negative keep an order.
pub proof fn lemma_scale_keeps_order(x: real, y: real, z: real)
    by (nonlinear_arith)
    requires
        x <= y,
        z >= 0 as real,
    ensures
        x * z <= y * z,
{
}

/// A sum is scaled part by part.
pub proof fn lemma_scaled_sum(x: real, y: real, z: real)
    by (nonlinear_arith)
    ensures
        (x + y) * z == x * z + y * z,
{
}

/// Squares of a value and of one close to it.
proof fn lemma_sq_of_close(c: real, y: real)
    requires
        c >= 0 as real,
        y >= 0 as real,
        y - c <= entry_gap(c),
        c - y <= entry_gap(c),
    ensures
        sq(c) - sq(y) <= 41 as real * fine_32() * sq(c) + fine_32() / 31 as real,
        sq(y) - sq(c) <= 41 as real * fine_32() * sq(c) + fine_32() / 31 as real,
{
    reveal(sq);
    let e = entry_gap(c);
    assert(c * c - y * y <= e * (2 as real * c + e) && y * y - c * c <= e * (2 as real * c + e))
        by (nonlinear_arith)
        requires
            c >= 0 as real,
            y >= 0 as real,
            e >= 0 as real,
            y - c <= e,
            c - y <= e,
    ;
    lemma_gap_of_squares(c, e);
}

proof fn lemma_gap_of_squares(c: real, e: real)
    by (nonlinear_arith)
    requires
        c >= 0 as real,
        e == 4 as real * (1 as real / 16777216 as real) * c + (1 as real / 16777216 as real) * (101
            as real / 100 as real),
    ensures
        e * (2 as real * c + e) <= 41 as real * (1 as real / 16777216 as real) * (c * c) + (1
            as real / 16777216 as real) / 31 as real,
{
}

/// Each square is at most the sum, which is not negative.
pub proof fn lemma_square_within_the_sum(values: Seq<real>, n: int, r: int)
    ensures
        squares(values, n) >= 0 as real,
        0 <= r < n ==> sq(values[r]) <= squares(values, n),
    decreases n,
{
    if n > 0 {
        lemma_square_within_the_sum(values, n - 1, r);
        lemma_sq_not_negative(values[n - 1]);
    }
}

/// Values divided by a length.
pub proof fn lemma_scaled_squares(values: Seq<real>, scaled: Seq<real>, length: real, n: int)
    requires
        length > 0 as real,
        forall|r: int| 0 <= r < n ==> #[trigger] scaled[r] == values[r] / length,
    ensures
        squares(scaled, n) * sq(length) == squares(values, n),
    decreases n,
{
    let m = sq(length);
    if n > 0 {
        lemma_scaled_squares(values, scaled, length, n - 1);
        lemma_sq_of_quotient(values[n - 1], length);
        lemma_scaled_sum(squares(scaled, n - 1), sq(scaled[n - 1]), m);
    } else {
        assert((0 as real) * m == 0 as real) by (nonlinear_arith);
    }
}

proof fn lemma_gaps_add_up(c: real, y: real, q: real, p: real, m: real, e: real)
    by (nonlinear_arith)
    requires
        e == 1 as real / 16777216 as real,
        c - y <= 41 as real * e * c + m * (e / 31 as real),
        y - c <= 41 as real * e * c + m * (e / 31 as real),
        q - p <= 41 as real * e * q + e / 31 as real,
        p - q <= 41 as real * e * q + e / 31 as real,
    ensures
        (c + q) - (y + p) <= 41 as real * e * (c + q) + (m + 1 as real) * (e / 31 as real),
        (y + p) - (c + q) <= 41 as real * e * (c + q) + (m + 1 as real) * (e / 31 as real),
{
}

proof fn lemma_no_gap(e: real)
    by (nonlinear_arith)
    ensures
        41 as real * e * 0 as real + 0 as real * (e / 31 as real) == 0 as real,
{
}

/// Sums of squares of close values.
pub proof fn lemma_close_sums(left: Seq<real>, right: Seq<real>, n: int)
    requires
        0 <= n,
        forall|r: int|
            0 <= r < n ==> {
                &&& #[trigger] left[r] >= 0 as real
                &&& right[r] >= 0 as real
                &&& right[r] - left[r] <= entry_gap(left[r])
                &&& left[r] - right[r] <= entry_gap(left[r])
            },
    ensures
        ({
            let c = squares(left, n);
            let y = squares(right, n);
            let gap = 41 as real * fine_32() * c + n as real * (fine_32() / 31 as real);
            c - y <= gap && y - c <= gap
        }),
    decreases n,
{
    if n > 0 {
        lemma_close_sums(left, right, n - 1);
        lemma_sq_of_close(left[n - 1], right[n - 1]);
        let m = (n - 1) as real;
        assert(n as real == m + 1 as real);
        lemma_gaps_add_up(
            squares(left, n - 1),
            squares(right, n - 1),
            sq(left[n - 1]),
            sq(right[n - 1]),
            m,
            fine_32(),
        );
    } else {
        lemma_no_gap(fine_32());
    }
}

/// One more square in a rounded sum: `sum` and `more` are exact, `total`, `square` and
/// `next` are what they round to.
pub proof fn lemma_total_step(
    m: real,
    sum: real,
    total: real,
    more: real,
    square: real,
    next: real,
    half: real,
)
    requires
        m >= 0 as real,
        0 as real <= total <= next,
        0 as real <= square <= next,
        sum - total <= (2 as real * fine_64() * total + half) * m,
        total - sum <= (2 as real * fine_64() * total + half) * m,
        more - square <= fine_64() * square + half,
        square - more <= fine_64() * square + half,
        total + square - next <= fine_64() * next,
        next - (total + square) <= fine_64() * next,
    ensures
        (sum + more) - next <= (2 as real * fine_64() * next + half) * (m + 1 as real),
        next - (sum + more) <= (2 as real * fine_64() * next + half) * (m + 1 as real),
{
    let b = 2 as real * fine_64() * total + half;
    let c = 2 as real * fine_64() * next + half;
    lemma_share_grows(total, next, half, fine_64());
    lemma_scale_keeps_order(b, c, m);
    lemma_one_more(c, m);
    lemma_step_gap(sum, total, more, square, next, half, fine_64(), b * m, c * m);
}

proof fn lemma_share_grows(total: real, next: real, half: real, f: real)
    by (nonlinear_arith)
    requires
        total <= next,
        f == 1 as real / 9007199254740992 as real,
    ensures
        2 as real * f * total + half <= 2 as real * f * next + half,
{
}

proof fn lemma_step_gap(
    sum: real,
    total: real,
    more: real,
    square: real,
    next: real,
    half: real,
    f: real,
    old_gap: real,
    new_gap: real,
)
    by (nonlinear_arith)
    requires
        f == 1 as real / 9007199254740992 as real,
        square <= next,
        old_gap <= new_gap,
        sum - total <= old_gap,
        total - sum <= old_gap,
        more - square <= f * square + half,
        square - more <= f * square + half,
        total + square - next <= f * next,
        next - (total + square) <= f * next,
    ensures
        (sum + more) - next <= new_gap + (2 as real * f * next + half),
        next - (sum + more) <= new_gap + (2 as real * f * next + half),
{
}

proof fn lemma_one_more(c: real, m: real)
    by (nonlinear_arith)
    ensures
        c * (m + 1 as real) == c * m + c,
{
}

/// The square of a multiple just above or just below a value.
proof fn lemma_sq_of_multiples(d: real)
    ensures
        sq(d + d * (101 as real / 1677721600 as real)) <= sq(d) + 203 as real / 1677721600 as real
            * sq(d),
        sq(d - d * (101 as real / 1677721600 as real)) >= sq(d) - 203 as real / 1677721600 as real
            * sq(d),
{
    reveal(sq);
    let k = 101 as real / 1677721600 as real;
    lemma_square_of_multiples(d, k);
    assert(d * d >= 0 as real) by (nonlinear_arith);
    lemma_small_multiples(d * d, k);
}

proof fn lemma_square_of_multiples(d: real, k: real)
    by (nonlinear_arith)
    ensures
        (d + d * k) * (d + d * k) == d * d + 2 as real * k * (d * d) + k * k * (d * d),
        (d - d * k) * (d - d * k) == d * d - 2 as real * k * (d * d) + k * k * (d * d),
{
}

proof fn lemma_small_multiples(q: real, k: real)
    by (nonlinear_arith)
    requires
        q >= 0 as real,
        k == 101 as real / 1677721600 as real,
    ensures
        q + 2 as real * k * q + k * k * q <= q + 203 as real / 1677721600 as real * q,
        q - 2 as real * k * q + k * k * q >= q - 203 as real / 1677721600 as real * q,
{
}

/// The squared sum of a column lies close to the square of its rounded length: `sum` is
/// exact, `total` what it rounds to, `root` the root of that, `length` that in single
/// precision.
pub proof fn lemma_length_is_close(
    n: real,
    sum: real,
    total: real,
    root: real,
    length: real,
    half: real,
)
    requires
        0 as real <= n <= 1024 as real,
        total >= 0 as real,
        root >= 0 as real,
        length > 0 as real,
        half >= 0 as real,
        1024 as real * half <= fine_64() * sq(length),
        sum - total <= (2 as real * fine_64() * total + half) * n,
        total - sum <= (2 as real * fine_64() * total + half) * n,
        sq(root - fine_64() * root) <= total,
        total <= sq(root + fine_64() * root),
        root - length <= fine_32() * length,
        length - root <= fine_32() * length,
    ensures
        sum - sq(length) <= 3 as real * fine_32() * sq(length),
        sq(length) - sum <= 3 as real * fine_32() * sq(length),
{
    let k = length * (101 as real / 1677721600 as real);
    lemma_sq_of_multiples(length);
    lemma_root_is_close(root, length, fine_64(), fine_32());
    lemma_sq_order(root + fine_64() * root, length + k);
    lemma_sq_order(length - k, root - fine_64() * root);
    lemma_sq_not_negative(length);
    let b = 2 as real * fine_64() * total + half;
    lemma_share_grows(0 as real, total, half, fine_64());
    lemma_no_share(fine_64());
    lemma_scale_keeps_order(n, 1024 as real, b);
    assert(n * b == b * n) by (nonlinear_arith);
    lemma_sum_is_close(sum, total, sq(length), half, b * n, fine_64(), fine_32());
}

proof fn lemma_no_share(f: real)
    by (nonlinear_arith)
    ensures
        2 as real * f * 0 as real == 0 as real,
{
}

proof fn lemma_root_is_close(root: real, length: real, f: real, e: real)
    by (nonlinear_arith)
    requires
        f == 1 as real / 9007199254740992 as real,
        e == 1 as real / 16777216 as real,
        length > 0 as real,
        root >= 0 as real,
        root - length <= e * length,
        length - root <= e * length,
    ensures
        0 as real <= root + f * root,
        root + f * root <= length + length * (101 as real / 1677721600 as real),
        0 as real <= length - length * (101 as real / 1677721600 as real),
        length - length * (101 as real / 1677721600 as real) <= root - f * root,
{
}

proof fn lemma_sum_is_close(
    sum: real,
    total: real,
    q: real,
    half: real,
    gap: real,
    f: real,
    e: real,
)
    by (nonlinear_arith)
    requires
        f == 1 as real / 9007199254740992 as real,
        e == 1 as real / 16777216 as real,
        q >= 0 as real,
        total <= q + 203 as real / 1677721600 as real * q,
        total >= q - 203 as real / 1677721600 as real * q,
        sum - total <= gap,
        total - sum <= gap,
        gap <= 1024 as real * (2 as real * f * total + half),
        1024 as real * half <= f * q,
    ensures
        sum - q <= 3 as real * e * q,
        q - sum <= 3 as real * e * q,
{
}

/// Entries close to those of a column whose squared sum is close to one.
pub proof fn lemma_column_is_near_one(left: Seq<real>, right: Seq<real>, n: int)
    requires
        0 <= n <= 956,
        forall|r: int|
            0 <= r < n ==> {
                &&& #[trigger] left[r] >= 0 as real
                &&& right[r] >= 0 as real
                &&& right[r] - left[r] <= entry_gap(left[r])
                &&& left[r] - right[r] <= entry_gap(left[r])
            },
        squares(right, n) - 1 as real <= 3 as real * fine_32(),
        1 as real - squares(right, n) <= 3 as real * fine_32(),
    ensures
        near_one(squares(left, n)),
{
    lemma_close_sums(left, right, n);
    lemma_square_within_the_sum(left, n, 0);
    assert(n as real <= 956 as real);
    lemma_near_one(squares(left, n), squares(right, n), n as real, fine_32());
}

proof fn lemma_near_one(c: real, y: real, n: real, e: real)
    by (nonlinear_arith)
    requires
        e == 1 as real / 16777216 as real,
        0 as real <= n <= 956 as real,
        c >= 0 as real,
        c - y <= 41 as real * e * c + n * (e / 31 as real),
        y - c <= 41 as real * e * c + n * (e / 31 as real),
        y - 1 as real <= 3 as real * e,
        1 as real - y <= 3 as real * e,
    ensures
        1 as real - 1 as real / 131072 as real <= c <= 1 as real + 1 as real / 131072 as real,
{
}

} // verus!
