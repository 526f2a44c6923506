//! Row-major matrices, column signs and running totals.

use vstd::arithmetic::div_mod::lemma_fundamental_div_mod_converse;
use vstd::prelude::*;

use crate::arkit::ONE_BITS;
use crate::binary::{Binary32, Binary64, SIGN_64};
use crate::ordering::descending_order;

verus! {

/// Bit pattern of one.
pub const ONE_64: u64 = 0x3ff0_0000_0000_0000;

/// Bit pattern of minus one.
pub const MINUS_ONE_64: u64 = 0xbff0_0000_0000_0000;

/// Bit pattern of minus one in single precision.
pub const MINUS_ONE_32: u32 = 0xbf80_0000;

/// A row-major position is inside the matrix.
pub proof fn lemma_position_fits(row: int, column: int, rows: int, rank: int)
    requires
        0 <= row < rows,
        0 <= column < rank,
    ensures
        0 <= row * rank + column < rows * rank,
        row * rank >= 0,
{
    assert(row * rank + column < rows * rank) by (nonlinear_arith)
        requires
            0 <= row < rows,
            0 <= column < rank,
    ;
    assert(row * rank >= 0) by (nonlinear_arith)
        requires
            0 <= row,
            0 < rank,
    ;
}

/// The columns as sequences.
pub open spec fn column_values(columns: Seq<Vec<Binary32>>) -> Seq<Seq<Binary32>> {
    Seq::new(columns.len(), |c: int| columns[c]@)
}

/// The columns one row after another.
pub open spec fn row_major(columns: Seq<Seq<Binary32>>, rows: nat) -> Seq<Binary32> {
    Seq::new(
        rows * columns.len(),
        |k: int| columns[k % (columns.len() as int)][k / (columns.len() as int)],
    )
}

/// Lays columns out one row after another.
pub fn lay_out_rows(columns: &Vec<Vec<Binary32>>, rows: usize) -> (matrix: Vec<Binary32>)
    requires
        columns@.len() > 0,
        rows * columns@.len() <= usize::MAX,
        forall|c: int| 0 <= c < columns@.len() ==> (#[trigger] columns@[c])@.len() == rows,
    ensures
        matrix@ == row_major(column_values(columns@), rows as nat),
{
    let count: usize = columns.len();
    let ghost whole = row_major(column_values(columns@), rows as nat);
    let mut matrix: Vec<Binary32> = Vec::new();
    for row in 0..rows
        invariant
            count == columns@.len(),
            count > 0,
            forall|c: int| 0 <= c < columns@.len() ==> (#[trigger] columns@[c])@.len() == rows,
            whole == row_major(column_values(columns@), rows as nat),
            matrix@.len() == row * count,
            forall|k: int| 0 <= k < matrix@.len() ==> #[trigger] matrix@[k] == whole[k],
    {
        for column in 0..count
            invariant
                count == columns@.len(),
                count > 0,
                row < rows,
                forall|c: int| 0 <= c < columns@.len() ==> (#[trigger] columns@[c])@.len() == rows,
                whole == row_major(column_values(columns@), rows as nat),
                matrix@.len() == row * count + column,
                forall|k: int| 0 <= k < matrix@.len() ==> #[trigger] matrix@[k] == whole[k],
        {
            proof {
                let k = row * count + column;
                lemma_position_fits(row as int, column as int, rows as int, count as int);
                lemma_fundamental_div_mod_converse(
                    k as int,
                    count as int,
                    row as int,
                    column as int,
                );
                assert(whole[k as int] == columns@[column as int]@[row as int]);
            }
            matrix.push(columns[column][row]);
        }
        assert((row + 1) * count == row * count + count) by (nonlinear_arith);
    }
    assert(matrix@ =~= whole);
    matrix
}

/// Sum of the first `n` numbers in order, starting from negative zero.
pub open spec fn running_total(numbers: Seq<Binary64>, n: int) -> Binary64
    decreases n,
{
    if n <= 0 {
        Binary64 { bits: SIGN_64 }
    } else {
        running_total(numbers, n - 1).plus(numbers[n - 1])
    }
}

/// Sum of all numbers in order.
pub open spec fn total(numbers: Seq<Binary64>) -> Binary64 {
    running_total(numbers, numbers.len() as int)
}

/// Sums numbers in order.
pub fn sum_all(numbers: &Vec<Binary64>) -> (sum: Binary64)
    ensures
        sum == total(numbers@),
{
    let mut sum = Binary64::from_bits(SIGN_64);
    for i in 0..numbers.len()
        invariant
            sum == running_total(numbers@, i as int),
    {
        sum = sum.sum(numbers[i]);
    }
    sum
}

/// Every number is finite.
pub open spec fn all_finite_64(numbers: Seq<Binary64>) -> bool {
    forall|i: int| 0 <= i < numbers.len() ==> (#[trigger] numbers[i]).finite()
}

/// Whether every number is finite.
pub fn is_all_finite_64(numbers: &Vec<Binary64>) -> (finite: bool)
    ensures
        finite == all_finite_64(numbers@),
{
    for i in 0..numbers.len()
        invariant
            forall|j: int| 0 <= j < i ==> (#[trigger] numbers@[j]).finite(),
    {
        if !numbers[i].is_finite() {
            assert(!numbers@[i as int].finite());
            return false;
        }
    }
    true
}

/// Largest magnitude among the first `n` numbers; what is not a number is passed
/// over.
pub open spec fn largest_magnitude(numbers: Seq<Binary64>, n: int) -> Binary64
    decreases n,
{
    if n <= 0 {
        Binary64 { bits: 0 }
    } else {
        let before = largest_magnitude(numbers, n - 1);
        if before.less(numbers[n - 1].absolute()) {
            numbers[n - 1].absolute()
        } else {
            before
        }
    }
}

/// The first number of largest magnitude among the first `n` is negative.
pub open spec fn leads_negative(numbers: Seq<Binary64>, n: int) -> bool
    decreases n,
{
    if n <= 0 {
        false
    } else if largest_magnitude(numbers, n - 1).less(numbers[n - 1].absolute()) {
        numbers[n - 1].less(Binary64 { bits: 0 })
    } else {
        leads_negative(numbers, n - 1)
    }
}

/// Minus one where the number of largest magnitude is negative, else one.
pub open spec fn leading_sign(numbers: Seq<Binary64>) -> Binary64 {
    if leads_negative(numbers, numbers.len() as int) {
        Binary64 { bits: MINUS_ONE_64 }
    } else {
        Binary64 { bits: ONE_64 }
    }
}

/// The column with the sign that makes its leading entry positive, rounded to
/// single precision.
pub open spec fn oriented(column: Seq<Binary64>) -> Seq<Binary32> {
    Seq::new(column.len(), |r: int| leading_sign(column).times(column[r]).narrowed())
}

/// Orients a column and rounds it to single precision.
pub fn orient(column: &Vec<Binary64>) -> (result: Vec<Binary32>)
    ensures
        result@ == oriented(column@),
{
    let mut largest = Binary64::zero();
    let mut negative = false;
    for r in 0..column.len()
        invariant
            largest == largest_magnitude(column@, r as int),
            negative == leads_negative(column@, r as int),
    {
        if largest.is_less(column[r].abs()) {
            largest = column[r].abs();
            negative = column[r].is_less(Binary64::zero());
        }
    }
    let sign = if negative {
        Binary64::from_bits(MINUS_ONE_64)
    } else {
        Binary64::from_bits(ONE_64)
    };
    let mut result: Vec<Binary32> = Vec::new();
    for r in 0..column.len()
        invariant
            sign == leading_sign(column@),
            result@.len() == r,
            forall|j: int|
                0 <= j < r ==> #[trigger] result@[j] == leading_sign(column@).times(
                    column@[j],
                ).narrowed(),
    {
        result.push(sign.product(column[r]).narrow());
    }
    assert(result@ =~= oriented(column@));
    result
}

/// Position of the last number of largest magnitude among the first `n`, in the
/// total order of bit patterns.
pub open spec fn last_largest(numbers: Seq<Binary32>, n: int) -> int
    decreases n,
{
    if n <= 1 {
        0
    } else {
        let before = last_largest(numbers, n - 1);
        if numbers[before].absolute().total_rank() <= numbers[n - 1].absolute().total_rank() {
            n - 1
        } else {
            before
        }
    }
}

/// Minus one where the last number of largest magnitude is negative, else one.
pub open spec fn peak_sign(numbers: Seq<Binary32>) -> Binary32 {
    if numbers.len() > 0 && numbers[last_largest(numbers, numbers.len() as int)].less(
        Binary32 { bits: 0 },
    ) {
        Binary32 { bits: MINUS_ONE_32 }
    } else {
        Binary32 { bits: ONE_BITS }
    }
}

/// Sign of the last number of largest magnitude.
pub fn sign_of_peak(numbers: &Vec<Binary32>) -> (sign: Binary32)
    ensures
        sign == peak_sign(numbers@),
{
    if numbers.len() == 0 {
        return Binary32::from_bits(ONE_BITS);
    }
    let mut peak: usize = 0;
    for i in 1..numbers.len()
        invariant
            peak < i,
            peak == last_largest(numbers@, i as int),
    {
        let highest: i64 = numbers[peak].abs().total_order();
        let next: i64 = numbers[i].abs().total_order();
        if highest <= next {
            peak = i;
        }
    }
    if numbers[peak].is_less(Binary32::zero()) {
        Binary32::from_bits(MINUS_ONE_32)
    } else {
        Binary32::from_bits(ONE_BITS)
    }
}

/// Singular values and left singular vectors of a cross-covariance, in the
/// solver's own order.
#[derive(Clone, Debug, PartialEq)]
pub struct LeftSingularVectors {
    /// Singular values.
    pub singular_values: Vec<Binary64>,
    /// One left singular vector per singular value, where the solver gave them.
    pub left: Option<Vec<Vec<Binary64>>>,
}

impl LeftSingularVectors {
    /// There are `count` singular values, each with a vector of `rows` entries.
    pub open spec fn complete(self, count: int, rows: int) -> bool {
        &&& self.singular_values@.len() == count
        &&& match self.left {
            Some(columns) => {
                &&& columns@.len() == count
                &&& forall|c: int|
                    0 <= c < columns@.len() ==> (#[trigger] columns@[c])@.len() == rows
            },
            None => true,
        }
    }

    /// Solver positions, largest singular value first.
    pub open spec fn order(self) -> Seq<usize> {
        descending_order(self.singular_values@)
    }

    /// The `rank` largest singular values.
    pub open spec fn retained(self, rank: int) -> Seq<Binary64> {
        Seq::new(rank as nat, |i: int| self.singular_values@[self.order()[i] as int])
    }

    /// Left singular vector of the `i`-th largest singular value.
    pub open spec fn direction(self, i: int) -> Seq<Binary64> {
        self.left->0@[self.order()[i] as int]@
    }
}

} // verus!
