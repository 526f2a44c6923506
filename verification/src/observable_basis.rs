//! Observable non-tongue GNM expression basis artifacts.

use vstd::prelude::*;

use crate::binary::{Binary32, Binary64};
use crate::content_hash::{
    canonical_list_bytes, fnv1a, fnv_of, put_canonical, put_text, put_texts, put_u32, put_u64, text_list_bytes,
    u32_bytes, u64_bytes,
};
use crate::linear_map::{all_finite, copy_numbers, is_all_finite};
use crate::matrix::{
    all_finite_64, column_values, is_all_finite_64, lay_out_rows, lemma_position_fits, orient, oriented, row_major,
    sum_all, total,
};
use crate::ordering::{descending_keys, descending_order, is_stable_order, order_descending};

verus! {

/// Schema version of [`ObservableGnmBasisArtifact`].
pub const OBSERVABLE_GNM_BASIS_SCHEMA_VERSION: u32 = 1;

/// Dimension of the non-tongue expression.
pub const GNM_HEAD_V3_NON_TONGUE_EXPRESSION_DIM: usize = 351;

/// Number of entries in the packed lower triangle of the Gram matrix.
pub const GRAM_TRIANGLE_LEN: usize = 61_776;

/// Inputs that bind an observable basis to its model, mapping, and takes.
#[derive(Clone, Debug, PartialEq)]
pub struct ObservableBasisProvenance {
    /// SHA-256 of the pinned GNM model bytes.
    pub model_sha256: String,
    /// Dense mapping schema revision used to build every Jacobian.
    pub mapping_schema_revision: u32,
    /// Explicit, ordered training take ids.
    pub training_takes: Vec<String>,
}

/// Versioned observable non-tongue expression basis.
#[derive(Clone, Debug, PartialEq)]
pub struct ObservableGnmBasisArtifact {
    /// Artifact schema version.
    pub schema_version: u32,
    /// SHA-256 of the pinned GNM model bytes.
    pub model_sha256: String,
    /// Dense mapping schema revision.
    pub mapping_schema_revision: u32,
    /// Number of retained observable directions.
    pub rank: usize,
    /// Fixed source expression dimension (351).
    pub source_dimension: usize,
    /// Ordered take ids included in the Gram matrix.
    pub training_takes: Vec<String>,
    /// Retained eigenvalues in descending order.
    pub eigenvalues_descending: Vec<Binary64>,
    /// Fraction of total Gram energy retained by the selected rank.
    pub retained_energy_fraction: Binary64,
    /// Row-major `[351, rank]` orthonormal basis.
    pub basis_row_major: Vec<Binary32>,
    /// Deterministic content hash over every preceding field.
    pub content_hash: u64,
}

/// A compact expression is unusable.
#[derive(Clone, Copy, Debug, PartialEq, Eq, Structural)]
pub enum GnmModelError {
    /// The number of values differs from the fixed dimension.
    ExpressionDimension {
        /// Number of values.
        actual: usize,
    },
    /// A value is not finite.
    NonFiniteExpression,
}

/// Typed observable-basis failure.
#[derive(Clone, Copy, Debug, PartialEq)]
pub enum ObservableBasisError {
    /// Input shape does not match the fixed Head-v3 contract.
    InvalidShape(&'static str),
    /// Rank is outside `1..=351`.
    InvalidRank(usize),
    /// Training provenance is incomplete.
    InvalidProvenance,
    /// A numeric input or result was non-finite or had no energy.
    InvalidNumeric(&'static str),
    /// Artifact hash does not match its contents.
    HashMismatch {
        /// Hash stored in the artifact.
        expected: u64,
        /// Hash recomputed from decoded fields.
        actual: u64,
    },
    /// Compact expression validation failed.
    Expression(GnmModelError),
}

/// A validated non-tongue expression: one finite value per direction.
#[derive(Debug, PartialEq)]
pub struct GnmNonTongueExpression {
    values: Vec<Binary32>,
}

/// Why values do not form an expression, if they do not.
pub open spec fn expression_error(values: Seq<Binary32>) -> Option<GnmModelError> {
    if values.len() != GNM_HEAD_V3_NON_TONGUE_EXPRESSION_DIM {
        Some(GnmModelError::ExpressionDimension { actual: values.len() as usize })
    } else if !all_finite(values) {
        Some(GnmModelError::NonFiniteExpression)
    } else {
        None
    }
}

impl View for GnmNonTongueExpression {
    type V = Seq<Binary32>;

    closed spec fn view(&self) -> Seq<Binary32> {
        self.values@
    }
}

impl Clone for GnmNonTongueExpression {
    fn clone(&self) -> (copy: Self)
        ensures
            copy@ == self@,
    {
        proof {
            use_type_invariant(self);
        }
        GnmNonTongueExpression { values: copy_numbers(&self.values) }
    }
}

impl GnmNonTongueExpression {
    #[verifier::type_invariant]
    spec fn valid(self) -> bool {
        expression_error(self.values@) is None
    }

    /// Accepts exactly one finite value per direction.
    ///
    /// # Errors
    ///
    /// Rejects another number of values, or a value that is not finite.
    pub fn try_from_values(values: Vec<Binary32>) -> (result: Result<Self, GnmModelError>)
        ensures
            match result {
                Ok(expression) => expression@ == values@ && expression_error(values@) is None,
                Err(error) => expression_error(values@) == Some(error),
            },
    {
        if values.len() != GNM_HEAD_V3_NON_TONGUE_EXPRESSION_DIM {
            return Err(GnmModelError::ExpressionDimension { actual: values.len() });
        }
        if !is_all_finite(&values) {
            return Err(GnmModelError::NonFiniteExpression);
        }
        Ok(GnmNonTongueExpression { values })
    }

    /// The expression with every value zero.
    pub fn neutral() -> (expression: Self)
        ensures
            expression@ == Seq::new(351, |i: int| Binary32 { bits: 0 }),
    {
        let mut values: Vec<Binary32> = Vec::new();
        for i in 0..GNM_HEAD_V3_NON_TONGUE_EXPRESSION_DIM
            invariant
                values@ =~= Seq::new(i as nat, |j: int| Binary32 { bits: 0 }),
        {
            values.push(Binary32::zero());
        }
        GnmNonTongueExpression { values }
    }

    /// The values.
    pub fn values(&self) -> (values: &Vec<Binary32>)
        ensures
            values@ == self@,
            expression_error(self@) is None,
    {
        proof {
            use_type_invariant(self);
        }
        &self.values
    }
}

/// Product of the first `n` rows of one basis column with an expression, summed
/// in row order.
pub open spec fn column_product(
    basis: Seq<Binary32>,
    expression: Seq<Binary32>,
    rank: int,
    column: int,
    n: int,
) -> Binary32
    decreases n,
{
    if n <= 0 {
        Binary32 { bits: 0 }
    } else {
        column_product(basis, expression, rank, column, n - 1).plus(
            basis[(n - 1) * rank + column].times(expression[n - 1]),
        )
    }
}

/// Product of the first `n` columns of one basis row with reduced coordinates,
/// summed in column order.
pub open spec fn row_product(
    basis: Seq<Binary32>,
    reduced: Seq<Binary32>,
    rank: int,
    row: int,
    n: int,
) -> Binary32
    decreases n,
{
    if n <= 0 {
        Binary32 { bits: 0 }
    } else {
        row_product(basis, reduced, rank, row, n - 1).plus(
            basis[row * rank + (n - 1)].times(reduced[n - 1]),
        )
    }
}

/// Reduced coordinates of an expression.
pub open spec fn projected(
    basis: Seq<Binary32>,
    expression: Seq<Binary32>,
    rank: int,
) -> Seq<Binary32> {
    Seq::new(
        rank as nat,
        |column: int| column_product(basis, expression, rank, column, expression.len() as int),
    )
}

/// Expression of reduced coordinates.
pub open spec fn reconstructed(basis: Seq<Binary32>, reduced: Seq<Binary32>, rank: int) -> Seq<
    Binary32,
> {
    Seq::new(
        GNM_HEAD_V3_NON_TONGUE_EXPRESSION_DIM as nat,
        |row: int| row_product(basis, reduced, rank, row, rank),
    )
}

/// Reduced coordinates of an expression.
pub fn project_rows(basis: &Vec<Binary32>, expression: &Vec<Binary32>, rank: usize) -> (reduced: Vec<
    Binary32,
>)
    requires
        basis@.len() == expression@.len() * rank,
    ensures
        reduced@ == projected(basis@, expression@, rank as int),
{
    let mut reduced: Vec<Binary32> = Vec::new();
    for column in 0..rank
        invariant
            basis@.len() == expression@.len() * rank,
            reduced@.len() == column,
            forall|c: int|
                0 <= c < column ==> #[trigger] reduced@[c] == column_product(
                    basis@,
                    expression@,
                    rank as int,
                    c,
                    expression@.len() as int,
                ),
    {
        let mut total = Binary32::zero();
        for row in 0..expression.len()
            invariant
                column < rank,
                basis@.len() == expression@.len() * rank,
                total == column_product(
                    basis@,
                    expression@,
                    rank as int,
                    column as int,
                    row as int,
                ),
        {
            proof {
                lemma_position_fits(row as int, column as int, expression@.len() as int, rank as int);
                assert(basis.len() == basis@.len());
            }
            total = total.sum(basis[row * rank + column].product(expression[row]));
        }
        reduced.push(total);
    }
    assert(reduced@ =~= projected(basis@, expression@, rank as int));
    reduced
}

/// Expression of reduced coordinates.
pub fn reconstruct_rows(basis: &Vec<Binary32>, reduced: &Vec<Binary32>, rank: usize) -> (expression: Vec<
    Binary32,
>)
    requires
        basis@.len() == GNM_HEAD_V3_NON_TONGUE_EXPRESSION_DIM * rank,
        reduced@.len() == rank,
    ensures
        expression@ == reconstructed(basis@, reduced@, rank as int),
{
    let mut expression: Vec<Binary32> = Vec::new();
    for row in 0..GNM_HEAD_V3_NON_TONGUE_EXPRESSION_DIM
        invariant
            basis@.len() == GNM_HEAD_V3_NON_TONGUE_EXPRESSION_DIM * rank,
            reduced@.len() == rank,
            expression@.len() == row,
            forall|r: int|
                0 <= r < row ==> #[trigger] expression@[r] == row_product(
                    basis@,
                    reduced@,
                    rank as int,
                    r,
                    rank as int,
                ),
    {
        let mut total = Binary32::zero();
        for column in 0..rank
            invariant
                row < GNM_HEAD_V3_NON_TONGUE_EXPRESSION_DIM,
                basis@.len() == GNM_HEAD_V3_NON_TONGUE_EXPRESSION_DIM * rank,
                reduced@.len() == rank,
                total == row_product(basis@, reduced@, rank as int, row as int, column as int),
        {
            proof {
                lemma_position_fits(row as int, column as int, 351, rank as int);
                assert(basis.len() == basis@.len());
            }
            total = total.sum(basis[row * rank + column].product(reduced[column]));
        }
        expression.push(total);
    }
    assert(expression@ =~= reconstructed(basis@, reduced@, rank as int));
    expression
}

/// Each number rounded to single precision, by its bit pattern.
pub open spec fn narrowed_list_bytes(numbers: Seq<Binary64>) -> Seq<u8>
    decreases numbers.len(),
{
    if numbers.len() == 0 {
        Seq::empty()
    } else {
        narrowed_list_bytes(numbers.drop_last()) + u32_bytes(numbers.last().narrowed().bits)
    }
}

/// Appends each number rounded to single precision.
pub fn put_narrowed(out: &mut Vec<u8>, numbers: &Vec<Binary64>)
    ensures
        final(out)@ == old(out)@ + narrowed_list_bytes(numbers@),
{
    let ghost before = out@;
    for i in 0..numbers.len()
        invariant
            out@ == before + narrowed_list_bytes(numbers@.take(i as int)),
    {
        put_u32(out, numbers[i].narrow().bits);
        assert(numbers@.take(i + 1).drop_last() =~= numbers@.take(i as int));
        assert(out@ =~= before + narrowed_list_bytes(numbers@.take(i + 1)));
    }
    assert(numbers@.take(numbers@.len() as int) =~= numbers@);
}

impl ObservableGnmBasisArtifact {
    /// The bytes that the content hash covers.
    pub open spec fn hashed_bytes(self) -> Seq<u8> {
        u32_bytes(self.schema_version) + vstd::utf8::encode_utf8(self.model_sha256@) + u32_bytes(
            self.mapping_schema_revision,
        ) + u64_bytes(self.rank as u64) + u64_bytes(self.source_dimension as u64)
            + text_list_bytes(self.training_takes@) + narrowed_list_bytes(
            self.eigenvalues_descending@,
        ) + u32_bytes(self.retained_energy_fraction.narrowed().bits) + canonical_list_bytes(
            self.basis_row_major@,
        )
    }

    /// The stored hash covers the contents.
    pub open spec fn hash_matches(self) -> bool {
        self.content_hash == fnv_of(self.hashed_bytes())
    }

    /// Schema and dimensions are as fixed.
    pub open spec fn shape_valid(self) -> bool {
        &&& self.schema_version == OBSERVABLE_GNM_BASIS_SCHEMA_VERSION
        &&& self.source_dimension == GNM_HEAD_V3_NON_TONGUE_EXPRESSION_DIM
        &&& 1 <= self.rank <= self.source_dimension
        &&& self.eigenvalues_descending@.len() == self.rank
        &&& self.basis_row_major@.len() == self.source_dimension * self.rank
    }

    /// Why the artifact cannot be used, if it cannot.
    pub open spec fn fault(self) -> Option<ObservableBasisError> {
        if !self.shape_valid() {
            Some(ObservableBasisError::InvalidShape("artifact"))
        } else if !self.hash_matches() {
            Some(
                ObservableBasisError::HashMismatch {
                    expected: self.content_hash,
                    actual: fnv_of(self.hashed_bytes()),
                },
            )
        } else {
            None
        }
    }
}

/// Hash over every field but the hash itself.
pub fn observable_basis_hash(artifact: &ObservableGnmBasisArtifact) -> (hash: u64)
    ensures
        hash == fnv_of(artifact.hashed_bytes()),
{
    let mut bytes: Vec<u8> = Vec::new();
    put_u32(&mut bytes, artifact.schema_version);
    put_text(&mut bytes, &artifact.model_sha256);
    put_u32(&mut bytes, artifact.mapping_schema_revision);
    put_u64(&mut bytes, artifact.rank as u64);
    put_u64(&mut bytes, artifact.source_dimension as u64);
    put_texts(&mut bytes, &artifact.training_takes);
    put_narrowed(&mut bytes, &artifact.eigenvalues_descending);
    put_u32(&mut bytes, artifact.retained_energy_fraction.narrow().bits);
    put_canonical(&mut bytes, &artifact.basis_row_major);
    assert(bytes@ =~= artifact.hashed_bytes());
    fnv1a(&bytes)
}

/// Checks schema, dimensions and hash.
pub fn validate_artifact(basis: &ObservableGnmBasisArtifact) -> (result: Result<
    (),
    ObservableBasisError,
>)
    ensures
        match result {
            Ok(_) => basis.fault() is None,
            Err(error) => basis.fault() == Some(error),
        },
{
    if basis.schema_version != OBSERVABLE_GNM_BASIS_SCHEMA_VERSION || basis.source_dimension
        != GNM_HEAD_V3_NON_TONGUE_EXPRESSION_DIM || basis.rank < 1 || basis.rank
        > basis.source_dimension || basis.eigenvalues_descending.len() != basis.rank
        || basis.basis_row_major.len() != basis.source_dimension * basis.rank {
        return Err(ObservableBasisError::InvalidShape("artifact"));
    }
    let actual: u64 = observable_basis_hash(basis);
    if actual != basis.content_hash {
        return Err(
            ObservableBasisError::HashMismatch { expected: basis.content_hash, actual },
        );
    }
    Ok(())
}

/// The outcome of projecting an expression.
pub open spec fn is_projection(
    expression: Seq<Binary32>,
    basis: ObservableGnmBasisArtifact,
    result: Result<Vec<Binary32>, ObservableBasisError>,
) -> bool {
    let reduced = projected(basis.basis_row_major@, expression, basis.rank as int);
    match result {
        Ok(found) => basis.fault() is None && all_finite(reduced) && found@ == reduced,
        Err(error) => {
            if basis.fault() is Some {
                basis.fault() == Some(error)
            } else {
                !all_finite(reduced) && error == ObservableBasisError::InvalidNumeric(
                    "projected expression",
                )
            }
        },
    }
}

/// Projects an expression onto the basis.
///
/// # Errors
///
/// Rejects an invalid artifact shape/hash or non-finite output.
pub fn project_non_tongue_expression(
    expression: &GnmNonTongueExpression,
    basis: &ObservableGnmBasisArtifact,
) -> (result: Result<Vec<Binary32>, ObservableBasisError>)
    ensures
        is_projection(expression@, *basis, result),
{
    if let Err(error) = validate_artifact(basis) {
        return Err(error);
    }
    let reduced = project_rows(&basis.basis_row_major, expression.values(), basis.rank);
    if !is_all_finite(&reduced) {
        return Err(ObservableBasisError::InvalidNumeric("projected expression"));
    }
    Ok(reduced)
}

/// Reconstructs an expression from reduced coordinates.
///
/// # Errors
///
/// Rejects an invalid artifact, reduced dimension, or non-finite result.
pub fn reconstruct_non_tongue_expression(
    reduced: &Vec<Binary32>,
    basis: &ObservableGnmBasisArtifact,
) -> (result: Result<GnmNonTongueExpression, ObservableBasisError>)
    ensures
        ({
            let values = reconstructed(basis.basis_row_major@, reduced@, basis.rank as int);
            match result {
                Ok(expression) => {
                    &&& basis.fault() is None
                    &&& reduced@.len() == basis.rank
                    &&& expression@ == values
                    &&& all_finite(values)
                },
                Err(error) => {
                    if basis.fault() is Some {
                        basis.fault() == Some(error)
                    } else if reduced@.len() != basis.rank {
                        error == ObservableBasisError::InvalidShape("reduced expression")
                    } else {
                        !all_finite(values) && error == ObservableBasisError::Expression(
                            GnmModelError::NonFiniteExpression,
                        )
                    }
                },
            }
        }),
{
    if let Err(error) = validate_artifact(basis) {
        return Err(error);
    }
    if reduced.len() != basis.rank {
        return Err(ObservableBasisError::InvalidShape("reduced expression"));
    }
    let values = reconstruct_rows(&basis.basis_row_major, reduced, basis.rank);
    match GnmNonTongueExpression::try_from_values(values) {
        Ok(expression) => Ok(expression),
        Err(error) => Err(ObservableBasisError::Expression(error)),
    }
}

/// Eigenvalues and eigenvectors of the Gram matrix, in the solver's own order.
#[derive(Clone, Debug, PartialEq)]
pub struct GramEigenvectors {
    /// One eigenvalue per dimension.
    pub eigenvalues: Vec<Binary64>,
    /// One eigenvector per eigenvalue, each with one entry per dimension.
    pub eigenvectors: Vec<Vec<Binary64>>,
}

impl GramEigenvectors {
    /// There is one eigenvalue and one full eigenvector per dimension.
    pub open spec fn complete(self) -> bool {
        &&& self.eigenvalues@.len() == GNM_HEAD_V3_NON_TONGUE_EXPRESSION_DIM
        &&& self.eigenvectors@.len() == GNM_HEAD_V3_NON_TONGUE_EXPRESSION_DIM
        &&& forall|c: int|
            0 <= c < self.eigenvectors@.len() ==> (#[trigger] self.eigenvectors@[c])@.len()
                == GNM_HEAD_V3_NON_TONGUE_EXPRESSION_DIM
    }

    /// Solver positions of the retained directions, largest eigenvalue first.
    pub open spec fn order(self) -> Seq<usize> {
        descending_order(self.eigenvalues@)
    }

    /// The `rank` largest eigenvalues.
    pub open spec fn retained(self, rank: int) -> Seq<Binary64> {
        Seq::new(rank as nat, |i: int| self.eigenvalues@[self.order()[i] as int])
    }

    /// Fraction of the total energy that the `rank` largest eigenvalues hold.
    pub open spec fn energy_fraction(self, rank: int) -> Binary64 {
        total(self.retained(rank)).over(total(self.eigenvalues@))
    }

    /// The retained eigenvectors, each oriented.
    pub open spec fn columns(self, rank: int) -> Seq<Seq<Binary32>> {
        Seq::new(
            rank as nat,
            |i: int| oriented(self.eigenvectors@[self.order()[i] as int]@),
        )
    }

    /// Why the decomposition gives no basis, if it does not.
    pub open spec fn fault(self, rank: int) -> Option<ObservableBasisError> {
        if !all_finite_64(self.eigenvalues@) {
            Some(ObservableBasisError::InvalidNumeric("eigenvalue"))
        } else if !total(self.eigenvalues@).finite() || total(self.eigenvalues@).at_most(
            Binary64 { bits: 0 },
        ) {
            Some(ObservableBasisError::InvalidNumeric("Gram energy"))
        } else if !self.energy_fraction(rank).finite() {
            Some(ObservableBasisError::InvalidNumeric("retained energy"))
        } else {
            None
        }
    }
}

/// Why a Gram triangle cannot be fitted, if it cannot.
pub open spec fn gram_fault(
    triangle: Seq<Binary64>,
    training_frame_count: usize,
    rank: usize,
    provenance: ObservableBasisProvenance,
) -> Option<ObservableBasisError> {
    if triangle.len() != GRAM_TRIANGLE_LEN || training_frame_count == 0 {
        Some(ObservableBasisError::InvalidShape("Gram triangle or training frame count"))
    } else if rank < 1 || rank > GNM_HEAD_V3_NON_TONGUE_EXPRESSION_DIM {
        Some(ObservableBasisError::InvalidRank(rank))
    } else if provenance.model_sha256@.len() == 0 || provenance.training_takes@.len() == 0 {
        Some(ObservableBasisError::InvalidProvenance)
    } else if !all_finite_64(triangle) {
        Some(ObservableBasisError::InvalidNumeric("Gram entry"))
    } else {
        None
    }
}

/// Position of an entry in the packed lower triangle.
pub open spec fn triangle_position(row: int, column: int) -> int {
    if column <= row {
        row * (row + 1) / 2 + column
    } else {
        column * (column + 1) / 2 + row
    }
}

/// The symmetric matrix of a packed lower triangle, one row after another.
pub open spec fn symmetric_rows(triangle: Seq<Binary64>, rows: Seq<Vec<Binary64>>) -> bool {
    &&& rows.len() == GNM_HEAD_V3_NON_TONGUE_EXPRESSION_DIM
    &&& forall|r: int|
        0 <= r < rows.len() ==> (#[trigger] rows[r])@.len()
            == GNM_HEAD_V3_NON_TONGUE_EXPRESSION_DIM
    &&& forall|r: int, c: int|
        0 <= r < 351 && 0 <= c < 351 ==> #[trigger] rows[r]@[c] == triangle[triangle_position(
            r,
            c,
        )]
}

proof fn lemma_triangle_fits(row: int, column: int)
    requires
        0 <= column <= row < 351,
    ensures
        0 <= row * (row + 1) / 2,
        row * (row + 1) / 2 + column < GRAM_TRIANGLE_LEN,
{
    assert(0 <= row * (row + 1) <= 350 * 351) by (nonlinear_arith)
        requires
            0 <= row < 351,
    ;
}

/// The symmetric matrix that the eigenvalue solver is run on.
///
/// # Errors
///
/// Rejects invalid dimensions, rank, provenance, or non-finite entries.
pub fn symmetric_gram_matrix(
    gram_lower_triangle: &Vec<Binary64>,
    training_frame_count: usize,
    rank: usize,
    provenance: &ObservableBasisProvenance,
) -> (result: Result<Vec<Vec<Binary64>>, ObservableBasisError>)
    ensures
        match result {
            Ok(rows) => gram_fault(
                gram_lower_triangle@,
                training_frame_count,
                rank,
                *provenance,
            ) is None && symmetric_rows(gram_lower_triangle@, rows@),
            Err(error) => gram_fault(
                gram_lower_triangle@,
                training_frame_count,
                rank,
                *provenance,
            ) == Some(error),
        },
{
    let dimension: usize = GNM_HEAD_V3_NON_TONGUE_EXPRESSION_DIM;
    if gram_lower_triangle.len() != GRAM_TRIANGLE_LEN || training_frame_count == 0 {
        return Err(ObservableBasisError::InvalidShape("Gram triangle or training frame count"));
    }
    if rank < 1 || rank > dimension {
        return Err(ObservableBasisError::InvalidRank(rank));
    }
    if is_blank(&provenance.model_sha256) || provenance.training_takes.len() == 0 {
        return Err(ObservableBasisError::InvalidProvenance);
    }
    if !is_all_finite_64(gram_lower_triangle) {
        return Err(ObservableBasisError::InvalidNumeric("Gram entry"));
    }
    let mut rows: Vec<Vec<Binary64>> = Vec::new();
    for r in 0..dimension
        invariant
            dimension == 351,
            gram_lower_triangle@.len() == GRAM_TRIANGLE_LEN,
            rows@.len() == r,
            forall|i: int| 0 <= i < r ==> (#[trigger] rows@[i])@.len() == 351,
            forall|i: int, c: int|
                0 <= i < r && 0 <= c < 351 ==> #[trigger] rows@[i]@[c]
                    == gram_lower_triangle@[triangle_position(i, c)],
    {
        let mut row: Vec<Binary64> = Vec::new();
        for c in 0..dimension
            invariant
                dimension == 351,
                r < 351,
                gram_lower_triangle@.len() == GRAM_TRIANGLE_LEN,
                row@.len() == c,
                forall|j: int|
                    0 <= j < c ==> #[trigger] row@[j] == gram_lower_triangle@[triangle_position(
                        r as int,
                        j,
                    )],
        {
            let (high, low): (usize, usize) = if c <= r {
                (r, c)
            } else {
                (c, r)
            };
            proof {
                lemma_triangle_fits(high as int, low as int);
                assert(0 <= high * (high + 1) <= 350 * 351) by (nonlinear_arith)
                    requires
                        high < 351,
                ;
            }
            row.push(gram_lower_triangle[high * (high + 1) / 2 + low]);
        }
        rows.push(row);
    }
    Ok(rows)
}

/// Whether a text has no characters.
pub fn is_blank(text: &String) -> (blank: bool)
    ensures
        blank == (text@.len() == 0),
{
    text.as_str().unicode_len() == 0
}

/// The artifact of a fit.
pub open spec fn is_observable_fit(
    decomposition: GramEigenvectors,
    rank: usize,
    provenance: ObservableBasisProvenance,
    artifact: ObservableGnmBasisArtifact,
) -> bool {
    &&& artifact.schema_version == OBSERVABLE_GNM_BASIS_SCHEMA_VERSION
    &&& artifact.model_sha256 == provenance.model_sha256
    &&& artifact.mapping_schema_revision == provenance.mapping_schema_revision
    &&& artifact.rank == rank
    &&& artifact.source_dimension == GNM_HEAD_V3_NON_TONGUE_EXPRESSION_DIM
    &&& artifact.training_takes == provenance.training_takes
    &&& artifact.eigenvalues_descending@ == decomposition.retained(rank as int)
    &&& artifact.retained_energy_fraction == decomposition.energy_fraction(rank as int)
    &&& artifact.basis_row_major@ == row_major(
        decomposition.columns(rank as int),
        GNM_HEAD_V3_NON_TONGUE_EXPRESSION_DIM as nat,
    )
    &&& artifact.hash_matches()
}

/// Fits the top observable eigenspace from a packed lower-triangle Gram matrix
/// and the eigenvectors of its symmetric matrix.
///
/// # Errors
///
/// Rejects invalid dimensions, rank, provenance, non-finite values, or a Gram
/// matrix with no positive total energy.
pub fn fit_observable_gnm_basis(
    gram_lower_triangle: &Vec<Binary64>,
    training_frame_count: usize,
    rank: usize,
    provenance: ObservableBasisProvenance,
    decomposition: &GramEigenvectors,
) -> (result: Result<ObservableGnmBasisArtifact, ObservableBasisError>)
    requires
        decomposition.complete(),
    ensures
        ({
            let input_fault = gram_fault(
                gram_lower_triangle@,
                training_frame_count,
                rank,
                provenance,
            );
            match result {
                Ok(artifact) => {
                    &&& input_fault is None
                    &&& decomposition.fault(rank as int) is None
                    &&& is_observable_fit(*decomposition, rank, provenance, artifact)
                    &&& artifact.fault() is None
                },
                Err(error) => {
                    if input_fault is Some {
                        input_fault == Some(error)
                    } else {
                        decomposition.fault(rank as int) == Some(error)
                    }
                },
            }
        }),
{
    if let Err(error) = symmetric_gram_matrix(
        gram_lower_triangle,
        training_frame_count,
        rank,
        &provenance,
    ) {
        return Err(error);
    }
    if !is_all_finite_64(&decomposition.eigenvalues) {
        return Err(ObservableBasisError::InvalidNumeric("eigenvalue"));
    }
    let order = order_descending(&decomposition.eigenvalues);
    let total_energy = sum_all(&decomposition.eigenvalues);
    if !total_energy.is_finite() || total_energy.is_at_most(Binary64::zero()) {
        return Err(ObservableBasisError::InvalidNumeric("Gram energy"));
    }
    let mut eigenvalues_descending: Vec<Binary64> = Vec::new();
    let mut columns: Vec<Vec<Binary32>> = Vec::new();
    for i in 0..rank
        invariant
            rank <= 351,
            decomposition.complete(),
            order@ == decomposition.order(),
            is_stable_order(descending_keys(decomposition.eigenvalues@), order@),
            eigenvalues_descending@.len() == i,
            columns@.len() == i,
            forall|j: int|
                0 <= j < i ==> #[trigger] eigenvalues_descending@[j]
                    == decomposition.eigenvalues@[order@[j] as int],
            forall|j: int|
                0 <= j < i ==> (#[trigger] columns@[j])@ == oriented(
                    decomposition.eigenvectors@[order@[j] as int]@,
                ),
    {
        let position: usize = order[i];
        eigenvalues_descending.push(decomposition.eigenvalues[position]);
        columns.push(orient(&decomposition.eigenvectors[position]));
    }
    let retained_energy_fraction = sum_all(&eigenvalues_descending).quotient(total_energy);
    proof {
        assert(eigenvalues_descending@ =~= decomposition.retained(rank as int));
        assert(column_values(columns@) =~= decomposition.columns(rank as int));
        assert forall|c: int| 0 <= c < columns@.len() implies (#[trigger] columns@[c])@.len()
            == 351 by {
            assert(order@[c] < 351);
            assert(decomposition.eigenvectors@[order@[c] as int]@.len() == 351);
        }
    }
    if !retained_energy_fraction.is_finite() {
        return Err(ObservableBasisError::InvalidNumeric("retained energy"));
    }
    let basis_row_major = lay_out_rows(&columns, GNM_HEAD_V3_NON_TONGUE_EXPRESSION_DIM);
    let mut artifact = ObservableGnmBasisArtifact {
        schema_version: OBSERVABLE_GNM_BASIS_SCHEMA_VERSION,
        model_sha256: provenance.model_sha256,
        mapping_schema_revision: provenance.mapping_schema_revision,
        rank,
        source_dimension: GNM_HEAD_V3_NON_TONGUE_EXPRESSION_DIM,
        training_takes: provenance.training_takes,
        eigenvalues_descending,
        retained_energy_fraction,
        basis_row_major,
        content_hash: 0,
    };
    let hash: u64 = observable_basis_hash(&artifact);
    artifact.content_hash = hash;
    Ok(artifact)
}

} // verus!
