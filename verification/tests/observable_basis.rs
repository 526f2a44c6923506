use nalgebra::{linalg::SymmetricEigen, DMatrix};
use vtuber_tracking::binary::{Binary32, Binary64};
use vtuber_tracking::observable_basis::{
    fit_observable_gnm_basis, observable_basis_hash, project_non_tongue_expression,
    reconstruct_non_tongue_expression, symmetric_gram_matrix, validate_artifact, GnmNonTongueExpression,
    GramEigenvectors, ObservableBasisError, ObservableBasisProvenance, ObservableGnmBasisArtifact,
    GNM_HEAD_V3_NON_TONGUE_EXPRESSION_DIM,
};

fn bits(value: f32) -> Binary32 {
    Binary32::from_bits(value.to_bits())
}

fn float(value: Binary32) -> f32 {
    f32::from_bits(value.to_bits())
}

fn wide(value: f64) -> Binary64 {
    Binary64::from_bits(value.to_bits())
}

fn double(value: Binary64) -> f64 {
    f64::from_bits(value.to_bits())
}

fn diagonal_gram(values: &[f64]) -> Vec<Binary64> {
    let dimension = GNM_HEAD_V3_NON_TONGUE_EXPRESSION_DIM;
    let mut gram = vec![Binary64::zero(); dimension * (dimension + 1) / 2];
    for (index, value) in values.iter().enumerate() {
        gram[index * (index + 1) / 2 + index] = wide(*value);
    }
    gram
}

fn provenance() -> ObservableBasisProvenance {
    ObservableBasisProvenance {
        model_sha256: "ABC".to_owned(),
        mapping_schema_revision: 1,
        training_takes: vec!["take-a".to_owned()],
    }
}

fn decompose(rows: &[Vec<Binary64>]) -> GramEigenvectors {
    let dimension = rows.len();
    let gram = DMatrix::<f64>::from_fn(dimension, dimension, |row, column| double(rows[row][column]));
    let decomposition = SymmetricEigen::new(gram);
    GramEigenvectors {
        eigenvalues: decomposition.eigenvalues.iter().map(|value| wide(*value)).collect(),
        eigenvectors: (0..dimension)
            .map(|column| {
                (0..dimension)
                    .map(|row| wide(decomposition.eigenvectors[(row, column)]))
                    .collect()
            })
            .collect(),
    }
}

fn fit(
    gram: &Vec<Binary64>,
    count: usize,
    rank: usize,
    provenance: ObservableBasisProvenance,
) -> Result<ObservableGnmBasisArtifact, ObservableBasisError> {
    let rows = symmetric_gram_matrix(gram, count, rank, &provenance)?;
    fit_observable_gnm_basis(gram, count, rank, provenance, &decompose(&rows))
}

#[test]
fn synthetic_gram_recovers_ordered_signed_orthonormal_subspace() {
    let artifact = fit(&diagonal_gram(&[9.0, 4.0, 1.0]), 3, 2, provenance()).unwrap();
    assert_eq!(artifact.eigenvalues_descending, vec![wide(9.0), wide(4.0)]);
    assert!((double(artifact.retained_energy_fraction) - 13.0 / 14.0).abs() < 1.0e-12);
    assert_eq!(float(artifact.basis_row_major[0]), 1.0);
    assert_eq!(float(artifact.basis_row_major[artifact.rank + 1]), 1.0);
    for left in 0..artifact.rank {
        for right in 0..artifact.rank {
            let dot: f32 = (0..artifact.source_dimension)
                .map(|row| {
                    float(artifact.basis_row_major[row * artifact.rank + left])
                        * float(artifact.basis_row_major[row * artifact.rank + right])
                })
                .sum();
            let expected = if left == right { 1.0 } else { 0.0 };
            assert!((dot - expected).abs() < 1.0e-6);
        }
    }

    let repeated = fit(&diagonal_gram(&[9.0, 4.0, 1.0]), 3, 2, provenance()).unwrap();
    assert_eq!(artifact, repeated);
    assert_eq!(artifact.content_hash, observable_basis_hash(&repeated));
}

#[test]
fn project_and_reconstruct_use_only_the_selected_basis() {
    let artifact = fit(&diagonal_gram(&[9.0, 4.0, 1.0]), 3, 2, provenance()).unwrap();
    let mut values = vec![Binary32::zero(); GNM_HEAD_V3_NON_TONGUE_EXPRESSION_DIM];
    values[0] = bits(2.0);
    values[1] = bits(-3.0);
    values[2] = bits(5.0);
    let expression = GnmNonTongueExpression::try_from_values(values).unwrap();
    let reduced = project_non_tongue_expression(&expression, &artifact).unwrap();
    assert_eq!(reduced, vec![bits(2.0), bits(-3.0)]);
    let reconstructed = reconstruct_non_tongue_expression(&reduced, &artifact).unwrap();
    assert_eq!(float(reconstructed.values()[0]), 2.0);
    assert_eq!(float(reconstructed.values()[1]), -3.0);
    assert_eq!(float(reconstructed.values()[2]), 0.0);
}

#[test]
fn json_round_trip_preserves_content_hash_when_basis_contains_negative_zero() {
    let mut artifact = fit(&diagonal_gram(&[9.0, 4.0]), 2, 2, provenance()).unwrap();
    artifact.basis_row_major[2] = bits(-0.0);
    artifact.eigenvalues_descending[0] = wide(1.562_487_917_078_665_9);
    artifact.retained_energy_fraction = wide(0.983_849_456_123_456_7);
    artifact.content_hash = observable_basis_hash(&artifact);

    let basis: Vec<f32> = artifact.basis_row_major.iter().map(|value| float(*value)).collect();
    let eigenvalues: Vec<f64> = artifact
        .eigenvalues_descending
        .iter()
        .map(|value| double(*value))
        .collect();
    let json = serde_json::to_vec(&(basis, eigenvalues, double(artifact.retained_energy_fraction))).unwrap();
    let (basis, eigenvalues, retained): (Vec<f32>, Vec<f64>, f64) = serde_json::from_slice(&json).unwrap();
    let mut loaded = artifact.clone();
    loaded.basis_row_major = basis.into_iter().map(bits).collect();
    loaded.eigenvalues_descending = eigenvalues.into_iter().map(wide).collect();
    loaded.retained_energy_fraction = wide(retained);
    validate_artifact(&loaded).unwrap();

    // The sign of a zero is not hashed.
    loaded.basis_row_major[2] = bits(0.0);
    validate_artifact(&loaded).unwrap();
    loaded.basis_row_major[2] = bits(0.5);
    assert!(matches!(
        validate_artifact(&loaded),
        Err(ObservableBasisError::HashMismatch { .. })
    ));
}

#[test]
fn observable_fit_refuses_unusable_inputs() {
    let gram = diagonal_gram(&[9.0, 4.0]);
    assert!(matches!(
        fit(&gram, 0, 2, provenance()),
        Err(ObservableBasisError::InvalidShape(_))
    ));
    assert_eq!(
        fit(&gram, 2, 0, provenance()).err(),
        Some(ObservableBasisError::InvalidRank(0))
    );
    let mut nameless = provenance();
    nameless.model_sha256 = String::new();
    assert_eq!(
        fit(&gram, 2, 2, nameless).err(),
        Some(ObservableBasisError::InvalidProvenance)
    );
    let mut broken = gram;
    broken[4] = wide(f64::NAN);
    assert_eq!(
        fit(&broken, 2, 2, provenance()).err(),
        Some(ObservableBasisError::InvalidNumeric("Gram entry"))
    );
}
