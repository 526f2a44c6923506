use nalgebra::{linalg::SymmetricEigen, linalg::SVD, DMatrix};
use vtuber_tracking::arkit::{Arkit52Coefficients, ArkitBlendshape};
use vtuber_tracking::arkit_teacher::{GnmTraceState, MediaPipeObservation, PairedTemporalSample, TeacherDatasetError};
use vtuber_tracking::binary::{Binary32, Binary64};
use vtuber_tracking::matrix::LeftSingularVectors;
use vtuber_tracking::observable_basis::{
    fit_observable_gnm_basis, symmetric_gram_matrix, GnmNonTongueExpression, GramEigenvectors,
    ObservableBasisProvenance, ObservableGnmBasisArtifact, GNM_HEAD_V3_NON_TONGUE_EXPRESSION_DIM,
};
use vtuber_tracking::reduced_gnm::load_reduced_gnm_basis;
use vtuber_tracking::teacher_aligned_basis::{
    alignment_statistics, build_teacher_alignment_samples, fit_teacher_aligned_gnm_basis,
    normalize_teacher_residuals, project_teacher_aligned_expression, reconstruct_teacher_aligned_expression,
    teacher_aligned_basis_hash, validate_aligned_artifact, TeacherAlignedBasisError, TeacherAlignedGnmBasisArtifact,
    TeacherAlignmentSample,
};

fn bits(value: f32) -> Binary32 {
    Binary32::from_bits(value.to_bits())
}

fn float(value: Binary32) -> f32 {
    f32::from_bits(value.to_bits())
}

fn wide(value: f64) -> Binary64 {
    Binary64::from_bits(value.to_bits())
}

fn double(value: Binary64) -> f64 {
    f64::from_bits(value.to_bits())
}

fn coefficients(channel: ArkitBlendshape, value: f32) -> Arkit52Coefficients {
    let mut values = [Binary32::zero(); 52];
    values[channel.index()] = bits(value);
    Arkit52Coefficients::try_from_array(values).unwrap()
}

fn paired_sample(seq: u64) -> PairedTemporalSample {
    PairedTemporalSample {
        frame_seq: seq,
        timestamp_micros: seq * 1_000,
        mediapipe_observation: Some(MediaPipeObservation {
            direct_coefficients: coefficients(ArkitBlendshape::JawOpen, 0.2),
            landmarks_xy: Vec::new(),
        }),
        gnm_state: Some(GnmTraceState {
            projected_coefficients: coefficients(ArkitBlendshape::JawOpen, 0.9),
            residual: bits(4.0),
            expression: GnmNonTongueExpression::neutral(),
            joint_rotations: vec![[Binary32::zero(); 3]],
            rigid_yaw_pitch_roll: [Binary32::zero(); 3],
            objective: bits(0.0),
            region_fits: Vec::new(),
        }),
        teacher: Some(coefficients(ArkitBlendshape::JawOpen, 0.7)),
    }
}

fn decompose_gram(rows: &[Vec<Binary64>]) -> GramEigenvectors {
    let dimension = rows.len();
    let gram = DMatrix::<f64>::from_fn(dimension, dimension, |row, column| double(rows[row][column]));
    let decomposition = SymmetricEigen::new(gram);
    GramEigenvectors {
        eigenvalues: decomposition.eigenvalues.iter().map(|value| wide(*value)).collect(),
        eigenvectors: (0..dimension)
            .map(|column| {
                (0..dimension)
                    .map(|row| wide(decomposition.eigenvectors[(row, column)]))
                    .collect()
            })
            .collect(),
    }
}

fn observable(rank: usize) -> ObservableGnmBasisArtifact {
    let dimension = GNM_HEAD_V3_NON_TONGUE_EXPRESSION_DIM;
    let mut gram = vec![Binary64::zero(); dimension * (dimension + 1) / 2];
    for index in 0..rank {
        gram[index * (index + 1) / 2 + index] = wide((rank - index) as f64);
    }
    let provenance = ObservableBasisProvenance {
        model_sha256: "MODEL".to_owned(),
        mapping_schema_revision: 7,
        training_takes: vec!["geometry".to_owned()],
    };
    let rows = symmetric_gram_matrix(&gram, rank, rank, &provenance).unwrap();
    fit_observable_gnm_basis(&gram, rank, rank, provenance, &decompose_gram(&rows)).unwrap()
}

fn alignment_sample(take: &str, frame: u64, x: f32, y: f32) -> TeacherAlignmentSample {
    let mut expression = vec![Binary32::zero(); GNM_HEAD_V3_NON_TONGUE_EXPRESSION_DIM];
    expression[0] = bits(x);
    expression[1] = bits(y);
    let mut teacher_residual = [Binary32::zero(); 51];
    teacher_residual[0] = bits(2.0 * x);
    teacher_residual[1] = bits(0.25 * y);
    TeacherAlignmentSample {
        take_id: take.to_owned(),
        frame_seq: frame,
        expression: GnmNonTongueExpression::try_from_values(expression).unwrap(),
        teacher_residual,
    }
}

fn train() -> Vec<String> {
    vec!["train".to_owned()]
}

fn fit(
    observable: &ObservableGnmBasisArtifact,
    samples: &Vec<TeacherAlignmentSample>,
    takes: &Vec<String>,
    rank: usize,
) -> Result<TeacherAlignedGnmBasisArtifact, TeacherAlignedBasisError> {
    let statistics = alignment_statistics(observable, samples, takes, rank)?;
    let rows = statistics.cross_covariance;
    let matrix = DMatrix::<f64>::from_fn(rows.len(), 51, |row, column| double(rows[row][column]));
    let decomposition = SVD::new(matrix, true, false);
    let left = decomposition.u.map(|u| {
        (0..u.ncols())
            .map(|column| (0..u.nrows()).map(|row| wide(u[(row, column)])).collect())
            .collect()
    });
    let solved = LeftSingularVectors {
        singular_values: decomposition.singular_values.iter().map(|value| wide(*value)).collect(),
        left,
    };
    fit_teacher_aligned_gnm_basis(observable, samples, takes, rank, &solved)
}

#[test]
fn samples_use_same_frame_teacher_minus_direct_and_raw_expression() {
    let mut sample = paired_sample(1);
    let mut expression = vec![Binary32::zero(); GNM_HEAD_V3_NON_TONGUE_EXPRESSION_DIM];
    expression[3] = bits(0.4);
    sample.gnm_state.as_mut().unwrap().expression =
        GnmNonTongueExpression::try_from_values(expression.clone()).unwrap();
    let rows = build_teacher_alignment_samples(&"take".to_owned(), &vec![sample], Ok(())).unwrap();
    assert_eq!(rows.len(), 1);
    assert!((float(rows[0].teacher_residual[ArkitBlendshape::JawOpen.index()]) - 0.5).abs() < 1.0e-6);
    assert_eq!(rows[0].expression.values(), &expression);
}

#[test]
fn alignment_samples_skip_incomplete_frames_and_pass_pairing_errors_on() {
    let mut blind = paired_sample(2);
    blind.teacher = None;
    let samples = vec![paired_sample(1), blind, paired_sample(3)];
    let rows = build_teacher_alignment_samples(&"take".to_owned(), &samples, Ok(())).unwrap();
    assert_eq!(rows.iter().map(|row| row.frame_seq).collect::<Vec<_>>(), vec![1, 3]);
    assert_eq!(
        build_teacher_alignment_samples(
            &"take".to_owned(),
            &samples,
            Err(TeacherDatasetError::InvalidPairing { frame_seq: 2 })
        ),
        Err(TeacherDatasetError::InvalidPairing { frame_seq: 2 })
    );
}

#[test]
fn residual_normalization_is_exact_on_small_numbers() {
    let mut low = [Binary32::zero(); 51];
    let mut high = [Binary32::zero(); 51];
    low[0] = bits(1.0);
    high[0] = bits(3.0);
    let normalization = normalize_teacher_residuals(&vec![low, high]).unwrap();
    assert_eq!(normalization.mean[0], bits(2.0));
    assert_eq!(normalization.std[0], bits(1.0));
    assert_eq!(normalization.normalized[0][0], bits(-1.0));
    assert_eq!(normalization.normalized[1][0], bits(1.0));
    assert_eq!(normalization.inactive_channels, (1..51).collect::<Vec<_>>());
    assert!(normalize_teacher_residuals(&Vec::new()).is_err());
}

#[test]
fn synthetic_fit_recovers_known_teacher_direction_and_is_orthonormal() {
    let samples = vec![
        alignment_sample("train", 1, -2.0, 1.0),
        alignment_sample("train", 2, -1.0, -1.0),
        alignment_sample("train", 3, 1.0, -1.0),
        alignment_sample("train", 4, 2.0, 1.0),
    ];
    let artifact = fit(&observable(3), &samples, &train(), 2).unwrap();
    assert_eq!(
        artifact.inactive_residual_channels,
        (2..51).collect::<Vec<_>>()
    );
    assert!(
        double(artifact.singular_values_descending[0]) >= double(artifact.singular_values_descending[1])
    );
    for left in 0..artifact.rank {
        for right in 0..artifact.rank {
            let dot: f32 = (0..GNM_HEAD_V3_NON_TONGUE_EXPRESSION_DIM)
                .map(|row| {
                    float(artifact.basis_row_major[row * artifact.rank + left])
                        * float(artifact.basis_row_major[row * artifact.rank + right])
                })
                .sum();
            let expected = if left == right { 1.0 } else { 0.0 };
            assert!((dot - expected).abs() < 1.0e-5);
        }
    }
    assert!(float(artifact.basis_row_major[0]).abs() > 0.99);
}

#[test]
fn eval_rows_do_not_change_training_artifact_or_hash() {
    let training = vec![
        alignment_sample("train", 1, -1.0, 0.0),
        alignment_sample("train", 2, 1.0, 0.0),
    ];
    let mut with_eval = training.clone();
    with_eval.push(alignment_sample("eval", 3, 100.0, 100.0));
    let source = observable(2);
    let first = fit(&source, &training, &train(), 1).unwrap();
    let second = fit(&source, &with_eval, &train(), 1).unwrap();
    assert_eq!(first, second);
    assert_eq!(teacher_aligned_basis_hash(&first), teacher_aligned_basis_hash(&second));
}

#[test]
fn projection_and_reconstruction_stay_inside_aligned_basis() {
    let samples = vec![
        alignment_sample("train", 1, -1.0, 0.0),
        alignment_sample("train", 2, 1.0, 0.0),
    ];
    let artifact = fit(&observable(2), &samples, &train(), 1).unwrap();
    let reduced = project_teacher_aligned_expression(&samples[1].expression, &artifact).unwrap();
    let reconstructed = reconstruct_teacher_aligned_expression(&reduced, &artifact).unwrap();
    assert!((float(reconstructed.values()[0]) - 1.0).abs() < 1.0e-5);
    assert!(float(reconstructed.values()[1]).abs() < 1.0e-5);
}

#[test]
fn runtime_basis_loader_requires_exact_model_mapping_and_hash() {
    let samples = vec![
        alignment_sample("train", 1, -1.0, 0.0),
        alignment_sample("train", 2, 1.0, 0.0),
    ];
    let artifact = fit(&observable(2), &samples, &train(), 1).unwrap();
    let loaded = load_reduced_gnm_basis(&artifact, &"MODEL".to_owned(), 7, Ok(())).unwrap();
    assert_eq!(loaded.rank, 1);
    assert_eq!(loaded.values_row_major, artifact.basis_row_major);
    assert!(load_reduced_gnm_basis(&artifact, &"OTHER".to_owned(), 7, Ok(())).is_err());
    assert!(load_reduced_gnm_basis(&artifact, &"MODEL".to_owned(), 8, Ok(())).is_err());
    let mut tampered = artifact;
    tampered.basis_row_major[0] = tampered.basis_row_major[0].sum(bits(0.1));
    assert!(load_reduced_gnm_basis(&tampered, &"MODEL".to_owned(), 7, Ok(())).is_err());
}

#[test]
fn rank_above_cross_covariance_limit_is_typed_error() {
    let error = alignment_statistics(
        &observable(52),
        &vec![alignment_sample("train", 1, 0.0, 0.0)],
        &train(),
        52,
    )
    .unwrap_err();
    assert_eq!(
        error,
        TeacherAlignedBasisError::InvalidRank {
            rank: 52,
            maximum: 51
        }
    );
}

#[test]
fn artifact_hash_survives_json_float_round_trip() {
    let samples = vec![
        alignment_sample("train", 1, -1.0, 0.0),
        alignment_sample("train", 2, 1.0, 0.0),
    ];
    let mut artifact = fit(&observable(2), &samples, &train(), 1).unwrap();
    artifact.singular_values_descending[0] = wide(1.562_487_917_078_665_9);
    artifact.residual_mean[2] = bits(-0.0);
    artifact.basis_row_major[2] = bits(-0.0);
    artifact.content_hash = teacher_aligned_basis_hash(&artifact);

    let basis: Vec<f32> = artifact.basis_row_major.iter().map(|value| float(*value)).collect();
    let means: Vec<f32> = artifact.residual_mean.iter().map(|value| float(*value)).collect();
    let values: Vec<f64> = artifact
        .singular_values_descending
        .iter()
        .map(|value| double(*value))
        .collect();
    let json = serde_json::to_vec(&(basis, means, values)).unwrap();
    let (basis, means, values): (Vec<f32>, Vec<f32>, Vec<f64>) = serde_json::from_slice(&json).unwrap();
    let mut loaded = artifact.clone();
    loaded.basis_row_major = basis.into_iter().map(bits).collect();
    for (slot, value) in loaded.residual_mean.iter_mut().zip(means) {
        *slot = bits(value);
    }
    loaded.singular_values_descending = values.into_iter().map(wide).collect();
    validate_aligned_artifact(&loaded).unwrap();
}

#[test]
fn alignment_needs_training_samples() {
    assert_eq!(
        alignment_statistics(
            &observable(2),
            &vec![alignment_sample("eval", 1, 1.0, 0.0)],
            &train(),
            1
        )
        .err(),
        Some(TeacherAlignedBasisError::NoTrainingSamples)
    );
}

#[test]
fn overflowing_residual_statistics_are_refused() {
    let mut low = alignment_sample("train", 1, -1.0, 0.0);
    let mut high = alignment_sample("train", 2, 1.0, 0.0);
    low.teacher_residual[0] = bits(-1.0e30);
    high.teacher_residual[0] = bits(1.0e30);
    assert_eq!(
        fit(&observable(2), &vec![low, high], &train(), 1),
        Err(TeacherAlignedBasisError::InvalidNumeric("residual statistics"))
    );
}

#[test]
fn fitted_artifact_passes_its_own_validation() {
    let samples = vec![
        alignment_sample("train", 1, -1.0, 0.5),
        alignment_sample("train", 2, 1.0, 0.25),
        alignment_sample("train", 3, 0.5, -1.0),
    ];
    let artifact = fit(&observable(2), &samples, &train(), 2).unwrap();
    assert_eq!(validate_aligned_artifact(&artifact), Ok(()));
}

#[test]
fn samples_of_other_takes_do_not_change_the_aligned_basis() {
    let training = vec![
        alignment_sample("train", 1, -2.0, 1.0),
        alignment_sample("train", 2, -1.0, -1.0),
        alignment_sample("train", 3, 3.0, 0.5),
    ];
    let mut mixed = vec![alignment_sample("eval", 1, 100.0, -3.0)];
    for (index, sample) in training.iter().enumerate() {
        mixed.push(sample.clone());
        mixed.push(alignment_sample("other", 20 + index as u64, -40.0, 8.0));
    }
    let source = observable(3);
    let alone = fit(&source, &training, &train(), 2).unwrap();
    let among = fit(&source, &mixed, &train(), 2).unwrap();
    assert_eq!(alone, among);
    assert_eq!(alone.content_hash, teacher_aligned_basis_hash(&among));
}
