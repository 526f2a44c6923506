use nalgebra::{linalg::SVD, DMatrix};
use vtuber_tracking::arkit::{Arkit52Coefficients, ArkitBlendshape, ARKIT_NON_TONGUE_CHANNEL_COUNT};
use vtuber_tracking::arkit_teacher::{FaceRegion, GnmRegionFitRecord, MediaPipeObservation, PairedTemporalSample};
use vtuber_tracking::binary::{Binary32, Binary64};
use vtuber_tracking::gnm_semantic_decoder::{
    select_semantic_rows, GnmSemanticFeatureConfig, GnmSemanticFrame, GnmSemanticRow,
};
use vtuber_tracking::landmark_basis::{
    build_landmark_alignment_samples, fit_landmark_aligned_basis, hash_landmark_basis, landmark_statistics,
    normalize_landmarks_xy, project_landmark_latent, LandmarkAlignedBasisArtifact, LandmarkAlignmentSample,
    LandmarkControlError, NORMALIZED_LANDMARK_XY_DIM,
};
use vtuber_tracking::landmark_control::{
    build_gnm_landmark_upper_bound_features, build_landmark_control_rows, build_landmark_residual_features,
    fit_landmark_control_decoder, hash_landmark_decoder, predict_landmark_control_raw,
    LandmarkControlDecoderArtifact, LandmarkControlDecoderKind, LandmarkControlFrame,
};
use vtuber_tracking::linear_map::{LinearPriorFitError, NormalizedLinearMapArtifact};
use vtuber_tracking::matrix::LeftSingularVectors;
use vtuber_tracking::teacher_aligned_basis::TeacherAlignedBasisError;
use vtuber_tracking::teacher_residual::apply_non_tongue_residual;

fn bits(value: f32) -> Binary32 {
    Binary32::from_bits(value.to_bits())
}

fn float(value: Binary32) -> f32 {
    f32::from_bits(value.to_bits())
}

fn wide(value: f64) -> Binary64 {
    Binary64::from_bits(value.to_bits())
}

fn double(value: Binary64) -> f64 {
    f64::from_bits(value.to_bits())
}

/// Ridge regression on normalized features and targets.
fn ridge(features: &[Vec<Binary32>], targets: &[Vec<Binary32>], lambda: f64) -> NormalizedLinearMapArtifact {
    let count = features.len();
    let (feature_mean, feature_std, x) = normalize(features);
    let (target_mean, target_std, y) = normalize(targets);
    let gram = &x * x.transpose() + DMatrix::<f64>::identity(count, count) * lambda;
    let dual = gram.cholesky().expect("a regularized Gram matrix is positive").solve(&y);
    let weights = dual.transpose() * &x;
    NormalizedLinearMapArtifact {
        feature_mean: feature_mean.into_iter().map(|value| bits(value as f32)).collect(),
        feature_std: feature_std.into_iter().map(|value| bits(value as f32)).collect(),
        target_mean: target_mean.into_iter().map(|value| bits(value as f32)).collect(),
        target_std: target_std.into_iter().map(|value| bits(value as f32)).collect(),
        weights: (0..weights.nrows())
            .map(|row| {
                (0..weights.ncols())
                    .map(|column| bits(weights[(row, column)] as f32))
                    .collect()
            })
            .collect(),
    }
}

fn normalize(rows: &[Vec<Binary32>]) -> (Vec<f64>, Vec<f64>, DMatrix<f64>) {
    let count = rows.len() as f64;
    let width = rows[0].len();
    let mut matrix = DMatrix::<f64>::from_fn(rows.len(), width, |row, column| f64::from(float(rows[row][column])));
    let mut means = Vec::new();
    let mut deviations = Vec::new();
    for mut column in matrix.column_iter_mut() {
        let mean = column.iter().sum::<f64>() / count;
        let spread = (column.iter().map(|value| (value - mean).powi(2)).sum::<f64>() / count).sqrt();
        let deviation = if spread > 1.0e-6 { spread } else { 1.0 };
        for value in column.iter_mut() {
            *value = (*value - mean) / deviation;
        }
        means.push(mean);
        deviations.push(deviation);
    }
    (means, deviations, matrix)
}

fn decompose(rows: &[[Binary64; 51]]) -> LeftSingularVectors {
    let matrix = DMatrix::<f64>::from_fn(rows.len(), 51, |row, column| double(rows[row][column]));
    let decomposition = SVD::new(matrix, true, false);
    let left = decomposition.u.map(|u| {
        (0..u.ncols())
            .map(|column| (0..u.nrows()).map(|row| wide(u[(row, column)])).collect())
            .collect()
    });
    LeftSingularVectors {
        singular_values: decomposition.singular_values.iter().map(|value| wide(*value)).collect(),
        left,
    }
}

fn raw_landmarks(scale: f32, offset: [f32; 2]) -> Vec<[Binary32; 2]> {
    (0..478)
        .map(|index| {
            let x = (index % 23) as f32 / 23.0;
            let y = (index / 23) as f32 / 21.0;
            [bits(x * scale + offset[0]), bits(y * scale + offset[1])]
        })
        .collect()
}

#[test]
fn normalization_removes_translation_and_positive_scale_in_fixed_xy_order() {
    let first = normalize_landmarks_xy(&raw_landmarks(1.0, [0.0, 0.0])).unwrap();
    let transformed = normalize_landmarks_xy(&raw_landmarks(3.5, [8.0, -4.0])).unwrap();
    for (left, right) in first.iter().zip(transformed) {
        assert!((float(*left) - float(right)).abs() < 1.0e-5);
    }
    assert_eq!(first.len(), 956);
    assert!(float(first[0]) < 0.0);
    assert!(float(first[1]) < 0.0);
    assert!(matches!(
        normalize_landmarks_xy(&vec![[bits(0.5), bits(0.5)]; 478]),
        Err(LandmarkControlError::DegenerateScale)
    ));
    assert_eq!(
        normalize_landmarks_xy(&Vec::new()).err(),
        Some(LandmarkControlError::LandmarkCount(0))
    );
}

fn alignment_sample(take: &str, frame: u64, x: f32, y: f32) -> LandmarkAlignmentSample {
    let mut normalized_xy = [Binary32::zero(); NORMALIZED_LANDMARK_XY_DIM];
    normalized_xy[0] = bits(x);
    normalized_xy[1] = bits(y);
    let mut teacher_residual = [Binary32::zero(); ARKIT_NON_TONGUE_CHANNEL_COUNT];
    teacher_residual[0] = bits(x);
    teacher_residual[1] = bits(y);
    LandmarkAlignmentSample {
        take_id: take.to_owned(),
        frame_seq: frame,
        normalized_xy,
        teacher_residual,
    }
}

fn four_samples() -> Vec<LandmarkAlignmentSample> {
    vec![
        alignment_sample("train", 1, -2.0, 1.0),
        alignment_sample("train", 2, -1.0, -1.0),
        alignment_sample("train", 3, 1.0, -1.0),
        alignment_sample("train", 4, 2.0, 1.0),
    ]
}

fn train() -> Vec<String> {
    vec!["train".to_owned()]
}

fn fit_basis(
    samples: &Vec<LandmarkAlignmentSample>,
    rank: usize,
) -> Result<LandmarkAlignedBasisArtifact, LandmarkControlError> {
    let statistics = landmark_statistics(samples, &train(), rank)?;
    fit_landmark_aligned_basis(samples, &train(), rank, &decompose(&statistics.cross_covariance))
}

fn landmark_basis() -> LandmarkAlignedBasisArtifact {
    fit_basis(&four_samples(), 2).unwrap()
}

#[test]
fn basis_is_training_only_orthonormal_deterministic_and_json_stable() {
    let training = four_samples();
    let mut with_eval = training.clone();
    with_eval.push(alignment_sample("eval", 5, 100.0, 100.0));
    let first = fit_basis(&training, 2).unwrap();
    let second = fit_basis(&with_eval, 2).unwrap();
    assert_eq!(first, second);
    assert_eq!(first.content_hash, hash_landmark_basis(&second));
    for left in 0..2 {
        for right in 0..2 {
            let dot: f32 = (0..NORMALIZED_LANDMARK_XY_DIM)
                .map(|row| {
                    float(first.basis_row_major[row * 2 + left]) * float(first.basis_row_major[row * 2 + right])
                })
                .sum();
            assert!((dot - if left == right { 1.0 } else { 0.0 }).abs() < 1.0e-5);
        }
    }
    let basis: Vec<f32> = first.basis_row_major.iter().map(|value| float(*value)).collect();
    let values: Vec<f64> = first
        .singular_values_descending
        .iter()
        .map(|value| double(*value))
        .collect();
    let json = serde_json::to_vec(&(basis, values)).unwrap();
    let (basis, values): (Vec<f32>, Vec<f64>) = serde_json::from_slice(&json).unwrap();
    let mut loaded = first.clone();
    loaded.basis_row_major = basis.into_iter().map(bits).collect();
    loaded.singular_values_descending = values.into_iter().map(wide).collect();
    project_landmark_latent(&training[0].normalized_xy, &loaded).unwrap();

    loaded.source_mean[5] = bits(0.5);
    assert!(project_landmark_latent(&training[0].normalized_xy, &loaded).is_err());
}

fn coefficients(value: f32) -> Arkit52Coefficients {
    let mut values = [Binary32::zero(); 52];
    values[ArkitBlendshape::JawOpen.index()] = bits(value);
    Arkit52Coefficients::try_from_array(values).unwrap()
}

fn landmark_frame(seq: u64, latent: [f32; 2], direct: f32) -> LandmarkControlFrame {
    LandmarkControlFrame {
        frame_seq: seq,
        timestamp_micros: seq * 10_000,
        landmark_latent: latent.iter().map(|value| bits(*value)).collect(),
        direct: coefficients(direct),
    }
}

fn gnm_frame(seq: u64, reduced: [f32; 2], direct: f32) -> GnmSemanticFrame {
    GnmSemanticFrame {
        frame_seq: seq,
        timestamp_micros: seq * 10_000,
        reduced_expression: reduced.iter().map(|value| bits(*value)).collect(),
        joint_rotations: vec![[bits(0.1), bits(0.2), bits(0.3)]],
        rigid_yaw_pitch_roll: [bits(0.4), bits(0.5), bits(0.6)],
        objective: bits(0.7),
        region_fits: [
            FaceRegion::Contour,
            FaceRegion::Brow,
            FaceRegion::Eye,
            FaceRegion::Nose,
            FaceRegion::Mouth,
            FaceRegion::Iris,
            FaceRegion::Other,
        ]
        .into_iter()
        .map(|region| GnmRegionFitRecord {
            region,
            valid_points: 478,
            weighted_rms: bits(0.1),
        })
        .collect(),
        direct: coefficients(direct),
    }
}

fn decoder_row(take: &str, frame_seq: u64, value: f32) -> GnmSemanticRow {
    let mut target = [Binary32::zero(); ARKIT_NON_TONGUE_CHANNEL_COUNT];
    target[0] = bits(value);
    target[1] = bits(value * value);
    GnmSemanticRow {
        take_id: take.to_owned(),
        frame_seq,
        feature_config: GnmSemanticFeatureConfig {
            history_len: 2,
            max_gap_micros: 20_000,
        },
        features: vec![bits(value), bits(value * value)],
        target,
    }
}

fn fit_decoder(
    rows: &Vec<GnmSemanticRow>,
    basis: &LandmarkAlignedBasisArtifact,
) -> Result<LandmarkControlDecoderArtifact, LandmarkControlError> {
    let positions = select_semantic_rows(rows, &train());
    let fitted = if positions.is_empty() {
        Err(LinearPriorFitError::EmptyTrainingSet)
    } else {
        let features: Vec<Vec<Binary32>> = positions.iter().map(|at| rows[*at].features.clone()).collect();
        let targets: Vec<Vec<Binary32>> = positions.iter().map(|at| rows[*at].target.to_vec()).collect();
        Ok(ridge(&features, &targets, 1.0))
    };
    fit_landmark_control_decoder(
        rows,
        &train(),
        LandmarkControlDecoderKind::LandmarkResidual,
        basis,
        None,
        fitted,
    )
}

#[test]
fn decoder_is_training_only_deterministic_and_json_stable() {
    let training = vec![
        decoder_row("train", 1, -2.0),
        decoder_row("train", 2, -1.0),
        decoder_row("train", 3, 1.0),
        decoder_row("train", 4, 2.0),
    ];
    let mut with_eval = training.clone();
    with_eval.push(decoder_row("eval", 5, 100.0));
    let basis = landmark_basis();
    let first = fit_decoder(&training, &basis).unwrap();
    let second = fit_decoder(&with_eval, &basis).unwrap();
    assert_eq!(first, second);
    assert_eq!(first.content_hash, hash_landmark_decoder(&second));

    let weights: Vec<Vec<f32>> = first
        .linear_map
        .weights
        .iter()
        .map(|row| row.iter().map(|value| float(*value)).collect())
        .collect();
    let json = serde_json::to_vec(&weights).unwrap();
    let weights: Vec<Vec<f32>> = serde_json::from_slice(&json).unwrap();
    let mut loaded = first.clone();
    loaded.linear_map.weights = weights
        .into_iter()
        .map(|row| row.into_iter().map(bits).collect())
        .collect();
    let features = vec![bits(0.5), bits(0.25)];
    assert_eq!(
        predict_landmark_control_raw(&loaded, &features).unwrap(),
        predict_landmark_control_raw(&first, &features).unwrap()
    );
    loaded.rank += 1;
    assert!(predict_landmark_control_raw(&loaded, &features).is_err());
    assert!(fit_decoder(&vec![decoder_row("eval", 1, 1.0)], &basis).is_err());
}

#[test]
fn l_has_no_gnm_padding_and_hl_requires_exact_identity() {
    let config = GnmSemanticFeatureConfig {
        history_len: 2,
        max_gap_micros: 20_000,
    };
    let landmarks = vec![
        landmark_frame(2, [2.0, 4.0], 0.6),
        landmark_frame(1, [1.0, 2.0], 0.2),
    ];
    let l = build_landmark_residual_features(&landmarks, config).unwrap().unwrap();
    assert_eq!(l.len(), 160);
    let gnm = vec![gnm_frame(2, [2.0, 4.0], 0.6), gnm_frame(1, [1.0, 2.0], 0.2)];
    let hl = build_gnm_landmark_upper_bound_features(&gnm, &landmarks, config)
        .unwrap()
        .unwrap();
    assert_eq!(hl.len(), 208);
    let mut mismatched = landmarks.clone();
    mismatched[0].timestamp_micros += 1;
    assert_eq!(
        build_gnm_landmark_upper_bound_features(&gnm, &mismatched, config),
        Err(LandmarkControlError::IdentityMismatch)
    );
}

#[test]
fn final_l_residual_boundary_zeroes_tongue() {
    let mut residual = vec![Binary32::zero(); ARKIT_NON_TONGUE_CHANNEL_COUNT];
    residual[ArkitBlendshape::JawOpen.index()] = bits(-0.4);
    let output = apply_non_tongue_residual(&coefficients(0.2), &residual).unwrap();
    assert_eq!(float(output.get(ArkitBlendshape::JawOpen)), 0.0);
    assert_eq!(float(output.get(ArkitBlendshape::TongueOut)), 0.0);
    let basis = landmark_basis();
    assert_eq!(basis.rank, 2);
}

fn paired(seq: u64, scale: f32, jaw: f32) -> PairedTemporalSample {
    PairedTemporalSample {
        frame_seq: seq,
        timestamp_micros: seq * 10_000,
        mediapipe_observation: Some(MediaPipeObservation {
            direct_coefficients: coefficients(0.25),
            landmarks_xy: raw_landmarks(scale, [0.0, 0.0]),
        }),
        gnm_state: None,
        teacher: Some(coefficients(jaw)),
    }
}

#[test]
fn landmark_samples_and_rows_follow_the_past_only() {
    let samples = vec![paired(1, 1.0, 0.75), paired(2, 1.0, 0.75), paired(3, 2.0, 0.75)];
    let aligned = build_landmark_alignment_samples(&"take".to_owned(), &samples, Ok(())).unwrap();
    assert_eq!(aligned.len(), 3);
    assert_eq!(
        aligned[0].teacher_residual[ArkitBlendshape::JawOpen.index()],
        bits(0.5)
    );

    let basis = landmark_basis();
    let config = GnmSemanticFeatureConfig {
        history_len: 2,
        max_gap_micros: 20_000,
    };
    let build = |samples: &Vec<PairedTemporalSample>| {
        build_landmark_control_rows(
            &"take".to_owned(),
            samples,
            &basis,
            None,
            LandmarkControlDecoderKind::LandmarkResidual,
            config,
            Ok(()),
        )
        .unwrap()
    };
    let rows = build(&samples);
    assert_eq!(rows.iter().map(|row| row.frame_seq).collect::<Vec<_>>(), vec![2, 3]);
    let mut future = samples.clone();
    future[2] = paired(3, 5.0, 0.125);
    assert_eq!(build(&future)[0], rows[0]);
}

#[test]
fn landmark_basis_refuses_overflowing_residual_statistics() {
    let mut samples = four_samples();
    samples[0].teacher_residual[0] = bits(1.0e30);
    let refused = LandmarkControlError::ResidualNormalization(TeacherAlignedBasisError::InvalidNumeric(
        "residual statistics",
    ));
    assert_eq!(landmark_statistics(&samples, &train(), 2).err(), Some(refused));
    let vectors = LeftSingularVectors {
        singular_values: Vec::new(),
        left: None,
    };
    assert_eq!(
        fit_landmark_aligned_basis(&samples, &train(), 2, &vectors).err(),
        Some(LandmarkControlError::ResidualNormalization(TeacherAlignedBasisError::InvalidNumeric(
            "residual statistics",
        )))
    );
}

#[test]
fn samples_of_other_takes_do_not_change_the_landmark_basis() {
    let training = four_samples();
    let mut mixed = vec![alignment_sample("eval", 1, 9.0, -7.0)];
    for (index, sample) in training.iter().enumerate() {
        mixed.push(sample.clone());
        mixed.push(alignment_sample("other", 10 + index as u64, 50.0, index as f32));
    }
    let alone = fit_basis(&training, 2).unwrap();
    let among = fit_basis(&mixed, 2).unwrap();
    assert_eq!(alone, among);
    assert_eq!(alone.content_hash, hash_landmark_basis(&among));
}

#[test]
fn landmark_columns_have_unit_length() {
    let samples = four_samples();
    for scale in [1.0e-30, 0.7, 3.0, 1.0e30] {
        let mut decomposition = decompose(&landmark_statistics(&samples, &train(), 2).unwrap().cross_covariance);
        for column in decomposition.left.as_mut().unwrap() {
            for (index, value) in column.iter_mut().enumerate() {
                *value = wide(scale * (double(*value) + (index % 7) as f64));
            }
        }
        let basis = fit_landmark_aligned_basis(&samples, &train(), 2, &decomposition).unwrap();
        for column in 0..2 {
            let squared: f64 = (0..NORMALIZED_LANDMARK_XY_DIM)
                .map(|row| f64::from(float(basis.basis_row_major[row * 2 + column])).powi(2))
                .sum();
            assert!((squared - 1.0).abs() <= 1.0 / 131_072.0, "{scale}: {squared}");
        }
    }
}
