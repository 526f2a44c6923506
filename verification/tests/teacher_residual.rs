use nalgebra::DMatrix;
use vtuber_tracking::arkit::{Arkit52Coefficients, ArkitBlendshape, ARKIT52_CHANNEL_COUNT};
use vtuber_tracking::arkit_teacher::{GnmTraceState, MediaPipeObservation, PairedTemporalSample, TeacherDatasetError};
use vtuber_tracking::binary::Binary32;
use vtuber_tracking::linear_map::{LinearPriorFitError, LinearPriorLoadError, NormalizedLinearMapArtifact};
use vtuber_tracking::observable_basis::GnmNonTongueExpression;
use vtuber_tracking::teacher_residual::{
    apply_non_tongue_residual, build_teacher_residual_rows, existing_trace_residual_variants,
    fit_teacher_residual_decoder, hash_teacher_residual_artifact, predict_teacher_residual, select_training_rows,
    LoadedTeacherResidualDecoder, ResidualAblationError, ResidualSource, TeacherResidualDataset,
    TeacherResidualDecoderArtifact, TeacherResidualExclusion, TeacherResidualFeatureConfig, TeacherResidualHistory,
    TeacherResidualRow, HISTORY_SLOT_WIDTH, TEACHER_RESIDUAL_FEATURE_ORDER,
};

fn bits(value: f32) -> Binary32 {
    Binary32::from_bits(value.to_bits())
}

fn float(value: Binary32) -> f32 {
    f32::from_bits(value.to_bits())
}

/// Ridge regression on normalized features and targets.
fn ridge(features: &[Vec<Binary32>], targets: &[Vec<Binary32>], lambda: f64) -> NormalizedLinearMapArtifact {
    let count = features.len();
    let (feature_mean, feature_std, x) = normalize(features);
    let (target_mean, target_std, y) = normalize(targets);
    let gram = &x * x.transpose() + DMatrix::<f64>::identity(count, count) * lambda;
    let dual = gram.cholesky().expect("a regularized Gram matrix is positive").solve(&y);
    let weights = dual.transpose() * &x;
    NormalizedLinearMapArtifact {
        feature_mean: feature_mean.into_iter().map(|value| bits(value as f32)).collect(),
        feature_std: feature_std.into_iter().map(|value| bits(value as f32)).collect(),
        target_mean: target_mean.into_iter().map(|value| bits(value as f32)).collect(),
        target_std: target_std.into_iter().map(|value| bits(value as f32)).collect(),
        weights: (0..weights.nrows())
            .map(|row| {
                (0..weights.ncols())
                    .map(|column| bits(weights[(row, column)] as f32))
                    .collect()
            })
            .collect(),
    }
}

fn normalize(rows: &[Vec<Binary32>]) -> (Vec<f64>, Vec<f64>, DMatrix<f64>) {
    let count = rows.len() as f64;
    let width = rows[0].len();
    let mut matrix = DMatrix::<f64>::from_fn(rows.len(), width, |row, column| f64::from(float(rows[row][column])));
    let mut means = Vec::new();
    let mut deviations = Vec::new();
    for mut column in matrix.column_iter_mut() {
        let mean = column.iter().sum::<f64>() / count;
        let spread = (column.iter().map(|value| (value - mean).powi(2)).sum::<f64>() / count).sqrt();
        let deviation = if spread > 1.0e-6 { spread } else { 1.0 };
        for value in column.iter_mut() {
            *value = (*value - mean) / deviation;
        }
        means.push(mean);
        deviations.push(deviation);
    }
    (means, deviations, matrix)
}

fn coefficients(jaw: f32) -> Arkit52Coefficients {
    let mut values = [Binary32::zero(); ARKIT52_CHANNEL_COUNT];
    values[ArkitBlendshape::JawOpen.index()] = bits(jaw);
    Arkit52Coefficients::try_from_array(values).unwrap()
}

fn sample(seq: u64, direct: f32, gnm: f32, teacher: f32) -> PairedTemporalSample {
    PairedTemporalSample {
        frame_seq: seq,
        timestamp_micros: seq * 20_000,
        mediapipe_observation: Some(MediaPipeObservation {
            direct_coefficients: coefficients(direct),
            landmarks_xy: Vec::new(),
        }),
        gnm_state: Some(GnmTraceState {
            projected_coefficients: coefficients(gnm),
            residual: bits(0.01 * seq as f32),
            expression: GnmNonTongueExpression::neutral(),
            joint_rotations: Vec::new(),
            rigid_yaw_pitch_roll: [Binary32::zero(); 3],
            objective: Binary32::zero(),
            region_fits: Vec::new(),
        }),
        teacher: Some(coefficients(teacher)),
    }
}

fn config() -> TeacherResidualFeatureConfig {
    TeacherResidualFeatureConfig {
        history_len: 2,
        max_gap_micros: 40_000,
    }
}

fn rows_of(take: &str, samples: &Vec<PairedTemporalSample>) -> TeacherResidualDataset {
    let source = ResidualSource {
        samples,
        config: config(),
    };
    build_teacher_residual_rows(&take.to_owned(), &source, Ok(())).unwrap()
}

fn fit(
    rows: &Vec<TeacherResidualRow>,
    config: TeacherResidualFeatureConfig,
    lambda: f32,
    order: &str,
) -> Result<TeacherResidualDecoderArtifact, LinearPriorFitError> {
    let takes = vec!["train".to_owned()];
    let fitted = select_training_rows(rows, &takes).map(|positions| {
        let features: Vec<Vec<Binary32>> = positions.iter().map(|at| rows[*at].features.clone()).collect();
        let targets: Vec<Vec<Binary32>> = positions.iter().map(|at| rows[*at].target_residual.clone()).collect();
        ridge(&features, &targets, f64::from(lambda))
    });
    fit_teacher_residual_decoder(rows, &takes, config, bits(lambda), &order.to_owned(), fitted)
}

#[test]
fn target_is_same_frame_teacher_minus_direct_and_keeps_negative_values() {
    let rows = rows_of("a", &vec![sample(1, 0.8, 0.4, 0.2)]).rows;
    assert_eq!(rows.len(), 1);
    assert!((float(rows[0].target_residual[ArkitBlendshape::JawOpen.index()]) + 0.6).abs() < 1e-6);
}

#[test]
fn future_changes_do_not_change_current_features() {
    let first = rows_of("a", &vec![sample(1, 0.1, 0.2, 0.3), sample(2, 0.4, 0.5, 0.6)]);
    let changed = rows_of("a", &vec![sample(1, 0.1, 0.2, 0.3), sample(2, 0.9, 0.8, 0.7)]);
    assert_eq!(first.rows[0], changed.rows[0]);
}

#[test]
fn gap_and_missing_state_reset_history() {
    let mut samples = vec![sample(1, 0.1, 0.2, 0.3), sample(2, 0.2, 0.3, 0.4)];
    samples.push(sample(10, 0.3, 0.4, 0.5));
    samples[1].gnm_state = None;
    let dataset = rows_of("a", &samples);
    assert!(dataset
        .exclusions
        .iter()
        .any(|(reason, _)| *reason == TeacherResidualExclusion::MissingGnmState));
    let newest = &dataset.rows[1].features;
    assert!(newest[HISTORY_SLOT_WIDTH..HISTORY_SLOT_WIDTH * 2]
        .iter()
        .all(|value| float(*value) == 0.0));
    assert_eq!(newest.last(), Some(&bits(0.0)));
}

#[test]
fn each_sample_is_a_row_or_one_exclusion() {
    let mut samples = vec![
        sample(1, 0.1, 0.2, 0.3),
        sample(10, 0.2, 0.3, 0.4),
        sample(20, 0.3, 0.4, 0.5),
        sample(21, 0.4, 0.5, 0.6),
        sample(22, 0.5, 0.6, 0.7),
    ];
    samples[2].gnm_state.as_mut().unwrap().residual = bits(f32::NAN);
    samples[3].mediapipe_observation = None;
    let dataset = rows_of("a", &samples);
    assert_eq!(dataset.rows.len(), 3);
    assert_eq!(
        dataset.exclusions,
        vec![
            (TeacherResidualExclusion::NonFinite, 1),
            (TeacherResidualExclusion::MissingDirect, 1),
        ]
    );
}

#[test]
fn rows_refuse_an_empty_history_and_pass_pairing_errors_on() {
    let samples = vec![sample(1, 0.1, 0.2, 0.3)];
    let empty = ResidualSource {
        samples: &samples,
        config: TeacherResidualFeatureConfig {
            history_len: 0,
            max_gap_micros: 1,
        },
    };
    assert!(build_teacher_residual_rows(&"a".to_owned(), &empty, Ok(())).is_err());
    let source = ResidualSource {
        samples: &samples,
        config: config(),
    };
    assert_eq!(
        build_teacher_residual_rows(
            &"a".to_owned(),
            &source,
            Err(TeacherDatasetError::InvalidPairing { frame_seq: 1 })
        )
        .err(),
        Some(TeacherDatasetError::InvalidPairing { frame_seq: 1 })
    );
}

fn training_samples() -> Vec<PairedTemporalSample> {
    vec![
        sample(1, 0.1, 0.2, 0.3),
        sample(2, 0.2, 0.4, 0.1),
        sample(3, 0.3, 0.1, 0.8),
        sample(4, 0.4, 0.5, 0.2),
    ]
}

#[test]
fn fit_uses_only_selected_takes_and_is_deterministic() {
    let mut rows = rows_of("train", &training_samples()).rows;
    rows.extend(rows_of("eval", &vec![sample(1, 0.9, 0.9, 0.0)]).rows);
    let a = fit(&rows, config(), 1.0, TEACHER_RESIDUAL_FEATURE_ORDER).unwrap();
    let mut changed = rows.clone();
    changed.last_mut().unwrap().features.fill(bits(42.0));
    let b = fit(&changed, config(), 1.0, TEACHER_RESIDUAL_FEATURE_ORDER).unwrap();
    assert_eq!(a, b);
    assert_eq!(a.content_hash, hash_teacher_residual_artifact(&b));
    assert_eq!(
        fit(
            &rows_of("eval", &training_samples()).rows,
            config(),
            1.0,
            TEACHER_RESIDUAL_FEATURE_ORDER
        )
        .err(),
        Some(LinearPriorFitError::EmptyTrainingSet)
    );
}

#[test]
fn synthetic_known_map_predicts_signed_residual() {
    let rows: Vec<TeacherResidualRow> = [-2.0_f32, -1.0, 0.0, 1.0, 2.0]
        .into_iter()
        .enumerate()
        .map(|(index, x)| {
            let mut target_residual = vec![Binary32::zero(); 51];
            target_residual[0] = bits(2.0 * x - 0.5);
            TeacherResidualRow {
                take_id: "train".to_owned(),
                frame_seq: index as u64,
                timestamp_micros: index as u64,
                features: vec![bits(x)],
                target_residual,
            }
        })
        .collect();
    let artifact = fit(
        &rows,
        TeacherResidualFeatureConfig {
            history_len: 1,
            max_gap_micros: 1,
        },
        1e-6,
        "known",
    )
    .unwrap();
    let prediction = predict_teacher_residual(&artifact, &vec![bits(0.25)]).unwrap();
    assert!((float(prediction[0]) - 0.0).abs() < 1e-3);
    assert!(prediction.iter().skip(1).all(|value| float(*value).abs() < 1e-6));

    let mut tampered = artifact;
    tampered.history_len = 7;
    assert!(matches!(
        predict_teacher_residual(&tampered, &vec![bits(0.25)]),
        Err(LinearPriorLoadError::ContentHashMismatch { .. })
    ));
}

#[test]
fn residual_application_clamps_and_zeroes_tongue() {
    let mut residual = vec![Binary32::zero(); 51];
    residual[ArkitBlendshape::JawOpen.index()] = bits(0.4);
    residual[ArkitBlendshape::EyeBlinkLeft.index()] = bits(-0.8);
    let output = apply_non_tongue_residual(&coefficients(0.8), &residual).unwrap();
    assert_eq!(float(output.get(ArkitBlendshape::JawOpen)), 1.0);
    assert_eq!(float(output.get(ArkitBlendshape::EyeBlinkLeft)), 0.0);
    assert_eq!(float(output.get(ArkitBlendshape::TongueOut)), 0.0);

    residual[3] = bits(f32::NAN);
    assert!(apply_non_tongue_residual(&coefficients(0.8), &residual).is_err());
}

#[test]
fn aligned_variants_use_the_canonical_history_features() {
    let samples = training_samples();
    let rows = rows_of("train", &samples).rows;
    let artifact = fit(&rows, config(), 1.0, TEACHER_RESIDUAL_FEATURE_ORDER).unwrap();
    let decoder = LoadedTeacherResidualDecoder::load(artifact, TEACHER_RESIDUAL_FEATURE_ORDER).unwrap();
    let source = ResidualSource {
        samples: &samples,
        config: config(),
    };
    let history = TeacherResidualHistory::build(&"train".to_owned(), &source, Ok(())).unwrap();
    let variants = existing_trace_residual_variants(&samples[0], &history, &decoder).unwrap();
    assert_eq!(variants.direct, coefficients(0.1));
    assert_eq!(variants.gnm_projected, coefficients(0.2));
    assert_eq!(
        float(variants.hybrid_projected_residual.get(ArkitBlendshape::TongueOut)),
        0.0
    );

    let foreign = sample(9, 0.1, 0.2, 0.3);
    assert_eq!(
        existing_trace_residual_variants(&foreign, &history, &decoder).err(),
        Some(ResidualAblationError::MissingHistory)
    );
    let mut blind = samples[0].clone();
    blind.mediapipe_observation = None;
    assert_eq!(
        existing_trace_residual_variants(&blind, &history, &decoder).err(),
        Some(ResidualAblationError::MissingDirect)
    );
}
