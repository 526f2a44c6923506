use nalgebra::{linalg::SymmetricEigen, linalg::SVD, DMatrix};
use vtuber_tracking::arkit::{Arkit52Coefficients, ArkitBlendshape, ARKIT_NON_TONGUE_CHANNEL_COUNT};
use vtuber_tracking::arkit_teacher::{GnmRegionFitRecord, GnmTraceState, MediaPipeObservation, PairedTemporalSample};
use vtuber_tracking::binary::{Binary32, Binary64};
use vtuber_tracking::gnm_semantic_decoder::{
    build_gnm_semantic_features, build_gnm_semantic_rows, fit_gnm_semantic_decoder, gnm_diagnostic_region_order,
    gnm_only_prediction_to_arkit52, gnm_semantic_feature_order, hash_decoder, predict_gnm_semantic_raw,
    select_semantic_rows, GnmSemanticDatasetError, GnmSemanticDecoderArtifact, GnmSemanticDecoderKind,
    GnmSemanticFeatureConfig, GnmSemanticFitError, GnmSemanticFrame, GnmSemanticRow,
};
use vtuber_tracking::linear_map::{LinearPriorFitError, LinearPriorLoadError, NormalizedLinearMapArtifact};
use vtuber_tracking::matrix::LeftSingularVectors;
use vtuber_tracking::observable_basis::{
    fit_observable_gnm_basis, symmetric_gram_matrix, GnmNonTongueExpression, GramEigenvectors,
    ObservableBasisProvenance, GNM_HEAD_V3_NON_TONGUE_EXPRESSION_DIM,
};
use vtuber_tracking::teacher_aligned_basis::{
    alignment_statistics, fit_teacher_aligned_gnm_basis, TeacherAlignedGnmBasisArtifact, TeacherAlignmentSample,
};
use vtuber_tracking::teacher_residual::apply_non_tongue_residual;

fn bits(value: f32) -> Binary32 {
    Binary32::from_bits(value.to_bits())
}

fn float(value: Binary32) -> f32 {
    f32::from_bits(value.to_bits())
}

fn wide(value: f64) -> Binary64 {
    Binary64::from_bits(value.to_bits())
}

fn double(value: Binary64) -> f64 {
    f64::from_bits(value.to_bits())
}

/// Ridge regression on normalized features and targets.
fn ridge(features: &[Vec<Binary32>], targets: &[Vec<Binary32>], lambda: f64) -> NormalizedLinearMapArtifact {
    let count = features.len();
    let (feature_mean, feature_std, x) = normalize(features);
    let (target_mean, target_std, y) = normalize(targets);
    let gram = &x * x.transpose() + DMatrix::<f64>::identity(count, count) * lambda;
    let dual = gram.cholesky().expect("a regularized Gram matrix is positive").solve(&y);
    let weights = dual.transpose() * &x;
    NormalizedLinearMapArtifact {
        feature_mean: feature_mean.into_iter().map(|value| bits(value as f32)).collect(),
        feature_std: feature_std.into_iter().map(|value| bits(value as f32)).collect(),
        target_mean: target_mean.into_iter().map(|value| bits(value as f32)).collect(),
        target_std: target_std.into_iter().map(|value| bits(value as f32)).collect(),
        weights: (0..weights.nrows())
            .map(|row| {
                (0..weights.ncols())
                    .map(|column| bits(weights[(row, column)] as f32))
                    .collect()
            })
            .collect(),
    }
}

fn normalize(rows: &[Vec<Binary32>]) -> (Vec<f64>, Vec<f64>, DMatrix<f64>) {
    let count = rows.len() as f64;
    let width = rows[0].len();
    let mut matrix = DMatrix::<f64>::from_fn(rows.len(), width, |row, column| f64::from(float(rows[row][column])));
    let mut means = Vec::new();
    let mut deviations = Vec::new();
    for mut column in matrix.column_iter_mut() {
        let mean = column.iter().sum::<f64>() / count;
        let spread = (column.iter().map(|value| (value - mean).powi(2)).sum::<f64>() / count).sqrt();
        let deviation = if spread > 1.0e-6 { spread } else { 1.0 };
        for value in column.iter_mut() {
            *value = (*value - mean) / deviation;
        }
        means.push(mean);
        deviations.push(deviation);
    }
    (means, deviations, matrix)
}

fn decompose(rows: &[[Binary64; 51]]) -> LeftSingularVectors {
    let matrix = DMatrix::<f64>::from_fn(rows.len(), 51, |row, column| double(rows[row][column]));
    let decomposition = SVD::new(matrix, true, false);
    let left = decomposition.u.map(|u| {
        (0..u.ncols())
            .map(|column| (0..u.nrows()).map(|row| wide(u[(row, column)])).collect())
            .collect()
    });
    LeftSingularVectors {
        singular_values: decomposition.singular_values.iter().map(|value| wide(*value)).collect(),
        left,
    }
}

fn aligned_basis() -> TeacherAlignedGnmBasisArtifact {
    let dimension = GNM_HEAD_V3_NON_TONGUE_EXPRESSION_DIM;
    let mut gram = vec![Binary64::zero(); dimension * (dimension + 1) / 2];
    gram[0] = wide(2.0);
    gram[2] = wide(1.0);
    let provenance = ObservableBasisProvenance {
        model_sha256: "MODEL".to_owned(),
        mapping_schema_revision: 1,
        training_takes: vec!["geometry".to_owned()],
    };
    let rows = symmetric_gram_matrix(&gram, 2, 2, &provenance).unwrap();
    let matrix = DMatrix::<f64>::from_fn(dimension, dimension, |row, column| double(rows[row][column]));
    let eigen = SymmetricEigen::new(matrix);
    let decomposition = GramEigenvectors {
        eigenvalues: eigen.eigenvalues.iter().map(|value| wide(*value)).collect(),
        eigenvectors: (0..dimension)
            .map(|column| (0..dimension).map(|row| wide(eigen.eigenvectors[(row, column)])).collect())
            .collect(),
    };
    let observable = fit_observable_gnm_basis(&gram, 2, 2, provenance, &decomposition).unwrap();
    let samples: Vec<TeacherAlignmentSample> = [-1.0_f32, 1.0]
        .into_iter()
        .enumerate()
        .map(|(index, value)| {
            let mut expression = vec![Binary32::zero(); dimension];
            expression[index] = bits(value);
            let mut teacher_residual = [Binary32::zero(); ARKIT_NON_TONGUE_CHANNEL_COUNT];
            teacher_residual[index] = bits(value);
            TeacherAlignmentSample {
                take_id: "align".to_owned(),
                frame_seq: index as u64,
                expression: GnmNonTongueExpression::try_from_values(expression).unwrap(),
                teacher_residual,
            }
        })
        .collect();
    let takes = vec!["align".to_owned()];
    let statistics = alignment_statistics(&observable, &samples, &takes, 2).unwrap();
    fit_teacher_aligned_gnm_basis(
        &observable,
        &samples,
        &takes,
        2,
        &decompose(&statistics.cross_covariance),
    )
    .unwrap()
}

fn coefficients(value: f32) -> Arkit52Coefficients {
    let mut values = [Binary32::zero(); 52];
    values[ArkitBlendshape::JawOpen.index()] = bits(value);
    Arkit52Coefficients::try_from_array(values).unwrap()
}

fn regions(value: f32) -> Vec<GnmRegionFitRecord> {
    gnm_diagnostic_region_order()
        .into_iter()
        .map(|region| GnmRegionFitRecord {
            region,
            valid_points: 239,
            weighted_rms: bits(value),
        })
        .collect()
}

fn frame(seq: u64, reduced: [f32; 2], direct: f32) -> GnmSemanticFrame {
    GnmSemanticFrame {
        frame_seq: seq,
        timestamp_micros: seq * 10_000,
        reduced_expression: reduced.iter().map(|value| bits(*value)).collect(),
        joint_rotations: vec![[bits(0.1), bits(0.2), bits(0.3)]],
        rigid_yaw_pitch_roll: [bits(0.4), bits(0.5), bits(0.6)],
        objective: bits(0.7),
        region_fits: regions(0.8),
        direct: coefficients(direct),
    }
}

#[test]
fn feature_layout_is_fixed_and_hybrid_adds_only_direct_slot_and_velocity() {
    let config = GnmSemanticFeatureConfig {
        history_len: 2,
        max_gap_micros: 20_000,
    };
    let history = vec![frame(2, [2.0, 4.0], 0.6), frame(1, [1.0, 2.0], 0.2)];
    let gnm = build_gnm_semantic_features(&history, GnmSemanticDecoderKind::GnmOnly, config)
        .unwrap()
        .unwrap();
    let hybrid = build_gnm_semantic_features(&history, GnmSemanticDecoderKind::HybridResidual, config)
        .unwrap()
        .unwrap();
    assert_eq!(gnm.len(), 49);
    assert_eq!(hybrid.len(), 202);
    let gnm: Vec<f32> = gnm.into_iter().map(float).collect();
    assert_eq!(&gnm[..9], &[2.0, 4.0, 0.1, 0.2, 0.3, 0.4, 0.5, 0.6, 0.7]);
    assert_eq!(gnm[9], 0.8);
    assert_eq!(gnm[10], 0.5);
    assert_eq!(&gnm[46..], &[100.0, 200.0, 0.01]);
}

fn decoder_rows(kind: GnmSemanticDecoderKind) -> Vec<GnmSemanticRow> {
    let config = GnmSemanticFeatureConfig {
        history_len: 1,
        max_gap_micros: 20_000,
    };
    (-10..=10)
        .map(|index| {
            let x = index as f32 / 10.0;
            let width = match kind {
                GnmSemanticDecoderKind::GnmOnly => 26,
                GnmSemanticDecoderKind::HybridResidual => 128,
            };
            let mut features = vec![Binary32::zero(); width];
            features[0] = bits(x);
            let mut target = [Binary32::zero(); ARKIT_NON_TONGUE_CHANNEL_COUNT];
            target[0] = match kind {
                GnmSemanticDecoderKind::GnmOnly => bits(0.5 + 0.25 * x),
                GnmSemanticDecoderKind::HybridResidual => bits(-0.2 * x),
            };
            GnmSemanticRow {
                take_id: "train".to_owned(),
                frame_seq: (index + 10) as u64,
                feature_config: config,
                features,
                target,
            }
        })
        .collect()
}

fn fit(
    rows: &Vec<GnmSemanticRow>,
    kind: GnmSemanticDecoderKind,
    basis: &TeacherAlignedGnmBasisArtifact,
    lambda: f64,
) -> Result<GnmSemanticDecoderArtifact, GnmSemanticFitError> {
    let takes = vec!["train".to_owned()];
    let positions = select_semantic_rows(rows, &takes);
    let fitted = if positions.is_empty() {
        Err(LinearPriorFitError::EmptyTrainingSet)
    } else {
        let features: Vec<Vec<Binary32>> = positions.iter().map(|at| rows[*at].features.clone()).collect();
        let targets: Vec<Vec<Binary32>> = positions.iter().map(|at| rows[*at].target.to_vec()).collect();
        Ok(ridge(&features, &targets, lambda))
    };
    fit_gnm_semantic_decoder(rows, &takes, kind, basis, &gnm_semantic_feature_order(kind), fitted)
}

#[test]
fn shared_ridge_recovers_gnm_only_and_signed_hybrid_targets() {
    let basis = aligned_basis();
    for kind in [
        GnmSemanticDecoderKind::GnmOnly,
        GnmSemanticDecoderKind::HybridResidual,
    ] {
        let rows = decoder_rows(kind);
        let artifact = fit(&rows, kind, &basis, 1.0e-4).unwrap();
        let predicted = predict_gnm_semantic_raw(&artifact, &rows[0].features).unwrap();
        assert!((float(predicted[0]) - float(rows[0].target[0])).abs() < 1.0e-3);

        // The weights survive a JSON round trip, and so does the hash.
        let weights: Vec<Vec<f32>> = artifact
            .linear_map
            .weights
            .iter()
            .map(|row| row.iter().map(|value| float(*value)).collect())
            .collect();
        let json = serde_json::to_vec(&weights).unwrap();
        let weights: Vec<Vec<f32>> = serde_json::from_slice(&json).unwrap();
        let mut loaded = artifact.clone();
        loaded.linear_map.weights = weights
            .into_iter()
            .map(|row| row.into_iter().map(bits).collect())
            .collect();
        assert_eq!(
            predict_gnm_semantic_raw(&loaded, &rows[0].features).unwrap(),
            predicted
        );

        if kind == GnmSemanticDecoderKind::HybridResidual {
            assert!(float(predicted[0]) > 0.0);
            let negative = predict_gnm_semantic_raw(&artifact, &rows.last().unwrap().features).unwrap();
            assert!(float(negative[0]) < 0.0);
            let output = apply_non_tongue_residual(&coefficients(0.9), &predicted).unwrap();
            assert_eq!(float(output.get(ArkitBlendshape::TongueOut)), 0.0);
        } else {
            let output = gnm_only_prediction_to_arkit52(&predicted).unwrap();
            assert_eq!(float(output.get(ArkitBlendshape::TongueOut)), 0.0);
        }
    }
}

#[test]
fn decoder_artifact_rejects_kind_basis_rank_and_joint_tampering() {
    let kind = GnmSemanticDecoderKind::GnmOnly;
    let basis = aligned_basis();
    let rows = decoder_rows(kind);
    let artifact = fit(&rows, kind, &basis, 1.0).unwrap();
    assert_eq!(artifact.content_hash, hash_decoder(&artifact));
    let mut mutations = Vec::new();
    let mut changed = artifact.clone();
    changed.kind = GnmSemanticDecoderKind::HybridResidual;
    mutations.push(changed);
    let mut changed = artifact.clone();
    changed.aligned_basis_content_hash ^= 1;
    mutations.push(changed);
    let mut changed = artifact.clone();
    changed.rank += 1;
    mutations.push(changed);
    let mut changed = artifact.clone();
    changed.joint_count += 1;
    mutations.push(changed);
    for changed in mutations {
        assert!(matches!(
            predict_gnm_semantic_raw(&changed, &rows[0].features),
            Err(LinearPriorLoadError::ContentHashMismatch { .. })
        ));
    }
}

#[test]
fn other_takes_do_not_fit_the_decoder() {
    let kind = GnmSemanticDecoderKind::GnmOnly;
    let basis = aligned_basis();
    let rows = decoder_rows(kind);
    let mut with_eval = rows.clone();
    let mut foreign = rows[0].clone();
    foreign.take_id = "eval".to_owned();
    foreign.features.fill(bits(42.0));
    with_eval.push(foreign);
    assert_eq!(fit(&rows, kind, &basis, 1.0), fit(&with_eval, kind, &basis, 1.0));
}

#[test]
fn gap_and_incomplete_history_do_not_emit_features() {
    let config = GnmSemanticFeatureConfig {
        history_len: 2,
        max_gap_micros: 5_000,
    };
    assert_eq!(
        build_gnm_semantic_features(
            &vec![frame(1, [0.0; 2], 0.0)],
            GnmSemanticDecoderKind::GnmOnly,
            config
        )
        .unwrap(),
        None
    );
    assert!(matches!(
        build_gnm_semantic_features(
            &vec![frame(3, [0.0; 2], 0.0), frame(1, [0.0; 2], 0.0)],
            GnmSemanticDecoderKind::GnmOnly,
            config
        ),
        Err(GnmSemanticDatasetError::InvalidHistory(_))
    ));
}

fn paired(seq: u64, jaw: f32) -> PairedTemporalSample {
    PairedTemporalSample {
        frame_seq: seq,
        timestamp_micros: seq * 10_000,
        mediapipe_observation: Some(MediaPipeObservation {
            direct_coefficients: coefficients(0.25),
            landmarks_xy: Vec::new(),
        }),
        gnm_state: Some(GnmTraceState {
            projected_coefficients: coefficients(0.5),
            residual: Binary32::zero(),
            expression: GnmNonTongueExpression::neutral(),
            joint_rotations: vec![[Binary32::zero(); 3]],
            rigid_yaw_pitch_roll: [Binary32::zero(); 3],
            objective: bits(0.5),
            region_fits: regions(0.25),
        }),
        teacher: Some(coefficients(jaw)),
    }
}

#[test]
fn rows_follow_the_past_only_and_restart_after_missing_evidence() {
    let basis = aligned_basis();
    let config = GnmSemanticFeatureConfig {
        history_len: 2,
        max_gap_micros: 20_000,
    };
    let build = |samples: &Vec<PairedTemporalSample>| {
        build_gnm_semantic_rows(
            &"take".to_owned(),
            samples,
            &basis,
            GnmSemanticDecoderKind::HybridResidual,
            config,
            Ok(()),
        )
        .unwrap()
    };
    let samples = vec![paired(1, 0.75), paired(2, 0.75), paired(3, 0.75)];
    let rows = build(&samples);
    assert_eq!(rows.iter().map(|row| row.frame_seq).collect::<Vec<_>>(), vec![2, 3]);
    assert_eq!(rows[0].target[ArkitBlendshape::JawOpen.index()], bits(0.5));

    let mut future = samples.clone();
    future[2] = paired(3, 0.125);
    assert_eq!(build(&future)[0], rows[0]);

    let mut torn = samples.clone();
    torn[1].gnm_state = None;
    assert!(build(&torn).is_empty());
}

#[test]
fn tampered_decoder_names_both_hashes() {
    let kind = GnmSemanticDecoderKind::GnmOnly;
    let basis = aligned_basis();
    let rows = decoder_rows(kind);
    let artifact = fit(&rows, kind, &basis, 1.0).unwrap();
    assert!(predict_gnm_semantic_raw(&artifact, &rows[0].features).is_ok());
    for shift in 0..64_u32 {
        let mut changed = artifact.clone();
        changed.aligned_basis_content_hash ^= 1 << shift;
        let computed = hash_decoder(&changed);
        assert_ne!(computed, artifact.content_hash);
        assert_eq!(
            predict_gnm_semantic_raw(&changed, &rows[0].features).err(),
            Some(LinearPriorLoadError::ContentHashMismatch {
                recorded: artifact.content_hash,
                computed,
            })
        );
    }
    for count in 0..9_usize {
        let mut changed = artifact.clone();
        changed.rank = artifact.rank + 1 + count;
        assert_ne!(hash_decoder(&changed), artifact.content_hash);
        let mut changed = artifact.clone();
        changed.joint_count = artifact.joint_count + 1 + count;
        assert_ne!(hash_decoder(&changed), artifact.content_hash);
    }
}

#[test]
fn next_rank_and_joint_count_always_show() {
    let kind = GnmSemanticDecoderKind::GnmOnly;
    let rows = decoder_rows(kind);
    let artifact = fit(&rows, kind, &aligned_basis(), 1.0).unwrap();
    for word in [0, 254, 255, 0xffff, 0xffff_ffff, 0xff_ffff_ffff, 0xff_ffff_ffff_ffff_usize] {
        let mut here = artifact.clone();
        here.joint_count = word;
        let mut next = artifact.clone();
        next.joint_count = word + 1;
        assert_ne!(hash_decoder(&here), hash_decoder(&next));
        here.joint_count = artifact.joint_count;
        next.joint_count = artifact.joint_count;
        here.rank = word;
        next.rank = word + 1;
        assert_ne!(hash_decoder(&here), hash_decoder(&next));
    }
}

#[test]
fn two_basis_hashes_are_covered_by_one_content_hash() {
    let kind = GnmSemanticDecoderKind::GnmOnly;
    let rows = decoder_rows(kind);
    let mut artifact = fit(&rows, kind, &aligned_basis(), 1.0).unwrap();
    artifact.aligned_basis_content_hash = 0x975c_5053_7435_be15;
    let mut other = artifact.clone();
    other.aligned_basis_content_hash = 0x51c5_c784_0ff1_40e3;
    assert_eq!(hash_decoder(&artifact), hash_decoder(&other));
    other.aligned_basis_content_hash ^= 1;
    assert_ne!(hash_decoder(&artifact), hash_decoder(&other));
}
