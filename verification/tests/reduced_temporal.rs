use vtuber_tracking::arkit::Arkit52Coefficients;
use vtuber_tracking::binary::{Binary32, Binary64};
use vtuber_tracking::reduced_gnm::GnmReducedExpressionBasis;
use vtuber_tracking::reduced_temporal::{
    balanced_gain, correct_reduced_temporal_state, hash_artifact, initialize_reduced_temporal_state,
    project_source_group_gains, reduced_temporal_gain_grid, responsive_gain, sample_direct_coefficients_at,
    sample_reduced_state_at, select_reduced_temporal_artifact, smooth_gain, AlphaBetaGain,
    GnmReducedExpressionState, ReducedAlphaBetaGains, ReducedTemporalError, ReducedTemporalProvenance,
    SourceGroupGains, TemporalCandidateMetrics, TimestampedDirectCoefficients,
};

const EXPRESSION_DIM: usize = 351;

fn bits(value: f32) -> Binary32 {
    Binary32::from_bits(value.to_bits())
}

fn float(value: Binary32) -> f32 {
    f32::from_bits(value.to_bits())
}

fn wide(value: f64) -> Binary64 {
    Binary64::from_bits(value.to_bits())
}

fn identity_prefix_basis(rank: usize) -> GnmReducedExpressionBasis {
    let mut values_row_major = vec![Binary32::zero(); EXPRESSION_DIM * rank];
    for index in 0..rank {
        values_row_major[index * rank + index] = bits(1.0);
    }
    GnmReducedExpressionBasis { rank, values_row_major }
}

#[test]
fn group_projection_keeps_left_and_right_eye_identical() {
    let gains = project_source_group_gains(
        &identity_prefix_basis(201),
        SourceGroupGains {
            eye: responsive_gain(),
            lower_face: smooth_gain(),
            iris: balanced_gain(),
        },
    )
    .unwrap();
    assert_eq!(gains.alpha[0], gains.alpha[100]);
    assert_eq!(gains.beta[0], gains.beta[100]);
    assert_eq!(gains.alpha[200], smooth_gain().alpha);
}

#[test]
fn group_projection_refuses_unusable_gains_and_columns() {
    let broken = AlphaBetaGain {
        alpha: bits(1.5),
        beta: bits(0.1),
    };
    assert!(matches!(
        project_source_group_gains(
            &identity_prefix_basis(2),
            SourceGroupGains {
                eye: broken,
                lower_face: smooth_gain(),
                iris: balanced_gain(),
            },
        ),
        Err(ReducedTemporalError::InvalidNumeric(_))
    ));
    let mut empty_column = identity_prefix_basis(2);
    empty_column.values_row_major[3] = Binary32::zero();
    assert!(matches!(
        project_source_group_gains(
            &empty_column,
            SourceGroupGains {
                eye: responsive_gain(),
                lower_face: smooth_gain(),
                iris: balanced_gain(),
            },
        ),
        Err(ReducedTemporalError::InvalidNumeric(_))
    ));
}

#[test]
fn projected_gains_stay_usable() {
    let full = AlphaBetaGain {
        alpha: bits(1.0),
        beta: bits(1.0),
    };
    let mut basis = identity_prefix_basis(1);
    for (row, value) in basis.values_row_major.iter_mut().enumerate() {
        *value = bits(0.1 + row as f32 / 7.0);
    }
    let gains = project_source_group_gains(
        &basis,
        SourceGroupGains {
            eye: full,
            lower_face: full,
            iris: full,
        },
    )
    .unwrap();
    assert_eq!(gains.alpha, vec![bits(1.0)]);
    let mixed = project_source_group_gains(
        &basis,
        SourceGroupGains {
            eye: responsive_gain(),
            lower_face: full,
            iris: smooth_gain(),
        },
    )
    .unwrap();
    assert!((0.0..=1.0).contains(&float(mixed.alpha[0])));
    assert!((0.0..=1.0).contains(&float(mixed.beta[0])));
}

#[test]
fn presets_hold_their_decimal_values() {
    assert_eq!((responsive_gain().alpha, responsive_gain().beta), (bits(0.90), bits(0.20)));
    assert_eq!((balanced_gain().alpha, balanced_gain().beta), (bits(0.70), bits(0.10)));
    assert_eq!((smooth_gain().alpha, smooth_gain().beta), (bits(0.50), bits(0.05)));
}

#[test]
fn alpha_beta_transition_and_sampling_use_timestamps() {
    let initial = initialize_reduced_temporal_state(
        1_000_000,
        GnmReducedExpressionState::new(vec![bits(0.0)], 1).unwrap(),
    );
    let corrected = correct_reduced_temporal_state(
        &initial,
        1_100_000,
        &GnmReducedExpressionState::new(vec![bits(1.0)], 1).unwrap(),
        &ReducedAlphaBetaGains {
            alpha: vec![bits(0.5)],
            beta: vec![bits(0.1)],
        },
    )
    .unwrap();
    assert!((float(corrected.position.values()[0]) - 0.5).abs() < 1.0e-6);
    assert!((float(corrected.velocity_per_second[0]) - 1.0).abs() < 1.0e-6);
    let sampled = sample_reduced_state_at(&corrected, 1_150_000, 50_000).unwrap();
    assert!((float(sampled.values()[0]) - 0.55).abs() < 1.0e-6);
    assert!(sample_reduced_state_at(&corrected, 1_150_001, 50_000).is_err());
    assert_eq!(
        sample_reduced_state_at(&corrected, 1_150_001, 50_000).err(),
        Some(ReducedTemporalError::PredictionHorizon {
            actual_micros: 50_001,
            maximum_micros: 50_000,
        })
    );
    assert_eq!(
        sample_reduced_state_at(&corrected, 1_099_999, 50_000).err(),
        Some(ReducedTemporalError::PastTarget)
    );
    // The state's own time gives its position back.
    let same = sample_reduced_state_at(&corrected, 1_100_000, 50_000).unwrap();
    assert_eq!(same.values(), corrected.position.values());
}

#[test]
fn correction_without_gain_keeps_the_prediction() {
    let mut state = initialize_reduced_temporal_state(
        0,
        GnmReducedExpressionState::new(vec![bits(0.25)], 1).unwrap(),
    );
    state.velocity_per_second = vec![bits(2.0)];
    let corrected = correct_reduced_temporal_state(
        &state,
        500_000,
        &GnmReducedExpressionState::new(vec![bits(9.0)], 1).unwrap(),
        &ReducedAlphaBetaGains {
            alpha: vec![bits(0.0)],
            beta: vec![bits(0.0)],
        },
    )
    .unwrap();
    assert_eq!(corrected.position.values(), &vec![bits(1.25)]);
    assert_eq!(corrected.velocity_per_second, vec![bits(2.0)]);
    assert_eq!(
        correct_reduced_temporal_state(
            &corrected,
            500_000,
            &GnmReducedExpressionState::new(vec![bits(9.0)], 1).unwrap(),
            &ReducedAlphaBetaGains {
                alpha: vec![bits(0.0)],
                beta: vec![bits(0.0)],
            },
        )
        .err(),
        Some(ReducedTemporalError::TimestampOrder)
    );
}

#[test]
fn direct_prediction_is_secant_only_and_zeroes_tongue() {
    let mut first = [Binary32::zero(); 52];
    let mut second = [Binary32::zero(); 52];
    first[0] = bits(0.2);
    second[0] = bits(0.4);
    second[51] = bits(0.0);
    let predicted = sample_direct_coefficients_at(
        &TimestampedDirectCoefficients {
            timestamp_micros: 1_000_000,
            coefficients: Arkit52Coefficients::try_from_array(first).unwrap(),
        },
        &TimestampedDirectCoefficients {
            timestamp_micros: 1_100_000,
            coefficients: Arkit52Coefficients::try_from_array(second).unwrap(),
        },
        1_150_000,
        50_000,
    )
    .unwrap();
    assert!((float(predicted.as_array()[0]) - 0.5).abs() < 1.0e-6);
    assert_eq!(float(predicted.as_array()[51]), 0.0);
}

fn candidate(eye: AlphaBetaGain, lower: AlphaBetaGain, mae: f64) -> TemporalCandidateMetrics {
    TemporalCandidateMetrics {
        eye_preset: eye,
        lower_face_preset: lower,
        h_macro_mae: wide(mae),
        h_missed_blinks: 0,
        d_missed_blinks: 0,
        h_onset_error_ms: Some(wide(0.0)),
        d_onset_error_ms: Some(wide(0.0)),
        h_peak_error_ms: Some(wide(0.0)),
        d_peak_error_ms: Some(wide(0.0)),
        h_peak_attenuation: Some(wide(0.0)),
        d_peak_attenuation: Some(wide(0.0)),
    }
}

fn provenance(takes: &[&str]) -> ReducedTemporalProvenance {
    ReducedTemporalProvenance {
        basis_content_hash: 1,
        decoder_content_hash: 2,
        max_prediction_horizon_micros: 50_000,
        training_takes: takes.iter().map(|take| (*take).to_owned()).collect(),
    }
}

#[test]
fn selection_rejects_blink_failure_and_has_no_empty_fallback() {
    let mut candidates = reduced_temporal_gain_grid()
        .into_iter()
        .map(|(eye, lower)| candidate(eye, lower, 1.0))
        .collect::<Vec<_>>();
    candidates[8].h_macro_mae = wide(0.0);
    candidates[8].h_missed_blinks = 1;
    let artifact = select_reduced_temporal_artifact(&candidates, provenance(&["b", "a"])).unwrap();
    assert_ne!(artifact.eye_preset, smooth_gain());
    assert_eq!(artifact.training_takes, vec!["a".to_owned(), "b".to_owned()]);
    assert_eq!(artifact.content_hash, hash_artifact(&artifact));
    for candidate in &mut candidates {
        candidate.h_missed_blinks = 1;
    }
    assert!(matches!(
        select_reduced_temporal_artifact(&candidates, provenance(&[])),
        Err(ReducedTemporalError::NoAdmissibleTemporalGains)
    ));
    assert!(matches!(
        select_reduced_temporal_artifact(&candidates[..8], provenance(&[])),
        Err(ReducedTemporalError::InvalidCandidateGrid)
    ));
}

#[test]
fn candidate_with_missing_event_metric_is_not_admissible() {
    let mut candidate = candidate(responsive_gain(), responsive_gain(), 0.1);
    candidate.h_onset_error_ms = None;

    assert!(!candidate.admissible());
}
