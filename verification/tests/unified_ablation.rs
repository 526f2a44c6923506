use vtuber_tracking::arkit::{Arkit52Coefficients, ArkitBlendshape};
use vtuber_tracking::avatar_response::{
    avatar_space_rms_error, avatar_space_rms_errors, AvatarMorphDelta, AvatarVertexKey,
    PerfectSyncMorphResponse,
};
use vtuber_tracking::binary::{Binary32, Binary64};
use vtuber_tracking::blink_events::{evaluate_blink_events, median};
use vtuber_tracking::non_tongue_metrics::{
    evaluate_non_tongue_variant, paired_absolute_error_delta, pearson_with_teacher_variance,
};
use vtuber_tracking::temporal_metrics::measure_temporal;
use vtuber_tracking::unified_ablation::{
    exact_common_variant_frames, take_slices, validate_frame_order, GnmResearchVariant, UnifiedAblationError,
    VariantFrame, VariantFrames,
};

fn bits(value: f32) -> Binary32 {
    Binary32::from_bits(value.to_bits())
}

fn wide(value: f64) -> Binary64 {
    Binary64::from_bits(value.to_bits())
}

fn float(value: Binary64) -> f64 {
    f64::from_bits(value.to_bits())
}

fn coefficients(jaw: f32, left: f32, right: f32) -> Arkit52Coefficients {
    let mut values = [Binary32::zero(); 52];
    values[ArkitBlendshape::JawOpen.index()] = bits(jaw);
    values[ArkitBlendshape::EyeBlinkLeft.index()] = bits(left);
    values[ArkitBlendshape::EyeBlinkRight.index()] = bits(right);
    Arkit52Coefficients::try_from_array(values).unwrap()
}

fn frame(sequence: u64, teacher: Arkit52Coefficients, output: Arkit52Coefficients) -> VariantFrame {
    VariantFrame {
        take_id: "take".to_owned(),
        frame_seq: sequence,
        timestamp_micros: sequence * 10_000,
        teacher,
        output,
    }
}

fn pairs() -> Vec<(ArkitBlendshape, ArkitBlendshape)> {
    vec![
        (ArkitBlendshape::EyeBlinkLeft, ArkitBlendshape::EyeBlinkRight),
        (ArkitBlendshape::MouthSmileLeft, ArkitBlendshape::MouthSmileRight),
    ]
}

fn six_series() -> VariantFrames {
    let teacher = coefficients(0.5, 0.8, 0.2);
    let mut variants = VariantFrames::new();
    for variant in GnmResearchVariant::all() {
        variants.insert(
            variant,
            vec![frame(1, teacher, teacher), frame(2, teacher, teacher)],
        );
    }
    variants
}

#[test]
fn common_frames_use_exact_six_way_intersection() {
    let teacher = coefficients(0.5, 0.8, 0.2);
    let mut variants = six_series();
    variants.insert(GnmResearchVariant::GnmLearned, vec![frame(2, teacher, teacher)]);
    let common = exact_common_variant_frames(&variants).unwrap();
    for variant in GnmResearchVariant::all() {
        let frames = common.get(variant).unwrap();
        assert_eq!(frames.len(), 1);
        assert_eq!(frames[0].frame_seq, 2);
    }
}

#[test]
fn common_frames_refuse_incomplete_inputs() {
    let teacher = coefficients(0.5, 0.8, 0.2);
    let other = coefficients(0.25, 0.8, 0.2);

    let mut missing = VariantFrames::new();
    missing.insert(GnmResearchVariant::Direct, vec![frame(1, teacher, teacher)]);
    assert_eq!(
        exact_common_variant_frames(&missing).err(),
        Some(UnifiedAblationError::MissingVariant(GnmResearchVariant::GnmProjected))
    );

    let mut repeated = six_series();
    repeated.insert(
        GnmResearchVariant::LandmarkResidual,
        vec![frame(1, teacher, teacher), frame(1, teacher, other)],
    );
    assert_eq!(
        exact_common_variant_frames(&repeated).err(),
        Some(UnifiedAblationError::DuplicateIdentity(
            GnmResearchVariant::LandmarkResidual
        ))
    );

    let mut disjoint = six_series();
    disjoint.insert(GnmResearchVariant::GnmLearned, vec![frame(9, teacher, teacher)]);
    assert_eq!(
        exact_common_variant_frames(&disjoint).err(),
        Some(UnifiedAblationError::NoCommonFrames)
    );

    let mut torn = six_series();
    torn.insert(
        GnmResearchVariant::HybridGnmResidual,
        vec![frame(1, other, teacher), frame(2, teacher, teacher)],
    );
    assert_eq!(
        exact_common_variant_frames(&torn).err(),
        Some(UnifiedAblationError::TeacherMismatch)
    );
}

#[test]
fn frame_order_is_checked_per_take() {
    let teacher = coefficients(0.5, 0.8, 0.2);
    let mut frames = vec![frame(1, teacher, teacher), frame(2, teacher, teacher)];
    let mut other = frame(1, teacher, teacher);
    other.take_id = "other".to_owned();
    frames.push(other);
    assert_eq!(validate_frame_order(&frames), Ok(()));
    assert_eq!(take_slices(&frames), vec![(0, 2), (2, 3)]);

    let duplicate = vec![frame(1, teacher, teacher), frame(1, teacher, teacher)];
    assert_eq!(
        validate_frame_order(&duplicate),
        Err(UnifiedAblationError::InvalidData("duplicate frame"))
    );
    let backward = vec![frame(2, teacher, teacher), frame(1, teacher, teacher)];
    assert_eq!(
        validate_frame_order(&backward),
        Err(UnifiedAblationError::InvalidData("frame order"))
    );
}

#[test]
fn a_take_may_not_regress_across_another_take() {
    let teacher = coefficients(0.5, 0.8, 0.2);
    let mut other = frame(7, teacher, teacher);
    other.take_id = "other".to_owned();
    let advancing = vec![frame(2, teacher, teacher), other.clone(), frame(3, teacher, teacher)];
    assert_eq!(validate_frame_order(&advancing), Ok(()));
    assert_eq!(take_slices(&advancing), vec![(0, 1), (1, 2), (2, 3)]);

    let regressing = vec![frame(2, teacher, teacher), other, frame(1, teacher, teacher)];
    assert_eq!(
        evaluate_non_tongue_variant(&regressing, &pairs()),
        Err(UnifiedAblationError::InvalidData("frame order"))
    );
    assert_eq!(
        evaluate_blink_events(&regressing),
        Err(UnifiedAblationError::InvalidData("frame order"))
    );
}

#[test]
fn coefficient_metrics_exclude_tongue_and_measure_asymmetry() {
    let teacher = coefficients(0.5, 0.8, 0.2);
    let output = coefficients(0.4, 0.6, 0.4);
    let frames = vec![frame(1, teacher, output), frame(2, teacher, output)];
    let metrics = evaluate_non_tongue_variant(&frames, &pairs()).unwrap();
    assert_eq!(metrics.frame_count, 2);
    assert!((float(metrics.micro_mae) - 0.5 / 51.0).abs() < 1.0e-7);
    let blink = metrics
        .left_right
        .iter()
        .find(|pair| pair.left == ArkitBlendshape::EyeBlinkLeft)
        .unwrap();
    assert!((float(blink.difference_mae) - 0.4).abs() < 1.0e-6);
    assert_eq!(metrics.channels.len(), 51);
    assert!(metrics
        .channels
        .iter()
        .all(|channel| channel.channel != ArkitBlendshape::TongueOut));
    assert_eq!(
        evaluate_non_tongue_variant(&Vec::new(), &pairs()).err(),
        Some(UnifiedAblationError::EmptyFrames)
    );
}

#[test]
fn tongue_does_not_enter_the_metrics() {
    let teacher = coefficients(0.5, 0.8, 0.2);
    let output = coefficients(0.4, 0.6, 0.4);
    let mut loud = output.as_array();
    loud[ArkitBlendshape::TongueOut.index()] = bits(1.0);
    let loud = Arkit52Coefficients::try_from_array(loud).unwrap();
    let silent = vec![frame(1, teacher, output), frame(2, teacher, output)];
    let noisy = vec![frame(1, teacher, loud), frame(2, teacher, loud)];
    assert_eq!(
        evaluate_non_tongue_variant(&silent, &pairs()).unwrap(),
        evaluate_non_tongue_variant(&noisy, &pairs()).unwrap()
    );
}

#[test]
fn correlation_and_paired_delta_are_exact() {
    let rising: Vec<Binary64> = [0.0, 1.0, 2.0, 3.0].iter().map(|v| wide(*v)).collect();
    let falling: Vec<Binary64> = [6.0, 4.0, 2.0, 0.0].iter().map(|v| wide(*v)).collect();
    let flat: Vec<Binary64> = vec![wide(1.0); 4];
    assert!((float(pearson_with_teacher_variance(&rising, &rising).unwrap()) - 1.0).abs() < 1.0e-12);
    assert!((float(pearson_with_teacher_variance(&rising, &falling).unwrap()) + 1.0).abs() < 1.0e-12);
    assert_eq!(pearson_with_teacher_variance(&flat, &rising), None);

    let teacher = coefficients(0.5, 0.5, 0.5);
    let exact = vec![frame(1, teacher, teacher)];
    let off = vec![frame(1, teacher, coefficients(0.25, 0.5, 0.5))];
    assert_eq!(
        paired_absolute_error_delta(&off, &exact).unwrap(),
        wide(-0.25 / 51.0)
    );
    assert!(paired_absolute_error_delta(&off, &Vec::new()).is_err());
}

#[test]
fn temporal_errors_follow_first_differences() {
    let still = coefficients(0.0, 0.0, 0.0);
    let moved = coefficients(0.5, 0.0, 0.0);
    // The output stands still while the teacher's jaw moves 0.5 in 10 ms.
    let frames = vec![frame(1, still, still), frame(2, moved, still)];
    let metrics = measure_temporal(&frames);
    assert!((float(metrics.velocity_mae) - 50.0 / 51.0).abs() < 1.0e-9);
    assert_eq!(float(metrics.acceleration_mae), 0.0);
}

#[test]
fn avatar_space_composes_shared_vertices_and_rejects_tongue() {
    let teacher = coefficients(0.0, 0.0, 0.0);
    let predicted = coefficients(1.0, 0.0, 0.0);
    let response = PerfectSyncMorphResponse {
        model_sha256: "abc".to_owned(),
        channels: vec![(
            ArkitBlendshape::JawOpen,
            vec![AvatarMorphDelta {
                vertex: AvatarVertexKey {
                    mesh_index: 1,
                    vertex_index: 2,
                },
                delta_xyz: [bits(3.0), bits(0.0), bits(0.0)],
            }],
        )],
    };
    let error = float(avatar_space_rms_error(&predicted, &teacher, &response).unwrap());
    assert!((error - 3.0_f64.sqrt()).abs() < 1.0e-7);
    let tongue = PerfectSyncMorphResponse {
        model_sha256: "abc".to_owned(),
        channels: vec![(ArkitBlendshape::TongueOut, Vec::new())],
    };
    assert!(avatar_space_rms_error(&predicted, &teacher, &tongue).is_err());
    let empty = PerfectSyncMorphResponse {
        model_sha256: "abc".to_owned(),
        channels: Vec::new(),
    };
    assert_eq!(
        avatar_space_rms_error(&predicted, &teacher, &empty).err(),
        Some(UnifiedAblationError::EmptyMorphResponse)
    );
    let frames = vec![frame(1, teacher, predicted), frame(2, teacher, teacher)];
    let errors = avatar_space_rms_errors(&frames, &response).unwrap();
    assert_eq!(errors, vec![wide(error), wide(0.0)]);
}

#[test]
fn avatar_space_adds_channels_that_share_a_vertex() {
    let vertex = AvatarVertexKey {
        mesh_index: 0,
        vertex_index: 7,
    };
    let response = PerfectSyncMorphResponse {
        model_sha256: "abc".to_owned(),
        channels: vec![
            (
                ArkitBlendshape::JawOpen,
                vec![AvatarMorphDelta {
                    vertex,
                    delta_xyz: [bits(3.0), bits(0.0), bits(0.0)],
                }],
            ),
            (
                ArkitBlendshape::EyeBlinkLeft,
                vec![AvatarMorphDelta {
                    vertex,
                    delta_xyz: [bits(-3.0), bits(0.0), bits(0.0)],
                }],
            ),
        ],
    };
    let teacher = coefficients(0.0, 0.0, 0.0);
    let predicted = coefficients(1.0, 1.0, 0.0);
    assert_eq!(
        avatar_space_rms_error(&predicted, &teacher, &response).unwrap(),
        wide(0.0)
    );
}

fn pulse_frames(output: impl Fn(f32) -> f32) -> Vec<VariantFrame> {
    let values = [0.0f32, 0.0, 0.0, 0.0, 0.4, 0.9, 0.2, 0.0];
    values
        .into_iter()
        .enumerate()
        .map(|(index, value)| VariantFrame {
            take_id: "take".to_owned(),
            frame_seq: index as u64,
            timestamp_micros: index as u64 * 100_000,
            teacher: coefficients(0.0, value, value),
            output: coefficients(0.0, output(value), output(value)),
        })
        .collect()
}

#[test]
fn blink_events_match_identical_exact_frame_pulses() {
    let metrics = evaluate_blink_events(&pulse_frames(|value| value)).unwrap();
    assert_eq!(metrics.teacher_events, 2);
    assert_eq!(metrics.matched_events, 2);
    assert_eq!(metrics.missed_events, 0);
    assert_eq!(metrics.extra_events, 0);
    assert_eq!(metrics.median_absolute_onset_error_ms, Some(wide(0.0)));
    assert_eq!(metrics.median_absolute_peak_error_ms, Some(wide(0.0)));
    assert_eq!(metrics.median_absolute_release_error_ms, Some(wide(0.0)));
    assert_eq!(metrics.median_absolute_peak_attenuation, Some(wide(0.0)));
}

#[test]
fn blink_events_count_missed_pulses() {
    let metrics = evaluate_blink_events(&pulse_frames(|_| 0.0)).unwrap();
    assert_eq!(metrics.teacher_events, 2);
    assert_eq!(metrics.matched_events, 0);
    assert_eq!(metrics.missed_events, 2);
    assert_eq!(metrics.extra_events, 0);
    assert_eq!(metrics.median_absolute_peak_attenuation, None);
    assert_eq!(
        evaluate_blink_events(&Vec::new()).err(),
        Some(UnifiedAblationError::EmptyFrames)
    );
}

#[test]
fn median_averages_the_two_middle_values() {
    assert_eq!(median(&Vec::new()), None);
    assert_eq!(median(&vec![wide(3.0), wide(1.0), wide(2.0)]), Some(wide(2.0)));
    assert_eq!(
        median(&vec![wide(4.0), wide(1.0), wide(2.0), wide(8.0)]),
        Some(wide(3.0))
    );
}

#[test]
fn moving_tongue_leaves_bias_temporal_errors_and_pairs_alone() {
    let quiet = [
        (coefficients(0.0, 0.0, 0.0), coefficients(0.1, 0.0, 0.05)),
        (coefficients(0.4, 0.7, 0.1), coefficients(0.3, 0.5, 0.2)),
        (coefficients(0.9, 0.2, 0.6), coefficients(0.8, 0.4, 0.3)),
    ];
    let stick_out = |face: &Arkit52Coefficients, value: f32| {
        let mut values = face.as_array();
        values[ArkitBlendshape::TongueOut.index()] = bits(value);
        Arkit52Coefficients::try_from_array(values).unwrap()
    };
    let mut still = Vec::new();
    let mut moving = Vec::new();
    for (index, (teacher, output)) in quiet.iter().enumerate() {
        let sequence = index as u64 + 1;
        still.push(frame(sequence, *teacher, *output));
        moving.push(frame(
            sequence,
            stick_out(teacher, 0.3 * index as f32),
            stick_out(output, 1.0 - 0.4 * index as f32),
        ));
    }
    assert_eq!(
        evaluate_non_tongue_variant(&still, &pairs()).unwrap(),
        evaluate_non_tongue_variant(&moving, &pairs()).unwrap()
    );
    assert_eq!(measure_temporal(&still), measure_temporal(&moving));
}

#[test]
fn equal_eye_series_neither_miss_nor_add_events() {
    let mut frames = pulse_frames(|value| value);
    for frame in &mut frames {
        let mut output = frame.output.as_array();
        output[ArkitBlendshape::JawOpen.index()] = bits(0.9);
        frame.output = Arkit52Coefficients::try_from_array(output).unwrap();
    }
    let metrics = evaluate_blink_events(&frames).unwrap();
    assert_eq!(metrics.teacher_events, 2);
    assert_eq!(metrics.matched_events, 2);
    assert_eq!((metrics.missed_events, metrics.extra_events), (0, 0));
}
