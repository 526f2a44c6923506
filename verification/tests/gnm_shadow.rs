use vtuber_tracking::ab_backend::{AbBackendError, BackendOutputTiming, SourceFrameStamp};
use vtuber_tracking::arkit::{Arkit52Coefficients, ArkitBlendshape, ARKIT52_CHANNEL_COUNT};
use vtuber_tracking::binary::Binary32;
use vtuber_tracking::clock::{FrameSeq, MonoTimeNs};
use vtuber_tracking::gnm_arkit_projector::{
    AnatomicalSide, BrowAuxFeatures, BrowSideAuxFeatures, CheekAuxFeatures, EyeApertureFeature, EyeAuxFeatures,
    GnmFacialFeatures, IrisAuxFeatures, IrisSideAuxFeature, MouthAuxFeatures, ProjectedSupport,
};
use vtuber_tracking::gnm_fitter_contract::AuxiliaryExpressionObservation;
use vtuber_tracking::gnm_model::{DenseObservationStatus, GnmDenseObservation, GnmFrameStamp};
use vtuber_tracking::gnm_shadow::{
    align_shadow_pair, decode_shadow_features, shadow_worker_input, GnmShadowCandidate, GnmShadowOutcome,
    GnmShadowSkip,
};
use vtuber_tracking::landmark_basis::LANDMARK_COUNT;
use vtuber_tracking::same_frame_fanout::{
    fan_out_same_frame, FaceLandmark, FaceTrackingQuality, FaceTrackingSample, SameFrameFanOut,
};
use vtuber_tracking::temporal_report::FaceTrackingBackend;

const CAPTURE_MICROS: u64 = 1_000_000_000 / 1_000;
const INFERENCE_MICROS: u64 = 1_001_000_000 / 1_000;
const PUBLISH_MICROS: u64 = 1_002_500;

fn bits(value: f32) -> Binary32 {
    Binary32::from_bits(value.to_bits())
}

fn float(value: Binary32) -> f32 {
    f32::from_bits(value.to_bits())
}

fn sample(seq: u64) -> FaceTrackingSample {
    FaceTrackingSample {
        source_seq: FrameSeq(seq),
        captured_at: MonoTimeNs(1_000_000_000),
        inference_started_at: MonoTimeNs(1_000_500_000),
        inference_finished_at: MonoTimeNs(1_001_000_000),
        camera_to_face: vec![Binary32::zero(); 16],
        face_center: [bits(0.5), bits(0.5)],
        landmarks: vec![
            FaceLandmark {
                x: bits(0.5),
                y: bits(0.5),
                z: bits(0.0),
                visibility: Some(bits(1.0)),
                presence: Some(bits(1.0)),
            };
            LANDMARK_COUNT
        ],
        blendshapes: vec![Binary32::zero(); 52],
        quality: FaceTrackingQuality {
            landmark_presence_median: Some(bits(1.0)),
            matrix_orthogonality_error: bits(0.0),
            matrix_determinant: bits(1.0),
        },
    }
}

fn fan_out(seq: u64) -> SameFrameFanOut {
    fan_out_same_frame(
        &sample(seq),
        Ok(GnmDenseObservation {
            source_seq: seq,
            captured_at_micros: CAPTURE_MICROS,
            status: DenseObservationStatus::Valid,
        }),
        Ok(AuxiliaryExpressionObservation {
            source_seq: seq,
            captured_at_micros: CAPTURE_MICROS,
        }),
    )
    .expect("fan-out works")
}

fn coefficients(value: f32) -> Arkit52Coefficients {
    let mut values = [Binary32::zero(); ARKIT52_CHANNEL_COUNT];
    values[ArkitBlendshape::JawOpen.index()] = bits(value.clamp(0.0, 1.0));
    Arkit52Coefficients::try_from_array(values).expect("valid coefficients")
}

fn stamp(source_seq: u64) -> GnmFrameStamp {
    GnmFrameStamp {
        source_seq,
        captured_at_micros: CAPTURE_MICROS,
    }
}

#[test]
fn worker_input_preserves_exact_source_identity() {
    let frame = fan_out(21);
    let input = shadow_worker_input(&frame);
    assert_eq!(input.stamp().source_seq, 21);
    assert_eq!(input.stamp().captured_at_micros, CAPTURE_MICROS);
    assert_eq!(input.observation(), frame.dense());
}

#[test]
fn shadow_without_gnm_state_is_direct_only_and_direct_is_untouched() {
    let frame = fan_out(22);
    let direct = coefficients(0.25);
    let outcome = align_shadow_pair(&frame, direct, None, PUBLISH_MICROS).expect("alignment works");
    match outcome {
        GnmShadowOutcome::DirectOnly { direct, skip } => {
            assert_eq!(skip, GnmShadowSkip::NoStateYet);
            assert_eq!(float(direct.get(ArkitBlendshape::JawOpen)), 0.25);
        }
        other => panic!("expected DirectOnly, got {other:?}"),
    }
}

#[test]
fn aligned_pair_requires_exact_same_source_frame() {
    let frame = fan_out(23);
    let output = coefficients(0.5);
    let candidate = GnmShadowCandidate {
        stamp: stamp(24),
        fit_complete_micros: Some(INFERENCE_MICROS + 1),
        decoder_complete_micros: Some(INFERENCE_MICROS + 2),
        output: &output,
    };
    let outcome =
        align_shadow_pair(&frame, coefficients(0.25), Some(candidate), PUBLISH_MICROS).expect("alignment works");
    match outcome {
        GnmShadowOutcome::DirectOnly { direct, skip } => {
            assert_eq!(
                skip,
                GnmShadowSkip::ForeignSourceFrame {
                    expected_seq: 23,
                    actual_seq: 24
                }
            );
            assert_eq!(float(direct.get(ArkitBlendshape::JawOpen)), 0.25);
        }
        other => panic!("foreign frame must not align, got {other:?}"),
    }
}

#[test]
fn foreign_capture_timestamp_does_not_align() {
    let frame = fan_out(23);
    let output = coefficients(0.5);
    let candidate = GnmShadowCandidate {
        stamp: GnmFrameStamp {
            source_seq: 23,
            captured_at_micros: CAPTURE_MICROS + 1,
        },
        fit_complete_micros: None,
        decoder_complete_micros: None,
        output: &output,
    };
    let outcome =
        align_shadow_pair(&frame, coefficients(0.25), Some(candidate), PUBLISH_MICROS).expect("alignment works");
    assert!(matches!(
        outcome,
        GnmShadowOutcome::DirectOnly {
            skip: GnmShadowSkip::ForeignSourceFrame { .. },
            ..
        }
    ));
}

#[test]
fn matching_frames_align_with_validated_timing() {
    let frame = fan_out(25);
    let output = coefficients(0.75);
    let candidate = GnmShadowCandidate {
        stamp: stamp(25),
        fit_complete_micros: Some(INFERENCE_MICROS + 1),
        decoder_complete_micros: Some(INFERENCE_MICROS + 2),
        output: &output,
    };
    let outcome =
        align_shadow_pair(&frame, coefficients(0.25), Some(candidate), PUBLISH_MICROS).expect("alignment works");
    let GnmShadowOutcome::Aligned(aligned) = outcome else {
        panic!("matching stamps must align");
    };
    assert_eq!(
        aligned.direct.timing.backend(),
        FaceTrackingBackend::DirectMediaPipe
    );
    assert_eq!(aligned.gnm.timing.backend(), FaceTrackingBackend::GnmTemporal);
    assert_eq!(
        aligned.gnm.timing.fit_complete_micros(),
        Some(INFERENCE_MICROS + 1)
    );
    assert_eq!(float(aligned.gnm.output.get(ArkitBlendshape::JawOpen)), 0.75);
    // The fitted output is published no earlier than the direct one.
    assert!(aligned.gnm.timing.publish_micros() >= aligned.direct.timing.publish_micros());
}

#[test]
fn misordered_timing_is_refused() {
    let frame = fan_out(27);
    let output = coefficients(0.75);
    let candidate = GnmShadowCandidate {
        stamp: stamp(27),
        fit_complete_micros: Some(INFERENCE_MICROS - 1),
        decoder_complete_micros: None,
        output: &output,
    };
    assert_eq!(
        align_shadow_pair(&frame, coefficients(0.25), Some(candidate), PUBLISH_MICROS).err(),
        Some(AbBackendError::Chronology {
            earlier_micros: INFERENCE_MICROS,
            later_micros: INFERENCE_MICROS - 1,
        })
    );
    let source = SourceFrameStamp::new(1, 10, None).unwrap();
    assert_eq!(
        BackendOutputTiming::new(source, FaceTrackingBackend::GnmTemporal, Some(12), Some(15), 14).err(),
        Some(AbBackendError::Chronology {
            earlier_micros: 15,
            later_micros: 14,
        })
    );
}

#[test]
fn toggling_shadow_off_leaves_the_direct_canonical_output_identical() {
    let frame = fan_out(26);
    let direct = coefficients(0.4);
    let publish = PUBLISH_MICROS;
    let output = coefficients(0.9);

    // Shadow ON with a matching GNM candidate...
    let with_gnm = align_shadow_pair(
        &frame,
        direct,
        Some(GnmShadowCandidate {
            stamp: stamp(26),
            fit_complete_micros: Some(INFERENCE_MICROS + 1),
            decoder_complete_micros: None,
            output: &output,
        }),
        publish,
    )
    .expect("alignment works");
    // ...and OFF (no candidate) must yield byte-equal Direct output.
    let without_gnm = align_shadow_pair(&frame, direct, None, publish).expect("alignment works");

    let direct_on = match with_gnm {
        GnmShadowOutcome::Aligned(pair) => pair.direct.output,
        other => panic!("expected Aligned, got {other:?}"),
    };
    let direct_off = match without_gnm {
        GnmShadowOutcome::DirectOnly { direct, .. } => direct,
        other => panic!("expected DirectOnly, got {other:?}"),
    };
    assert_eq!(direct_on, direct_off);
}

#[test]
fn non_finite_gnm_features_fail_closed_without_stopping_the_pipeline() {
    let mut snapshot = neutral_snapshot();
    snapshot.irises.right = Some(IrisSideAuxFeature {
        side: AnatomicalSide::Right,
        vertical_delta: Some(bits(f32::NAN)),
        horizontal_delta: Some(bits(0.0)),
    });
    let decoded = decode_shadow_features(&snapshot).expect("non-finite evidence must fail closed");
    let up_right = ArkitBlendshape::EyeLookUpRight.index();
    assert_eq!(decoded.supports[up_right], ProjectedSupport::Unsupported);
    assert_eq!(float(decoded.coefficients.as_array()[up_right]), 0.0);
}

fn neutral_snapshot() -> GnmFacialFeatures {
    let aperture = |side| EyeApertureFeature {
        side,
        current_aperture: bits(0.4),
        neutral_aperture: bits(0.4),
        normalized_delta: bits(0.0),
    };
    let brow = |side| BrowSideAuxFeatures {
        side,
        inner_rise: None,
        brow_lower: None,
        outer_rise: None,
    };
    GnmFacialFeatures {
        eyes: EyeAuxFeatures {
            right: aperture(AnatomicalSide::Right),
            left: aperture(AnatomicalSide::Left),
        },
        irises: IrisAuxFeatures {
            right: None,
            left: None,
        },
        mouth_jaw: MouthAuxFeatures::default(),
        cheeks: CheekAuxFeatures::default(),
        brows: BrowAuxFeatures {
            right: brow(AnatomicalSide::Right),
            left: brow(AnatomicalSide::Left),
        },
    }
}
