use vtuber_tracking::ab_backend::{AbBackendError, SourceFrameStamp};
use vtuber_tracking::binary::Binary32;
use vtuber_tracking::clock::{FrameSeq, MonoTimeNs};
use vtuber_tracking::gnm_fitter_contract::{AuxiliaryExpressionError, AuxiliaryExpressionObservation};
use vtuber_tracking::gnm_model::{DenseObservationStatus, GnmDenseObservation};
use vtuber_tracking::landmark_basis::LANDMARK_COUNT;
use vtuber_tracking::same_frame_fanout::{
    fan_out_same_frame, landmark_points, verify_identity, FaceLandmark, FaceTrackingQuality, FaceTrackingSample,
    GnmDenseError, SameFrameFanOutError,
};

fn bits(value: f32) -> Binary32 {
    Binary32::from_bits(value.to_bits())
}

fn sample(seq: u64) -> FaceTrackingSample {
    let mut identity = vec![Binary32::zero(); 16];
    for diagonal in 0..4 {
        identity[diagonal * 5] = bits(1.0);
    }
    FaceTrackingSample {
        source_seq: FrameSeq(seq),
        captured_at: MonoTimeNs(1_000_000_000),
        inference_started_at: MonoTimeNs(1_000_500_000),
        inference_finished_at: MonoTimeNs(1_001_000_000),
        camera_to_face: identity,
        face_center: [bits(0.5), bits(0.5)],
        landmarks: vec![
            FaceLandmark {
                x: bits(0.5),
                y: bits(0.5),
                z: bits(0.0),
                visibility: Some(bits(1.0)),
                presence: Some(bits(1.0)),
            };
            LANDMARK_COUNT
        ],
        blendshapes: vec![Binary32::zero(); 52],
        quality: FaceTrackingQuality {
            landmark_presence_median: Some(bits(1.0)),
            matrix_orthogonality_error: bits(0.0),
            matrix_determinant: bits(1.0),
        },
    }
}

fn dense(source_seq: u64, captured_at_micros: u64) -> GnmDenseObservation {
    GnmDenseObservation {
        source_seq,
        captured_at_micros,
        status: DenseObservationStatus::Valid,
    }
}

fn auxiliary(source_seq: u64, captured_at_micros: u64) -> AuxiliaryExpressionObservation {
    AuxiliaryExpressionObservation {
        source_seq,
        captured_at_micros,
    }
}

#[test]
fn one_inference_feeds_all_three_consumers_with_identical_source_identity() {
    let input = sample(11);
    let fan_out =
        fan_out_same_frame(&input, Ok(dense(11, 1_000_000)), Ok(auxiliary(11, 1_000_000))).expect("fan-out works");

    assert_eq!(fan_out.stamp().source_seq(), 11);
    assert_eq!(fan_out.direct().source_seq, FrameSeq(11));
    assert_eq!(fan_out.dense().source_seq, 11);
    assert_eq!(fan_out.auxiliary().source_seq, 11);
    assert_eq!(fan_out.stamp().capture_micros(), 1_000_000_000 / 1_000);
    assert_eq!(fan_out.dense().captured_at_micros, 1_000_000_000 / 1_000);
    assert_eq!(fan_out.auxiliary().captured_at_micros, 1_000_000_000 / 1_000);
    // The shared inference completion time is preserved on the stamp.
    assert_eq!(
        fan_out.stamp().inference_complete_micros(),
        Some(1_001_000_000 / 1_000)
    );
    assert_eq!(fan_out.verify(), Ok(()));
}

#[test]
fn direct_member_is_byte_identical_to_the_inference_result() {
    let input = sample(12);
    let fan_out =
        fan_out_same_frame(&input, Ok(dense(12, 1_000_000)), Ok(auxiliary(12, 1_000_000))).expect("fan-out works");
    assert_eq!(*fan_out.direct(), input);
}

#[test]
fn wrong_landmark_count_is_a_typed_error() {
    let mut input = sample(13);
    input.landmarks = Vec::new();
    assert!(matches!(
        fan_out_same_frame(&input, Ok(dense(13, 1_000_000)), Ok(auxiliary(13, 1_000_000))),
        Err(SameFrameFanOutError::Dense(_))
    ));
}

#[test]
fn verify_rejects_mixed_frame_identity_with_typed_errors() {
    let stamp = SourceFrameStamp::new(14, 1_000_000, Some(1_001_000)).expect("valid stamp");
    match verify_identity(stamp, &dense(99, 1_000_000), &auxiliary(98, 4_000_000)) {
        Err(SameFrameFanOutError::SourceSequenceMismatch {
            expected,
            dense,
            auxiliary,
        }) => {
            assert_eq!(expected, 14);
            assert_eq!(dense, 99);
            assert_eq!(auxiliary, 98);
        }
        other => panic!("expected sequence mismatch, got {other:?}"),
    }
    assert_eq!(
        verify_identity(stamp, &dense(14, 1_000_000), &auxiliary(14, 4_000_000)),
        Err(SameFrameFanOutError::CaptureTimestampMismatch {
            expected: 1_000_000,
            dense: 1_000_000,
            auxiliary: 4_000_000,
        })
    );
    // A broken producer never reaches the consumers.
    assert!(fan_out_same_frame(&sample(14), Ok(dense(99, 1_000_000)), Ok(auxiliary(14, 1_000_000))).is_err());
}

#[test]
fn invalid_auxiliary_config_is_reported_as_auxiliary_failure() {
    let input = sample(16);
    let result = fan_out_same_frame(
        &input,
        Ok(dense(16, 1_000_000)),
        Err(AuxiliaryExpressionError::InvalidConfig("relative weight")),
    );
    assert!(matches!(
        result,
        Err(SameFrameFanOutError::Auxiliary(AuxiliaryExpressionError::InvalidConfig(_)))
    ));
    let result = fan_out_same_frame(&input, Ok(dense(16, 1_000_000)), Ok(auxiliary(16, 1_000_000)));
    assert!(result.is_ok(), "empty config stays valid");
}

#[test]
fn inference_cannot_finish_before_the_capture() {
    let mut input = sample(17);
    input.inference_finished_at = MonoTimeNs(999_999_000);
    assert_eq!(
        fan_out_same_frame(&input, Ok(dense(17, 1_000_000)), Ok(auxiliary(17, 1_000_000))).err(),
        Some(SameFrameFanOutError::Stamp(AbBackendError::Chronology {
            earlier_micros: 1_000_000,
            later_micros: 999_999,
        }))
    );
    assert_eq!(
        fan_out_same_frame(
            &sample(17),
            Err(GnmDenseError::Rejected("coverage")),
            Ok(auxiliary(17, 1_000_000))
        )
        .err(),
        Some(SameFrameFanOutError::Dense(GnmDenseError::Rejected("coverage")))
    );
}

#[test]
fn landmark_points_keep_the_image_plane() {
    let mut input = sample(18);
    input.landmarks[3].x = bits(0.25);
    input.landmarks[3].y = bits(0.75);
    let points = landmark_points(&input);
    assert_eq!(points.len(), LANDMARK_COUNT);
    assert_eq!(points[3], [bits(0.25), bits(0.75)]);
}

#[test]
fn fan_out_errors_say_what_differs() {
    let error = SameFrameFanOutError::SourceSequenceMismatch {
        expected: 14,
        dense: 99,
        auxiliary: 98,
    };
    let message = error.message("");
    assert!(message.contains("14") && message.contains("99") && message.contains("98"), "{message}");
    assert_eq!(
        SameFrameFanOutError::Dense(GnmDenseError::Rejected("x")).message("no coverage"),
        "dense observation failed: no coverage"
    );
}
