use nalgebra::{Quaternion, UnitQuaternion};
use vtuber_tracking::arkit::{Arkit52Coefficients, ArkitBlendshape, ARKIT52_CHANNEL_COUNT};
use vtuber_tracking::avatar::{
    AvatarControlFrame, ExpressionCoefficients, GazeSignal, GazeTrackingState, HeadPose, HeadTranslationSignal,
    TrackingState,
};
use vtuber_tracking::binary::Binary32;
use vtuber_tracking::clock::{Duration, FrameSeq, MonoTimeNs};
use vtuber_tracking::loss_blend::{LossBlendConfigError, LossBlendProfile};
use vtuber_tracking::loss_recovery::{
    choose_shortest_arc, HeadBlend, LossRecovery, LossRecoveryConfigError, RecoveryRequest, RotationParts, StepInputs,
};

fn bits(value: f32) -> Binary32 {
    Binary32::from_bits(value.to_bits())
}

fn float(value: Binary32) -> f32 {
    f32::from_bits(value.to_bits())
}

fn close(actual: f32, expected: f32, epsilon: f32) -> bool {
    let gap = (actual - expected).abs();
    gap <= epsilon || gap <= actual.abs().max(expected.abs()) * f32::EPSILON
}

fn test_params() -> LossBlendProfile {
    LossBlendProfile {
        hold: Duration::from_millis(100),
        return_duration: Duration::from_millis(200),
        acquire: Duration::from_millis(100),
    }
}

fn frame(seq: u64, yaw: f32, pitch: f32, roll: f32, expression_value: f32) -> AvatarControlFrame {
    AvatarControlFrame {
        source_seq: FrameSeq(seq),
        captured_at: MonoTimeNs(seq * 33_333_333),
        produced_at: MonoTimeNs(seq * 33_333_333),
        confidence: bits(0.9),
        state: TrackingState::Tracking,
        head: HeadPose {
            yaw_rad: bits(yaw),
            pitch_rad: bits(pitch),
            roll_rad: bits(roll),
        },
        head_translation: HeadTranslationSignal::unavailable(),
        gaze: GazeSignal::unavailable(),
        expressions: ExpressionCoefficients {
            aa: bits(expression_value),
            ..ExpressionCoefficients::default()
        },
        detailed_face: None,
    }
}

fn detailed_frame(seq: u64, jaw_open: f32) -> AvatarControlFrame {
    let mut values = [Binary32::zero(); ARKIT52_CHANNEL_COUNT];
    values[ArkitBlendshape::JawOpen.index()] = bits(jaw_open);
    values[ArkitBlendshape::MouthSmileLeft.index()] = bits(jaw_open * 0.5);
    let mut frame = frame(seq, 0.2, -0.1, 0.05, 0.4);
    frame.detailed_face = Some(Arkit52Coefficients::try_from_array(values).unwrap());
    frame
}

fn rotation(pose: HeadPose) -> UnitQuaternion<f32> {
    UnitQuaternion::from_euler_angles(float(pose.pitch_rad), float(pose.yaw_rad), float(pose.roll_rad))
}

fn parts(q: &UnitQuaternion<f32>) -> RotationParts {
    RotationParts {
        w: bits(q.w),
        i: bits(q.i),
        j: bits(q.j),
        k: bits(q.k),
    }
}

fn pose(q: &UnitQuaternion<f32>) -> HeadPose {
    let (pitch, yaw, roll) = q.euler_angles();
    HeadPose {
        yaw_rad: bits(yaw),
        pitch_rad: bits(pitch),
        roll_rad: bits(roll),
    }
}

fn still() -> HeadBlend {
    HeadBlend {
        gap: Binary32::zero(),
        head: HeadPose {
            yaw_rad: Binary32::zero(),
            pitch_rad: Binary32::zero(),
            roll_rad: Binary32::zero(),
        },
        head_translation: HeadTranslationSignal::unavailable(),
    }
}

fn update(
    machine: &mut LossRecovery,
    state: TrackingState,
    dt: Duration,
    observed: Option<AvatarControlFrame>,
    produced_at: MonoTimeNs,
) -> Option<AvatarControlFrame> {
    let head = match (machine.request(state, dt, observed), observed) {
        (RecoveryRequest::Blend { from, factor }, Some(target)) => {
            let start = rotation(from.head);
            let end = rotation(target.head);
            let chosen = choose_shortest_arc(parts(&start), parts(&end));
            let end = UnitQuaternion::from_quaternion(Quaternion::new(
                float(chosen.w),
                float(chosen.i),
                float(chosen.j),
                float(chosen.k),
            ));
            HeadBlend {
                gap: bits(rotation(from.head).angle_to(&rotation(target.head))),
                head: pose(&start.slerp(&end, float(factor))),
                head_translation: HeadTranslationSignal::unavailable(),
            }
        }
        _ => still(),
    };
    machine.update(&StepInputs {
        state,
        dt,
        observed,
        produced_at,
        head,
    })
}

#[test]
fn loss_recovery_default_params_are_valid() {
    assert!(LossBlendProfile::default().validate().is_ok());
}

#[test]
fn loss_recovery_rejects_zero_duration() {
    let err = LossBlendProfile {
        hold: Duration::zero(),
        ..LossBlendProfile::default()
    }
    .validate()
    .unwrap_err();
    assert_eq!(err, LossBlendConfigError::ZeroDuration { field: "hold" });
}

#[test]
fn loss_recovery_rejects_out_of_range_duration() {
    let err = LossBlendProfile {
        return_duration: Duration::from_secs(30),
        ..LossBlendProfile::default()
    }
    .validate()
    .unwrap_err();
    assert!(matches!(
        err,
        LossBlendConfigError::DurationOutOfRange {
            field: "return_duration",
            ..
        }
    ));
}

#[test]
fn loss_recovery_refuses_invalid_params() {
    let mut params = test_params();
    params.acquire = Duration::zero();
    assert_eq!(
        LossRecovery::new(params).err(),
        Some(LossRecoveryConfigError(LossBlendConfigError::ZeroDuration { field: "acquire" }))
    );
    let machine = LossRecovery::new(test_params()).unwrap();
    assert_eq!(*machine.params(), test_params());
    assert!(!machine.is_returning() && !machine.is_recovering());
}

#[test]
fn loss_recovery_holds_pose_and_confidence_during_hold() {
    let mut lr = LossRecovery::new(test_params()).unwrap();
    let seen = frame(1, 0.5, 0.2, -0.3, 0.8);

    let _ = update(
        &mut lr,
        TrackingState::Tracking,
        Duration::from_millis(16),
        Some(seen),
        MonoTimeNs(33_333_333),
    );
    let held = update(
        &mut lr,
        TrackingState::LostHold,
        Duration::from_millis(50),
        None,
        MonoTimeNs(50_000_000),
    )
    .expect("should emit a held frame");

    assert_eq!(held.source_seq, seen.source_seq);
    assert!(close(float(held.head.yaw_rad), float(seen.head.yaw_rad), 1e-5));
    assert!(close(float(held.expressions.aa), float(seen.expressions.aa), 1e-5));
    assert!(close(float(held.confidence), float(seen.confidence), 1e-5));
    assert!(lr.is_returning());

    // A second frame inside the hold keeps the values bit for bit.
    let again = update(
        &mut lr,
        TrackingState::LostHold,
        Duration::from_millis(40),
        None,
        MonoTimeNs(90_000_000),
    )
    .unwrap();
    assert_eq!(again.confidence, seen.confidence);
    assert_eq!(again.expressions.aa, seen.expressions.aa);
}

#[test]
fn loss_recovery_eases_authority_to_neutral_over_return_duration() {
    let mut lr = LossRecovery::new(test_params()).unwrap();
    let seen = frame(1, 0.5, 0.25, -0.4, 0.8);

    let _ = update(
        &mut lr,
        TrackingState::Tracking,
        Duration::from_millis(16),
        Some(seen),
        MonoTimeNs(33_333_333),
    );
    let _ = update(
        &mut lr,
        TrackingState::LostHold,
        Duration::from_millis(100),
        None,
        MonoTimeNs(100_000_000),
    );

    let full = float(seen.head.yaw_rad) * float(seen.confidence);
    let mut previous = full;
    for step in 1..=5u64 {
        let eased = update(
            &mut lr,
            TrackingState::LostHold,
            Duration::from_millis(60),
            None,
            MonoTimeNs(100_000_000 + step * 60_000_000),
        )
        .expect("returning frame should be emitted");
        let weight = float(eased.head.yaw_rad) * float(eased.confidence);
        assert!(
            weight <= previous + 1.0e-6 && weight <= full + 1.0e-5,
            "the eased authority must decrease monotonically: step {step}: {weight}"
        );
        previous = weight;
    }

    let final_frame = update(
        &mut lr,
        TrackingState::ReturningNeutral,
        Duration::from_secs(2),
        None,
        MonoTimeNs(1_500_000_000),
    )
    .expect("should emit the fully eased frame");
    assert!(close(float(final_frame.confidence), 0.0, 1e-6));
    assert!(close(float(final_frame.expressions.aa), 0.0, 1e-6));
    assert_eq!(final_frame.state, TrackingState::ReturningNeutral);
}

#[test]
fn loss_recovery_reacquire_limits_jump() {
    let mut lr = LossRecovery::new(test_params()).unwrap();
    let first = frame(1, 0.0, 0.0, 0.0, 0.0);

    let _ = update(
        &mut lr,
        TrackingState::Tracking,
        Duration::from_millis(16),
        Some(first),
        MonoTimeNs(16_000_000),
    );
    let _ = update(
        &mut lr,
        TrackingState::LostHold,
        Duration::from_millis(100),
        None,
        MonoTimeNs(116_000_000),
    );
    let before_reacquire = update(
        &mut lr,
        TrackingState::ReturningNeutral,
        Duration::from_millis(100),
        None,
        MonoTimeNs(216_000_000),
    )
    .unwrap();

    let target = frame(2, -1.2, 0.6, -0.4, 0.9);
    let during_recovery = update(
        &mut lr,
        TrackingState::Tracking,
        Duration::from_millis(50),
        Some(target),
        MonoTimeNs(266_000_000),
    )
    .unwrap();

    assert!(
        (float(during_recovery.head.yaw_rad) - float(target.head.yaw_rad)).abs() > 0.1,
        "recovery should not jump to target yaw immediately"
    );

    let before_to_target = rotation(before_reacquire.head).angle_to(&rotation(target.head));
    let during_to_target = rotation(during_recovery.head).angle_to(&rotation(target.head));
    assert!(
        during_to_target < before_to_target,
        "recovery should move closer to target: before_to_target={before_to_target}, during_to_target={during_to_target}"
    );
    // Synthetic frames keep the source of the frame they started from.
    assert_eq!(during_recovery.source_seq, before_reacquire.source_seq);

    let after_recovery = update(
        &mut lr,
        TrackingState::Tracking,
        Duration::from_millis(200),
        Some(target),
        MonoTimeNs(466_000_000),
    )
    .unwrap();
    assert!(close(
        float(after_recovery.head.yaw_rad),
        float(target.head.yaw_rad),
        1e-4
    ));
    assert!(!lr.is_recovering());
}

#[test]
fn loss_recovery_holds_detailed_face_during_loss_hold() {
    let mut lr = LossRecovery::new(test_params()).unwrap();
    let seen = detailed_frame(11, 0.8);

    let _ = update(
        &mut lr,
        TrackingState::Tracking,
        Duration::from_millis(16),
        Some(seen),
        MonoTimeNs(16_000_000),
    );
    let held = update(
        &mut lr,
        TrackingState::LostHold,
        Duration::from_millis(50),
        None,
        MonoTimeNs(66_000_000),
    )
    .expect("the hold should preserve the last detailed face state");
    let held_coefficients = held.detailed_face.expect("held frame keeps coefficients");

    assert!((float(held_coefficients.get(ArkitBlendshape::JawOpen)) - 0.8).abs() < 1.0e-6);
    assert_eq!(float(held_coefficients.get(ArkitBlendshape::TongueOut)), 0.0);
}

#[test]
fn loss_recovery_reacquire_from_searching_does_not_snap() {
    let mut lr = LossRecovery::new(test_params()).unwrap();
    let _ = update(
        &mut lr,
        TrackingState::Tracking,
        Duration::from_millis(16),
        Some(frame(1, 0.0, 0.0, 0.0, 0.0)),
        MonoTimeNs(33_333_333),
    );
    let _ = update(
        &mut lr,
        TrackingState::LostHold,
        Duration::from_millis(100),
        None,
        MonoTimeNs(133_333_333),
    );
    let neutral = update(
        &mut lr,
        TrackingState::Searching,
        Duration::from_millis(400),
        None,
        MonoTimeNs(533_333_333),
    )
    .unwrap();
    assert!(close(float(neutral.confidence), 0.0, 1e-6));

    let reacquired = frame(2, 0.8, 0.0, 0.0, 0.0);
    let reconnected = update(
        &mut lr,
        TrackingState::Acquiring,
        Duration::from_millis(16),
        Some(reacquired),
        MonoTimeNs(550_000_000),
    )
    .expect("reacquire should emit a frame");

    assert!(
        float(reconnected.head.yaw_rad) < float(reacquired.head.yaw_rad),
        "reacquire from neutral must blend, got {}",
        float(reconnected.head.yaw_rad)
    );
    assert!(lr.is_recovering());
}

#[test]
fn loss_recovery_finished_return_stays_neutral() {
    let mut lr = LossRecovery::new(test_params()).unwrap();
    let _ = update(
        &mut lr,
        TrackingState::Tracking,
        Duration::from_millis(16),
        Some(detailed_frame(1, 0.8)),
        MonoTimeNs(1),
    );
    for step in 0..6u64 {
        let _ = update(
            &mut lr,
            TrackingState::Searching,
            Duration::from_millis(100),
            None,
            MonoTimeNs(2 + step),
        );
    }
    assert!(!lr.is_returning());
    let neutral = update(
        &mut lr,
        TrackingState::LostHold,
        Duration::from_millis(1),
        None,
        MonoTimeNs(99),
    )
    .unwrap();
    assert_eq!(neutral.confidence, Binary32::zero());
    assert_eq!(neutral.expressions, ExpressionCoefficients::default());
    assert_eq!(neutral.detailed_face, None);
    assert_eq!(neutral.gaze.state, GazeTrackingState::Degraded);
    assert_eq!(neutral.source_seq, FrameSeq(1));
    assert!(!lr.is_returning());
}

#[test]
fn loss_recovery_small_gap_passes_the_observed_frame_through() {
    let mut lr = LossRecovery::new(test_params()).unwrap();
    let first = frame(1, 0.1, 0.0, 0.0, 0.2);
    let _ = update(&mut lr, TrackingState::Tracking, Duration::from_millis(16), Some(first), MonoTimeNs(1));
    for step in 0..6u64 {
        let _ = update(&mut lr, TrackingState::Searching, Duration::from_millis(100), None, MonoTimeNs(2 + step));
    }
    // The neutral frame and this one differ by less than every threshold.
    let near = frame(2, 0.01, 0.0, 0.0, 0.1);
    let output = update(&mut lr, TrackingState::Tracking, Duration::from_millis(16), Some(near), MonoTimeNs(50));
    assert_eq!(output, Some(near));
    assert!(!lr.is_recovering());
}

#[test]
fn shortest_arc_flips_the_opposite_representative() {
    let start = parts(&UnitQuaternion::from_euler_angles(0.1, 0.2, 0.3));
    let near = parts(&UnitQuaternion::from_euler_angles(0.1, 0.3, 0.3));
    assert_eq!(choose_shortest_arc(start, near), near);
    let far = RotationParts {
        w: near.w.neg(),
        i: near.i.neg(),
        j: near.j.neg(),
        k: near.k.neg(),
    };
    assert_eq!(choose_shortest_arc(start, far), near);
}

#[test]
fn return_only_fades_and_ends_in_exact_zeros() {
    let mut recovery = LossRecovery::new(test_params()).unwrap();
    let start = detailed_frame(1, 0.8);
    let step = Duration::from_millis(20);
    let _ = update(&mut recovery, TrackingState::Tracking, step, Some(start), MonoTimeNs(1));
    let mut last = float(start.confidence);
    let mut ended = None;
    for tick in 0..40_u64 {
        let at = MonoTimeNs(2 + tick);
        let frame = update(&mut recovery, TrackingState::LostHold, step, None, at).unwrap();
        assert!(float(frame.confidence) <= last);
        assert!(float(frame.expressions.aa) <= 0.4);
        last = float(frame.confidence);
        if last == 0.0 && ended.is_none() {
            ended = Some(frame);
        }
    }
    let zeros = ended.unwrap();
    assert_eq!(float(zeros.expressions.aa), 0.0);
    let face = zeros.detailed_face.unwrap();
    assert_eq!(float(face.get(ArkitBlendshape::JawOpen)), 0.0);
}

#[test]
fn authority_never_grows_while_lost() {
    let profile = LossBlendProfile::default();
    for millis in [7_u64, 16, 33, 250] {
        let mut recovery = LossRecovery::new(profile).unwrap();
        let step = Duration::from_millis(millis);
        let start = frame(1, 0.5, 0.25, -0.4, 0.8);
        let _ = update(&mut recovery, TrackingState::Tracking, step, Some(start), MonoTimeNs(1));
        let mut last = float(start.confidence);
        for tick in 0..(6_000 / millis) {
            let at = MonoTimeNs(2 + tick);
            let lost = update(&mut recovery, TrackingState::LostHold, step, None, at).unwrap();
            assert!(float(lost.confidence) <= last);
            last = float(lost.confidence);
        }
        assert_eq!(last, 0.0);
    }
}

#[test]
fn finished_return_has_a_level_head() {
    let mut recovery = LossRecovery::new(test_params()).unwrap();
    let step = Duration::from_millis(400);
    let start = frame(1, 0.5, 0.25, -0.4, 0.8);
    let _ = update(&mut recovery, TrackingState::Tracking, step, Some(start), MonoTimeNs(1));
    for tick in 0..5_u64 {
        let at = MonoTimeNs(2 + tick);
        let lost = update(&mut recovery, TrackingState::ReturningNeutral, step, None, at).unwrap();
        if tick > 1 {
            assert_eq!(float(lost.head.yaw_rad), 0.0);
            assert_eq!(float(lost.head.pitch_rad), 0.0);
            assert_eq!(float(lost.head.roll_rad), 0.0);
            assert_eq!(float(lost.confidence), 0.0);
        }
    }
}

#[test]
fn authority_can_grow_by_a_rounding() {
    let profile = LossBlendProfile {
        return_duration: Duration::from_secs(1),
        ..test_params()
    };
    let mut recovery = LossRecovery::new(profile).unwrap();
    let mut seen = frame(1, 0.0, 0.0, 0.0, 0.5);
    seen.confidence = bits(1.0);
    let lost = TrackingState::LostHold;
    let _ = update(&mut recovery, TrackingState::Tracking, Duration::from_millis(16), Some(seen), MonoTimeNs(1));
    let start = update(&mut recovery, lost, Duration::from_millis(16), None, MonoTimeNs(2)).unwrap();
    assert_eq!(float(start.confidence), 1.0);
    let late = Duration::from_nanos(100_000_000 + 999_827_328);
    let before = update(&mut recovery, lost, late, None, MonoTimeNs(3)).unwrap();
    let after = update(&mut recovery, lost, Duration::from_nanos(64), None, MonoTimeNs(4)).unwrap();
    assert_eq!(float(before.confidence), f32::EPSILON / 2.0);
    assert_eq!(float(after.confidence), f32::EPSILON);
}
