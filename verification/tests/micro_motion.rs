use vtuber_tracking::avatar::TrackingState;
use vtuber_tracking::binary::Binary32;
use vtuber_tracking::clock::{Duration, MonoTimeNs};
use vtuber_tracking::micro_motion::{
    blended_idle_target, breath_phase, bucket_noise, idle_target, is_tracked_state, smoothstep, IdleTarget,
    MicroMotionBlender, MicroMotionProfile, MicroMotionProfileError,
};

fn bits(value: f32) -> Binary32 {
    Binary32::from_bits(value.to_bits())
}

fn float(value: Binary32) -> f32 {
    f32::from_bits(value.to_bits())
}

fn close(actual: f32, expected: f32, epsilon: f32) -> bool {
    let gap = (actual - expected).abs();
    gap <= epsilon || gap <= actual.abs().max(expected.abs()) * f32::EPSILON
}

fn profile() -> MicroMotionProfile {
    MicroMotionProfile::default()
}

fn seconds(value: f32) -> Duration {
    Duration::from_nanos(std::time::Duration::from_secs_f32(value).as_nanos() as u64)
}

fn idle(profile: &MicroMotionProfile, seed: u64, elapsed: Duration, scale: f32) -> IdleTarget {
    let sine = bits(float(breath_phase(profile, elapsed)).sin());
    idle_target(profile, seed, elapsed, bits(scale), sine)
}

fn blended(profile: &MicroMotionProfile, seed: u64, elapsed: Duration, scale: f32, blend: f32) -> IdleTarget {
    let sine = bits(float(breath_phase(profile, elapsed)).sin());
    blended_idle_target(profile, seed, elapsed, bits(scale), sine, bits(blend))
}

fn rest() -> IdleTarget {
    IdleTarget::default()
}

#[test]
fn default_profile_matches_analysis_seeds_and_validates() {
    let p = profile();
    assert_eq!(p.validate(), Ok(()));
    assert_eq!(p.transition, Duration::from_millis(4_000));
    assert_eq!(p.period, Duration::from_millis(2_500));
    assert!(close(float(p.x_amplitude_ratio), 0.015, f32::EPSILON));
    assert!(close(float(p.z_amplitude_ratio), 0.030, f32::EPSILON));
    assert!(close(float(p.yaw_amplitude_radians), 4.0f32.to_radians(), 1e-6));
    assert!(close(float(p.pitch_amplitude_radians), 4.0f32.to_radians(), 1e-6));
    assert_eq!(float(p.roll_amplitude_radians), 0.0);
    assert_eq!(p.breath_period, Duration::from_millis(4_000));
    assert!(close(float(p.breath_amplitude_ratio), 0.010, f32::EPSILON));
}

#[test]
fn default_amplitudes_are_exact() {
    let p = profile();
    assert_eq!(p.x_amplitude_ratio, bits(0.015));
    assert_eq!(p.z_amplitude_ratio, bits(0.030));
    assert_eq!(p.yaw_amplitude_radians, bits(4.0f32.to_radians()));
    assert_eq!(p.pitch_amplitude_radians, bits(4.0f32.to_radians()));
    assert_eq!(p.breath_amplitude_ratio, bits(0.010));
}

#[test]
fn profile_rejects_invalid_fields() {
    let mut bad = profile();
    bad.transition = Duration::zero();
    assert_eq!(bad.validate(), Err(MicroMotionProfileError::ZeroDuration));

    let mut bad = profile();
    bad.period = Duration::zero();
    assert_eq!(bad.validate(), Err(MicroMotionProfileError::ZeroDuration));

    let mut bad = profile();
    bad.breath_period = Duration::zero();
    assert_eq!(bad.validate(), Err(MicroMotionProfileError::ZeroDuration));

    let mut bad = profile();
    bad.x_amplitude_ratio = bits(-0.01);
    assert_eq!(
        bad.validate(),
        Err(MicroMotionProfileError::NegativeAmplitude {
            name: "x_amplitude_ratio",
            value: bits(-0.01),
        })
    );

    let mut bad = profile();
    bad.breath_amplitude_ratio = bits(-0.01);
    assert_eq!(
        bad.validate(),
        Err(MicroMotionProfileError::NegativeAmplitude {
            name: "breath_amplitude_ratio",
            value: bits(-0.01),
        })
    );

    let mut bad = profile();
    bad.yaw_amplitude_radians = bits(std::f32::consts::PI + 0.1);
    assert!(matches!(
        bad.validate(),
        Err(MicroMotionProfileError::RotationAmplitudeOutOfRange { .. })
    ));
}

#[test]
fn breathing_starts_at_zero_and_oscillates_with_the_period() {
    let p = profile();
    let amplitude = float(p.breath_amplitude_ratio) * 0.7;

    // No discontinuity at loss onset.
    assert!(close(
        float(idle(&p, 42, seconds(0.0), 0.7).translation_y),
        0.0,
        1e-6
    ));

    // A quarter period reaches the inhale peak, half a period crosses
    // back through zero, and three quarters reaches the exhale trough.
    let quarter = float(idle(&p, 42, seconds(1.0), 0.7).translation_y);
    assert!(close(quarter, amplitude, 1e-5));
    let half = float(idle(&p, 42, seconds(2.0), 0.7).translation_y);
    assert!(close(half, 0.0, 1e-5));
    let three_quarters = float(idle(&p, 42, seconds(3.0), 0.7).translation_y);
    assert!(close(three_quarters, -amplitude, 1e-5));
}

#[test]
fn breathing_stays_bounded_across_long_episodes() {
    let p = profile();
    let bound = float(p.breath_amplitude_ratio) * 0.7;
    let mut t = 0.0_f32;
    while t <= 600.0 {
        let target = idle(&p, 7, seconds(t), 0.7);
        assert!(target.translation_y.is_finite(), "t={t}");
        assert!(
            float(target.translation_y).abs() <= bound + 1e-6,
            "breathing exceeded the bound at t={t}: {}",
            float(target.translation_y)
        );
        t += 0.25;
    }
}

#[test]
fn blended_composition_prevents_any_snap_after_loss() {
    let p = profile();
    // At the instant of loss, with blend zero, nothing moves.
    assert_eq!(blended(&p, 42, seconds(0.0), 0.7, 0.0), rest());
    // Early into the transition the composed motion is still tiny.
    let early = blended(&p, 42, seconds(0.05), 0.7, 0.0125);
    assert!(float(early.translation_x).abs() < 0.001);
}

#[test]
fn trajectory_is_bounded_immediately_and_stays_finite() {
    let p = profile();
    let scale = 0.7;
    for t in [0.0f32, 0.01, 0.1, 1.0] {
        let target = idle(&p, 42, seconds(t), scale);
        assert!(target.is_finite());
        assert!(float(target.translation_x).abs() <= float(p.x_amplitude_ratio) * scale + 1e-6);
    }
}

#[test]
fn bounds_hold_across_long_episodes() {
    let p = profile();
    let scale = 0.7;
    let max_x = float(p.x_amplitude_ratio) * scale;
    let max_z = float(p.z_amplitude_ratio) * scale;
    let mut t = 0.0;
    while t <= 60.0 {
        let target = idle(&p, 7, seconds(t), scale);
        assert!(float(target.translation_x).abs() <= max_x + 1e-5, "t={t}");
        assert!(float(target.translation_z).abs() <= max_z + 1e-5, "t={t}");
        assert!(
            float(target.yaw_radians).abs() <= float(p.yaw_amplitude_radians) + 1e-6,
            "t={t}"
        );
        assert!(
            float(target.pitch_radians).abs() <= float(p.pitch_amplitude_radians) + 1e-6,
            "t={t}"
        );
        t += 0.05;
    }
}

#[test]
fn roll_is_always_zero_under_default_profile() {
    let p = profile();
    let mut t = 0.0;
    while t <= 12.0 {
        // The target carries no roll component at all.
        let target = idle(&p, 3, seconds(t), 1.0);
        assert!(target.is_finite());
        t += 0.25;
    }
}

#[test]
fn same_seed_and_time_are_deterministic() {
    let p = profile();
    let a = idle(&p, 99, seconds(3.7), 0.8);
    let b = idle(&p, 99, seconds(3.7), 0.8);
    assert_eq!(a, b);

    // Different seeds diverge.
    let c = idle(&p, 100, seconds(3.7), 0.8);
    assert_ne!(a, c);
}

#[test]
fn fps_sampling_produces_near_identical_trajectories() {
    let p = profile();
    let sample = |fps: f32| -> Vec<IdleTarget> {
        let step = 1.0 / fps;
        let mut out = Vec::new();
        let mut t = 0.0;
        while t <= 8.0 {
            out.push(idle(&p, 11, seconds(t), 0.7));
            t += step;
        }
        out
    };
    let at_30 = sample(30.0);
    let at_60 = sample(60.0);
    let at_120 = sample(120.0);

    for index in [10usize, 45, 90, 150] {
        let reference = &at_30[index];
        let near = |other: &IdleTarget| {
            (float(other.translation_x) - float(reference.translation_x)).abs() < 1e-3
                && (float(other.translation_z) - float(reference.translation_z)).abs() < 1e-3
                && (float(other.yaw_radians) - float(reference.yaw_radians)).abs() < 1e-3
        };
        // Time-aligned samples: index i at 30 FPS equals instant i/30 s,
        // which is index 2i at 60 FPS and 4i at 120 FPS.
        assert!(near(&at_60[index * 2]));
        assert!(near(&at_120[index * 4]));
    }
}

#[test]
fn invalid_inputs_fail_closed() {
    let p = profile();
    let mut invalid = profile();
    invalid.transition = Duration::zero();
    assert_eq!(idle(&invalid, 1, seconds(1.0), 1.0), rest());
    assert_eq!(idle(&p, 1, seconds(1.0), 0.0), rest());
    assert_eq!(idle(&p, 1, seconds(1.0), f32::NAN), rest());
    assert_eq!(idle(&p, 1, seconds(1.0), -1.0), rest());
}

#[test]
fn blender_ramps_up_after_loss_without_snapping() {
    let p = profile();
    let mut blender = MicroMotionBlender::new(&p).unwrap();

    let b0 = blender.update(false, MonoTimeNs(0));
    assert_eq!(float(b0), 0.0);
    assert!(blender.has_episode());

    // Half-way through the 4 s transition the blend is ~0.5 (smoothstep).
    let mid = float(blender.update(false, MonoTimeNs(2_000_000_000)));
    assert!((mid - 0.5).abs() < 1e-3, "{mid}");

    // Beyond the transition it saturates at one.
    let full = float(blender.update(false, MonoTimeNs(6_000_000_000)));
    assert!((full - 1.0).abs() < 1e-3, "{full}");
}

#[test]
fn blender_decays_on_reacquire_instead_of_snapping_back() {
    let p = profile();
    let mut blender = MicroMotionBlender::new(&p).unwrap();
    let _ = blender.update(false, MonoTimeNs(0));
    let _ = blender.update(false, MonoTimeNs(6_000_000_000));
    assert!((float(blender.blend()) - 1.0).abs() < 1e-3);

    // Reacquire: decay is gradual over the transition, not instant.
    let first = float(blender.update(true, MonoTimeNs(6_100_000_000)));
    assert!(first <= 1.0 && first > 0.9, "{first}");
    let mut now = 6_100_000_000_u64;
    loop {
        now += 250_000_000;
        let blend = blender.update(true, MonoTimeNs(now));
        if float(blend) == 0.0 {
            break;
        }
        assert!(now < 6_100_000_000 + 5_000_000_000, "decay took too long");
    }
    // Live state is recorded once fully reacquired.
    assert_eq!(float(blender.update(true, MonoTimeNs(now + 1))), 0.0);
}

#[test]
fn blender_reset_clears_stale_episode_state() {
    let p = profile();
    let mut blender = MicroMotionBlender::new(&p).unwrap();
    let _ = blender.update(false, MonoTimeNs(0));
    let _ = blender.update(false, MonoTimeNs(5_000_000_000));
    assert!(blender.has_episode());
    assert_eq!(
        blender.elapsed_since_idle_start(MonoTimeNs(5_000_000_007)),
        Duration::from_nanos(5_000_000_007)
    );

    blender.reset();
    assert!(!blender.has_episode());
    assert_eq!(float(blender.blend()), 0.0);
    assert_eq!(
        blender.elapsed_since_idle_start(MonoTimeNs(5_000_000_007)),
        Duration::zero()
    );

    // A brand-new loss episode restarts the ramp from zero.
    assert_eq!(float(blender.update(false, MonoTimeNs(9_999_999_999))), 0.0);
}

#[test]
fn blender_rejects_zero_transition() {
    let mut p = profile();
    p.transition = Duration::zero();
    assert!(matches!(
        MicroMotionBlender::new(&p),
        Err(MicroMotionProfileError::ZeroDuration)
    ));
}

#[test]
fn composition_scales_the_idle_target_by_blend() {
    let p = profile();
    let base = idle(&p, 5, seconds(5.0), 1.0);
    let composed = blended(&p, 5, seconds(5.0), 1.0, 0.5);
    assert!(close(
        float(composed.translation_x),
        float(base.translation_x) * 0.5,
        1e-6
    ));
    assert!(close(
        float(composed.translation_y),
        float(base.translation_y) * 0.5,
        1e-6
    ));
    assert!(close(
        float(composed.translation_z),
        float(base.translation_z) * 0.5,
        1e-6
    ));
    assert!(close(
        float(composed.yaw_radians),
        float(base.yaw_radians) * 0.5,
        1e-6
    ));
    assert!(close(
        float(composed.pitch_radians),
        float(base.pitch_radians) * 0.5,
        1e-6
    ));

    assert_eq!(blended(&p, 5, seconds(5.0), 1.0, 0.0), rest());
    assert_eq!(blended(&p, 5, seconds(5.0), 1.0, f32::NAN), rest());
}

#[test]
fn only_tracked_states_count_as_live() {
    assert!(is_tracked_state(TrackingState::Tracking));
    assert!(is_tracked_state(TrackingState::Degraded));
    for state in [
        TrackingState::Starting,
        TrackingState::Searching,
        TrackingState::Acquiring,
        TrackingState::LostHold,
        TrackingState::ReturningNeutral,
    ] {
        assert!(!is_tracked_state(state), "{state:?}");
    }
}

#[test]
fn bucket_noise_is_bounded_and_deterministic() {
    for bucket in 0..64_u64 {
        for axis in 0..4_u64 {
            let value = float(bucket_noise(123, bucket, axis));
            assert!((-1.0..=1.0).contains(&value));
            assert!(close(value, float(bucket_noise(123, bucket, axis)), f32::EPSILON));
        }
    }
    assert_ne!(bucket_noise(123, 1, 0), bucket_noise(123, 2, 0));
    assert_ne!(bucket_noise(123, 1, 0), bucket_noise(123, 1, 1));
}

fn mix(mut x: u64) -> u64 {
    x ^= x >> 30;
    x = x.wrapping_mul(0xbf58_476d_1ce4_e5b9);
    x ^= x >> 27;
    x = x.wrapping_mul(0x94d0_49bb_1331_11eb);
    x ^ (x >> 31)
}

#[test]
fn bucket_noise_matches_the_native_formula() {
    for bucket in [0u64, 1, 17, u64::MAX] {
        for axis in 0..4u64 {
            let hashed = mix(7 ^ mix(bucket.wrapping_mul(0x9e37_79b9).wrapping_add(axis)));
            let unit = (hashed >> 11) as f32 / (1u64 << 53) as f32;
            assert_eq!(bucket_noise(7, bucket, axis), bits(unit * 2.0 - 1.0));
        }
    }
}

#[test]
fn micro_motion_smoothstep_treats_non_finite_as_zero() {
    assert_eq!(smoothstep(bits(f32::NAN)), Binary32::zero());
    assert_eq!(smoothstep(bits(f32::INFINITY)), Binary32::zero());
    assert_eq!(smoothstep(bits(0.25)), bits(0.15625));
    assert_eq!(smoothstep(bits(2.0)), bits(1.0));
}

#[test]
fn transition_ends_at_the_full_blend_and_reacquire_starts_there() {
    let profile = profile();
    let mut blender = MicroMotionBlender::new(&profile).unwrap();
    assert_eq!(float(blender.update(false, MonoTimeNs(0))), 0.0);
    let over = blender.update(false, MonoTimeNs(4_000_000_000));
    assert_eq!(float(over), 1.0);
    assert_eq!(blender.blend(), over);
    assert_eq!(float(blender.update(true, MonoTimeNs(4_100_000_000))), 1.0);
    let fading = float(blender.update(true, MonoTimeNs(6_100_000_000)));
    assert_eq!(fading, 0.5);
}

#[test]
fn blended_motion_stays_within_the_scaled_amplitudes() {
    let profile = profile();
    let scale = 1.7_f32;
    for step in 0..500_u64 {
        let elapsed = Duration::from_millis(step * 37);
        let target = idle(&profile, 99, elapsed, scale);
        let amplitude = float(profile.x_amplitude_ratio) * scale;
        assert!(float(target.translation_x).abs() <= amplitude);
        assert!(float(target.yaw_radians).abs() <= float(profile.yaw_amplitude_radians));
        let faded = blended(&profile, 99, elapsed, scale, 0.25);
        assert!(float(faded.translation_x).abs() <= amplitude * 0.25);
        assert!(float(faded.translation_y).abs() <= float(profile.breath_amplitude_ratio) * scale * 0.25);
    }
}
