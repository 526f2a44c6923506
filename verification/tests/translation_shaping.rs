use vtuber_tracking::avatar::{HeadTranslationSignal, HeadTranslationState};
use vtuber_tracking::binary::Binary32;
use vtuber_tracking::clock::{Duration, MonoTimeNs};
use vtuber_tracking::translation_shaping::{
    shape_translation, soft_cap_scalar, FilterConfigError, ShapingProfileError, TranslationFilter,
    TranslationShapingProfile,
};

fn bits(value: f32) -> Binary32 {
    Binary32::from_bits(value.to_bits())
}

fn float(value: Binary32) -> f32 {
    f32::from_bits(value.to_bits())
}

fn close(actual: f32, expected: f32, epsilon: f32) -> bool {
    let gap = (actual - expected).abs();
    gap <= epsilon || gap <= actual.abs().max(expected.abs()) * f32::EPSILON
}

fn seen(x: f32, y: f32, z: f32) -> HeadTranslationSignal {
    HeadTranslationSignal::observed(bits(x), bits(y), bits(z))
}

fn cap(value: f32, threshold: f32) -> f32 {
    float(soft_cap_scalar(bits(value), bits(threshold)))
}

fn step(filter: &mut TranslationFilter, signal: HeadTranslationSignal, at: MonoTimeNs) -> HeadTranslationSignal {
    let decay = match filter.decay_exponent(signal, at) {
        Some(exponent) => bits(float(exponent).exp()),
        None => bits(0.0),
    };
    filter.update(signal, at, decay)
}

#[test]
fn soft_cap_passes_small_values_through() {
    let t = 0.1;
    assert_eq!(cap(0.0, t), 0.0);
    assert!(close(cap(0.05, t), 0.05, 1e-6));
    assert!(close(cap(-0.05, t), -0.05, 1e-6));
    assert!(close(cap(t, t), t, 1e-6));
}

#[test]
fn soft_cap_compression_region_matches_formula() {
    let t = 0.1;
    assert!(close(cap(0.15, t), 1.25 * t, 1e-6));
    assert!(close(cap(-0.15, t), -1.25 * t, 1e-6));
    assert!(close(cap(0.2, t), 1.5 * t, 1e-6));
    assert!(close(cap(-0.2, t), -1.5 * t, 1e-6));
}

#[test]
fn soft_cap_saturates_at_one_and_a_half_thresholds() {
    let t = 0.1;
    for magnitude in [0.25, 0.3, 1.0, 10.0] {
        assert!(close(cap(magnitude, t), 1.5 * t, 1e-6));
        assert!(close(cap(-magnitude, t), -1.5 * t, 1e-6));
    }
}

#[test]
fn soft_cap_is_monotone_and_continuous_across_the_domain() {
    let t = 0.1;
    let step = 0.004;
    let mut previous = cap(0.0, t);
    let mut value = step;
    while value <= 0.5 {
        let current = cap(value, t);
        assert!(
            current >= previous,
            "soft cap must be monotone: {previous} -> {current} at {value}"
        );
        previous = current;
        value += step;
    }
}

#[test]
fn soft_cap_of_tiny_threshold_can_fall() {
    // Three units in the last place: the halved excess rounds up past the cap.
    let threshold = Binary32::from_bits(3);
    let edge = soft_cap_scalar(Binary32::from_bits(6), threshold);
    let beyond = soft_cap_scalar(Binary32::from_bits(7), threshold);
    assert_eq!((edge.to_bits(), beyond.to_bits()), (5, 4));
}

#[test]
fn soft_cap_rises_where_the_half_does_not_overshoot() {
    for threshold in [1u32, 2, 4, 5, 8, 12_000_003] {
        let threshold = Binary32::from_bits(threshold);
        let edge = (2.0 * float(threshold)).to_bits();
        for base in [threshold.to_bits(), edge.saturating_sub(4)] {
            for value in base..base + 8 {
                let low = float(soft_cap_scalar(Binary32::from_bits(value), threshold));
                let high = float(soft_cap_scalar(Binary32::from_bits(value + 1), threshold));
                assert!(low <= high, "{threshold:?}: {value}");
            }
        }
    }
}

#[test]
fn soft_cap_keeps_the_sign() {
    for value in [1u32, 2, 9, 0x3f80_0000, 0x7f7f_ffff] {
        for threshold in [1u32, 3, 0x3dcc_cccd, 0x7f7f_ffff] {
            let threshold = Binary32::from_bits(threshold);
            assert!(float(soft_cap_scalar(Binary32::from_bits(value), threshold)) > 0.0);
            let negative = Binary32::from_bits(0x8000_0000 | value);
            assert!(float(soft_cap_scalar(negative, threshold)) < 0.0);
        }
    }
}

#[test]
fn soft_cap_is_odd_and_ignores_unusable_thresholds() {
    for value in [0.02f32, 0.13, 0.18, 0.4] {
        assert_eq!(cap(-value, 0.1), -cap(value, 0.1));
    }
    assert_eq!(cap(3.0, 0.0), 3.0);
    assert_eq!(cap(3.0, f32::NAN), 3.0);
    assert_eq!(cap(f32::INFINITY, 0.1), f32::INFINITY);
}

#[test]
fn shape_translation_applies_per_axis_thresholds_with_body_scale() {
    let profile = TranslationShapingProfile::default();
    let shaped = shape_translation(seen(0.2, 0.2, 0.2), &profile, bits(1.0));
    assert!(close(float(shaped.x_meters), 0.175, 1e-6));
    assert!(close(float(shaped.z_meters), 0.175, 1e-6));
    assert!(close(float(shaped.y_meters), 0.1125, 1e-6));
    assert_eq!(shaped.state, HeadTranslationState::Observed);
}

#[test]
fn shape_translation_preserves_unavailable_and_degraded_states() {
    let profile = TranslationShapingProfile::default();
    assert_eq!(
        shape_translation(HeadTranslationSignal::unavailable(), &profile, bits(1.0)),
        HeadTranslationSignal::unavailable()
    );
    let degraded = HeadTranslationSignal::degraded(bits(0.2), bits(0.2), bits(0.2));
    let shaped = shape_translation(degraded, &profile, bits(1.0));
    assert_eq!(shaped.state, HeadTranslationState::Degraded);
    assert!(close(float(shaped.x_meters), 0.175, 1e-6));
}

#[test]
fn shape_translation_leaves_signal_untouched_when_body_scale_is_invalid() {
    let profile = TranslationShapingProfile::default();
    let signal = seen(1.0, 1.0, 1.0);
    assert_eq!(shape_translation(signal, &profile, bits(0.0)), signal);
    assert_eq!(shape_translation(signal, &profile, bits(f32::NAN)), signal);
}

#[test]
fn profile_rejects_non_positive_thresholds() {
    assert_eq!(TranslationShapingProfile::default().validate(), Ok(()));
    let bad = TranslationShapingProfile {
        y_threshold_ratio: bits(0.0),
        ..TranslationShapingProfile::default()
    };
    assert_eq!(
        bad.validate(),
        Err(ShapingProfileError::InvalidThreshold {
            name: "y_threshold_ratio",
            value: bits(0.0),
        })
    );
}

#[test]
fn filter_output_is_sampling_rate_independent_for_same_motion() {
    let tau = Duration::from_millis(250);
    let run = |fps: u64| -> Vec<f32> {
        let mut filter = TranslationFilter::new(tau).unwrap();
        let period_ns = 1_000_000_000u64 / fps;
        let mut output = Vec::new();
        for sample in 0..=360u64 {
            output.push(float(
                step(&mut filter, seen(0.06, 0.0, 0.0), MonoTimeNs(sample * period_ns)).x_meters,
            ));
        }
        output
    };
    let at_30 = run(30);
    let at_60 = run(60);
    let at_120 = run(120);
    let cases: [(usize, usize, usize); 3] = [(30, 60, 120), (60, 120, 240), (90, 180, 360)];
    for (i30, i60, i120) in cases {
        let reference = at_30[i30];
        assert!((at_60[i60] - reference).abs() < 1e-4);
        assert!((at_120[i120] - reference).abs() < 1e-4);
    }
}

#[test]
fn filter_has_no_dead_zone_and_moves_toward_small_inputs() {
    let mut filter = TranslationFilter::new(Duration::from_millis(100)).unwrap();
    let first = step(&mut filter, seen(0.001, -0.001, 0.0005), MonoTimeNs(0));
    assert!(close(float(first.x_meters), 0.001, 1e-12));
    assert!(close(float(first.y_meters), -0.001, 1e-12));
    let second = step(&mut filter, seen(-0.001, 0.0, 0.0), MonoTimeNs(16_666_667));
    assert!(float(second.x_meters) < float(first.x_meters));
    assert!(float(second.y_meters) > float(first.y_meters));
}

#[test]
fn filter_does_not_hold_stale_translation_across_unavailable() {
    let mut filter = TranslationFilter::new(Duration::from_millis(100)).unwrap();
    let _ = step(&mut filter, seen(0.05, 0.0, 0.0), MonoTimeNs(0));
    assert!(filter.has_state());

    let cleared = step(
        &mut filter,
        HeadTranslationSignal::unavailable(),
        MonoTimeNs(33_333_334),
    );
    assert_eq!(cleared, HeadTranslationSignal::unavailable());
    assert!(!filter.has_state());

    let fresh = step(&mut filter, seen(-0.02, 0.0, 0.0), MonoTimeNs(66_666_667));
    assert!(close(float(fresh.x_meters), -0.02, 1e-9));
}

#[test]
fn filter_restarts_after_long_gap_instead_of_blending_across_it() {
    let mut filter = TranslationFilter::new(Duration::from_millis(100)).unwrap();
    let _ = step(&mut filter, seen(0.06, 0.06, 0.06), MonoTimeNs(0));
    let after_gap = step(&mut filter, seen(-0.06, -0.06, -0.06), MonoTimeNs(2_000_000_000));
    assert!(close(float(after_gap.x_meters), -0.06, 1e-9));
}

#[test]
fn filter_resets_on_non_finite_input_and_survives_out_of_order_stamps() {
    let mut filter = TranslationFilter::new(Duration::from_millis(100)).unwrap();
    let _ = step(&mut filter, seen(0.03, 0.0, 0.0), MonoTimeNs(50_000_000));
    let out_of_order = step(&mut filter, seen(0.06, 0.0, 0.0), MonoTimeNs(16_666_667));
    assert!(out_of_order.is_available());
    assert!(out_of_order.x_meters.is_finite());
}

#[test]
fn filter_blend_follows_the_exponential() {
    let mut filter = TranslationFilter::new(Duration::from_millis(100)).unwrap();
    let _ = step(&mut filter, seen(0.0, 1.0, 0.0), MonoTimeNs(0));
    let exponent = filter
        .decay_exponent(seen(1.0, 1.0, 1.0), MonoTimeNs(50_000_000))
        .unwrap();
    assert_eq!(exponent, bits(-(0.05f32 / 0.1f32)));
    let output = filter.update(seen(1.0, 0.0, 1.0), MonoTimeNs(50_000_000), bits(0.75));
    assert_eq!(output, seen(0.25, 0.75, 0.25));
    filter.reset();
    assert!(!filter.has_state());
}

#[test]
fn filter_rejects_invalid_tau() {
    assert_eq!(
        TranslationFilter::new(Duration::zero()).err(),
        Some(FilterConfigError::ZeroTau)
    );
}

#[test]
fn soft_cap_never_enlarges() {
    for step in 0..4_000_i32 {
        let value = (step - 2_000) as f32 * 0.000_173;
        assert!(cap(value, 0.1).abs() <= value.abs(), "{value}");
    }
    for value in 1..64_u32 {
        let tiny = f32::from_bits(value);
        assert!(cap(tiny, f32::from_bits(7)) <= tiny);
    }
}
