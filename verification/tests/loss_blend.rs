use vtuber_tracking::binary::Binary32;
use vtuber_tracking::clock::{Duration, MonoTimeNs};
use vtuber_tracking::loss_blend::{
    acquire_factor, loss_return_factor, smoothstep, LossBlend, LossBlendConfigError, LossBlendProfile,
};

fn profile() -> LossBlendProfile {
    LossBlendProfile::default()
}

fn float(value: Binary32) -> f32 {
    f32::from_bits(value.to_bits())
}

fn half(span: Duration) -> Duration {
    Duration::from_nanos((span.as_nanos() / 2) as u64)
}

#[test]
fn loss_return_factor_holds_then_eases_to_zero() {
    let profile = profile();
    assert_eq!(float(loss_return_factor(Duration::zero(), &profile)), 1.0);
    assert_eq!(
        float(loss_return_factor(profile.hold, &profile)),
        1.0,
        "the hold keeps full authority"
    );
    let middle = profile.hold.saturating_add(&half(profile.return_duration));
    let mid = float(loss_return_factor(middle, &profile));
    assert!((mid - 0.5).abs() < 1.0e-3, "{mid}");
    let end = profile.hold.saturating_add(&profile.return_duration);
    assert_eq!(float(loss_return_factor(end, &profile)), 0.0);
    let later = end.saturating_add(&profile.return_duration);
    assert_eq!(float(loss_return_factor(later, &profile)), 0.0);
}

#[test]
fn acquire_factor_is_smoothstep_progress() {
    let profile = profile();
    assert_eq!(float(acquire_factor(Duration::zero(), &profile)), 0.0);
    let mid = float(acquire_factor(half(profile.acquire), &profile));
    assert!((mid - 0.5).abs() < 1.0e-3, "{mid}");
    assert_eq!(float(acquire_factor(profile.acquire, &profile)), 1.0);
}

#[test]
fn profile_validate_rejects_zero_and_out_of_range() {
    let mut bad = profile();
    bad.hold = Duration::zero();
    assert_eq!(
        bad.validate(),
        Err(LossBlendConfigError::ZeroDuration { field: "hold" })
    );

    let mut bad = profile();
    bad.return_duration = Duration::from_secs(30);
    assert!(matches!(
        bad.validate(),
        Err(LossBlendConfigError::DurationOutOfRange {
            field: "return_duration",
            ..
        })
    ));

    let mut bad = profile();
    bad.acquire = Duration::from_millis(5);
    assert!(matches!(
        bad.validate(),
        Err(LossBlendConfigError::DurationOutOfRange {
            field: "acquire",
            ..
        })
    ));

    assert_eq!(profile().validate(), Ok(()));
}

#[test]
fn channel_blend_holds_and_eases_like_the_loss_timeline() {
    let mut blend = LossBlend::new();
    let profile = profile();
    let start = MonoTimeNs(1_000_000);
    blend.advance(start, true, &profile);
    let settle = MonoTimeNs(start.0 + profile.acquire.as_nanos() as u64);
    blend.advance(settle, true, &profile);
    assert_eq!(float(blend.weight()), 1.0, "full acquire ramps to full authority");

    let lost = MonoTimeNs(settle.0 + 100_000_000);
    blend.advance(lost, false, &profile);
    assert_eq!(float(blend.weight()), 1.0, "hold keeps the weight at loss");

    blend.advance(
        MonoTimeNs(lost.0 + profile.hold.as_nanos() as u64),
        false,
        &profile,
    );
    assert!(
        (float(blend.weight()) - 1.0).abs() < 1.0e-3,
        "the return has not started yet: {}",
        float(blend.weight())
    );

    let span = profile.hold.saturating_add(&profile.return_duration);
    blend.advance(MonoTimeNs(lost.0 + span.as_nanos() as u64), false, &profile);
    assert_eq!(float(blend.weight()), 0.0, "the return reaches zero");
}

#[test]
fn channel_blend_ramps_up_over_acquire_from_the_current_weight() {
    let mut blend = LossBlend::new();
    let profile = profile();
    let start = MonoTimeNs(1_000_000);
    blend.advance(start, true, &profile);
    let settle = MonoTimeNs(start.0 + profile.acquire.as_nanos() as u64);
    blend.advance(settle, true, &profile);
    assert_eq!(float(blend.weight()), 1.0);

    let lost = MonoTimeNs(settle.0 + 100_000_000);
    blend.advance(lost, false, &profile);
    let span = profile.hold.saturating_add(&half(profile.return_duration));
    let mid_return = MonoTimeNs(lost.0 + span.as_nanos() as u64);
    blend.advance(mid_return, false, &profile);
    let mid = float(blend.weight());
    assert!(mid > 0.0 && mid < 1.0, "mid-return weight: {mid}");

    // Reacquiring continues the ramp from the retained weight.
    blend.advance(MonoTimeNs(mid_return.0 + 1_000_000), true, &profile);
    let resumed = float(blend.weight());
    assert!(
        (resumed - mid).abs() < 0.1,
        "the ramp starts near the retained weight: {resumed} vs {mid}"
    );

    blend.advance(
        MonoTimeNs(mid_return.0 + 1_000_000 + profile.acquire.as_nanos() as u64),
        true,
        &profile,
    );
    assert_eq!(float(blend.weight()), 1.0);
}

#[test]
fn smoothstep_eases_between_its_ends() {
    for (value, eased) in [(-1.0f32, 0.0f32), (0.0, 0.0), (0.25, 0.15625), (0.5, 0.5), (0.75, 0.84375), (1.0, 1.0), (7.0, 1.0)] {
        let actual = smoothstep(Binary32::from_bits(value.to_bits()));
        assert_eq!(float(actual), eased, "{value}");
    }
}

#[test]
fn smoothstep_never_exceeds_one() {
    for step in 0..=0x2_0000_u32 {
        let value = Binary32::from_bits(0x3f80_0000 - step * 64);
        let eased = float(smoothstep(value));
        assert!((0.0..=1.0).contains(&eased), "{eased}");
    }
    assert_eq!(float(smoothstep(Binary32::from_bits(0x3f7f_ffff))), 1.0);
    assert_eq!(float(smoothstep(Binary32::from_bits(0x3f00_0000))), 0.5);
}

#[test]
fn reacquiring_mid_return_keeps_the_weight_and_ends_at_one() {
    let profile = profile();
    let mut blend = LossBlend::new();
    blend.advance(MonoTimeNs(1), true, &profile);
    blend.advance(MonoTimeNs(1_000_000_001), true, &profile);
    assert_eq!(float(blend.weight()), 1.0);
    blend.advance(MonoTimeNs(1_000_000_002), false, &profile);
    for tick in 1..40_u64 {
        blend.advance(MonoTimeNs(1_000_000_002 + tick * 70_000_000), false, &profile);
        assert!((0.0..=1.0).contains(&float(blend.weight())));
    }
    let decayed = blend.weight();
    assert!(float(decayed) > 0.0 && float(decayed) < 1.0);
    let back = MonoTimeNs(4_000_000_000);
    blend.advance(MonoTimeNs(3_730_000_002), false, &profile);
    let decayed = blend.weight();
    blend.advance(back, true, &profile);
    assert_eq!(blend.weight(), decayed, "reacquiring does not jump");
    blend.advance(MonoTimeNs(5_000_000_000), true, &profile);
    assert_eq!(float(blend.weight()), 1.0);
}

#[test]
fn loss_factor_falls_from_frame_to_frame() {
    let profile = profile();
    for step in [4_u64, 8, 16, 33, 100] {
        let mut last = 1.0;
        for tick in 0..(6_000 / step) {
            let factor = float(loss_return_factor(Duration::from_millis(tick * step), &profile));
            assert!(factor <= last, "{step} ms, tick {tick}: {last} -> {factor}");
            last = factor;
        }
        assert_eq!(last, 0.0);
    }
}

#[test]
fn loss_factor_can_rise_by_a_rounding() {
    let profile = profile();
    let at = |nanos: u64| {
        let elapsed = profile.hold.saturating_add(&Duration::from_nanos(nanos));
        float(loss_return_factor(elapsed, &profile))
    };
    let before = at(4_999_136_672);
    let after = at(4_999_136_673);
    assert_eq!(before, f32::EPSILON / 2.0);
    assert_eq!(after, f32::EPSILON);
}
