use vtuber_tracking::avatar::{HeadTranslationSignal, HeadTranslationState};
use vtuber_tracking::binary::Binary32;
use vtuber_tracking::translation::{signal_from_alignment, signal_from_face_transform, PoseAlignment};

fn bits(value: f32) -> Binary32 {
    Binary32::from_bits(value.to_bits())
}

fn float(value: Binary32) -> f32 {
    f32::from_bits(value.to_bits())
}

fn assert_close(actual: Binary32, expected: f32) {
    let actual = float(actual);
    assert!(
        (actual - expected).abs() < 1.0e-5,
        "expected {expected}, got {actual}"
    );
}

/// A flat plus-shaped pattern with depth.
fn synthetic_cloud(center: [f32; 3], scale: f32) -> Vec<[f32; 3]> {
    let offsets = [
        [0.0, 0.0, 0.0],
        [1.0, 0.0, 0.1],
        [-1.0, 0.0, 0.1],
        [0.0, 1.0, -0.05],
        [0.0, -1.0, -0.05],
        [0.5, 0.5, 0.0],
        [-0.5, -0.5, 0.0f32],
    ];
    offsets
        .iter()
        .map(|offset| {
            [
                center[0] + offset[0] * scale,
                center[1] + offset[1] * scale,
                center[2] + offset[2] * scale,
            ]
        })
        .collect()
}

fn centroid(cloud: &[[f32; 3]]) -> [f32; 3] {
    let mut sum = [0.0f32; 3];
    for point in cloud {
        for axis in 0..3 {
            sum[axis] += point[axis] / cloud.len() as f32;
        }
    }
    sum
}

fn projected_radius(cloud: &[[f32; 3]]) -> f32 {
    let center = centroid(cloud);
    let mut squares = 0.0f32;
    for point in cloud {
        squares += (point[0] - center[0]).powi(2) + (point[1] - center[1]).powi(2);
    }
    (squares / cloud.len() as f32).sqrt()
}

/// The alignment of two clouds that differ by a displacement and a scale.
fn unrotated_alignment(neutral: &[[f32; 3]], current: &[[f32; 3]]) -> PoseAlignment {
    let from = centroid(neutral);
    let to = centroid(current);
    PoseAlignment {
        translation: [bits(to[0] - from[0]), bits(to[1] - from[1]), bits(to[2] - from[2])],
        neutral_projected_radius: bits(projected_radius(neutral)),
        current_projected_radius: bits(projected_radius(current)),
    }
}

#[test]
fn aligned_clouds_produce_zero_translation() {
    let neutral = synthetic_cloud([0.5, 0.4, 0.0], 0.02);
    let alignment = unrotated_alignment(&neutral, &synthetic_cloud([0.5, 0.4, 0.0], 0.02));
    let signal = signal_from_alignment(&alignment, bits(1.0));

    assert_eq!(signal.state, HeadTranslationState::Observed);
    assert_close(signal.x_meters, 0.0);
    assert_close(signal.y_meters, 0.0);
    assert_close(signal.z_meters, 0.0);
}

#[test]
fn left_right_up_down_displacements_follow_semantic_signs() {
    let neutral = synthetic_cloud([0.5, 0.4, 0.0], 0.02);

    // Move right in the image: canonical x increases -> positive X meters.
    let right = unrotated_alignment(&neutral, &synthetic_cloud([0.55, 0.4, 0.0], 0.02));
    let signal = signal_from_alignment(&right, bits(1.0));
    assert!(float(signal.x_meters) > 0.01, "image-right motion is positive X");
    assert!(float(signal.y_meters).abs() < 1.0e-4);
    assert!(float(signal.z_meters).abs() < 1.0e-4);

    // Move left: negative X.
    let left = unrotated_alignment(&neutral, &synthetic_cloud([0.45, 0.4, 0.0], 0.02));
    assert!(float(signal_from_alignment(&left, bits(1.0)).x_meters) < -0.01);

    // Image y decreases upward, so moving up yields positive Y meters.
    let up = unrotated_alignment(&neutral, &synthetic_cloud([0.5, 0.35, 0.0], 0.02));
    assert!(float(signal_from_alignment(&up, bits(1.0)).y_meters) > 0.01);

    // Moving down yields negative Y meters.
    let down = unrotated_alignment(&neutral, &synthetic_cloud([0.5, 0.45, 0.0], 0.02));
    assert!(float(signal_from_alignment(&down, bits(1.0)).y_meters) < -0.01);
}

#[test]
fn near_far_motion_produces_signed_z_scale_evidence() {
    let neutral = synthetic_cloud([0.5, 0.4, 0.0], 0.02);

    // Approach: the face appears larger -> negative Z (toward camera).
    let near = unrotated_alignment(&neutral, &synthetic_cloud([0.5, 0.4, 0.0], 0.024));
    let near_signal = signal_from_alignment(&near, bits(1.0));
    assert!(float(near_signal.z_meters) < -0.01, "approach must be negative Z");

    // Retreat: smaller apparent size -> positive Z (away from camera).
    let far = unrotated_alignment(&neutral, &synthetic_cloud([0.5, 0.4, 0.0], 0.016));
    let far_signal = signal_from_alignment(&far, bits(1.0));
    assert!(float(far_signal.z_meters) > 0.01, "retreat must be positive Z");

    // Mirror flips only X; near/far Z evidence is mirror-invariant.
    assert_eq!(near_signal.mirrored().z_meters, near_signal.z_meters);
    assert_eq!(near_signal.mirrored().y_meters, near_signal.y_meters);
}

#[test]
fn degenerate_neutral_scale_is_unavailable_and_nan_never_published() {
    let neutral = synthetic_cloud([0.5, 0.4, 0.0], 0.02);
    let alignment = unrotated_alignment(&neutral, &neutral);
    let degenerate = PoseAlignment {
        neutral_projected_radius: bits(0.0),
        ..alignment
    };
    assert_eq!(
        signal_from_alignment(&degenerate, bits(1.0)),
        HeadTranslationSignal::unavailable()
    );

    let nan_alignment = PoseAlignment {
        translation: [bits(f32::NAN), bits(0.0), bits(0.0)],
        ..alignment
    };
    assert_eq!(
        signal_from_alignment(&nan_alignment, bits(1.0)),
        HeadTranslationSignal::unavailable()
    );
}

#[test]
fn non_finite_visibility_is_unavailable() {
    let neutral = synthetic_cloud([0.5, 0.4, 0.0], 0.02);
    let alignment = unrotated_alignment(&neutral, &neutral);
    assert_eq!(
        signal_from_alignment(&alignment, bits(f32::NAN)),
        HeadTranslationSignal::unavailable()
    );
}

#[test]
fn low_visibility_degrades_state_without_changing_values() {
    let neutral = synthetic_cloud([0.5, 0.4, 0.0], 0.02);
    let alignment = unrotated_alignment(&neutral, &synthetic_cloud([0.55, 0.4, 0.0], 0.02));

    let seen = signal_from_alignment(&alignment, bits(1.0));
    let degraded = signal_from_alignment(&alignment, bits(0.2));
    assert_eq!(seen.state, HeadTranslationState::Observed);
    assert_eq!(degraded.state, HeadTranslationState::Degraded);
    assert_close(degraded.x_meters, float(seen.x_meters));
    assert_close(degraded.y_meters, float(seen.y_meters));
    assert_close(degraded.z_meters, float(seen.z_meters));
}

#[test]
fn face_transform_signal_converts_units_deterministically() {
    let signal = signal_from_face_transform([bits(12.0), bits(-8.0), bits(25.0)], bits(1.0));
    assert_eq!(signal.state, HeadTranslationState::Observed);
    assert_close(signal.x_meters, 0.12);
    assert_close(signal.y_meters, -0.08);
    assert_close(signal.z_meters, 0.25);

    // Mirror flips only X.
    let mirrored = signal.mirrored();
    assert_close(mirrored.x_meters, -0.12);
    assert_close(mirrored.y_meters, -0.08);
    assert_close(mirrored.z_meters, 0.25);

    assert_eq!(
        signal_from_face_transform([bits(f32::INFINITY), bits(0.0), bits(0.0)], bits(1.0)),
        HeadTranslationSignal::unavailable()
    );
}

#[test]
fn alignment_formula_is_exact() {
    let alignment = PoseAlignment {
        translation: [bits(0.05), bits(-0.03), bits(0.0)],
        neutral_projected_radius: bits(0.02),
        current_projected_radius: bits(0.025),
    };
    let signal = signal_from_alignment(&alignment, bits(0.9));
    let meters_per_unit = 0.075f32 / 0.02f32;
    assert_close(signal.x_meters, 0.05 * meters_per_unit);
    assert_close(signal.y_meters, 0.03 * meters_per_unit);
    assert_close(signal.z_meters, 0.6 * (0.02 / 0.025 - 1.0));
}
