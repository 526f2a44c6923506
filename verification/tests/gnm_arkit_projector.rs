use vtuber_tracking::arkit::ArkitBlendshape;
use vtuber_tracking::binary::Binary32;
use vtuber_tracking::gnm_arkit_projector::{
    bounded_ratio, decode_gnm_arkit52, mean_of_present, project_brow_cheek_nose_channels, project_eye_gaze_channels,
    project_jaw_core_mouth_channels, project_lip_corner_channels, project_lip_lower_upper_channels,
    project_lip_mouth_corner_channels, project_lip_roll_shrug_press_channels, AnatomicalSide, BrowAuxFeatures,
    BrowSideAuxFeatures, CheekAuxFeatures, EyeApertureFeature, EyeAuxFeatures, GnmFacialFeatures, IrisAuxFeatures,
    IrisSideAuxFeature, MouthAuxFeatures, ProjectedChannel, ProjectedSupport, BLINK_FULL_CLOSURE_FRACTION_BITS,
};

fn bits(value: f32) -> Binary32 {
    Binary32::from_bits(value.to_bits())
}

fn float(value: Binary32) -> f32 {
    f32::from_bits(value.to_bits())
}

fn some(value: f32) -> Option<Binary32> {
    Some(bits(value))
}

const NEUTRAL_APERTURE: f32 = 0.4;

fn aperture(side: AnatomicalSide, current: f32) -> EyeApertureFeature {
    EyeApertureFeature {
        side,
        current_aperture: bits(current),
        neutral_aperture: bits(NEUTRAL_APERTURE),
        normalized_delta: bits((current - NEUTRAL_APERTURE) / 0.3),
    }
}

fn iris(
    side: AnatomicalSide,
    vertical: impl FnOnce() -> Option<f32>,
    horizontal: impl FnOnce() -> Option<f32>,
) -> IrisSideAuxFeature {
    IrisSideAuxFeature {
        side,
        vertical_delta: vertical().map(bits),
        horizontal_delta: horizontal().map(bits),
    }
}

fn snapshot(
    right_eye: EyeApertureFeature,
    left_eye: EyeApertureFeature,
    right_iris: Option<IrisSideAuxFeature>,
    left_iris: Option<IrisSideAuxFeature>,
) -> GnmFacialFeatures {
    let brow = |side| BrowSideAuxFeatures {
        side,
        inner_rise: None,
        brow_lower: None,
        outer_rise: None,
    };
    GnmFacialFeatures {
        eyes: EyeAuxFeatures {
            right: right_eye,
            left: left_eye,
        },
        irises: IrisAuxFeatures {
            right: right_iris,
            left: left_iris,
        },
        mouth_jaw: MouthAuxFeatures::default(),
        cheeks: CheekAuxFeatures::default(),
        brows: BrowAuxFeatures {
            right: brow(AnatomicalSide::Right),
            left: brow(AnatomicalSide::Left),
        },
    }
}

fn neutral_snapshot_with_irises(irises: bool) -> GnmFacialFeatures {
    let (right_iris, left_iris) = if irises {
        (
            Some(iris(AnatomicalSide::Right, || Some(0.0), || Some(0.0))),
            Some(iris(AnatomicalSide::Left, || Some(0.0), || Some(0.0))),
        )
    } else {
        (None, None)
    };
    snapshot(
        aperture(AnatomicalSide::Right, NEUTRAL_APERTURE),
        aperture(AnatomicalSide::Left, NEUTRAL_APERTURE),
        right_iris,
        left_iris,
    )
}

#[test]
fn neutral_snapshot_projects_near_zero_supported_channels() {
    let projection = project_eye_gaze_channels(&neutral_snapshot_with_irises(true));
    for channel in [
        projection.eye_blink_left,
        projection.eye_blink_right,
        projection.eye_wide_left,
        projection.eye_wide_right,
        projection.eye_squint_left,
        projection.eye_squint_right,
        projection.eye_look_in_left,
        projection.eye_look_in_right,
        projection.eye_look_out_left,
        projection.eye_look_out_right,
        projection.eye_look_up_left,
        projection.eye_look_up_right,
        projection.eye_look_down_left,
        projection.eye_look_down_right,
    ] {
        assert!(
            float(channel.value).abs() < 1e-6,
            "neutral must be ~0: {channel:?}"
        );
    }
    assert_eq!(
        projection.eye_blink_right.support,
        ProjectedSupport::Reliable
    );
    assert_eq!(
        projection.eye_squint_right.support,
        ProjectedSupport::Experimental
    );
    assert_eq!(
        projection.eye_look_up_right.support,
        ProjectedSupport::Reliable
    );
}

#[test]
fn half_closure_pins_blink_and_squint_sign_and_range() {
    let closed_half = aperture(AnatomicalSide::Right, 0.5 * NEUTRAL_APERTURE);
    let open = aperture(AnatomicalSide::Left, NEUTRAL_APERTURE);
    let projection = project_eye_gaze_channels(&snapshot(closed_half, open, None, None));
    assert_eq!(
        projection.eye_blink_right.support,
        ProjectedSupport::Reliable
    );
    assert!(
        (float(projection.eye_blink_right.value) - 0.5 / float(Binary32::from_bits(BLINK_FULL_CLOSURE_FRACTION_BITS))).abs() < 1e-5
    );
    assert_eq!(
        projection.eye_squint_right.support,
        ProjectedSupport::Experimental
    );
    assert!((float(projection.eye_squint_right.value) - 1.0).abs() < 1e-5);
    // The other side is untouched.
    assert!(float(projection.eye_blink_left.value).abs() < 1e-6);
    assert!(float(projection.eye_squint_left.value).abs() < 1e-6);
    // Widening is not triggered by closure.
    assert_eq!(float(projection.eye_wide_right.value), 0.0);
}

#[test]
fn full_closure_saturates_blink_at_one() {
    let fully_closed = aperture(AnatomicalSide::Left, 0.0);
    let projection =
        project_eye_gaze_channels(&snapshot(fully_closed, fully_closed, None, None));
    assert_eq!(float(projection.eye_blink_left.value), 1.0);
    assert_eq!(float(projection.eye_blink_right.value), 1.0);
}

#[test]
fn widening_pins_wide_sign_and_range() {
    let widened = aperture(AnatomicalSide::Right, NEUTRAL_APERTURE * 1.6);
    let projection = project_eye_gaze_channels(&snapshot(
        widened,
        aperture(AnatomicalSide::Left, NEUTRAL_APERTURE),
        None,
        None,
    ));
    assert_eq!(
        projection.eye_wide_right.support,
        ProjectedSupport::Reliable
    );
    assert!((float(projection.eye_wide_right.value) - 1.0).abs() < 1e-5);
    assert_eq!(float(projection.eye_blink_right.value), 0.0);
    assert_eq!(float(projection.eye_squint_right.value), 0.0);
    assert_eq!(float(projection.eye_wide_left.value), 0.0);
}

#[test]
fn degenerate_neutral_aperture_is_unsupported_not_zero_reliable() {
    let mut degenerate = aperture(AnatomicalSide::Right, 0.2);
    degenerate.neutral_aperture = bits(0.0);
    let projection = project_eye_gaze_channels(&snapshot(
        degenerate,
        aperture(AnatomicalSide::Left, NEUTRAL_APERTURE),
        None,
        None,
    ));
    for channel in [
        projection.eye_blink_right,
        projection.eye_wide_right,
        projection.eye_squint_right,
    ] {
        assert_eq!(channel.support, ProjectedSupport::Unsupported);
        assert_eq!(float(channel.value), 0.0);
    }
}

#[test]
fn gaze_directions_follow_anatomical_iris_deltas() {
    let right = iris(
        AnatomicalSide::Right,
        || Some(0.05), // up, half of vertical saturation
        || Some(0.04), // outward, half of horizontal saturation
    );
    let left = iris(
        AnatomicalSide::Left,
        || Some(-0.05), // down
        || Some(-0.04), // inward
    );
    let projection = project_eye_gaze_channels(&snapshot(
        aperture(AnatomicalSide::Right, NEUTRAL_APERTURE),
        aperture(AnatomicalSide::Left, NEUTRAL_APERTURE),
        Some(right),
        Some(left),
    ));
    assert!((float(projection.eye_look_up_right.value) - 0.5).abs() < 1e-5);
    assert_eq!(float(projection.eye_look_down_right.value), 0.0);
    assert!((float(projection.eye_look_out_right.value) - 0.5).abs() < 1e-5);
    assert_eq!(float(projection.eye_look_in_right.value), 0.0);

    assert!((float(projection.eye_look_down_left.value) - 0.5).abs() < 1e-5);
    assert_eq!(float(projection.eye_look_up_left.value), 0.0);
    assert!((float(projection.eye_look_in_left.value) - 0.5).abs() < 1e-5);
    assert_eq!(float(projection.eye_look_out_left.value), 0.0);
}

#[test]
fn missing_or_non_finite_iris_features_are_explicitly_unsupported() {
    let no_iris = project_eye_gaze_channels(&neutral_snapshot_with_irises(false));
    for channel in [
        no_iris.eye_look_in_left,
        no_iris.eye_look_in_right,
        no_iris.eye_look_out_left,
        no_iris.eye_look_out_right,
        no_iris.eye_look_up_left,
        no_iris.eye_look_up_right,
        no_iris.eye_look_down_left,
        no_iris.eye_look_down_right,
    ] {
        assert_eq!(channel.support, ProjectedSupport::Unsupported);
        assert_eq!(float(channel.value), 0.0);
    }

    let nan_iris = iris(AnatomicalSide::Right, || Some(f32::NAN), || None);
    let projection = project_eye_gaze_channels(&snapshot(
        aperture(AnatomicalSide::Right, NEUTRAL_APERTURE),
        aperture(AnatomicalSide::Left, NEUTRAL_APERTURE),
        Some(nan_iris),
        None,
    ));
    assert_eq!(
        projection.eye_look_up_right.support,
        ProjectedSupport::Unsupported
    );
    assert_eq!(float(projection.eye_look_up_right.value), 0.0);
    assert_eq!(
        projection.eye_look_down_right.support,
        ProjectedSupport::Unsupported
    );
}

#[test]
fn mirrored_sides_swap_projection_outputs_exactly() {
    let right_eye = aperture(AnatomicalSide::Right, 0.5 * NEUTRAL_APERTURE);
    let left_eye = aperture(AnatomicalSide::Left, NEUTRAL_APERTURE * 1.6);
    let right_iris = iris(AnatomicalSide::Right, || Some(0.05), || Some(0.02));
    let left_iris = iris(AnatomicalSide::Left, || Some(-0.03), || Some(-0.01));

    let direct = project_eye_gaze_channels(&snapshot(
        right_eye,
        left_eye,
        Some(right_iris),
        Some(left_iris),
    ));
    let mirrored = project_eye_gaze_channels(&snapshot(
        left_eye,
        right_eye,
        Some(left_iris),
        Some(right_iris),
    ));

    assert_eq!(direct.eye_blink_left, mirrored.eye_blink_right);
    assert_eq!(direct.eye_blink_right, mirrored.eye_blink_left);
    assert_eq!(direct.eye_wide_left, mirrored.eye_wide_right);
    assert_eq!(direct.eye_wide_right, mirrored.eye_wide_left);
    assert_eq!(direct.eye_squint_left, mirrored.eye_squint_right);
    assert_eq!(direct.eye_squint_right, mirrored.eye_squint_left);
    assert_eq!(direct.eye_look_in_left, mirrored.eye_look_in_right);
    assert_eq!(direct.eye_look_in_right, mirrored.eye_look_in_left);
    assert_eq!(direct.eye_look_out_left, mirrored.eye_look_out_right);
    assert_eq!(direct.eye_look_out_right, mirrored.eye_look_out_left);
    assert_eq!(direct.eye_look_up_left, mirrored.eye_look_up_right);
    assert_eq!(direct.eye_look_up_right, mirrored.eye_look_up_left);
    assert_eq!(direct.eye_look_down_left, mirrored.eye_look_down_right);
    assert_eq!(direct.eye_look_down_right, mirrored.eye_look_down_left);
}

fn mouth_features(
    jaw_open: Option<f32>,
    jaw_forward: Option<f32>,
    jaw_lateral: Option<f32>,
    width_delta: Option<f32>,
) -> MouthAuxFeatures {
    MouthAuxFeatures {
        jaw_open: jaw_open.map(bits),
        jaw_forward: jaw_forward.map(bits),
        jaw_lateral: jaw_lateral.map(bits),
        width_delta: width_delta.map(bits),
        corner_lift: None,
    }
}

fn snapshot_with_mouth(mouth: MouthAuxFeatures) -> GnmFacialFeatures {
    let mut base = neutral_snapshot_with_irises(false);
    base.mouth_jaw = mouth;
    base
}

fn mouth_with_corner_lift(corner_lift: Option<f32>) -> MouthAuxFeatures {
    MouthAuxFeatures {
        corner_lift: corner_lift.map(bits),
        ..MouthAuxFeatures::default()
    }
}

#[test]
fn smile_alone_pins_sign_and_range() {
    let projection =
        project_lip_corner_channels(&snapshot_with_mouth(mouth_with_corner_lift(Some(0.05))));
    assert!((float(projection.mouth_smile_left.value) - 0.5).abs() < 1e-5);
    assert_eq!(projection.mouth_smile_right, projection.mouth_smile_left);
    assert_eq!(
        projection.mouth_smile_left.support,
        ProjectedSupport::Experimental
    );
    assert_eq!(float(projection.mouth_frown_left.value), 0.0);
    assert_eq!(float(projection.mouth_stretch_left.value), 0.0);
}

#[test]
fn frown_alone_pins_sign_and_range() {
    let projection =
        project_lip_corner_channels(&snapshot_with_mouth(mouth_with_corner_lift(Some(-0.03))));
    assert!((float(projection.mouth_frown_left.value) - 0.5).abs() < 1e-5);
    assert_eq!(projection.mouth_frown_right, projection.mouth_frown_left);
    assert_eq!(
        projection.mouth_frown_left.support,
        ProjectedSupport::Experimental
    );
    assert_eq!(float(projection.mouth_smile_left.value), 0.0);
}

#[test]
fn stretch_alone_uses_positive_width_delta() {
    let mouth = MouthAuxFeatures {
        width_delta: some(0.075),
        ..MouthAuxFeatures::default()
    };
    let projection = project_lip_corner_channels(&snapshot_with_mouth(mouth));
    assert!((float(projection.mouth_stretch_left.value) - 0.5).abs() < 1e-5);
    assert_eq!(
        projection.mouth_stretch_right,
        projection.mouth_stretch_left
    );
    assert_eq!(
        projection.mouth_stretch_left.support,
        ProjectedSupport::Experimental
    );
    // Negative width (constriction) is not stretch evidence.
    let narrow = MouthAuxFeatures {
        width_delta: some(-0.15),
        ..MouthAuxFeatures::default()
    };
    let narrowed = project_lip_corner_channels(&snapshot_with_mouth(narrow));
    assert_eq!(float(narrowed.mouth_stretch_left.value), 0.0);
    assert_eq!(
        narrowed.mouth_stretch_left.support,
        ProjectedSupport::Unsupported
    );
}

#[test]
fn dimple_never_fires_even_with_full_other_evidence() {
    let full = MouthAuxFeatures {
        corner_lift: some(0.2),
        width_delta: some(0.3),
        ..MouthAuxFeatures::default()
    };
    let projection = project_lip_corner_channels(&snapshot_with_mouth(full));
    for channel in [projection.mouth_dimple_left, projection.mouth_dimple_right] {
        assert_eq!(channel.support, ProjectedSupport::Unsupported);
        assert_eq!(float(channel.value), 0.0);
    }
}

#[test]
fn lip_corner_mirror_fixture_is_symmetric_across_sides() {
    // The snapshot aggregates both corners; a mirrored face yields the
    // same aggregate evidence and therefore exactly symmetric outputs.
    let direct =
        project_lip_corner_channels(&snapshot_with_mouth(mouth_with_corner_lift(Some(0.04))));
    let mirrored =
        project_lip_corner_channels(&snapshot_with_mouth(mouth_with_corner_lift(Some(0.04))));
    assert_eq!(direct, mirrored);
    assert_eq!(direct.mouth_smile_left, direct.mouth_smile_right);
    assert_eq!(direct.mouth_frown_left, direct.mouth_frown_right);
    assert_eq!(direct.mouth_dimple_left, direct.mouth_dimple_right);
    assert_eq!(direct.mouth_stretch_left, direct.mouth_stretch_right);
}

#[test]
fn neutral_lip_corners_project_near_zero_and_missing_evidence_is_unsupported() {
    let neutral =
        project_lip_corner_channels(&snapshot_with_mouth(mouth_with_corner_lift(Some(0.0))));
    assert!(float(neutral.mouth_smile_left.value).abs() < 1e-6);
    assert!(float(neutral.mouth_frown_right.value).abs() < 1e-6);
    assert_eq!(
        neutral.mouth_stretch_left.support,
        ProjectedSupport::Unsupported
    );

    let absent = project_lip_corner_channels(&snapshot_with_mouth(
        MouthAuxFeatures::default(),
    ));
    for channel in [
        absent.mouth_smile_left,
        absent.mouth_smile_right,
        absent.mouth_frown_left,
        absent.mouth_frown_right,
        absent.mouth_dimple_left,
        absent.mouth_dimple_right,
        absent.mouth_stretch_left,
        absent.mouth_stretch_right,
    ] {
        assert_eq!(channel.support, ProjectedSupport::Unsupported);
        assert_eq!(float(channel.value), 0.0);
    }
}

#[test]
fn every_lip_corner_output_is_finite_and_within_unit_range() {
    let extreme = MouthAuxFeatures {
        corner_lift: some(-f32::INFINITY),
        width_delta: some(f32::NAN),
        ..MouthAuxFeatures::default()
    };
    let projection = project_lip_corner_channels(&snapshot_with_mouth(extreme));
    for channel in [
        projection.mouth_smile_left,
        projection.mouth_smile_right,
        projection.mouth_frown_left,
        projection.mouth_frown_right,
        projection.mouth_dimple_left,
        projection.mouth_dimple_right,
        projection.mouth_stretch_left,
        projection.mouth_stretch_right,
    ] {
        assert!(float(channel.value).is_finite());
        assert!((0.0..=1.0).contains(&float(channel.value)));
    }
}

#[test]
fn roll_shrug_press_stay_unsupported_and_never_alias_other_mouth_evidence() {
    // Even with every available mouth feature firing, roll/shrug/press
    // channels must not borrow their evidence.
    let full = MouthAuxFeatures {
        jaw_open: some(0.5),
        jaw_forward: some(-0.2),
        jaw_lateral: some(0.1),
        width_delta: some(-0.3),
        corner_lift: some(0.2),
    };
    let projection = project_lip_roll_shrug_press_channels(&snapshot_with_mouth(full));
    for channel in [
        projection.mouth_roll_lower,
        projection.mouth_roll_upper,
        projection.mouth_shrug_lower,
        projection.mouth_shrug_upper,
        projection.mouth_press_left,
        projection.mouth_press_right,
    ] {
        assert_eq!(channel.support, ProjectedSupport::Unsupported);
        assert_eq!(float(channel.value), 0.0);
    }
}

#[test]
fn roll_shrug_press_are_independent_classifications_not_shared_alias() {
    // Each channel family carries its own (absent-evidence)
    // classification; none of them is derived from another channel or a
    // shared fabricated value.
    let projection =
        project_lip_roll_shrug_press_channels(&neutral_snapshot_with_irises(false));
    assert_ne!(projection.mouth_roll_lower, ProjectedChannel::reliable(bits(0.5)));
    assert_eq!(projection.mouth_shrug_upper, ProjectedChannel::unsupported());
    assert_eq!(projection.mouth_press_right, ProjectedChannel::unsupported());
    assert_eq!(
        project_lip_roll_shrug_press_channels(&snapshot_with_mouth(
            MouthAuxFeatures::default()
        )),
        projection
    );
}

#[test]
fn lower_upper_lip_channels_stay_unsupported_without_per_lip_evidence() {
    // Even a large aperture delta is shared upper+lower evidence; it must
    // not be attributed to either lip pair.
    let opening = MouthAuxFeatures {
        jaw_open: some(0.5),
        ..MouthAuxFeatures::default()
    };
    let projection = project_lip_lower_upper_channels(&snapshot_with_mouth(opening));
    for channel in [
        projection.mouth_lower_down_left,
        projection.mouth_lower_down_right,
        projection.mouth_upper_up_left,
        projection.mouth_upper_up_right,
    ] {
        assert_eq!(channel.support, ProjectedSupport::Unsupported);
        assert_eq!(float(channel.value), 0.0);
    }
}

#[test]
fn combined_lip_result_covers_each_channel_exactly_once() {
    let result = project_lip_mouth_corner_channels(&neutral_snapshot_with_irises(false));
    let channels = [
        (
            result.corner.mouth_smile_left,
            ArkitBlendshape::MouthSmileLeft,
        ),
        (
            result.corner.mouth_smile_right,
            ArkitBlendshape::MouthSmileRight,
        ),
        (
            result.corner.mouth_frown_left,
            ArkitBlendshape::MouthFrownLeft,
        ),
        (
            result.corner.mouth_frown_right,
            ArkitBlendshape::MouthFrownRight,
        ),
        (
            result.corner.mouth_dimple_left,
            ArkitBlendshape::MouthDimpleLeft,
        ),
        (
            result.corner.mouth_dimple_right,
            ArkitBlendshape::MouthDimpleRight,
        ),
        (
            result.corner.mouth_stretch_left,
            ArkitBlendshape::MouthStretchLeft,
        ),
        (
            result.corner.mouth_stretch_right,
            ArkitBlendshape::MouthStretchRight,
        ),
        (
            result.roll_shrug_press.mouth_roll_lower,
            ArkitBlendshape::MouthRollLower,
        ),
        (
            result.roll_shrug_press.mouth_roll_upper,
            ArkitBlendshape::MouthRollUpper,
        ),
        (
            result.roll_shrug_press.mouth_shrug_lower,
            ArkitBlendshape::MouthShrugLower,
        ),
        (
            result.roll_shrug_press.mouth_shrug_upper,
            ArkitBlendshape::MouthShrugUpper,
        ),
        (
            result.roll_shrug_press.mouth_press_left,
            ArkitBlendshape::MouthPressLeft,
        ),
        (
            result.roll_shrug_press.mouth_press_right,
            ArkitBlendshape::MouthPressRight,
        ),
        (
            result.lower_upper.mouth_lower_down_left,
            ArkitBlendshape::MouthLowerDownLeft,
        ),
        (
            result.lower_upper.mouth_lower_down_right,
            ArkitBlendshape::MouthLowerDownRight,
        ),
        (
            result.lower_upper.mouth_upper_up_left,
            ArkitBlendshape::MouthUpperUpLeft,
        ),
        (
            result.lower_upper.mouth_upper_up_right,
            ArkitBlendshape::MouthUpperUpRight,
        ),
    ];
    let mut indices = [0usize; 18];
    for (slot, (_, channel)) in indices.iter_mut().zip(channels.iter()) {
        *slot = channel.index();
    }
    indices.sort_unstable();
    for pair in indices.windows(2) {
        assert_ne!(pair[0], pair[1], "lip channels must appear exactly once");
    }
    assert_eq!(channels.len(), 18);
}

#[test]
fn combined_result_matches_individual_projectors_on_mixed_motion() {
    let mixed = MouthAuxFeatures {
        jaw_open: some(0.1),
        width_delta: some(-0.2),
        corner_lift: some(0.06),
        ..MouthAuxFeatures::default()
    };
    let snapshot = snapshot_with_mouth(mixed);
    let combined = project_lip_mouth_corner_channels(&snapshot);
    assert_eq!(combined.corner, project_lip_corner_channels(&snapshot));
    assert_eq!(
        combined.roll_shrug_press,
        project_lip_roll_shrug_press_channels(&snapshot)
    );
    assert_eq!(
        combined.lower_upper,
        project_lip_lower_upper_channels(&snapshot)
    );
    // Mixed motion sanity: smile fires from lift, constriction does not
    // leak into stretch.
    assert_eq!(
        combined.corner.mouth_smile_left.support,
        ProjectedSupport::Experimental
    );
    assert!(float(combined.corner.mouth_smile_left.value) > 0.5);
    assert_eq!(float(combined.corner.mouth_stretch_left.value), 0.0);
}

#[test]
fn decoder_covers_all_52_channels_with_explicit_support() {
    let result = decode_gnm_arkit52(&neutral_snapshot_with_irises(true))
        .expect("valid neutral snapshot must decode");
    // Every channel has finite [0,1] value and a non-default support.
    for (index, value) in result.coefficients.as_array().iter().enumerate() {
        assert!(value.is_finite());
        assert!((0.0..=1.0).contains(&float(*value)), "channel {index} out of range");
    }
    // Spot-check ownership: tongue never fabricated.
    let tongue = ArkitBlendshape::TongueOut.index();
    assert_eq!(result.supports[tongue], ProjectedSupport::Unsupported);
    assert_eq!(float(result.coefficients.as_array()[tongue]), 0.0);
}

#[test]
fn decoder_matches_region_projectors_on_a_mixed_fixture() {
    let mut mixed = neutral_snapshot_with_irises(true);
    mixed.eyes.right.current_aperture = bits(0.5 * NEUTRAL_APERTURE);
    mixed.mouth_jaw.jaw_open = some(0.2);
    mixed.mouth_jaw.corner_lift = some(0.06);
    mixed.mouth_jaw.width_delta = some(-0.15);
    mixed.brows.right.brow_lower = some(0.08);
    mixed.irises.left = Some(iris(AnatomicalSide::Left, || Some(0.05), || Some(0.0)));

    let decoded = decode_gnm_arkit52(&mixed).expect("mixed fixture must decode");
    let eyes = project_eye_gaze_channels(&mixed);
    let jaw = project_jaw_core_mouth_channels(&mixed);
    let lips = project_lip_mouth_corner_channels(&mixed);
    let upper = project_brow_cheek_nose_channels(&mixed);

    let expect = |channel: ArkitBlendshape, projected: ProjectedChannel| {
        let index = channel.index();
        assert_eq!(decoded.coefficients.get(channel), projected.value);
        assert_eq!(decoded.supports[index], projected.support);
    };
    expect(ArkitBlendshape::EyeBlinkRight, eyes.eye_blink_right);
    expect(ArkitBlendshape::EyeLookUpLeft, eyes.eye_look_up_left);
    expect(ArkitBlendshape::JawOpen, jaw.jaw_open);
    expect(ArkitBlendshape::MouthClose, jaw.mouth_close);
    expect(
        ArkitBlendshape::MouthSmileLeft,
        lips.corner.mouth_smile_left,
    );
    expect(ArkitBlendshape::MouthFunnel, jaw.mouth_funnel);
    // Constriction fired on the fixture and lands on the funnel channel.
    assert!((float(decoded.coefficients.get(ArkitBlendshape::MouthFunnel)) - 0.6).abs() < 1e-5);
    expect(
        ArkitBlendshape::MouthRollLower,
        lips.roll_shrug_press.mouth_roll_lower,
    );
    expect(ArkitBlendshape::BrowDownRight, upper.brow_down_right);
    // Smile actually fired on the fixture.
    assert!(float(decoded.coefficients.get(ArkitBlendshape::MouthSmileLeft)) > 0.5);
}

#[test]
fn neutral_decode_is_near_zero_on_supported_channels() {
    let decoded =
        decode_gnm_arkit52(&neutral_snapshot_with_irises(true)).expect("neutral must decode");
    for (channel, value) in ArkitBlendshape::all()
        .into_iter()
        .zip(decoded.coefficients.as_array())
    {
        if decoded.supports[channel.index()] == ProjectedSupport::Unsupported {
            assert_eq!(float(value), 0.0, "{channel:?} unsupported but nonzero");
        } else {
            assert!(float(value).abs() < 1e-6, "{channel:?} neutral must be ~0");
        }
    }
}

#[test]
fn mirrored_snapshot_swaps_sides_in_canonical_output() {
    let right_blink = aperture(AnatomicalSide::Right, 0.5 * NEUTRAL_APERTURE);
    let left_wide = aperture(AnatomicalSide::Left, NEUTRAL_APERTURE * 1.6);
    let direct = decode_gnm_arkit52(&snapshot(right_blink, left_wide, None, None))
        .expect("direct decode failed");
    let mirrored = decode_gnm_arkit52(&snapshot(left_wide, right_blink, None, None))
        .expect("mirrored decode failed");
    assert_eq!(
        direct.coefficients.get(ArkitBlendshape::EyeBlinkRight),
        mirrored.coefficients.get(ArkitBlendshape::EyeBlinkLeft)
    );
    assert_eq!(
        direct.coefficients.get(ArkitBlendshape::EyeWideLeft),
        mirrored.coefficients.get(ArkitBlendshape::EyeWideRight)
    );
}

#[test]
fn mirrored_face_exchanges_every_side() {
    let mut face = neutral_snapshot_with_irises(true);
    face.eyes.right = aperture(AnatomicalSide::Right, 0.5 * NEUTRAL_APERTURE);
    face.eyes.left = aperture(AnatomicalSide::Left, 1.6 * NEUTRAL_APERTURE);
    face.irises.right = Some(iris(AnatomicalSide::Right, || Some(0.05), || Some(-0.04)));
    face.irises.left = Some(iris(AnatomicalSide::Left, || Some(-0.02), || Some(0.03)));
    face.mouth_jaw.jaw_open = some(0.2);
    face.mouth_jaw.jaw_lateral = some(0.07);
    face.mouth_jaw.corner_lift = some(0.06);
    face.mouth_jaw.width_delta = some(-0.15);
    face.brows.right.brow_lower = some(0.08);
    face.brows.right.inner_rise = some(0.01);
    face.brows.left.inner_rise = some(0.09);
    face.brows.left.outer_rise = some(0.05);

    let mut other = face;
    other.eyes.right = EyeApertureFeature { side: AnatomicalSide::Right, ..face.eyes.left };
    other.eyes.left = EyeApertureFeature { side: AnatomicalSide::Left, ..face.eyes.right };
    other.irises.right = face.irises.left.map(|found| IrisSideAuxFeature { side: AnatomicalSide::Right, ..found });
    other.irises.left = face.irises.right.map(|found| IrisSideAuxFeature { side: AnatomicalSide::Left, ..found });
    other.mouth_jaw.jaw_lateral = some(-0.07);
    other.brows.right = BrowSideAuxFeatures { side: AnatomicalSide::Right, ..face.brows.left };
    other.brows.left = BrowSideAuxFeatures { side: AnatomicalSide::Left, ..face.brows.right };

    let direct = decode_gnm_arkit52(&face).unwrap();
    let mirror = decode_gnm_arkit52(&other).unwrap();
    let names: Vec<String> = ArkitBlendshape::all().iter().map(|channel| format!("{channel:?}")).collect();
    let mut exchanged = 0;
    for channel in ArkitBlendshape::all() {
        let name = format!("{channel:?}");
        let partner = if let Some(stem) = name.strip_suffix("Left") {
            format!("{stem}Right")
        } else if let Some(stem) = name.strip_suffix("Right") {
            format!("{stem}Left")
        } else {
            name.clone()
        };
        let at = names.iter().position(|found| *found == partner).unwrap();
        if partner != name {
            exchanged += 1;
        }
        assert_eq!(mirror.coefficients.get(channel), direct.coefficients.as_array()[at], "{name}");
        assert_eq!(mirror.supports[channel.index()], direct.supports[at], "{name}");
    }
    assert_eq!(exchanged, 40);
    assert_ne!(
        direct.coefficients.get(ArkitBlendshape::JawLeft),
        direct.coefficients.get(ArkitBlendshape::JawRight)
    );
}

#[test]
fn jaw_sign_and_range_pinned_by_synthetic_fixtures() {
    // Open: positive lip-aperture delta.
    let open = project_jaw_core_mouth_channels(&snapshot_with_mouth(mouth_features(
        Some(0.175), // half of JAW_OPEN_SATURATION
        None,
        None,
        None,
    )));
    assert!((float(open.jaw_open.value) - 0.5).abs() < 1e-5);
    assert_eq!(open.jaw_open.support, ProjectedSupport::Reliable);
    assert_eq!(float(open.mouth_close.value), 0.0);

    // Forward: negative chin-to-nose-tip delta.
    let forward = project_jaw_core_mouth_channels(&snapshot_with_mouth(mouth_features(
        None,
        Some(-0.15),
        None,
        None,
    )));
    assert_eq!(float(forward.jaw_forward.value), 1.0);
    assert_eq!(forward.jaw_forward.support, ProjectedSupport::Reliable);

    // Lateral: positive delta is toward the anatomical left.
    let lateral = project_jaw_core_mouth_channels(&snapshot_with_mouth(mouth_features(
        None,
        None,
        Some(0.075),
        None,
    )));
    assert!((float(lateral.jaw_left.value) - 0.5).abs() < 1e-5);
    assert_eq!(float(lateral.jaw_right.value), 0.0);
    let mirrored = project_jaw_core_mouth_channels(&snapshot_with_mouth(mouth_features(
        None,
        None,
        Some(-0.075),
        None,
    )));
    assert!((float(mirrored.jaw_right.value) - 0.5).abs() < 1e-5);
    assert_eq!(float(mirrored.jaw_left.value), 0.0);
}

#[test]
fn mouth_close_is_bounded_and_exclusive_with_jaw_open() {
    // Lip compression: negative lip-aperture delta drives MouthClose only.
    let closed = project_jaw_core_mouth_channels(&snapshot_with_mouth(mouth_features(
        Some(-0.075),
        None,
        None,
        None,
    )));
    assert!((float(closed.mouth_close.value) - 0.5).abs() < 1e-5);
    assert_eq!(closed.mouth_close.support, ProjectedSupport::Experimental);
    assert_eq!(closed.jaw_open.support, ProjectedSupport::Unsupported);
    assert_eq!(float(closed.jaw_open.value), 0.0);

    // Extreme contradiction: a huge positive jaw-open can never produce
    // MouthClose, and vice versa; both remain finite in [0, 1].
    let wide_open = project_jaw_core_mouth_channels(&snapshot_with_mouth(mouth_features(
        Some(10.0),
        None,
        None,
        None,
    )));
    assert_eq!(float(wide_open.jaw_open.value), 1.0);
    assert_eq!(float(wide_open.mouth_close.value), 0.0);
    let pressed = project_jaw_core_mouth_channels(&snapshot_with_mouth(mouth_features(
        Some(-10.0),
        None,
        None,
        None,
    )));
    assert_eq!(float(pressed.mouth_close.value), 1.0);
    assert_eq!(float(pressed.jaw_open.value), 0.0);
}

#[test]
fn funnel_pucker_share_constriction_evidence_as_experimental() {
    let constricted = project_jaw_core_mouth_channels(&snapshot_with_mouth(mouth_features(
        None,
        None,
        None,
        Some(-0.125), // corner narrowing, half saturation
    )));
    assert_eq!(
        constricted.mouth_funnel.support,
        ProjectedSupport::Experimental
    );
    assert_eq!(constricted.mouth_funnel, constricted.mouth_pucker);
    assert!((float(constricted.mouth_funnel.value) - 0.5).abs() < 1e-5);
}

#[test]
fn mouth_lateral_shift_stays_unsupported() {
    let projection = project_jaw_core_mouth_channels(&snapshot_with_mouth(mouth_features(
        Some(0.1),
        Some(-0.05),
        Some(0.05),
        Some(0.1),
    )));
    for channel in [projection.mouth_left, projection.mouth_right] {
        assert_eq!(channel.support, ProjectedSupport::Unsupported);
        assert_eq!(float(channel.value), 0.0);
    }
}

#[test]
fn missing_mouth_features_fail_closed_to_unsupported_zero() {
    let projection = project_jaw_core_mouth_channels(&snapshot_with_mouth(mouth_features(
        None, None, None, None,
    )));
    for channel in [
        projection.jaw_forward,
        projection.jaw_left,
        projection.jaw_open,
        projection.jaw_right,
        projection.mouth_close,
        projection.mouth_funnel,
        projection.mouth_pucker,
        projection.mouth_left,
        projection.mouth_right,
    ] {
        assert_eq!(channel.support, ProjectedSupport::Unsupported);
        assert_eq!(float(channel.value), 0.0);
    }
}

#[test]
fn non_finite_mouth_deltas_do_not_break_bounds() {
    let projection = project_jaw_core_mouth_channels(&snapshot_with_mouth(mouth_features(
        Some(f32::NAN),
        Some(f32::INFINITY),
        Some(f32::NAN),
        Some(-f32::INFINITY),
    )));
    for channel in [
        projection.jaw_forward,
        projection.jaw_left,
        projection.jaw_open,
        projection.jaw_right,
        projection.mouth_close,
        projection.mouth_funnel,
        projection.mouth_pucker,
    ] {
        assert_eq!(channel.support, ProjectedSupport::Unsupported);
        assert_eq!(float(channel.value), 0.0);
    }
}

#[test]
fn rigid_head_pose_alone_cannot_change_mouth_coefficients() {
    // The projector consumes only pairwise-distance deltas, which are
    // invariant under rigid head transforms; the same expression measured
    // under two different rigid poses yields byte-identical snapshots and
    // therefore identical projections. Unrelated feature families must
    // also not leak into the mouth channels.
    let mut with_irises = snapshot_with_mouth(mouth_features(Some(0.2), None, None, None));
    with_irises.irises.right = Some(IrisSideAuxFeature {
        side: AnatomicalSide::Right,
        vertical_delta: some(0.05),
        horizontal_delta: some(0.02),
    });
    let plain = snapshot_with_mouth(mouth_features(Some(0.2), None, None, None));
    assert_eq!(
        project_jaw_core_mouth_channels(&with_irises),
        project_jaw_core_mouth_channels(&plain)
    );
}

#[test]
fn every_jaw_mouth_output_is_finite_and_within_unit_range() {
    let extreme = project_jaw_core_mouth_channels(&snapshot_with_mouth(mouth_features(
        Some(-30.0),
        Some(30.0),
        Some(-30.0),
        Some(30.0),
    )));
    for channel in [
        extreme.jaw_forward,
        extreme.jaw_left,
        extreme.jaw_open,
        extreme.jaw_right,
        extreme.mouth_close,
        extreme.mouth_funnel,
        extreme.mouth_pucker,
        extreme.mouth_left,
        extreme.mouth_right,
    ] {
        assert!(float(channel.value).is_finite());
        assert!((0.0..=1.0).contains(&float(channel.value)));
    }
}

fn snapshot_with_brows(
    right: BrowSideAuxFeatures,
    left: BrowSideAuxFeatures,
) -> GnmFacialFeatures {
    let mut base = neutral_snapshot_with_irises(false);
    base.brows = BrowAuxFeatures { right, left };
    base
}

fn brow(
    side: AnatomicalSide,
    inner: Option<f32>,
    lower: Option<f32>,
    outer: Option<f32>,
) -> BrowSideAuxFeatures {
    BrowSideAuxFeatures {
        side,
        inner_rise: inner.map(bits),
        brow_lower: lower.map(bits),
        outer_rise: outer.map(bits),
    }
}

#[test]
fn brow_down_sign_side_and_range_pinned_by_fixture() {
    // Right brow lowered by half saturation; left brow absent.
    let projection = project_brow_cheek_nose_channels(&snapshot_with_brows(
        brow(AnatomicalSide::Right, None, Some(0.04), None),
        brow(AnatomicalSide::Left, None, None, None),
    ));
    assert!((float(projection.brow_down_right.value) - 0.5).abs() < 1e-5);
    assert_eq!(
        projection.brow_down_right.support,
        ProjectedSupport::Reliable
    );
    assert_eq!(
        projection.brow_down_left.support,
        ProjectedSupport::Unsupported
    );
    assert_eq!(float(projection.brow_down_left.value), 0.0);
}

#[test]
fn brow_inner_up_uses_mean_positive_part_of_both_sides() {
    let raised = project_brow_cheek_nose_channels(&snapshot_with_brows(
        brow(AnatomicalSide::Right, Some(0.08), None, None),
        brow(AnatomicalSide::Left, Some(0.08), None, None),
    ));
    assert_eq!(float(raised.brow_inner_up.value), 1.0);
    assert_eq!(raised.brow_inner_up.support, ProjectedSupport::Reliable);

    // Lowered inner brows do not fabricate inner-up.
    let lowered = project_brow_cheek_nose_channels(&snapshot_with_brows(
        brow(AnatomicalSide::Right, Some(-0.08), Some(0.04), None),
        brow(AnatomicalSide::Left, Some(-0.08), None, None),
    ));
    assert_eq!(float(lowered.brow_inner_up.value), 0.0);
    assert!((float(lowered.brow_down_right.value) - 0.5).abs() < 1e-5);

    // One-sided raise uses the mean of the present measurements.
    let one_sided = project_brow_cheek_nose_channels(&snapshot_with_brows(
        brow(AnatomicalSide::Right, Some(0.04), None, None),
        brow(AnatomicalSide::Left, None, None, None),
    ));
    assert!((float(one_sided.brow_inner_up.value) - 0.5).abs() < 1e-5);
}

#[test]
fn brow_outer_up_is_side_keyed() {
    let projection = project_brow_cheek_nose_channels(&snapshot_with_brows(
        brow(AnatomicalSide::Right, None, None, Some(0.02)),
        brow(AnatomicalSide::Left, None, None, Some(0.06)),
    ));
    assert!((float(projection.brow_outer_up_right.value) - 0.25).abs() < 1e-5);
    assert!((float(projection.brow_outer_up_left.value) - 0.75).abs() < 1e-5);
}

#[test]
fn cheek_squint_and_nose_are_deterministically_unsupported() {
    // Even with full brow evidence present, squint/nose channels never
    // fire: the snapshot carries no dedicated observation for them.
    // `CheekPuff` is excluded here; it has its own geometric condition below.
    let projection = project_brow_cheek_nose_channels(&snapshot_with_brows(
        brow(AnatomicalSide::Right, Some(0.1), Some(0.1), Some(0.1)),
        brow(AnatomicalSide::Left, Some(0.1), Some(0.1), Some(0.1)),
    ));
    for channel in [
        projection.cheek_squint_left,
        projection.cheek_squint_right,
        projection.nose_sneer_left,
        projection.nose_sneer_right,
    ] {
        assert_eq!(channel.support, ProjectedSupport::Unsupported);
        assert_eq!(float(channel.value), 0.0);
    }
    // Without cheek/mouth evidence the puff channel also stays closed.
    assert_eq!(projection.cheek_puff.support, ProjectedSupport::Unsupported);
    assert_eq!(float(projection.cheek_puff.value), 0.0);
}

fn snapshot_with_cheek(
    outward: Option<f32>,
    width: Option<f32>,
    forward: Option<f32>,
) -> GnmFacialFeatures {
    let mut base = neutral_snapshot_with_irises(false);
    base.cheeks = CheekAuxFeatures {
        contour_outward: outward.map(bits),
    };
    base.mouth_jaw = MouthAuxFeatures {
        width_delta: width.map(bits),
        jaw_forward: forward.map(bits),
        ..MouthAuxFeatures::default()
    };
    base
}

#[test]
fn cheek_puff_fires_only_on_three_condition_and() {
    let puffed = project_brow_cheek_nose_channels(&snapshot_with_cheek(
        Some(0.06),
        Some(0.0),
        Some(0.0),
    ));
    assert_eq!(puffed.cheek_puff.support, ProjectedSupport::Experimental);
    assert!(float(puffed.cheek_puff.value) > 0.0);

    // Mouth widened (smile-like) keeps the channel closed.
    let smiled = project_brow_cheek_nose_channels(&snapshot_with_cheek(
        Some(0.06),
        Some(0.10),
        Some(0.0),
    ));
    assert_eq!(smiled.cheek_puff.support, ProjectedSupport::Unsupported);

    // Contour inward (purse/blow-like) keeps the channel closed.
    let pursed = project_brow_cheek_nose_channels(&snapshot_with_cheek(
        Some(-0.05),
        Some(0.0),
        Some(0.0),
    ));
    assert_eq!(pursed.cheek_puff.support, ProjectedSupport::Unsupported);

    // Chin pushed forward keeps the channel closed.
    let pushed = project_brow_cheek_nose_channels(&snapshot_with_cheek(
        Some(0.06),
        Some(0.0),
        Some(-0.10),
    ));
    assert_eq!(pushed.cheek_puff.support, ProjectedSupport::Unsupported);
}

#[test]
fn cheek_puff_missing_or_non_finite_evidence_fails_closed() {
    for snapshot in [
        snapshot_with_cheek(None, Some(0.0), Some(0.0)),
        snapshot_with_cheek(Some(0.06), None, Some(0.0)),
        snapshot_with_cheek(Some(0.06), Some(0.0), None),
        snapshot_with_cheek(Some(f32::NAN), Some(0.0), Some(0.0)),
    ] {
        let projection = project_brow_cheek_nose_channels(&snapshot);
        assert_eq!(projection.cheek_puff.support, ProjectedSupport::Unsupported);
        assert_eq!(float(projection.cheek_puff.value), 0.0);
    }
}

#[test]
fn non_finite_brow_delta_fails_closed_per_channel() {
    let projection = project_brow_cheek_nose_channels(&snapshot_with_brows(
        brow(AnatomicalSide::Right, Some(f32::NAN), Some(0.08), None),
        brow(AnatomicalSide::Left, Some(0.08), Some(f32::NAN), Some(0.08)),
    ));
    // NaN poisons the shared inner-up mean...
    assert_eq!(
        projection.brow_inner_up.support,
        ProjectedSupport::Unsupported
    );
    assert_eq!(float(projection.brow_inner_up.value), 0.0);
    // ...and its own side's down channel (left lower delta is NaN).
    assert_eq!(
        projection.brow_down_left.support,
        ProjectedSupport::Unsupported
    );
    // Independent channels stay reliable.
    assert_eq!(
        projection.brow_down_right.support,
        ProjectedSupport::Reliable
    );
    assert_eq!(float(projection.brow_down_right.value), 1.0);
    assert_eq!(float(projection.brow_outer_up_left.value), 1.0);
}

#[test]
fn missing_brows_fail_closed_to_unsupported_zero() {
    let projection = project_brow_cheek_nose_channels(&neutral_snapshot_with_irises(false));
    for channel in [
        projection.brow_down_left,
        projection.brow_down_right,
        projection.brow_inner_up,
        projection.brow_outer_up_left,
        projection.brow_outer_up_right,
    ] {
        assert_eq!(channel.support, ProjectedSupport::Unsupported);
        assert_eq!(float(channel.value), 0.0);
    }
}

#[test]
fn every_brow_output_is_finite_and_within_unit_range() {
    let extreme = project_brow_cheek_nose_channels(&snapshot_with_brows(
        brow(AnatomicalSide::Right, Some(-9.0), Some(9.0), Some(-9.0)),
        brow(AnatomicalSide::Left, Some(9.0), Some(-9.0), Some(9.0)),
    ));
    for channel in [
        extreme.brow_down_left,
        extreme.brow_down_right,
        extreme.brow_inner_up,
        extreme.brow_outer_up_left,
        extreme.brow_outer_up_right,
        extreme.cheek_puff,
        extreme.cheek_squint_left,
        extreme.cheek_squint_right,
        extreme.nose_sneer_left,
        extreme.nose_sneer_right,
    ] {
        assert!(float(channel.value).is_finite());
        assert!((0.0..=1.0).contains(&float(channel.value)));
    }
}

#[test]
fn every_output_is_finite_and_within_unit_range() {
    let extreme = snapshot(
        aperture(AnatomicalSide::Right, -3.0),
        aperture(AnatomicalSide::Left, 12.0),
        Some(iris(AnatomicalSide::Right, || Some(9.0), || Some(-7.0))),
        Some(iris(AnatomicalSide::Left, || Some(-9.0), || Some(0.003))),
    );
    let projection = project_eye_gaze_channels(&extreme);
    for channel in [
        projection.eye_blink_left,
        projection.eye_blink_right,
        projection.eye_wide_left,
        projection.eye_wide_right,
        projection.eye_squint_left,
        projection.eye_squint_right,
        projection.eye_look_in_left,
        projection.eye_look_in_right,
        projection.eye_look_out_left,
        projection.eye_look_out_right,
        projection.eye_look_up_left,
        projection.eye_look_up_right,
        projection.eye_look_down_left,
        projection.eye_look_down_right,
    ] {
        assert!(float(channel.value).is_finite());
        assert!((0.0..=1.0).contains(&float(channel.value)));
    }
}

#[test]
fn ratios_are_bounded_and_means_skip_what_is_absent() {
    assert_eq!(bounded_ratio(bits(1.0), bits(4.0)), some(0.25));
    assert_eq!(bounded_ratio(bits(9.0), bits(4.0)), some(1.0));
    assert_eq!(bounded_ratio(bits(1.0), bits(0.0)), None);
    assert_eq!(mean_of_present(some(1.0), some(2.0)), some(1.5));
    assert_eq!(mean_of_present(None, some(2.0)), some(2.0));
    assert_eq!(mean_of_present(None, None), None);
}
