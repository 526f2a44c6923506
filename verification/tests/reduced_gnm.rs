use nalgebra::{Quaternion, Rotation3, UnitQuaternion, Vector3};
use vtuber_tracking::binary::Binary32;
use vtuber_tracking::gnm_model::{DenseProjection, GnmReprojectionError};
use vtuber_tracking::reduced_gnm::seed_gnm_projection_rotation;

fn bits(value: f32) -> Binary32 {
    Binary32::from_bits(value.to_bits())
}

fn float(value: Binary32) -> f32 {
    f32::from_bits(value.to_bits())
}

fn transform_for(yaw: f32, pitch: f32, roll: f32) -> [f32; 4] {
    let rotation = Rotation3::from_axis_angle(&Vector3::z_axis(), roll)
        * Rotation3::from_axis_angle(&Vector3::x_axis(), pitch)
        * Rotation3::from_axis_angle(&Vector3::y_axis(), yaw);
    let quaternion = UnitQuaternion::from_rotation_matrix(&rotation);
    let value = quaternion.quaternion();
    [value.i, value.j, value.k, value.w]
}

fn is_unit(rotation_xyzw: [f32; 4]) -> bool {
    let square: f32 = rotation_xyzw.iter().map(|value| value * value).sum();
    square.is_finite() && (square - 1.0).abs() < 1.0e-3
}

fn seed(rotation_xyzw: [f32; 4], base: &DenseProjection) -> Result<DenseProjection, GnmReprojectionError> {
    let [x, y, z, w] = rotation_xyzw;
    let rotation = UnitQuaternion::from_quaternion(Quaternion::new(w, x, y, z));
    let matrix = rotation.to_rotation_matrix();
    let values = matrix.matrix();
    let pitch = values[(2, 1)].clamp(-1.0, 1.0).asin();
    let yaw = (-values[(2, 0)]).atan2(values[(2, 2)]);
    let roll = (-values[(0, 1)]).atan2(values[(1, 1)]);
    seed_gnm_projection_rotation(is_unit(rotation_xyzw), [bits(yaw), bits(pitch), bits(roll)], base)
}

#[test]
fn pose_seed_round_trips_axes_signs_and_preserves_camera_fields() {
    let base = DenseProjection::new(
        [Binary32::zero(); 3],
        [bits(0.1), bits(-0.2), bits(0.7)],
        bits(1.4),
        [bits(0.45), bits(0.55)],
    )
    .unwrap();
    for expected in [[0.3, 0.0, 0.0], [0.0, -0.2, 0.0], [0.0, 0.0, 0.4]] {
        let seeded = seed(transform_for(expected[0], expected[1], expected[2]), &base).unwrap();
        for (actual, expected) in seeded.yaw_pitch_roll.iter().zip(expected) {
            assert!((float(*actual) - expected).abs() < 1.0e-5);
        }
        assert_eq!(seeded.translation, base.translation);
        assert_eq!(seeded.focal, base.focal);
        assert_eq!(seeded.principal_point, base.principal_point);
    }
}

#[test]
fn invalid_transform_is_a_typed_projection_error() {
    let base = DenseProjection::new(
        [Binary32::zero(); 3],
        [bits(0.0), bits(0.0), bits(1.0)],
        bits(1.0),
        [bits(0.5), bits(0.5)],
    )
    .unwrap();
    assert!(matches!(
        seed([f32::NAN, 0.0, 0.0, 1.0], &base),
        Err(GnmReprojectionError::InvalidProjection(_))
    ));
}
