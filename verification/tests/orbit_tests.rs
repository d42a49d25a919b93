use icosphere::orbit::{OrbitCamera, ANGLE_SCALE, FULL_TURN, HALF_TURN, QUARTER_TURN};

#[test]
fn new_camera_defaults() {
    let cam = OrbitCamera::new();
    assert_eq!(cam.radius(), ANGLE_SCALE);
    assert_eq!(cam.longitude(), 0);
    assert_eq!(cam.latitude(), 0);
    assert!(!cam.orbiting);
}

/// Two whole turns plus a tenth of a radian wraps to exactly a tenth of a
/// radian, and a huge latitude clamps to the pole.
#[test]
fn wrap_and_clamp() {
    let mut cam = OrbitCamera::new();
    let tenth: i64 = ANGLE_SCALE / 10;
    cam.set_longitude(2 * FULL_TURN + tenth);
    assert_eq!(cam.longitude(), tenth);
    cam.set_latitude(10 * ANGLE_SCALE);
    assert_eq!(cam.latitude(), QUARTER_TURN);
    cam.set_latitude(-10 * ANGLE_SCALE);
    assert_eq!(cam.latitude(), -QUARTER_TURN);
    cam.set_latitude(123);
    assert_eq!(cam.latitude(), 123);
}

#[test]
fn wrap_negative_and_boundaries() {
    let mut cam = OrbitCamera::new();
    cam.set_longitude(-FULL_TURN - 1_000_000);
    assert_eq!(cam.longitude(), -1_000_000);
    cam.set_longitude(HALF_TURN);
    assert_eq!(cam.longitude(), HALF_TURN);
    cam.set_longitude(-HALF_TURN);
    assert_eq!(cam.longitude(), -HALF_TURN);
    cam.set_longitude(HALF_TURN + 2);
    assert_eq!(cam.longitude(), HALF_TURN + 2 - FULL_TURN);
}

/// While no drag is active, motion deltas change nothing.
#[test]
fn idle_deltas_are_ignored() {
    let mut cam = OrbitCamera::new();
    cam.set_polar(3 * ANGLE_SCALE, 500, -700);
    cam.delta_angles(12_345, -6_789);
    assert_eq!(cam.radius(), 3 * ANGLE_SCALE);
    assert_eq!(cam.longitude(), 500);
    assert_eq!(cam.latitude(), -700);
    assert!(!cam.orbiting);
}

/// During a drag, deltas accumulate into the angles, wrapping and clamping.
#[test]
fn drag_deltas_accumulate() {
    let mut cam = OrbitCamera::new();
    cam.start_orbiting();
    cam.delta_angles(1_000, 2_000);
    assert_eq!(cam.longitude(), 1_000);
    assert_eq!(cam.latitude(), 2_000);
    cam.delta_angles(HALF_TURN, 0);
    assert_eq!(cam.longitude(), 1_000 + HALF_TURN - FULL_TURN);
    cam.delta_angles(0, QUARTER_TURN);
    assert_eq!(cam.latitude(), QUARTER_TURN);
    cam.stop_orbiting();
    cam.delta_angles(999, 999);
    assert_eq!(cam.longitude(), 1_000 + HALF_TURN - FULL_TURN);
    assert_eq!(cam.latitude(), QUARTER_TURN);
}

#[test]
fn radius_floors_at_zero() {
    let mut cam = OrbitCamera::new();
    cam.set_radius(-5);
    assert_eq!(cam.radius(), 0);
    cam.set_radius(7);
    assert_eq!(cam.radius(), 7);
}

/// `set_polar` stores raw values without wrapping or clamping.
#[test]
fn set_polar_is_raw() {
    let mut cam = OrbitCamera::new();
    cam.set_polar(5, FULL_TURN, 99_999_999);
    assert_eq!(cam.radius(), 5);
    assert_eq!(cam.longitude(), FULL_TURN);
    assert_eq!(cam.latitude(), 99_999_999);
}

/// A press starts the drag, a release ends it; a release wins over a press
/// in the same round, and motion applies with the updated flag.
#[test]
fn input_drives_the_drag() {
    let mut cam = OrbitCamera::new();
    cam.input(true, false, Some((100, 200)));
    assert!(cam.orbiting);
    assert_eq!(cam.longitude(), 100);
    assert_eq!(cam.latitude(), 200);
    cam.input(false, true, Some((100, 200)));
    assert!(!cam.orbiting);
    assert_eq!(cam.longitude(), 100);
    assert_eq!(cam.latitude(), 200);
    cam.input(true, true, None);
    assert!(!cam.orbiting);
    cam.input(false, false, Some((7, 7)));
    assert_eq!(cam.longitude(), 100);
    assert_eq!(cam.latitude(), 200);
}
