use hexcam::limits::CameraLimits;
use hexcam::orbit::{orbit_camera_around_point, CameraRotationState, RotationMode};
use hexcam::vec3::Vec3;

#[test]
fn full_quarter_turn_consumes_exactly_ninety_degrees() {
    let mut state = CameraRotationState::new();
    let mut limits = CameraLimits::default();
    let pivot = Vec3::new(1_000_000, 0, 2_000_000);
    state.request_rotation(true, pivot);
    assert!(matches!(state.rotation_mode, RotationMode::Clockwise(90_000_000)));
    assert_eq!(state.focus_point, pivot);

    // unequal time steps; 180 degrees per second
    let mut total: i64 = 0;
    let mut ticks = 0;
    for dt in [100_000i64, 123_456, 150_000, 1_000_000] {
        // the pivot captured at request time never moves between ticks
        assert_eq!(state.focus_point, pivot);
        total += state.rotation_tick(&mut limits, dt);
        ticks += 1;
    }
    assert_eq!(ticks, 4);
    // clockwise rotation turns by negative angles totalling one quarter turn
    assert_eq!(total, -90_000_000);
    assert!(matches!(state.rotation_mode, RotationMode::Stable));
    assert_eq!(state.focus_point, pivot);
    // completion flags the limits as awaiting their post-rotation refresh
    assert!(!limits.rotation_processed);
}

#[test]
fn counterclockwise_turn_accumulates_positive_angle() {
    let mut state = CameraRotationState::new();
    let mut limits = CameraLimits::default();
    state.request_rotation(false, Vec3::new(0, 0, 0));
    assert!(matches!(state.rotation_mode, RotationMode::CounterClockwise(90_000_000)));
    let mut total: i64 = 0;
    while !matches!(state.rotation_mode, RotationMode::Stable) {
        total += state.rotation_tick(&mut limits, 40_000);
    }
    assert_eq!(total, 90_000_000);
}

#[test]
fn requests_during_active_rotation_are_ignored() {
    let mut state = CameraRotationState::new();
    let mut limits = CameraLimits::default();
    let first_pivot = Vec3::new(5_000_000, 0, 0);
    state.request_rotation(true, first_pivot);
    state.rotation_tick(&mut limits, 50_000);
    // a second request must not replace the running rotation or its pivot
    state.request_rotation(false, Vec3::new(-9_000_000, 0, 7));
    assert_eq!(state.focus_point, first_pivot);
    assert!(matches!(state.rotation_mode, RotationMode::Clockwise(81_000_000)));
}

#[test]
fn tick_at_rest_changes_nothing() {
    let mut state = CameraRotationState::new();
    let mut limits = CameraLimits::default();
    let delta = state.rotation_tick(&mut limits, 500_000);
    assert_eq!(delta, 0);
    assert!(matches!(state.rotation_mode, RotationMode::Stable));
}

#[test]
fn orbit_quarter_turn_around_pivot() {
    let mut position = Vec3::new(1_000_000, 5_000_000, 0);
    let pivot = Vec3::new(0, 0, 0);
    // cos 90 = 0, sin 90 = 1
    orbit_camera_around_point(&mut position, pivot, 0, 1_000_000);
    assert_eq!((position.x, position.y, position.z), (0, 5_000_000, -1_000_000));
}

#[test]
fn orbit_thirty_degrees_exact_fixed_point() {
    let mut position = Vec3::new(1_000_000, 0, 0);
    let pivot = Vec3::new(0, 0, 0);
    orbit_camera_around_point(&mut position, pivot, 866_025, 500_000);
    assert_eq!((position.x, position.z), (866_025, -500_000));
}

#[test]
fn orbit_preserves_height_and_respects_pivot() {
    let mut position = Vec3::new(3_000_000, 7_500_000, 2_000_000);
    let pivot = Vec3::new(3_000_000, 0, 2_000_000);
    // rotating a point standing on the axis leaves it in place
    orbit_camera_around_point(&mut position, pivot, 0, 1_000_000);
    assert_eq!((position.x, position.y, position.z), (3_000_000, 7_500_000, 2_000_000));
}
