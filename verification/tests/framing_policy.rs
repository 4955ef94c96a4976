use hexcam::camera::CameraState;
use hexcam::framing::{
    apply_level_change, apply_rotation_complete, apply_window_resize, apply_zoom_change,
    calculate_movement_radius, calculate_optimal_camera_position, calculate_optimal_scale,
    get_viewport_size_for_orientation,
};
use hexcam::level::Level;
use hexcam::limits::CameraLimits;
use hexcam::orbit::{CameraRotationState, RotationMode};
use hexcam::vec3::Vec3;

#[test]
fn optimal_scale_formula_exact() {
    // diagonal 10, padding 3, viewport 100 pixels: 13 / 100 = 0.13
    assert_eq!(calculate_optimal_scale(10_000_000, 100), 130_000);
}

#[test]
fn movement_radius_interpolates_between_zoom_limits() {
    let limits = CameraLimits::default();
    // closest zoom leaves the full half diagonal of panning room
    assert_eq!(calculate_movement_radius(&limits, 5_000), 5_000_000);
    // furthest zoom leaves none
    assert_eq!(calculate_movement_radius(&limits, 50_000), 0);
    // midway leaves half
    assert_eq!(calculate_movement_radius(&limits, 27_500), 2_500_000);
    // scales below the window clamp to the closest zoom
    assert_eq!(calculate_movement_radius(&limits, 1_000), 5_000_000);
}

#[test]
fn viewport_follows_portrait_bands_of_yaw() {
    // default isometric yaw normalizes to 315 degrees: landscape
    assert_eq!(get_viewport_size_for_orientation(-45_000_000, 800, 600), 800);
    assert_eq!(get_viewport_size_for_orientation(0, 800, 600), 800);
    // within ten degrees of 45 degrees: portrait
    assert_eq!(get_viewport_size_for_orientation(45_000_000, 800, 600), 600);
    assert_eq!(get_viewport_size_for_orientation(36_000_000, 800, 600), 600);
    // within ten degrees of 225 degrees: portrait, also via negative yaw
    assert_eq!(get_viewport_size_for_orientation(225_000_000, 800, 600), 600);
    assert_eq!(get_viewport_size_for_orientation(-135_000_000, 800, 600), 600);
    // just outside a band: landscape again
    assert_eq!(get_viewport_size_for_orientation(56_000_000, 800, 600), 800);
}

#[test]
fn optimal_position_above_center_for_straight_down_forward() {
    let center = Vec3::new(0, 0, 0);
    let down = Vec3::new(0, -1_000_000, 0);
    let p = calculate_optimal_camera_position(center, down);
    assert_eq!((p.x, p.y, p.z), (0, 20_000_000, 0));
}

#[test]
fn optimal_position_offsets_against_forward() {
    let center = Vec3::new(5_196_152, 2_500_000, 3_000_000);
    let forward = Vec3::new(500_000, -707_107, -500_000);
    let p = calculate_optimal_camera_position(center, forward);
    // the fixed height offset above the center's height
    assert_eq!(p.y, 22_500_000);
    // displaced backward along the forward direction's ground projection
    assert!(p.x < center.x);
    assert!(p.z > center.z);
}

#[test]
fn level_change_recomputes_everything_in_order() {
    let mut cam = CameraState::initial();
    let mut limits = CameraLimits::default();
    let level = Level::new("Default Level".to_string(), 10, 10);
    apply_level_change(&mut cam, &mut limits, &level, 800, 600);
    assert_eq!(limits.level_diagonal, 27_166_153);
    assert_eq!(limits.max_zoom_scale, 37_707);
    assert_eq!(cam.zoom_scale, 37_707);
    assert_eq!(cam.position, limits.optimal_camera_position);
    assert_eq!(
        (cam.position.x, cam.position.y, cam.position.z),
        (-2_450_789, 22_499_997, 20_892_131)
    );
    // at the furthest zoom there is no panning room
    assert_eq!(limits.current_movement_radius, 0);
    assert!(!limits.needs_recalculation);
}

#[test]
fn window_resize_refits_zoom_and_radius() {
    let mut cam = CameraState::initial();
    let mut limits = CameraLimits::default();
    let level = Level::new("Default Level".to_string(), 10, 10);
    apply_level_change(&mut cam, &mut limits, &level, 800, 600);
    apply_window_resize(&cam, &mut limits, 100, 600);
    assert_eq!(limits.max_zoom_scale, 301_661);
    assert_eq!(limits.current_movement_radius, 12_085_536);
    // diagonal and position are kept
    assert_eq!(limits.level_diagonal, 27_166_153);
}

#[test]
fn zoom_change_updates_radius_only_past_epsilon() {
    let mut limits = CameraLimits::default();
    limits.current_movement_radius = 5_000_000;
    // same radius again: no update
    apply_zoom_change(&mut limits, 5_000);
    assert_eq!(limits.current_movement_radius, 5_000_000);
    // a real zoom move updates the radius
    apply_zoom_change(&mut limits, 27_500);
    assert_eq!(limits.current_movement_radius, 2_500_000);
}

#[test]
fn rotation_complete_guards_and_processes_once() {
    let cam = CameraState::initial();
    let level = Level::new("Default Level".to_string(), 10, 10);
    let mut limits = CameraLimits::default();
    let mut rotating = CameraRotationState::new();
    rotating.request_rotation(true, Vec3::new(0, 0, 0));
    // while rotating nothing is recomputed
    let before = limits;
    apply_rotation_complete(&rotating, &cam, &mut limits, &level, 800, 600);
    assert_eq!(limits, before);
    // at rest and unprocessed: limits refresh and the completion is marked
    let stable = CameraRotationState::new();
    apply_rotation_complete(&stable, &cam, &mut limits, &level, 800, 600);
    assert!(limits.rotation_processed);
    let processed = limits;
    // a second pass is a no-op
    apply_rotation_complete(&stable, &cam, &mut limits, &level, 800, 600);
    assert_eq!(limits, processed);
    assert!(matches!(stable.rotation_mode, RotationMode::Stable));
}

#[test]
fn zoom_input_moves_against_wheel_and_clamps() {
    let mut cam = CameraState::initial();
    let limits = CameraLimits::default();
    // initial zoom 0.1 is outside the zoom window: clamps down to its top
    cam.apply_zoom_delta(&limits, 1_000_000);
    assert_eq!(cam.zoom_scale, 50_000);
    // wheel up zooms in at 0.0001 per unit
    cam.apply_zoom_delta(&limits, 10_000_000);
    assert_eq!(cam.zoom_scale, 49_000);
    // wheel down zooms out again
    cam.apply_zoom_delta(&limits, -5_000_000);
    assert_eq!(cam.zoom_scale, 49_500);
    // clamped at the closest zoom
    cam.apply_zoom_delta(&limits, 1_000_000_000);
    assert_eq!(cam.zoom_scale, 5_000);
    // the clamp follows the current window, not a fixed range
    let mut tight = CameraLimits::default();
    tight.max_zoom_scale = 20_000;
    cam.apply_zoom_delta(&tight, -1_000_000_000);
    assert_eq!(cam.zoom_scale, 20_000);
}

#[test]
fn orbit_step_turns_position_and_yaw_together() {
    let mut cam = CameraState {
        position: Vec3 {
            x: 1_000_000,
            y: 5_000_000,
            z: 0,
        },
        yaw_micro_deg: -45_000_000,
        forward: Vec3 {
            x: 500_000,
            y: -707_107,
            z: -500_000,
        },
        zoom_scale: 100_000,
    };
    let pivot = Vec3 { x: 0, y: 0, z: 0 };
    // a clockwise quarter turn: cos -90 = 0, sin -90 = -1
    cam.apply_orbit_step(pivot, -90_000_000, 0, -1_000_000);
    assert_eq!(
        (cam.position.x, cam.position.y, cam.position.z),
        (0, 5_000_000, 1_000_000)
    );
    // the orientation turned by the same signed angle
    assert_eq!(cam.yaw_micro_deg, -135_000_000);
    assert_eq!(cam.zoom_scale, 100_000);
}

#[test]
fn planar_forward_normalizes_in_ground_plane() {
    let forward = Vec3 {
        x: 500_000,
        y: -707_107,
        z: -500_000,
    };
    let planar = hexcam::camera::planar_forward(forward);
    assert_eq!((planar.x, planar.y, planar.z), (707_107, 0, -707_107));
}

#[test]
fn movement_delta_walks_along_view_axes() {
    let planar = Vec3 {
        x: 1_000_000,
        y: 0,
        z: 0,
    };
    // one second forward at ten units per second
    let d = hexcam::camera::camera_movement_delta(planar, true, false, false, false, 1_000_000);
    assert_eq!((d.x, d.y, d.z), (10_000_000, 0, 0));
    // strafing right moves along the camera's right-hand axis
    let d = hexcam::camera::camera_movement_delta(planar, false, false, false, true, 1_000_000);
    assert_eq!((d.x, d.y, d.z), (0, 0, 10_000_000));
    // opposite keys cancel
    let d = hexcam::camera::camera_movement_delta(planar, true, true, false, false, 1_000_000);
    assert_eq!((d.x, d.y, d.z), (0, 0, 0));
}

#[test]
fn pan_delta_moves_against_pointer() {
    let planar = Vec3 {
        x: 1_000_000,
        y: 0,
        z: 0,
    };
    // dragging 100 pixels to the right pans one unit along minus right
    let d = hexcam::camera::camera_pan_delta(planar, 100_000_000, 0);
    assert_eq!((d.x, d.y, d.z), (0, 0, -1_000_000));
    // dragging 100 pixels down pans one unit along the planar forward
    let d = hexcam::camera::camera_pan_delta(planar, 0, 100_000_000);
    assert_eq!((d.x, d.y, d.z), (1_000_000, 0, 0));
}

#[test]
fn translation_moves_position_only() {
    let mut cam = CameraState::initial();
    let before = cam;
    cam.apply_translation(Vec3::new(1_000_000, 0, -2_000_000));
    assert_eq!(cam.position.x, before.position.x + 1_000_000);
    assert_eq!(cam.position.y, before.position.y);
    assert_eq!(cam.position.z, before.position.z - 2_000_000);
    assert_eq!(cam.yaw_micro_deg, before.yaw_micro_deg);
    assert_eq!(cam.zoom_scale, before.zoom_scale);
}
