use hexcam::level::Level;
use hexcam::raycast::{calculate_camera_focus_point, raycast_hex_surfaces};
use hexcam::vec3::Vec3;

fn single_cell_field() -> Level {
    Level::new("One Cell".to_string(), 1, 1)
}

#[test]
fn straight_down_ray_hits_cell_top_surface() {
    let field = single_cell_field();
    let camera = Vec3::new(0, 10_000_000, 0);
    let down = Vec3::new(0, -1_000_000, 0);
    let focus = calculate_camera_focus_point(camera, down, &field);
    // the cell's top surface at height 1.0, not the ground-plane fallback
    assert_eq!((focus.x, focus.y, focus.z), (0, 1_000_000, 0));
}

#[test]
fn horizontal_ray_returns_point_ahead() {
    let field = single_cell_field();
    let camera = Vec3::new(0, 10_000_000, 0);
    let level_dir = Vec3::new(1_000_000, 0, 0);
    let focus = calculate_camera_focus_point(camera, level_dir, &field);
    // ten world units straight ahead along the ray, no division by zero
    assert_eq!((focus.x, focus.y, focus.z), (10_000_000, 10_000_000, 0));
}

#[test]
fn nearly_horizontal_ray_also_takes_point_ahead() {
    let field = single_cell_field();
    let camera = Vec3::new(0, 10_000_000, 0);
    let slight = Vec3::new(1_000_000, -999, 0);
    let focus = calculate_camera_focus_point(camera, slight, &field);
    assert_eq!((focus.x, focus.y, focus.z), (10_000_000, 9_990_010, 0));
}

#[test]
fn ray_missing_all_cells_falls_back_to_ground_plane() {
    let field = single_cell_field();
    // far to the side of the only cell, looking straight down
    let camera = Vec3::new(-50_000_000, 10_000_000, 0);
    let down = Vec3::new(0, -1_000_000, 0);
    let focus = calculate_camera_focus_point(camera, down, &field);
    assert_eq!((focus.x, focus.y, focus.z), (-50_000_000, 0, 0));
}

#[test]
fn raycast_reports_no_hit_for_horizontal_ray() {
    let field = single_cell_field();
    let camera = Vec3::new(0, 10_000_000, 0);
    let level_dir = Vec3::new(1_000_000, 500, 0);
    assert!(raycast_hex_surfaces(camera, level_dir, &field).is_none());
}

#[test]
fn raycast_reports_hit_point_on_surface() {
    let field = Level::new("Grid".to_string(), 3, 3);
    // slightly off-center above cell (1, 1), looking straight down
    let center_x = 1_732_051 + 866_025; // world x of cell (1, 1)
    let center_z = 1_500_000;
    let camera = Vec3::new(center_x + 100_000, 25_000_000, center_z - 50_000);
    let down = Vec3::new(0, -1_000_000, 0);
    let hit = raycast_hex_surfaces(camera, down, &field).expect("surface hit");
    assert_eq!(hit.y, field.get_height(hexcam::hex::Hex::new(1, 1)));
    assert_eq!(hit.x, camera.x);
    assert_eq!(hit.z, camera.z);
}
