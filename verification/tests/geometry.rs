use hexcam::hex::{hex_to_world, is_inside_regular_hexagon, Hex};
use hexcam::level::Level;

fn gradient_level(name: &str, w: i32, h: i32) -> Level {
    Level::new(name.to_string(), w, h)
}

#[test]
fn gradient_corners_of_default_grid() {
    let l = gradient_level("Default Level", 10, 10);
    assert_eq!(l.get_height(Hex::new(0, 0)), 1_000_000);
    assert_eq!(l.get_height(Hex::new(9, 9)), 4_000_000);
    assert_eq!(l.width, 10);
    assert_eq!(l.height, 10);
    assert_eq!(l.heights.len(), 100);
}

#[test]
fn gradient_single_cell_avoids_division_by_zero() {
    let l = gradient_level("One", 1, 1);
    assert_eq!(l.get_height(Hex::new(0, 0)), 1_000_000);
}

#[test]
fn out_of_bounds_height_is_sentinel_zero() {
    let l = gradient_level("Small", 3, 3);
    assert_eq!(l.get_height(Hex::new(-1, 0)), 0);
    assert_eq!(l.get_height(Hex::new(0, -1)), 0);
    assert_eq!(l.get_height(Hex::new(3, 0)), 0);
    assert_eq!(l.get_height(Hex::new(0, 3)), 0);
}

#[test]
fn hex_grid_enumerates_every_cell_once() {
    let l = gradient_level("Grid", 3, 4);
    let grid = l.get_hex_grid();
    assert_eq!(grid.len(), 12);
    for (i, cell) in grid.iter().enumerate() {
        assert_eq!(cell.x, (i / 4) as i32);
        assert_eq!(cell.y, (i % 4) as i32);
    }
}

#[test]
fn hex_projection_matches_reference_layout() {
    let layout = hexx::HexLayout::pointy().with_scale(hexx::Vec2::splat(1.0));
    for q in -3..4i32 {
        for r in -3..4i32 {
            let expected = layout.hex_to_world_pos(hexx::Hex::new(q, r));
            let (px, pz) = hex_to_world(Hex::new(q, r));
            let fx = px as f64 / 1_000_000.0;
            let fz = pz as f64 / 1_000_000.0;
            assert!((fx - expected.x as f64).abs() < 1e-3, "x off at ({q},{r})");
            assert!((fz - expected.y as f64).abs() < 1e-3, "z off at ({q},{r})");
        }
    }
}

#[test]
fn world_bounds_span_projection_extremes() {
    let l = gradient_level("Bounds", 3, 3);
    let (bmin, bmax) = l.get_world_bounds();
    assert_eq!(bmin.x, 0);
    assert_eq!(bmin.z, 0);
    assert_eq!(bmin.y, 1_000_000);
    assert_eq!(bmax.x, 5_196_152);
    assert_eq!(bmax.z, 3_000_000);
    assert_eq!(bmax.y, 4_000_000);
}

#[test]
fn diagonal_extent_exact_two_cell_field() {
    let l = gradient_level("Two", 2, 1);
    assert_eq!(l.get_height(Hex::new(0, 0)), 1_000_000);
    assert_eq!(l.get_height(Hex::new(1, 0)), 2_500_000);
    assert_eq!(l.get_level_diagonal_extent(), 2_291_287);
}

#[test]
fn diagonal_invariant_under_uniform_height_translation() {
    let base = gradient_level("Base", 4, 5);
    let mut shifted_heights = base.heights.clone();
    for v in shifted_heights.iter_mut() {
        *v += 2_500_000;
    }
    let shifted = Level {
        name: "Shifted".to_string(),
        width: 4,
        height: 5,
        heights: shifted_heights,
    };
    assert_eq!(
        base.get_level_diagonal_extent(),
        shifted.get_level_diagonal_extent()
    );
}

#[test]
fn diagonal_grows_with_height_spread() {
    let flat = Level {
        name: "Flat".to_string(),
        width: 3,
        height: 3,
        heights: vec![1_000_000; 9],
    };
    let mut tall_heights = vec![1_000_000; 9];
    tall_heights[8] = 9_000_000;
    let tall = Level {
        name: "Tall".to_string(),
        width: 3,
        height: 3,
        heights: tall_heights,
    };
    assert!(flat.get_level_diagonal_extent() < tall.get_level_diagonal_extent());
}

#[test]
fn center_cells_odd_odd_single() {
    let l = gradient_level("Odd", 5, 5);
    let centers = l.get_center_hexes();
    assert_eq!(centers.len(), 1);
    assert_eq!((centers[0].x, centers[0].y), (2, 2));
    let c = l.get_center_world_pos();
    assert_eq!((c.x, c.y, c.z), (5_196_152, 2_500_000, 3_000_000));
}

#[test]
fn center_cells_even_even_four_and_mean() {
    let l = gradient_level("Even", 4, 4);
    let centers = l.get_center_hexes();
    assert_eq!(centers.len(), 4);
    let coords: Vec<(i32, i32)> = centers.iter().map(|c| (c.x, c.y)).collect();
    assert_eq!(coords, vec![(1, 1), (2, 1), (1, 2), (2, 2)]);
    let c = l.get_center_world_pos();
    assert_eq!((c.x, c.y, c.z), (3_897_114, 2_499_997, 2_250_000));
}

#[test]
fn center_cells_mixed_parity_two() {
    let wide = gradient_level("Wide", 4, 3);
    let wc = wide.get_center_hexes();
    assert_eq!(wc.len(), 2);
    assert_eq!((wc[0].x, wc[0].y), (1, 1));
    assert_eq!((wc[1].x, wc[1].y), (2, 1));
    let tall = gradient_level("Tall", 3, 4);
    let tc = tall.get_center_hexes();
    assert_eq!(tc.len(), 2);
    assert_eq!((tc[0].x, tc[0].y), (1, 1));
    assert_eq!((tc[1].x, tc[1].y), (1, 2));
}

#[test]
fn single_cell_field_degenerates_to_origin_cell() {
    let l = gradient_level("One", 1, 1);
    let centers = l.get_center_hexes();
    assert_eq!(centers.len(), 1);
    assert_eq!((centers[0].x, centers[0].y), (0, 0));
    let c = l.get_center_world_pos();
    assert_eq!((c.x, c.y, c.z), (0, 1_000_000, 0));
    let (bmin, bmax) = l.get_world_bounds();
    assert_eq!(bmin, bmax);
    assert_eq!(l.get_level_diagonal_extent(), 0);
}

#[test]
fn largest_extent_field_roundtrips() {
    let l = gradient_level("Vast", 256, 256);
    assert_eq!(l.heights.len(), 256 * 256);
    assert_eq!(l.get_height(hexcam::hex::Hex::new(255, 255)), 4_000_000);
    let doc = hexcam::codec::render_level(&l);
    let back = hexcam::codec::parse_level(&doc).expect("parse");
    assert_eq!(back.heights, l.heights);
    assert!(l.get_level_diagonal_extent() > 0);
}

#[test]
fn hexagon_containment_symmetry_test() {
    // center of the hexagon is inside
    assert!(is_inside_regular_hexagon(0, 0, 0, 0, 1_000_000));
    // just within the apothem across
    assert!(is_inside_regular_hexagon(860_000, 0, 0, 0, 1_000_000));
    // beyond the apothem across
    assert!(!is_inside_regular_hexagon(870_000, 0, 0, 0, 1_000_000));
    // beyond the vertex vertically
    assert!(!is_inside_regular_hexagon(0, 1_000_001, 0, 0, 1_000_000));
    // a corner within both axis bounds passes the slanted-edge test too
    assert!(is_inside_regular_hexagon(800_000, 900_000, 0, 0, 1_000_000));
    // containment is relative to the center
    assert!(is_inside_regular_hexagon(5_000_000, 7_000_000, 5_000_000, 7_000_000, 1_000_000));
}
