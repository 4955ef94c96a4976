//! The cached zoom and pan limits of the camera.

use vstd::prelude::*;

use crate::vec3::Vec3;

verus! {

/// Closest allowed zoom (smallest scale value), a fixed constant: 0.005.
pub const MIN_ZOOM_SCALE: i64 = 5_000;

/// Dynamic camera zoom limits and movement bounds, recomputed on level
/// change, rotation completion and viewport resize.
#[derive(Clone, Copy, PartialEq, Eq, Structural, Debug)]
pub struct CameraLimits {
    /// Closest zoom (smallest scale value); an explicit constant.
    pub min_zoom_scale: i64,
    /// Furthest zoom (largest scale value); the calculated optimal scale.
    pub max_zoom_scale: i64,
    /// Cached diagonal extent of the current level.
    pub level_diagonal: i64,
    /// Whether the limits still await their first recalculation.
    pub needs_recalculation: bool,
    /// Optimal camera position for the current level.
    pub optimal_camera_position: Vec3,
    /// Current movement (pan) distance allowed at the current zoom level.
    pub current_movement_radius: i64,
    /// Whether the latest completed rotation has been processed.
    pub rotation_processed: bool,
}

impl CameraLimits {
    /// The advertised invariant of the limits: the window between closest
    /// and furthest zoom is never empty.
    pub open spec fn wf(&self) -> bool {
        0 < self.min_zoom_scale < self.max_zoom_scale
    }
}

impl Default for CameraLimits {
    /// The limits before any level is framed: the fixed closest zoom, a
    /// provisional furthest zoom, and the built-in default level's rough
    /// size and camera position.
    fn default() -> (r: CameraLimits)
        ensures
            r.wf(),
            r.min_zoom_scale == MIN_ZOOM_SCALE,
            r.max_zoom_scale == 50_000,
            r.level_diagonal == 10_000_000,
            r.needs_recalculation == true,
            r.optimal_camera_position == (Vec3 { x: 4_500_000i64, y: 20_000_000i64, z: -4_500_000i64 }),
            r.current_movement_radius == 5_000_000,
            r.rotation_processed == false,
    {
        CameraLimits {
            min_zoom_scale: MIN_ZOOM_SCALE,
            max_zoom_scale: 50_000,
            level_diagonal: 10_000_000,
            needs_recalculation: true,
            optimal_camera_position: Vec3 { x: 4_500_000, y: 20_000_000, z: -4_500_000 },
            current_movement_radius: 5_000_000,
            rotation_processed: false,
        }
    }
}

} // verus!
