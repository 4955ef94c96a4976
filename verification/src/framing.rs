//! The framing policy: optimal camera position, zoom scale and pan radius.
//!
//! Given the active level's metrics, the camera orientation and the
//! viewport size, these functions compute where the camera should stand,
//! how far out it may zoom so the level's diagonal still fits, and how much
//! panning room the current zoom leaves. The `apply_*` functions mirror the
//! recomputation that runs on a level change, on rotation completion, on a
//! zoom change and on a viewport resize, in that dependency order.

use vstd::prelude::*;

use crate::camera::{CameraState, MIN_PITCH_DOWN};
use crate::fixed::{clamp_i64, div_trunc, div_trunc_i64, lemma_div_trunc_bound, SCALE};
use crate::level::Level;
use crate::limits::{CameraLimits, MIN_ZOOM_SCALE};
use crate::orbit::{CameraRotationState, RotationMode};
use crate::raycast::{dir_in_range, DIR_LIMIT};
use crate::vec3::Vec3;

verus! {

/// Fixed padding added around the level diagonal when fitting it to the
/// viewport: three world units.
pub const FRAME_PADDING: i64 = 3_000_000;

/// Fixed height of the camera above the terrain center: twenty world
/// units.
pub const CAMERA_HEIGHT_OFFSET: i64 = 20_000_000;

/// Largest accepted viewport dimension, in pixels.
pub const VIEWPORT_LIMIT: i64 = 1_000_000;

/// A zoom-change smaller than this (0.001 world units) does not disturb
/// the cached movement radius.
pub const RADIUS_CHANGE_EPSILON: i64 = 1_000;

/// `x` clamped into `[lo, hi]`.
pub open spec fn clamp_spec(x: int, lo: int, hi: int) -> int {
    if x < lo {
        lo
    } else if x > hi {
        hi
    } else {
        x
    }
}

/// The furthest-zoom scale that exactly fits `diag` plus the fixed padding
/// into a viewport of `viewport` pixels.
pub open spec fn optimal_scale_of(diag: int, viewport: int) -> int {
    (diag + FRAME_PADDING) / viewport
}

/// Whether the yaw (millionths of a degree, within one turn of zero) sits
/// in one of the two portrait bands: within ten degrees of 45 or of 225
/// degrees of normalized yaw.
pub open spec fn is_portrait_yaw(yaw: int) -> bool {
    let n = if yaw < 0 {
        yaw + 360_000_000
    } else {
        yaw
    };
    (35_000_000 <= n && n <= 55_000_000) || (215_000_000 <= n && n <= 235_000_000)
}

/// The viewport dimension the diagonal must fit: the window height in the
/// portrait bands, the window width otherwise.
pub open spec fn viewport_of(yaw: int, window_width: int, window_height: int) -> int {
    if is_portrait_yaw(yaw) {
        window_height
    } else {
        window_width
    }
}

/// Pan radius by linear interpolation between the zoom limits: half the
/// level diagonal at the closest zoom, zero at the furthest, after
/// clamping the current scale into range.
pub open spec fn movement_radius_of(min_scale: int, max_scale: int, diag: int, scale: int) -> int {
    let clamped = clamp_spec(scale, min_scale, max_scale);
    div_trunc((max_scale - clamped) * (diag / 2), max_scale - min_scale)
}

/// The camera position from which the given forward direction passes
/// exactly through `center`, standing the fixed height offset above it.
pub open spec fn optimal_position_of(center: Vec3, fwd: Vec3) -> Vec3 {
    let t = div_trunc((CAMERA_HEIGHT_OFFSET as int) * (SCALE as int), -(fwd.y as int));
    Vec3 {
        x: (center.x - div_trunc(t * fwd.x, SCALE as int)) as i64,
        y: (center.y + CAMERA_HEIGHT_OFFSET) as i64,
        z: (center.z - div_trunc(t * fwd.z, SCALE as int)) as i64,
    }
}

/// The world position of the active level's center, as
/// [`Level::get_center_world_pos`] computes it.
pub open spec fn center_world_of(l: &Level) -> Vec3 {
    Vec3 {
        x: div_trunc(l.center_sum().0, l.center_count()) as i64,
        y: div_trunc(l.center_sum().1, l.center_count()) as i64,
        z: div_trunc(l.center_sum().2, l.center_count()) as i64,
    }
}

/// The furthest-zoom scale for a level diagonal and viewport size:
/// `(diagonal + padding) / viewport_size`.
pub fn calculate_optimal_scale(level_diagonal: i64, viewport_size: i64) -> (s: i64)
    requires
        0 <= level_diagonal <= 4_000_000_000,
        0 < viewport_size <= VIEWPORT_LIMIT,
    ensures
        s == optimal_scale_of(level_diagonal as int, viewport_size as int),
        0 <= s <= 4_003_000_000,
{
    (level_diagonal + FRAME_PADDING) / viewport_size
}

/// The viewport dimension that the level diagonal must fit for the current
/// camera orientation.
pub fn get_viewport_size_for_orientation(
    yaw_micro_deg: i64,
    window_width: i64,
    window_height: i64,
) -> (v: i64)
    requires
        -360_000_000 <= yaw_micro_deg <= 360_000_000,
        0 < window_width <= VIEWPORT_LIMIT,
        0 < window_height <= VIEWPORT_LIMIT,
    ensures
        v == viewport_of(yaw_micro_deg as int, window_width as int, window_height as int),
        0 < v <= VIEWPORT_LIMIT,
{
    let normalized_yaw = if yaw_micro_deg < 0 {
        yaw_micro_deg + 360_000_000
    } else {
        yaw_micro_deg
    };
    let is_portrait = (35_000_000 <= normalized_yaw && normalized_yaw <= 55_000_000) || (
    215_000_000 <= normalized_yaw && normalized_yaw <= 235_000_000);
    if is_portrait {
        window_height
    } else {
        window_width
    }
}

/// Movement radius for the current zoom: half the cached level diagonal at
/// the closest zoom, shrinking linearly to zero at the furthest zoom.
pub fn calculate_movement_radius(camera_limits: &CameraLimits, current_scale: i64) -> (r: i64)
    requires
        camera_limits.wf(),
        camera_limits.max_zoom_scale <= 4_100_000_000,
        0 <= camera_limits.level_diagonal <= 4_000_000_000,
        -4_100_000_000 <= current_scale <= 4_100_000_000,
    ensures
        r == movement_radius_of(
            camera_limits.min_zoom_scale as int,
            camera_limits.max_zoom_scale as int,
            camera_limits.level_diagonal as int,
            current_scale as int,
        ),
        0 <= r <= camera_limits.level_diagonal / 2,
{
    let min_s = camera_limits.min_zoom_scale;
    let max_s = camera_limits.max_zoom_scale;
    let clamped = clamp_i64(current_scale, min_s, max_s);
    let half_diag = camera_limits.level_diagonal / 2;
    proof {
        assert((max_s - clamped) * half_diag <= (max_s - min_s) * half_diag && 0 <= (max_s
            - clamped) * half_diag) by (nonlinear_arith)
            requires
                0 <= max_s - clamped <= max_s - min_s,
                half_diag >= 0,
        ;
        assert((max_s - min_s) * half_diag <= 8_200_000_000_000_000_000) by (nonlinear_arith)
            requires
                0 < max_s - min_s <= 4_100_000_000,
                0 <= half_diag <= 2_000_000_000,
        ;
        assert(((max_s - min_s) as int) * (half_diag as int) == (half_diag as int) * ((max_s
            - min_s) as int) && (half_diag as int) * ((max_s - min_s) as int) >= 0 && (-(
        half_diag as int)) * ((max_s - min_s) as int) == -((half_diag as int) * ((max_s
            - min_s) as int))) by (nonlinear_arith)
            requires
                half_diag >= 0,
                max_s > min_s,
        ;
        lemma_div_trunc_bound(
            ((max_s - clamped) * half_diag) as int,
            (max_s - min_s) as int,
            half_diag as int,
        );
    }
    let num: i64 = (max_s - clamped) * half_diag;
    let r = div_trunc_i64(num, max_s - min_s);
    proof {
        assert(div_trunc(num as int, (max_s - min_s) as int) == (num as int) / ((max_s
            - min_s) as int));
        assert((num as int) / ((max_s - min_s) as int) >= 0) by (nonlinear_arith)
            requires
                num >= 0,
                max_s > min_s,
        ;
    }
    r
}

/// The camera position that frames `center_pos`: the fixed height offset
/// above the center's height, displaced in the ground plane so that the
/// existing forward direction, extended from the computed position, passes
/// through the center exactly.
pub fn calculate_optimal_camera_position(center_pos: Vec3, camera_forward: Vec3) -> (p: Vec3)
    requires
        -1_000_000_000 <= center_pos.x <= 1_000_000_000,
        -1_000_000_000 <= center_pos.y <= 1_000_000_000,
        -1_000_000_000 <= center_pos.z <= 1_000_000_000,
        dir_in_range(camera_forward),
        camera_forward.y <= -MIN_PITCH_DOWN,
    ensures
        p == optimal_position_of(center_pos, camera_forward),
        -1_500_000_000 <= p.x <= 1_500_000_000,
        -1_100_000_000 <= p.y <= 1_100_000_000,
        -1_500_000_000 <= p.z <= 1_500_000_000,
{
    let camera_height = center_pos.y + CAMERA_HEIGHT_OFFSET;
    let height_diff = camera_height - center_pos.y;
    proof {
        lemma_div_trunc_bound(
            (height_diff as int) * (SCALE as int),
            (-camera_forward.y) as int,
            200_000_000,
        );
    }
    let t = div_trunc_i64(height_diff * SCALE, -camera_forward.y);
    proof {
        assert(-400_000_000_000_000 <= t * camera_forward.x <= 400_000_000_000_000)
            by (nonlinear_arith)
            requires
                -200_000_000 <= t <= 200_000_000,
                -DIR_LIMIT <= camera_forward.x <= DIR_LIMIT,
        ;
        assert(-400_000_000_000_000 <= t * camera_forward.z <= 400_000_000_000_000)
            by (nonlinear_arith)
            requires
                -200_000_000 <= t <= 200_000_000,
                -DIR_LIMIT <= camera_forward.z <= DIR_LIMIT,
        ;
        lemma_div_trunc_bound((t * camera_forward.x) as int, SCALE as int, 400_000_000);
        lemma_div_trunc_bound((t * camera_forward.z) as int, SCALE as int, 400_000_000);
    }
    let camera_x = center_pos.x - div_trunc_i64(t * camera_forward.x, SCALE);
    let camera_z = center_pos.z - div_trunc_i64(t * camera_forward.z, SCALE);
    Vec3::new(camera_x, camera_height, camera_z)
}

/// Recompute everything a level switch invalidates, in dependency order:
/// cache the new diagonal, derive the optimal camera position from the new
/// center, refit the furthest zoom to the viewport, move the camera there
/// at that zoom (clamped into the zoom window), and refresh the pan
/// radius.
pub fn apply_level_change(
    cam: &mut CameraState,
    limits: &mut CameraLimits,
    level: &Level,
    window_width: i64,
    window_height: i64,
)
    requires
        old(cam).wf(),
        level.wf(),
        old(limits).min_zoom_scale == MIN_ZOOM_SCALE,
        0 < window_width <= VIEWPORT_LIMIT,
        0 < window_height <= VIEWPORT_LIMIT,
    ensures
        final(cam).wf(),
        final(limits).wf(),
        final(limits).level_diagonal >= 0,
        final(limits).level_diagonal * final(limits).level_diagonal <= level.diagonal_sq()
            < (final(limits).level_diagonal + 1) * (final(limits).level_diagonal + 1),
        final(limits).optimal_camera_position == optimal_position_of(
            center_world_of(level),
            old(cam).forward,
        ),
        final(limits).max_zoom_scale == {
            let s = optimal_scale_of(
                final(limits).level_diagonal as int,
                viewport_of(
                    old(cam).yaw_micro_deg as int,
                    window_width as int,
                    window_height as int,
                ),
            );
            if s > MIN_ZOOM_SCALE {
                s
            } else {
                MIN_ZOOM_SCALE + 1
            }
        },
        final(cam).position == final(limits).optimal_camera_position,
        final(cam).zoom_scale == clamp_spec(
            optimal_scale_of(
                final(limits).level_diagonal as int,
                viewport_of(
                    old(cam).yaw_micro_deg as int,
                    window_width as int,
                    window_height as int,
                ),
            ),
            MIN_ZOOM_SCALE as int,
            final(limits).max_zoom_scale as int,
        ),
        final(limits).current_movement_radius == movement_radius_of(
            MIN_ZOOM_SCALE as int,
            final(limits).max_zoom_scale as int,
            final(limits).level_diagonal as int,
            final(cam).zoom_scale as int,
        ),
        final(limits).needs_recalculation == false,
        final(limits).min_zoom_scale == MIN_ZOOM_SCALE,
        final(limits).rotation_processed == old(limits).rotation_processed,
        final(cam).yaw_micro_deg == old(cam).yaw_micro_deg,
        final(cam).forward == old(cam).forward,
{
    let diag = level.get_level_diagonal_extent();
    proof {
        lemma_diagonal_bound(level, diag as int);
    }
    limits.level_diagonal = diag;
    let center = level.get_center_world_pos();
    let optimal = calculate_optimal_camera_position(center, cam.forward);
    limits.optimal_camera_position = optimal;
    let viewport = get_viewport_size_for_orientation(
        cam.yaw_micro_deg,
        window_width,
        window_height,
    );
    let scale = calculate_optimal_scale(diag, viewport);
    let max_scale = if scale > MIN_ZOOM_SCALE {
        scale
    } else {
        MIN_ZOOM_SCALE + 1
    };
    limits.max_zoom_scale = max_scale;
    cam.position = optimal;
    cam.zoom_scale = clamp_i64(scale, MIN_ZOOM_SCALE, max_scale);
    limits.current_movement_radius = calculate_movement_radius(limits, cam.zoom_scale);
    limits.needs_recalculation = false;
}

/// A finished rotation has changed the orientation, so the viewport-aspect
/// framing changed with it: rederive the optimal position and the furthest
/// zoom, refresh the pan radius, and mark the rotation as processed. While
/// a rotation still runs, or when the finished one was already processed,
/// nothing changes.
pub fn apply_rotation_complete(
    rotation_state: &CameraRotationState,
    cam: &CameraState,
    limits: &mut CameraLimits,
    level: &Level,
    window_width: i64,
    window_height: i64,
)
    requires
        cam.wf(),
        level.wf(),
        old(limits).min_zoom_scale == MIN_ZOOM_SCALE,
        old(limits).wf(),
        0 <= old(limits).level_diagonal <= 4_000_000_000,
        0 < window_width <= VIEWPORT_LIMIT,
        0 < window_height <= VIEWPORT_LIMIT,
    ensures
        final(limits).wf(),
        !(rotation_state.rotation_mode is Stable) || old(limits).rotation_processed
            ==> *final(limits) == *old(limits),
        rotation_state.rotation_mode is Stable && !old(limits).rotation_processed ==> {
            &&& final(limits).optimal_camera_position == optimal_position_of(
                center_world_of(level),
                cam.forward,
            )
            &&& final(limits).max_zoom_scale == {
                let s = optimal_scale_of(
                    old(limits).level_diagonal as int,
                    viewport_of(
                        cam.yaw_micro_deg as int,
                        window_width as int,
                        window_height as int,
                    ),
                );
                if s > MIN_ZOOM_SCALE {
                    s
                } else {
                    MIN_ZOOM_SCALE + 1
                }
            }
            &&& final(limits).current_movement_radius == movement_radius_of(
                MIN_ZOOM_SCALE as int,
                final(limits).max_zoom_scale as int,
                old(limits).level_diagonal as int,
                cam.zoom_scale as int,
            )
            &&& final(limits).rotation_processed == true
            &&& final(limits).level_diagonal == old(limits).level_diagonal
            &&& final(limits).min_zoom_scale == old(limits).min_zoom_scale
            &&& final(limits).needs_recalculation == old(limits).needs_recalculation
        },
{
    if !matches!(rotation_state.rotation_mode, RotationMode::Stable) {
        return ;
    }
    if limits.rotation_processed {
        return ;
    }
    let center = level.get_center_world_pos();
    let updated_position = calculate_optimal_camera_position(center, cam.forward);
    limits.optimal_camera_position = updated_position;
    let viewport = get_viewport_size_for_orientation(
        cam.yaw_micro_deg,
        window_width,
        window_height,
    );
    let scale = calculate_optimal_scale(limits.level_diagonal, viewport);
    let max_scale = if scale > MIN_ZOOM_SCALE {
        scale
    } else {
        MIN_ZOOM_SCALE + 1
    };
    limits.max_zoom_scale = max_scale;
    limits.current_movement_radius = calculate_movement_radius(limits, cam.zoom_scale);
    limits.rotation_processed = true;
}

/// The window was resized: refit the furthest zoom to the new viewport and
/// refresh the pan radius; position and cached diagonal stay.
pub fn apply_window_resize(
    cam: &CameraState,
    limits: &mut CameraLimits,
    window_width: i64,
    window_height: i64,
)
    requires
        cam.wf(),
        old(limits).min_zoom_scale == MIN_ZOOM_SCALE,
        old(limits).wf(),
        0 <= old(limits).level_diagonal <= 4_000_000_000,
        0 < window_width <= VIEWPORT_LIMIT,
        0 < window_height <= VIEWPORT_LIMIT,
    ensures
        final(limits).wf(),
        final(limits).max_zoom_scale == {
            let s = optimal_scale_of(
                old(limits).level_diagonal as int,
                viewport_of(cam.yaw_micro_deg as int, window_width as int, window_height as int),
            );
            if s > MIN_ZOOM_SCALE {
                s
            } else {
                MIN_ZOOM_SCALE + 1
            }
        },
        final(limits).current_movement_radius == movement_radius_of(
            MIN_ZOOM_SCALE as int,
            final(limits).max_zoom_scale as int,
            old(limits).level_diagonal as int,
            cam.zoom_scale as int,
        ),
        final(limits).level_diagonal == old(limits).level_diagonal,
        final(limits).min_zoom_scale == old(limits).min_zoom_scale,
        final(limits).optimal_camera_position == old(limits).optimal_camera_position,
        final(limits).needs_recalculation == old(limits).needs_recalculation,
        final(limits).rotation_processed == old(limits).rotation_processed,
{
    let viewport = get_viewport_size_for_orientation(
        cam.yaw_micro_deg,
        window_width,
        window_height,
    );
    let scale = calculate_optimal_scale(limits.level_diagonal, viewport);
    let max_scale = if scale > MIN_ZOOM_SCALE {
        scale
    } else {
        MIN_ZOOM_SCALE + 1
    };
    limits.max_zoom_scale = max_scale;
    limits.current_movement_radius = calculate_movement_radius(limits, cam.zoom_scale);
}

/// The zoom scale changed: refresh the pan radius, unless the change moves
/// it by no more than the update epsilon, in which case the cached value
/// stands.
pub fn apply_zoom_change(limits: &mut CameraLimits, current_scale: i64)
    requires
        old(limits).wf(),
        old(limits).max_zoom_scale <= 4_100_000_000,
        0 <= old(limits).level_diagonal <= 4_000_000_000,
        0 <= old(limits).current_movement_radius <= 4_000_000_000,
        -4_100_000_000 <= current_scale <= 4_100_000_000,
    ensures
        final(limits).wf(),
        *final(limits) == {
            let nr = movement_radius_of(
                old(limits).min_zoom_scale as int,
                old(limits).max_zoom_scale as int,
                old(limits).level_diagonal as int,
                current_scale as int,
            );
            if nr - old(limits).current_movement_radius > RADIUS_CHANGE_EPSILON
                || old(limits).current_movement_radius - nr > RADIUS_CHANGE_EPSILON {
                (CameraLimits { current_movement_radius: nr as i64, ..*old(limits) })
            } else {
                *old(limits)
            }
        },
{
    let new_movement_radius = calculate_movement_radius(limits, current_scale);
    let diff = if new_movement_radius >= limits.current_movement_radius {
        new_movement_radius - limits.current_movement_radius
    } else {
        limits.current_movement_radius - new_movement_radius
    };
    if diff > RADIUS_CHANGE_EPSILON {
        limits.current_movement_radius = new_movement_radius;
    }
}

/// The diagonal of a well-formed level is at most about 2.5 thousand world
/// units, so every derived scale and radius stays within its bounds.
proof fn lemma_diagonal_bound(level: &Level, d: int)
    requires
        level.wf(),
        d >= 0,
        d * d <= level.diagonal_sq(),
    ensures
        d <= 4_000_000_000,
{
    let w = level.width as int;
    let h = level.height as int;
    let dx = crate::hex::world_x_of(w - 1, h - 1);
    let dz = crate::hex::world_z_of(h - 1);
    let n = level.heights@.len() as int;
    assert(n >= 1) by (nonlinear_arith)
        requires
            n == w * h,
            w >= 1,
            h >= 1,
    ;
    crate::level::lemma_prefix_bounds(
        level.heights@,
        n,
        -crate::level::HEIGHT_LIMIT as int,
        crate::level::HEIGHT_LIMIT as int,
    );
    let dy = crate::level::prefix_max(level.heights@, n) - crate::level::prefix_min(
        level.heights@,
        n,
    );
    assert(0 <= dx <= 1_000_000_000 && 0 <= dz <= 1_000_000_000);
    assert(0 <= dy <= 2_000_000_000);
    assert(dx * dx <= 1_000_000_000_000_000_000) by (nonlinear_arith)
        requires
            0 <= dx <= 1_000_000_000,
    ;
    assert(dy * dy <= 4_000_000_000_000_000_000) by (nonlinear_arith)
        requires
            0 <= dy <= 2_000_000_000,
    ;
    assert(dz * dz <= 1_000_000_000_000_000_000) by (nonlinear_arith)
        requires
            0 <= dz <= 1_000_000_000,
    ;
    assert(d <= 4_000_000_000) by (nonlinear_arith)
        requires
            d >= 0,
            d * d <= 6_000_000_000_000_000_000,
    ;
}

} // verus!
