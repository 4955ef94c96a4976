//! The mutable camera record: position, orientation, zoom.
//!
//! The orientation is carried as the yaw angle (millionths of a degree)
//! together with the unit forward vector it induces with the camera's fixed
//! downward pitch; the renderer owns the full rotation, the library reads
//! only these two projections of it.

use vstd::prelude::*;

use crate::fixed::{clamp_i64, div_trunc, div_trunc_i64, isqrt64, lemma_div_trunc_bound, SCALE};
use crate::limits::CameraLimits;
use crate::orbit::orbit_camera_around_point;
use crate::raycast::{dir_in_range, pos_in_range};
use crate::vec3::Vec3;

verus! {

/// Movement speed of the camera: ten world units per second.
pub const MOVE_SPEED: i64 = 10;

/// Mouse panning moves the camera 0.01 world units per pixel of motion.
pub const PAN_SENSITIVITY_DIVISOR: i64 = 100;

/// The camera's forward direction flattened to the ground plane and
/// normalized: the direction keyboard movement walks along. The result's
/// planar components are each at most one world unit, its length within
/// one fixed-point step of a unit, and its vertical component zero.
pub fn planar_forward(forward: Vec3) -> (p: Vec3)
    requires
        dir_in_range(forward),
        forward.x != 0 || forward.z != 0,
    ensures
        ({
            let norm_sq = forward.x * forward.x + forward.z * forward.z;
            exists|n: int|
                {
                    &&& 1 <= n <= 3_000_000
                    &&& #[trigger] (n * n) <= norm_sq < (n + 1) * (n + 1)
                    &&& p.x == div_trunc(forward.x * SCALE, n)
                    &&& p.z == div_trunc(forward.z * SCALE, n)
                }
        }),
        p.y == 0,
        -SCALE <= p.x <= SCALE,
        -SCALE <= p.z <= SCALE,
{
    proof {
        assert(0 <= forward.x * forward.x <= 4_000_000_000_000 && 0 <= forward.z * forward.z
            <= 4_000_000_000_000) by (nonlinear_arith)
            requires
                -2_000_000 <= forward.x <= 2_000_000,
                -2_000_000 <= forward.z <= 2_000_000,
        ;
    }
    let norm_sq: i64 = forward.x * forward.x + forward.z * forward.z;
    let n_u: u64 = isqrt64(norm_sq as u64);
    proof {
        assert(n_u <= 3_000_000) by (nonlinear_arith)
            requires
                n_u * n_u <= 8_000_000_000_000,
        ;
    }
    let n: i64 = n_u as i64;
    proof {
        assert(n >= 1) by (nonlinear_arith)
            requires
                forward.x != 0 || forward.z != 0,
                norm_sq == forward.x * forward.x + forward.z * forward.z,
                norm_sq < (n + 1) * (n + 1),
                n >= 0,
        ;
        let ax = if forward.x >= 0 { forward.x as int } else { -(forward.x as int) };
        assert(ax <= n) by (nonlinear_arith)
            requires
                ax == (if forward.x >= 0 { forward.x as int } else { -(forward.x as int) }),
                n >= 0,
                norm_sq == forward.x * forward.x + forward.z * forward.z,
                norm_sq < (n + 1) * (n + 1),
        ;
        let az = if forward.z >= 0 { forward.z as int } else { -(forward.z as int) };
        assert(az <= n) by (nonlinear_arith)
            requires
                az == (if forward.z >= 0 { forward.z as int } else { -(forward.z as int) }),
                n >= 0,
                norm_sq == forward.x * forward.x + forward.z * forward.z,
                norm_sq < (n + 1) * (n + 1),
        ;
        assert(-n <= forward.x <= n && -n <= forward.z <= n);
        assert(-(SCALE as int) * n <= forward.x * SCALE <= (SCALE as int) * n)
            by (nonlinear_arith)
            requires
                -n <= forward.x <= n,
        ;
        assert(-(SCALE as int) * n <= forward.z * SCALE <= (SCALE as int) * n)
            by (nonlinear_arith)
            requires
                -n <= forward.z <= n,
        ;
        lemma_div_trunc_bound((forward.x * SCALE) as int, n as int, SCALE as int);
        lemma_div_trunc_bound((forward.z * SCALE) as int, n as int, SCALE as int);
    }
    let px = div_trunc_i64(forward.x * SCALE, n);
    let pz = div_trunc_i64(forward.z * SCALE, n);
    Vec3 { x: px, y: 0, z: pz }
}

/// The horizontal right-hand direction of a camera whose planar forward is
/// `planar`: the forward turned a quarter turn about the vertical axis.
pub open spec fn right_of(planar: Vec3) -> Vec3 {
    Vec3 { x: (-planar.z) as i64, y: 0, z: planar.x }
}

/// Keyboard movement for one tick: each pressed key contributes the
/// movement speed along the planar forward or right direction, scaled by
/// the tick duration — movement aligned with the camera view but parallel
/// to the ground.
pub fn camera_movement_delta(
    planar: Vec3,
    forward_key: bool,
    back_key: bool,
    left_key: bool,
    right_key: bool,
    dt_micros: i64,
) -> (d: Vec3)
    requires
        -SCALE <= planar.x <= SCALE,
        -SCALE <= planar.z <= SCALE,
        planar.y == 0,
        0 <= dt_micros <= 1_000_000_000,
    ensures
        ({
            let disp = MOVE_SPEED * dt_micros;
            let fwd_x = div_trunc(planar.x * disp, SCALE as int);
            let fwd_z = div_trunc(planar.z * disp, SCALE as int);
            let right_x = div_trunc(right_of(planar).x * disp, SCALE as int);
            let right_z = div_trunc(right_of(planar).z * disp, SCALE as int);
            &&& d.x == (if forward_key { fwd_x } else { 0int }) - (if back_key { fwd_x } else { 0int })
                + (if right_key { right_x } else { 0int }) - (if left_key { right_x } else { 0int })
            &&& d.y == 0
            &&& d.z == (if forward_key { fwd_z } else { 0int }) - (if back_key { fwd_z } else { 0int })
                + (if right_key { right_z } else { 0int }) - (if left_key { right_z } else { 0int })
        }),
        -40_000_000_000 <= d.x <= 40_000_000_000,
        -40_000_000_000 <= d.z <= 40_000_000_000,
{
    let disp: i64 = MOVE_SPEED * dt_micros;
    proof {
        assert(-10_000_000_000_000_000 <= planar.x * disp <= 10_000_000_000_000_000
            && -10_000_000_000_000_000 <= planar.z * disp <= 10_000_000_000_000_000)
            by (nonlinear_arith)
            requires
                -SCALE <= planar.x <= SCALE,
                -SCALE <= planar.z <= SCALE,
                0 <= disp <= 10_000_000_000,
        ;
        lemma_div_trunc_bound((planar.x * disp) as int, SCALE as int, 10_000_000_000);
        lemma_div_trunc_bound((planar.z * disp) as int, SCALE as int, 10_000_000_000);
        assert((-planar.z) * disp == -(planar.z * disp) && (-planar.z as int) * (disp as int)
            == -((planar.z as int) * (disp as int))) by (nonlinear_arith);
        lemma_div_trunc_bound(((-planar.z) * disp) as int, SCALE as int, 10_000_000_000);
    }
    let step_fwd_x = div_trunc_i64(planar.x * disp, SCALE);
    let step_fwd_z = div_trunc_i64(planar.z * disp, SCALE);
    let step_right_x = div_trunc_i64((-planar.z) * disp, SCALE);
    let step_right_z = step_fwd_x;
    let mut dx: i64 = 0;
    let mut dz: i64 = 0;
    if forward_key {
        dx = dx + step_fwd_x;
        dz = dz + step_fwd_z;
    }
    if back_key {
        dx = dx - step_fwd_x;
        dz = dz - step_fwd_z;
    }
    if right_key {
        dx = dx + step_right_x;
        dz = dz + step_right_z;
    }
    if left_key {
        dx = dx - step_right_x;
        dz = dz - step_right_z;
    }
    Vec3 { x: dx, y: 0, z: dz }
}

/// Mouse panning for one batch of motion: the pointer delta (in millionths
/// of a pixel) moves the camera against its horizontal axes at the fixed
/// sensitivity, with the vertical pointer axis inverted as panning
/// expects.
pub fn camera_pan_delta(planar: Vec3, pointer_dx: i64, pointer_dy: i64) -> (d: Vec3)
    requires
        -SCALE <= planar.x <= SCALE,
        -SCALE <= planar.z <= SCALE,
        planar.y == 0,
        -1_000_000_000 <= pointer_dx <= 1_000_000_000,
        -1_000_000_000 <= pointer_dy <= 1_000_000_000,
    ensures
        ({
            let along = div_trunc(pointer_dy as int, PAN_SENSITIVITY_DIVISOR as int);
            let across = div_trunc(-pointer_dx as int, PAN_SENSITIVITY_DIVISOR as int);
            &&& d.x == div_trunc(right_of(planar).x * across, SCALE as int) + div_trunc(
                planar.x * along,
                SCALE as int,
            )
            &&& d.y == 0
            &&& d.z == div_trunc(right_of(planar).z * across, SCALE as int) + div_trunc(
                planar.z * along,
                SCALE as int,
            )
        }),
{
    let along = div_trunc_i64(pointer_dy, PAN_SENSITIVITY_DIVISOR);
    let across = div_trunc_i64(-pointer_dx, PAN_SENSITIVITY_DIVISOR);
    proof {
        assert({
            &&& -10_000_000_000_000 <= planar.x * along <= 10_000_000_000_000
            &&& -10_000_000_000_000 <= planar.z * along <= 10_000_000_000_000
            &&& -10_000_000_000_000 <= (-planar.z) * across <= 10_000_000_000_000
            &&& -10_000_000_000_000 <= planar.x * across <= 10_000_000_000_000
        }) by (nonlinear_arith)
            requires
                -SCALE <= planar.x <= SCALE,
                -SCALE <= planar.z <= SCALE,
                -10_000_000 <= along <= 10_000_000,
                -10_000_000 <= across <= 10_000_000,
        ;
    }
    let rx = div_trunc_i64((-planar.z) * across, SCALE);
    let rz = div_trunc_i64(planar.x * across, SCALE);
    let fx = div_trunc_i64(planar.x * along, SCALE);
    let fz = div_trunc_i64(planar.z * along, SCALE);
    Vec3 { x: rx + fx, y: 0, z: rz + fz }
}

/// The camera's forward vector must point at least this steeply downward
/// (0.1 world units of drop per unit along the ray), so that inverse
/// raycasts stay within the world's coordinate bounds.
pub const MIN_PITCH_DOWN: i64 = 100_000;

/// One wheel unit changes the zoom scale by 1/10000 (0.0001).
pub const ZOOM_WHEEL_DIVISOR: i64 = 10_000;

/// A yaw angle folded back into one turn of zero after a step of at most a
/// quarter turn.
pub open spec fn wrap_turn(y: int) -> int {
    if y > 360_000_000 {
        y - 360_000_000
    } else if y < -360_000_000 {
        y + 360_000_000
    } else {
        y
    }
}

/// The mutable camera state the systems read and update.
#[derive(Clone, Copy, PartialEq, Eq, Structural, Debug)]
pub struct CameraState {
    /// World-space position, fixed point.
    pub position: Vec3,
    /// Yaw of the orientation, millionths of a degree.
    pub yaw_micro_deg: i64,
    /// Unit forward vector of the orientation, fixed point.
    pub forward: Vec3,
    /// Orthographic zoom scale, fixed point; smaller is closer.
    pub zoom_scale: i64,
}

impl CameraState {
    /// Validity: position and forward within the world bounds, the camera
    /// looking downward steeply enough, yaw within one turn of zero, and a
    /// positive bounded zoom scale.
    pub open spec fn wf(&self) -> bool {
        &&& pos_in_range(self.position)
        &&& dir_in_range(self.forward)
        &&& self.forward.y <= -MIN_PITCH_DOWN
        &&& -360_000_000 <= self.yaw_micro_deg <= 360_000_000
        &&& 0 < self.zoom_scale <= 4_100_000_000
    }

    /// The isometric starting pose: above the default grid center, yawed
    /// 45 degrees to one side and pitched 45 degrees down, at the initial
    /// zoom scale of 0.1.
    pub fn initial() -> (c: CameraState)
        ensures
            c.wf(),
            c.position == (Vec3 { x: 4_500_000i64, y: 20_000_000i64, z: -4_500_000i64 }),
            c.yaw_micro_deg == -45_000_000,
            c.forward == (Vec3 { x: 500_000i64, y: -707_107i64, z: -500_000i64 }),
            c.zoom_scale == 100_000,
    {
        CameraState {
            position: Vec3 { x: 4_500_000, y: 20_000_000, z: -4_500_000 },
            yaw_micro_deg: -45_000_000,
            forward: Vec3 { x: 500_000, y: -707_107, z: -500_000 },
            zoom_scale: 100_000,
        }
    }

    /// Apply one mouse-wheel zoom step: the scale moves against the wheel
    /// delta at the fixed sensitivity and, as every writer of the zoom
    /// scale does, is clamped into the current zoom window.
    pub fn apply_zoom_delta(&mut self, limits: &CameraLimits, wheel_delta: i64)
        requires
            old(self).wf(),
            limits.wf(),
            limits.max_zoom_scale <= 4_100_000_000,
            -1_000_000_000_000 <= wheel_delta <= 1_000_000_000_000,
        ensures
            final(self).wf(),
            final(self).zoom_scale == {
                let moved = old(self).zoom_scale - div_trunc(
                    wheel_delta as int,
                    ZOOM_WHEEL_DIVISOR as int,
                );
                if moved < limits.min_zoom_scale {
                    limits.min_zoom_scale as int
                } else if moved > limits.max_zoom_scale {
                    limits.max_zoom_scale as int
                } else {
                    moved
                }
            },
            final(self).position == old(self).position,
            final(self).yaw_micro_deg == old(self).yaw_micro_deg,
            final(self).forward == old(self).forward,
    {
        let step = div_trunc_i64(wheel_delta, ZOOM_WHEEL_DIVISOR);
        let moved = self.zoom_scale - step;
        self.zoom_scale = clamp_i64(moved, limits.min_zoom_scale, limits.max_zoom_scale);
    }

    /// One tick of the orbit rotation, applied to position and orientation
    /// together: the position turns around the pivot by the rotation whose
    /// cosine and sine are given, and the yaw advances by the same signed
    /// angle, folded back into one turn of zero. The cached forward
    /// projection is the caller's to refresh from the new yaw, since it is
    /// derived by floating-point trigonometry outside the library.
    pub fn apply_orbit_step(
        &mut self,
        pivot: Vec3,
        delta_micro_deg: i64,
        cos_val: i64,
        sin_val: i64,
    )
        requires
            -1_000_000_000_000 <= old(self).position.x <= 1_000_000_000_000,
            -1_000_000_000_000 <= old(self).position.z <= 1_000_000_000_000,
            -360_000_000 <= old(self).yaw_micro_deg <= 360_000_000,
            -SCALE <= cos_val <= SCALE,
            -SCALE <= sin_val <= SCALE,
            -1_000_000_000_000 <= pivot.x <= 1_000_000_000_000,
            -1_000_000_000_000 <= pivot.z <= 1_000_000_000_000,
            -90_000_000 <= delta_micro_deg <= 90_000_000,
        ensures
            final(self).position.x == pivot.x + div_trunc(
                (old(self).position.x - pivot.x) * cos_val + (old(self).position.z - pivot.z)
                    * sin_val,
                SCALE as int,
            ),
            final(self).position.y == old(self).position.y,
            final(self).position.z == pivot.z + div_trunc(
                (old(self).position.z - pivot.z) * cos_val - (old(self).position.x - pivot.x)
                    * sin_val,
                SCALE as int,
            ),
            final(self).yaw_micro_deg == wrap_turn(
                old(self).yaw_micro_deg + delta_micro_deg,
            ),
            -360_000_000 <= final(self).yaw_micro_deg <= 360_000_000,
            final(self).forward == old(self).forward,
            final(self).zoom_scale == old(self).zoom_scale,
    {
        orbit_camera_around_point(&mut self.position, pivot, cos_val, sin_val);
        let mut yaw = self.yaw_micro_deg + delta_micro_deg;
        if yaw > 360_000_000 {
            yaw = yaw - 360_000_000;
        } else if yaw < -360_000_000 {
            yaw = yaw + 360_000_000;
        }
        self.yaw_micro_deg = yaw;
    }

    /// Apply a movement or pan displacement to the camera position. The
    /// caller keeps the displacement inside the world bounds; orientation
    /// and zoom are untouched.
    pub fn apply_translation(&mut self, delta: Vec3)
        requires
            old(self).wf(),
            crate::raycast::pos_in_range(
                Vec3 {
                    x: (old(self).position.x + delta.x) as i64,
                    y: (old(self).position.y + delta.y) as i64,
                    z: (old(self).position.z + delta.z) as i64,
                },
            ),
            -crate::raycast::POS_LIMIT <= delta.x <= crate::raycast::POS_LIMIT,
            -crate::raycast::POS_LIMIT <= delta.y <= crate::raycast::POS_LIMIT,
            -crate::raycast::POS_LIMIT <= delta.z <= crate::raycast::POS_LIMIT,
        ensures
            final(self).wf(),
            final(self).position.x == old(self).position.x + delta.x,
            final(self).position.y == old(self).position.y + delta.y,
            final(self).position.z == old(self).position.z + delta.z,
            final(self).yaw_micro_deg == old(self).yaw_micro_deg,
            final(self).forward == old(self).forward,
            final(self).zoom_scale == old(self).zoom_scale,
    {
        self.position = Vec3 {
            x: self.position.x + delta.x,
            y: self.position.y + delta.y,
            z: self.position.z + delta.z,
        };
    }
}

} // verus!
