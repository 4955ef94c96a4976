//! Raycasting the camera's view ray against the hex terrain.
//!
//! For every cell the ray is intersected with the cell's constant-height top
//! plane; the first cell (in grid order) that contains its own intersection
//! point wins. When no top surface is hit the caller falls back to the
//! ground plane, and for a near-horizontal ray to a fixed point ahead, so a
//! focus point always exists.
//!
//! Only top faces are tested, never side walls: a very low-angle ray can
//! miss every top surface and take the ground-plane fallback.

use vstd::prelude::*;

use crate::fixed::{div_trunc, div_trunc_i64, lemma_div_trunc_bound, SCALE};
use crate::hex::{hex_to_world, inside_hex, is_inside_regular_hexagon, world_x_of, world_z_of, Hex};
use crate::level::Level;
use crate::vec3::Vec3;

verus! {

/// A ray direction with a vertical component smaller than this is treated
/// as parallel to the ground (0.001 world units).
pub const DIR_EPSILON: i64 = 1_000;

/// Largest admissible magnitude of a camera position component
/// (2000 world units).
pub const POS_LIMIT: i64 = 2_000_000_000;

/// Largest admissible magnitude of a ray direction component (2 world
/// units; a unit vector always fits).
pub const DIR_LIMIT: i64 = 2_000_000;

/// Center-to-vertex distance of a grid hexagon: one world unit.
pub const HEX_RADIUS: i64 = 1_000_000;

/// Every component within the camera position limit.
pub open spec fn pos_in_range(v: Vec3) -> bool {
    &&& -POS_LIMIT <= v.x <= POS_LIMIT
    &&& -POS_LIMIT <= v.y <= POS_LIMIT
    &&& -POS_LIMIT <= v.z <= POS_LIMIT
}

/// Every component within the direction limit.
pub open spec fn dir_in_range(v: Vec3) -> bool {
    &&& -DIR_LIMIT <= v.x <= DIR_LIMIT
    &&& -DIR_LIMIT <= v.y <= DIR_LIMIT
    &&& -DIR_LIMIT <= v.z <= DIR_LIMIT
}

/// The ray parameter at which `origin + t * dir` crosses the horizontal
/// plane at height `h`, truncated to fixed point.
pub open spec fn ray_t(h: int, oy: int, dy: int) -> int {
    div_trunc((h - oy) * (SCALE as int), dy)
}

/// One coordinate of the ray point at parameter `t`.
pub open spec fn ray_coord(o: int, d: int, t: int) -> int {
    o + div_trunc(t * d, SCALE as int)
}

/// Whether the ray from `origin` along `dir` strikes the top surface of
/// cell `(q, r)`: the crossing of the cell's height plane lies ahead of the
/// origin and inside the cell's hexagon footprint.
pub open spec fn cell_hit(l: &Level, origin: Vec3, dir: Vec3, q: int, r: int) -> bool {
    let h = l.height_at(q, r);
    let t = ray_t(h, origin.y as int, dir.y as int);
    &&& t >= 0
    &&& inside_hex(
        ray_coord(origin.x as int, dir.x as int, t),
        ray_coord(origin.z as int, dir.z as int, t),
        world_x_of(q, r),
        world_z_of(r),
        HEX_RADIUS as int,
    )
}

/// The world point reported for a hit on cell `(q, r)`: the planar crossing
/// point, lifted to the cell's exact surface height.
pub open spec fn cell_hit_point(l: &Level, origin: Vec3, dir: Vec3, q: int, r: int) -> Vec3 {
    let h = l.height_at(q, r);
    let t = ray_t(h, origin.y as int, dir.y as int);
    Vec3 {
        x: ray_coord(origin.x as int, dir.x as int, t) as i64,
        y: h as i64,
        z: ray_coord(origin.z as int, dir.z as int, t) as i64,
    }
}

/// Grid-order precedence: cell `(q1, r1)` is visited before `(q2, r2)`.
pub open spec fn grid_before(q1: int, r1: int, q2: int, r2: int) -> bool {
    q1 < q2 || (q1 == q2 && r1 < r2)
}

/// Raycast against hex top surfaces and report the first cell, in grid
/// order, whose top plane the ray crosses inside the cell's footprint.
/// A near-horizontal ray reports no hit at all.
pub fn raycast_hex_surfaces(camera_pos: Vec3, direction: Vec3, level: &Level) -> (res: Option<
    Vec3,
>)
    requires
        level.wf(),
        pos_in_range(camera_pos),
        dir_in_range(direction),
    ensures
        -DIR_EPSILON < direction.y < DIR_EPSILON ==> res is None,
        res is None ==> (-DIR_EPSILON < direction.y < DIR_EPSILON || forall|q: int, r: int|
            0 <= q < level.width && 0 <= r < level.height ==> !cell_hit(
                level,
                camera_pos,
                direction,
                q,
                r,
            )),
        res matches Some(p) ==> exists|q: int, r: int|
            {
                &&& 0 <= q < level.width && 0 <= r < level.height
                &&& #[trigger] cell_hit(level, camera_pos, direction, q, r)
                &&& p == cell_hit_point(level, camera_pos, direction, q, r)
                &&& forall|q2: int, r2: int|
                    0 <= q2 < level.width && 0 <= r2 < level.height && grid_before(q2, r2, q, r)
                        ==> !cell_hit(level, camera_pos, direction, q2, r2)
            },
{
    let dy = direction.y;
    if -DIR_EPSILON < dy && dy < DIR_EPSILON {
        return None;
    }
    let w = level.width;
    let h = level.height;
    let mut q: i32 = 0;
    while q < w
        invariant
            level.wf(),
            w == level.width,
            h == level.height,
            0 <= q <= w,
            pos_in_range(camera_pos),
            dir_in_range(direction),
            dy == direction.y,
            dy <= -DIR_EPSILON || dy >= DIR_EPSILON,
            forall|q2: int, r2: int|
                0 <= q2 < q && 0 <= r2 < h ==> !cell_hit(level, camera_pos, direction, q2, r2),
        decreases w - q,
    {
        let mut r: i32 = 0;
        while r < h
            invariant
                level.wf(),
                w == level.width,
                h == level.height,
                0 <= q < w,
                0 <= r <= h,
                pos_in_range(camera_pos),
                dir_in_range(direction),
                dy == direction.y,
                dy <= -DIR_EPSILON || dy >= DIR_EPSILON,
                forall|q2: int, r2: int|
                    0 <= q2 < q && 0 <= r2 < h ==> !cell_hit(level, camera_pos, direction, q2, r2),
                forall|r2: int|
                    0 <= r2 < r ==> !cell_hit(level, camera_pos, direction, q as int, r2),
            decreases h - r,
        {
            let cell = Hex::new(q, r);
            let hv = level.get_height(cell);
            proof {
                level.lemma_height_at_bounds(q as int, r as int);
            }
            let t_num: i64 = (hv - camera_pos.y) * SCALE;
            proof {
                lemma_div_trunc_bound(
                    t_num as int,
                    dy as int,
                    3_000_000_000_000,
                );
            }
            let t: i64 = div_trunc_i64(t_num, dy);
            if t >= 0 {
                proof {
                    assert(t * direction.x <= 6_000_000_000_000_000_000 && t * direction.x
                        >= -6_000_000_000_000_000_000) by (nonlinear_arith)
                        requires
                            -3_000_000_000_000 <= t <= 3_000_000_000_000,
                            -DIR_LIMIT <= direction.x <= DIR_LIMIT,
                    ;
                    assert(t * direction.z <= 6_000_000_000_000_000_000 && t * direction.z
                        >= -6_000_000_000_000_000_000) by (nonlinear_arith)
                        requires
                            -3_000_000_000_000 <= t <= 3_000_000_000_000,
                            -DIR_LIMIT <= direction.z <= DIR_LIMIT,
                    ;
                    lemma_div_trunc_bound(
                        (t * direction.x) as int,
                        SCALE as int,
                        6_000_000_000_000,
                    );
                    lemma_div_trunc_bound(
                        (t * direction.z) as int,
                        SCALE as int,
                        6_000_000_000_000,
                    );
                }
                let ix: i64 = camera_pos.x + div_trunc_i64(t * direction.x, SCALE);
                let iz: i64 = camera_pos.z + div_trunc_i64(t * direction.z, SCALE);
                let (hx, hz) = hex_to_world(cell);
                if is_inside_regular_hexagon(ix, iz, hx, hz, HEX_RADIUS) {
                    proof {
                        assert(cell_hit(level, camera_pos, direction, q as int, r as int));
                    }
                    return Some(Vec3::new(ix, hv, iz));
                }
            }
            proof {
                assert(!cell_hit(level, camera_pos, direction, q as int, r as int));
            }
            r += 1;
        }
        q += 1;
    }
    None
}

/// The world point the camera's forward ray focuses on, degrading through
/// three tiers: the first hex top surface hit; otherwise, for a ray that is
/// not near-horizontal, the crossing with the ground plane at height zero;
/// otherwise a point a fixed ten world units ahead along the ray. The
/// function always returns a point.
pub fn calculate_camera_focus_point(camera_pos: Vec3, forward_dir: Vec3, level: &Level) -> (p:
    Vec3)
    requires
        level.wf(),
        pos_in_range(camera_pos),
        dir_in_range(forward_dir),
    ensures
        (-DIR_EPSILON < forward_dir.y < DIR_EPSILON) ==> p == (Vec3 {
            x: (camera_pos.x + 10 * forward_dir.x) as i64,
            y: (camera_pos.y + 10 * forward_dir.y) as i64,
            z: (camera_pos.z + 10 * forward_dir.z) as i64,
        }),
        !(-DIR_EPSILON < forward_dir.y < DIR_EPSILON) && (forall|q: int, r: int|
            0 <= q < level.width && 0 <= r < level.height ==> !cell_hit(
                level,
                camera_pos,
                forward_dir,
                q,
                r,
            )) ==> {
            let t = ray_t(0, camera_pos.y as int, forward_dir.y as int);
            p == (Vec3 {
                x: ray_coord(camera_pos.x as int, forward_dir.x as int, t) as i64,
                y: 0i64,
                z: ray_coord(camera_pos.z as int, forward_dir.z as int, t) as i64,
            })
        },
        !(-DIR_EPSILON < forward_dir.y < DIR_EPSILON) ==> ((exists|q: int, r: int|
            0 <= q < level.width && 0 <= r < level.height && #[trigger] cell_hit(
                level,
                camera_pos,
                forward_dir,
                q,
                r,
            )) ==> exists|q: int, r: int|
            {
                &&& 0 <= q < level.width && 0 <= r < level.height
                &&& #[trigger] cell_hit(level, camera_pos, forward_dir, q, r)
                &&& p == cell_hit_point(level, camera_pos, forward_dir, q, r)
                &&& forall|q2: int, r2: int|
                    0 <= q2 < level.width && 0 <= r2 < level.height && grid_before(q2, r2, q, r)
                        ==> !cell_hit(level, camera_pos, forward_dir, q2, r2)
            }),
{
    if let Some(hex_intersection) = raycast_hex_surfaces(camera_pos, forward_dir, level) {
        return hex_intersection;
    }
    let dy = forward_dir.y;
    if -DIR_EPSILON < dy && dy < DIR_EPSILON {
        return Vec3::new(
            camera_pos.x + 10 * forward_dir.x,
            camera_pos.y + 10 * forward_dir.y,
            camera_pos.z + 10 * forward_dir.z,
        );
    }
    let t_num: i64 = (0 - camera_pos.y) * SCALE;
    proof {
        lemma_div_trunc_bound(t_num as int, dy as int, 2_000_000_000_000);
        assert((0 - camera_pos.y as int) * (SCALE as int) == (0int - camera_pos.y as int) * (
        SCALE as int));
    }
    let t: i64 = div_trunc_i64(t_num, dy);
    proof {
        assert(t * forward_dir.x <= 4_000_000_000_000_000_000 && t * forward_dir.x
            >= -4_000_000_000_000_000_000) by (nonlinear_arith)
            requires
                -2_000_000_000_000 <= t <= 2_000_000_000_000,
                -DIR_LIMIT <= forward_dir.x <= DIR_LIMIT,
        ;
        assert(t * forward_dir.z <= 4_000_000_000_000_000_000 && t * forward_dir.z
            >= -4_000_000_000_000_000_000) by (nonlinear_arith)
            requires
                -2_000_000_000_000 <= t <= 2_000_000_000_000,
                -DIR_LIMIT <= forward_dir.z <= DIR_LIMIT,
        ;
        lemma_div_trunc_bound((t * forward_dir.x) as int, SCALE as int, 4_000_000_000_000);
        lemma_div_trunc_bound((t * forward_dir.z) as int, SCALE as int, 4_000_000_000_000);
    }
    let ix: i64 = camera_pos.x + div_trunc_i64(t * forward_dir.x, SCALE);
    let iz: i64 = camera_pos.z + div_trunc_i64(t * forward_dir.z, SCALE);
    Vec3::new(ix, 0, iz)
}

} // verus!
