//! Axial hex coordinates and their world-space projection.
//!
//! The grid uses pointy-top hexagons of unit size. A cell at axial
//! coordinates `(x, y)` sits in the world's ground plane at
//! `(√3·x + (√3/2)·y, (3/2)·y)`, written here in fixed point with
//! `√3 ≈ 1.732051`.

use vstd::prelude::*;

use crate::fixed::SCALE;

verus! {

/// Fixed-point value of `√3`.
pub const SQRT3: i64 = 1_732_051;

/// Fixed-point value of `√3 / 2`.
pub const HALF_SQRT3: i64 = 866_025;

/// Fixed-point value of `3 / 2`.
pub const THREE_HALVES: i64 = 1_500_000;

/// One discrete cell of the tactical grid, addressed by two integer axial
/// coordinates.
#[derive(Clone, Copy, PartialEq, Eq, Structural, Debug)]
pub struct Hex {
    pub x: i32,
    pub y: i32,
}

/// World-space x coordinate (fixed point) of the center of the cell `(q, r)`.
pub open spec fn world_x_of(q: int, r: int) -> int {
    SQRT3 * q + HALF_SQRT3 * r
}

/// World-space z coordinate (fixed point) of the center of the cell `(q, r)`.
pub open spec fn world_z_of(r: int) -> int {
    THREE_HALVES * r
}

impl Hex {
    pub fn new(x: i32, y: i32) -> (h: Hex)
        ensures
            h.x == x,
            h.y == y,
    {
        Hex { x, y }
    }
}

/// Projects a cell onto the ground plane: the fixed-point world-space
/// `(x, z)` position of its center.
pub fn hex_to_world(h: Hex) -> (p: (i64, i64))
    ensures
        p.0 == world_x_of(h.x as int, h.y as int),
        p.1 == world_z_of(h.y as int),
{
    let px: i64 = SQRT3 * (h.x as i64) + HALF_SQRT3 * (h.y as i64);
    let pz: i64 = THREE_HALVES * (h.y as i64);
    (px, pz)
}

/// Whether the ground-plane point `(px, pz)` lies inside the regular
/// pointy-top hexagon centered at `(cx, cz)` with center-to-vertex distance
/// `radius`, by the symmetry test: the point is rejected when its offset
/// exceeds the apothem bound `0.866·radius` across, the radius vertically,
/// or the slanted edge `1.5·radius - 0.866·dx - 0.5·dz`.
pub open spec fn inside_hex(px: int, pz: int, cx: int, cz: int, radius: int) -> bool {
    let dx = if px >= cx {
        px - cx
    } else {
        cx - px
    };
    let dz = if pz >= cz {
        pz - cz
    } else {
        cz - pz
    };
    &&& dx <= radius * 866_000 / (SCALE as int)
    &&& dz <= radius
    &&& radius * 1_500_000 - 866_000 * dx - 500_000 * dz >= 0
}

/// Containment test for a regular pointy-top hexagon, using the hexagon's
/// symmetry so that only three edges need checking.
pub fn is_inside_regular_hexagon(px: i64, pz: i64, cx: i64, cz: i64, radius: i64) -> (b: bool)
    requires
        0 < radius <= 1000 * SCALE,
        -7_000_000_000_000 <= px <= 7_000_000_000_000,
        -7_000_000_000_000 <= pz <= 7_000_000_000_000,
        -7_000_000_000_000 <= cx <= 7_000_000_000_000,
        -7_000_000_000_000 <= cz <= 7_000_000_000_000,
    ensures
        b == inside_hex(px as int, pz as int, cx as int, cz as int, radius as int),
{
    let dx: i64 = if px >= cx {
        px - cx
    } else {
        cx - px
    };
    let dz: i64 = if pz >= cz {
        pz - cz
    } else {
        cz - pz
    };
    if dx > radius * 866_000 / SCALE {
        return false;
    }
    if dz > radius {
        return false;
    }
    radius * 1_500_000 - 866_000 * dx - 500_000 * dz >= 0
}

} // verus!
