//! A fixed-point three-component world-space vector.

use vstd::prelude::*;

verus! {

/// A world-space point or direction; each component is a fixed-point count
/// of millionths of a world unit. `y` is the vertical axis; hex cells are
/// laid out in the `x`/`z` ground plane.
#[derive(Clone, Copy, PartialEq, Eq, Structural, Debug)]
pub struct Vec3 {
    pub x: i64,
    pub y: i64,
    pub z: i64,
}

impl Vec3 {
    pub fn new(x: i64, y: i64, z: i64) -> (v: Vec3)
        ensures
            v == (Vec3 { x, y, z }),
    {
        Vec3 { x, y, z }
    }
}

} // verus!
