//! Hex-terrain geometry and camera framing for a grid-based tactical
//! battlefield.
//!
//! The library models a height-mapped hex grid and the camera subsystem that
//! keeps it framed: world-space metrics derived from the grid, a raycaster
//! that finds the camera's focus point on the terrain, a 90-degree-snapped
//! orbit rotation state machine, and the framing policy that recomputes
//! zoom and pan limits as level, orientation and viewport change.
//!
//! All world-space quantities are fixed-point integers counted in millionths
//! of a world unit (see [`fixed`]); angles are counted in millionths of a
//! degree and time in microseconds, so every computation here is exact
//! integer arithmetic.

pub mod camera;
pub mod codec;
pub mod fixed;
pub mod framing;
pub mod hex;
pub mod level;
pub mod levels;
pub mod limits;
pub mod orbit;
pub mod raycast;
pub mod vec3;
