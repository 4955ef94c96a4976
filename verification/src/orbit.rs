//! The 90-degree-snapped orbit rotation of the camera.
//!
//! A rotation request captures a pivot once and puts the controller into a
//! rotating state holding the remaining angle. Each tick consumes
//! `min(speed * dt, remaining)` of that angle and reports the signed angle
//! to turn by; the pivot never changes while a rotation runs, and a new
//! request is ignored until the current rotation has completed.

use vstd::prelude::*;

use crate::fixed::{div_trunc, div_trunc_i64, lemma_div_trunc_bound, SCALE};
use crate::limits::CameraLimits;
use crate::vec3::Vec3;

verus! {

/// One full rotation step, in millionths of a degree: 90 degrees.
pub const QUARTER_TURN: i64 = 90_000_000;

/// Rotation speed in millionths of a degree per microsecond: 180 degrees
/// per second.
pub const ROTATION_SPEED: i64 = 180;

/// Largest tick duration accepted by the controller, in microseconds.
pub const MAX_TICK_MICROS: i64 = 1_000_000_000;

/// The current rotation state of the camera: at rest, or turning in one of
/// the two directions with some angle still to consume.
#[derive(Clone, Copy, PartialEq, Eq, Structural, Debug)]
pub enum RotationMode {
    /// No rotation in progress.
    Stable,
    /// Turning clockwise; the payload is the remaining angle in millionths
    /// of a degree.
    Clockwise(i64),
    /// Turning counterclockwise; the payload is the remaining angle in
    /// millionths of a degree.
    CounterClockwise(i64),
}

/// Rotation state tracked across ticks: the mode and the pivot captured
/// when the rotation started.
#[derive(Clone, Copy, PartialEq, Eq, Structural, Debug)]
pub struct CameraRotationState {
    pub rotation_mode: RotationMode,
    /// Point to rotate around, calculated once when the rotation starts.
    pub focus_point: Vec3,
}

/// The angle still to consume: zero at rest.
pub open spec fn remaining_of(s: CameraRotationState) -> int {
    match s.rotation_mode {
        RotationMode::Stable => 0,
        RotationMode::Clockwise(rem) => rem as int,
        RotationMode::CounterClockwise(rem) => rem as int,
    }
}

/// A rotation state never holds more than one quarter turn, and a rotating
/// state always has angle left to consume.
pub open spec fn rotation_wf(s: CameraRotationState) -> bool {
    match s.rotation_mode {
        RotationMode::Stable => true,
        RotationMode::Clockwise(rem) => 0 < rem <= QUARTER_TURN,
        RotationMode::CounterClockwise(rem) => 0 < rem <= QUARTER_TURN,
    }
}

/// The pure transition of one tick: the successor state and the signed
/// angle (millionths of a degree) the camera turns by this tick. Clockwise
/// rotation turns by a negative angle.
pub open spec fn tick_result(s: CameraRotationState, dt: int) -> (CameraRotationState, int) {
    match s.rotation_mode {
        RotationMode::Stable => (s, 0),
        RotationMode::Clockwise(rem) => {
            let c = if ROTATION_SPEED * dt < rem {
                ROTATION_SPEED * dt
            } else {
                rem as int
            };
            let mode = if rem - c == 0 {
                RotationMode::Stable
            } else {
                RotationMode::Clockwise((rem - c) as i64)
            };
            (CameraRotationState { rotation_mode: mode, focus_point: s.focus_point }, -c)
        },
        RotationMode::CounterClockwise(rem) => {
            let c = if ROTATION_SPEED * dt < rem {
                ROTATION_SPEED * dt
            } else {
                rem as int
            };
            let mode = if rem - c == 0 {
                RotationMode::Stable
            } else {
                RotationMode::CounterClockwise((rem - c) as i64)
            };
            (CameraRotationState { rotation_mode: mode, focus_point: s.focus_point }, c)
        },
    }
}

impl CameraRotationState {
    /// A controller at rest with a placeholder pivot at the origin.
    pub fn new() -> (s: CameraRotationState)
        ensures
            s.rotation_mode == RotationMode::Stable,
            s.focus_point == (Vec3 { x: 0, y: 0, z: 0 }),
            rotation_wf(s),
    {
        CameraRotationState {
            rotation_mode: RotationMode::Stable,
            focus_point: Vec3 { x: 0, y: 0, z: 0 },
        }
    }

    /// Accept a rotation request: capture the pivot and start a quarter
    /// turn in the requested direction. A request arriving while a
    /// rotation is already running is silently ignored, so the running
    /// rotation keeps its original pivot.
    pub fn request_rotation(&mut self, clockwise: bool, pivot: Vec3)
        requires
            rotation_wf(*old(self)),
        ensures
            rotation_wf(*final(self)),
            old(self).rotation_mode is Stable ==> {
                &&& final(self).focus_point == pivot
                &&& final(self).rotation_mode == if clockwise {
                    RotationMode::Clockwise(QUARTER_TURN)
                } else {
                    RotationMode::CounterClockwise(QUARTER_TURN)
                }
            },
            !(old(self).rotation_mode is Stable) ==> *final(self) == *old(self),
    {
        if let RotationMode::Stable = self.rotation_mode {
            self.focus_point = pivot;
            self.rotation_mode = if clockwise {
                RotationMode::Clockwise(QUARTER_TURN)
            } else {
                RotationMode::CounterClockwise(QUARTER_TURN)
            };
        }
    }

    /// Advance the rotation by one tick of `dt_micros` microseconds,
    /// consuming at most the remaining angle, and report the signed angle
    /// the camera turns by this tick. When the rotation completes, the
    /// state snaps back to rest and the limits are flagged as awaiting
    /// their post-rotation recalculation.
    pub fn rotation_tick(&mut self, limits: &mut CameraLimits, dt_micros: i64) -> (delta: i64)
        requires
            rotation_wf(*old(self)),
            0 <= dt_micros <= MAX_TICK_MICROS,
        ensures
            rotation_wf(*final(self)),
            *final(self) == tick_result(*old(self), dt_micros as int).0,
            delta == tick_result(*old(self), dt_micros as int).1,
            final(self).focus_point == old(self).focus_point,
            *final(limits) == if old(self).rotation_mode is Stable
                || !(final(self).rotation_mode is Stable) {
                *old(limits)
            } else {
                (CameraLimits { rotation_processed: false, ..*old(limits) })
            },
    {
        match self.rotation_mode {
            RotationMode::Stable => 0,
            RotationMode::Clockwise(remaining) => {
                let step: i64 = ROTATION_SPEED * dt_micros;
                let consumed: i64 = if step < remaining {
                    step
                } else {
                    remaining
                };
                if remaining - consumed == 0 {
                    self.rotation_mode = RotationMode::Stable;
                    limits.rotation_processed = false;
                } else {
                    self.rotation_mode = RotationMode::Clockwise(remaining - consumed);
                }
                -consumed
            },
            RotationMode::CounterClockwise(remaining) => {
                let step: i64 = ROTATION_SPEED * dt_micros;
                let consumed: i64 = if step < remaining {
                    step
                } else {
                    remaining
                };
                if remaining - consumed == 0 {
                    self.rotation_mode = RotationMode::Stable;
                    limits.rotation_processed = false;
                } else {
                    self.rotation_mode = RotationMode::CounterClockwise(remaining - consumed);
                }
                consumed
            },
        }
    }
}

/// Folds [`tick_result`] over a whole sequence of tick durations: the final
/// state and the total unsigned angle consumed.
pub open spec fn run_ticks(s: CameraRotationState, dts: Seq<int>) -> (CameraRotationState, int)
    decreases dts.len(),
{
    if dts.len() == 0 {
        (s, 0)
    } else {
        let stepped = tick_result(s, dts[0]);
        let rest = run_ticks(stepped.0, dts.subrange(1, dts.len() as int));
        (rest.0, (if stepped.1 >= 0 {
            stepped.1
        } else {
            -stepped.1
        }) + rest.1)
    }
}

/// Across any sequence of nonnegative ticks, the pivot stays the one
/// captured at the start, and the total angle consumed equals exactly the
/// drop in the remaining angle. In particular, a quarter-turn request that
/// runs to rest has consumed exactly ninety degrees, however unevenly the
/// tick durations were cut.
pub proof fn lemma_ticks_consume_remaining(s: CameraRotationState, dts: Seq<int>)
    requires
        rotation_wf(s),
        forall|i: int| 0 <= i < dts.len() ==> dts[i] >= 0,
    ensures
        rotation_wf(run_ticks(s, dts).0),
        run_ticks(s, dts).0.focus_point == s.focus_point,
        run_ticks(s, dts).1 == remaining_of(s) - remaining_of(run_ticks(s, dts).0),
        remaining_of(run_ticks(s, dts).0) >= 0,
    decreases dts.len(),
{
    if dts.len() > 0 {
        let stepped = tick_result(s, dts[0]);
        assert(dts[0] >= 0);
        assert(rotation_wf(stepped.0) && stepped.0.focus_point == s.focus_point && (if stepped.1
            >= 0 {
            stepped.1
        } else {
            -stepped.1
        }) == remaining_of(s) - remaining_of(stepped.0)) by {
            match s.rotation_mode {
                RotationMode::Stable => {},
                RotationMode::Clockwise(rem) => {
                    assert(ROTATION_SPEED * dts[0] >= 0) by (nonlinear_arith)
                        requires
                            dts[0] >= 0,
                    ;
                },
                RotationMode::CounterClockwise(rem) => {
                    assert(ROTATION_SPEED * dts[0] >= 0) by (nonlinear_arith)
                        requires
                            dts[0] >= 0,
                    ;
                },
            }
        }
        let rest = dts.subrange(1, dts.len() as int);
        assert(forall|i: int| 0 <= i < rest.len() ==> rest[i] >= 0);
        lemma_ticks_consume_remaining(stepped.0, rest);
    }
}

/// Orbit a point around a vertical axis through `pivot`: the offset from
/// the pivot is turned in the ground plane by the rotation whose cosine and
/// sine are given in fixed point, while the height stays unchanged.
pub fn orbit_camera_around_point(position: &mut Vec3, pivot: Vec3, cos_val: i64, sin_val: i64)
    requires
        -SCALE <= cos_val <= SCALE,
        -SCALE <= sin_val <= SCALE,
        -1_000_000_000_000 <= old(position).x <= 1_000_000_000_000,
        -1_000_000_000_000 <= old(position).z <= 1_000_000_000_000,
        -1_000_000_000_000 <= pivot.x <= 1_000_000_000_000,
        -1_000_000_000_000 <= pivot.z <= 1_000_000_000_000,
    ensures
        final(position).x == pivot.x + div_trunc(
            (old(position).x - pivot.x) * cos_val + (old(position).z - pivot.z) * sin_val,
            SCALE as int,
        ),
        final(position).y == old(position).y,
        final(position).z == pivot.z + div_trunc(
            (old(position).z - pivot.z) * cos_val - (old(position).x - pivot.x) * sin_val,
            SCALE as int,
        ),
{
    let off_x: i64 = position.x - pivot.x;
    let off_z: i64 = position.z - pivot.z;
    proof {
        assert(-2_000_000_000_000_000_000 <= off_x * cos_val <= 2_000_000_000_000_000_000)
            by (nonlinear_arith)
            requires
                -2_000_000_000_000 <= off_x <= 2_000_000_000_000,
                -SCALE <= cos_val <= SCALE,
        ;
        assert(-2_000_000_000_000_000_000 <= off_z * sin_val <= 2_000_000_000_000_000_000)
            by (nonlinear_arith)
            requires
                -2_000_000_000_000 <= off_z <= 2_000_000_000_000,
                -SCALE <= sin_val <= SCALE,
        ;
        assert(-2_000_000_000_000_000_000 <= off_z * cos_val <= 2_000_000_000_000_000_000)
            by (nonlinear_arith)
            requires
                -2_000_000_000_000 <= off_z <= 2_000_000_000_000,
                -SCALE <= cos_val <= SCALE,
        ;
        assert(-2_000_000_000_000_000_000 <= off_x * sin_val <= 2_000_000_000_000_000_000)
            by (nonlinear_arith)
            requires
                -2_000_000_000_000 <= off_x <= 2_000_000_000_000,
                -SCALE <= sin_val <= SCALE,
        ;
        lemma_div_trunc_bound(
            (off_x * cos_val + off_z * sin_val) as int,
            SCALE as int,
            4_000_000_000_000,
        );
        lemma_div_trunc_bound(
            (off_z * cos_val - off_x * sin_val) as int,
            SCALE as int,
            4_000_000_000_000,
        );
    }
    let rot_x: i64 = div_trunc_i64(off_x * cos_val + off_z * sin_val, SCALE);
    let rot_z: i64 = div_trunc_i64(off_z * cos_val - off_x * sin_val, SCALE);
    position.x = pivot.x + rot_x;
    position.z = pivot.z + rot_z;
}

} // verus!
