//! The interaction state that the plugin writes and the GPU pass reads.

use crate::constants::{DEFAULT_SPHERE_Y, DROP_RADIUS, HALF, SPHERE_SIM_RADIUS};
use crate::scalar::{Scalar, ONE, ZERO};
use crate::vector::{Vec2, Vec3, Vec4};
use vstd::prelude::*;

verus! {

/// Interaction state written by the plugin each frame and read by the pass.
#[derive(Clone, Copy, Debug, PartialEq, Eq, Structural)]
pub struct WaterParams {
    pub drop_center: Vec2,
    pub drop_radius: Scalar,
    pub drop_strength: Scalar,
    pub drop_active: bool,
    pub sphere_old: Vec3,
    pub sphere_new: Vec3,
    pub sphere_radius: Scalar,
    /// How the ball is turned: a quaternion, the real part last.
    pub ball_rotation: Vec4,
    /// Whether the ball is drawn.
    pub ball_shown: bool,
    /// Requests the pass to clear the height field back to a flat pool.
    pub reset: bool,
}

impl Default for WaterParams {
    /// No drop, the ball on the floor in the middle and shown, no reset.
    fn default() -> (r: WaterParams)
        ensures
            r.drop_center == (Vec2 { x: HALF, y: HALF }),
            r.drop_radius == DROP_RADIUS,
            r.drop_strength == ZERO,
            !r.drop_active,
            r.sphere_old == (Vec3 { x: ZERO, y: DEFAULT_SPHERE_Y, z: ZERO }),
            r.sphere_new == r.sphere_old,
            r.sphere_radius == SPHERE_SIM_RADIUS,
            r.ball_rotation == (Vec4 { x: ZERO, y: ZERO, z: ZERO, w: ONE }),
            r.ball_shown,
            !r.reset,
    {
        let rest: Vec3 = Vec3 { x: ZERO, y: DEFAULT_SPHERE_Y, z: ZERO };
        WaterParams {
            drop_center: Vec2 { x: HALF, y: HALF },
            drop_radius: DROP_RADIUS,
            drop_strength: ZERO,
            drop_active: false,
            sphere_old: rest,
            sphere_new: rest,
            sphere_radius: SPHERE_SIM_RADIUS,
            ball_rotation: Vec4 { x: ZERO, y: ZERO, z: ZERO, w: ONE },
            ball_shown: true,
            reset: false,
        }
    }
}

} // verus!
