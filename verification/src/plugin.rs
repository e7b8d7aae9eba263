//! Interaction with the pool: ripples, the ball, pausing, rain and reset.

use crate::arithmetic::{
    difference, divided, from_u32, from_whole, minus, negate, opposite, plus, product, quotient,
    root, sqrt, sum, times,
};
use crate::constants::{
    BALL_START_X, BALL_START_Y, BALL_START_Z, BUOYANCY, CEILING_LIMIT, CURSOR_TOLERANCE,
    DROP_RADIUS, DROP_STRENGTH, FLOOR_LIMIT, FOUR, GRAVITY, HALF, MAX_FRAME_TIME,
    NEGATIVE_SIDE_LIMIT, PARALLEL, POOL_HALF, REBOUND, SCATTER_STEPS, SHORT, SIDE_LIMIT, SLANT_X,
    SLANT_Y, SLANT_Z, SLOW, SPHERE_RADIUS, SPHERE_SIM_DIAMETER, SPHERE_SIM_RADIUS, SPIN_RATE, TWO,
    WORLD_SCALE,
};
use crate::limits::lemma_limits_ordered;
use crate::params::WaterParams;
use crate::scalar::{
    abs, absolute, at_most, clamp, clamped, le, less, lt, min, smaller, Scalar, ONE, ZERO,
};
use crate::vector::{
    direction, inner, length, outer, plane_length, quaternion_direction, quaternion_product, turn,
    vector_difference, vector_opposite, vector_scaled, vector_sum, vector_unscaled, SineCosine,
    Vec2, Vec3, Vec4,
};
use vstd::prelude::*;

verus! {

/// What the pressed mouse button does.
#[derive(Clone, Copy, Debug, PartialEq, Eq, Structural)]
pub enum DragMode {
    Idle,
    Ball,
    Drops,
    Orbit,
}

/// App-wide state.
#[derive(Clone, Copy, Debug, PartialEq, Eq, Structural)]
pub struct WaterState {
    pub ball_center: Vec3,
    pub ball_previous_center: Vec3,
    pub ball_velocity: Vec3,
    /// A quaternion, the real part last.
    pub ball_rotation: Vec4,
    pub drag_mode: DragMode,
    pub drag_plane_normal: Vec3,
    pub drag_prev_hit: Vec3,
    pub pending_drop: Option<Vec2>,
    pub paused: bool,
    /// Whether it rains.
    pub rain: bool,
    /// Whether the ball is shown.
    pub ball_shown: bool,
}

/// A ray from the eye through the cursor.
#[derive(Clone, Copy, Debug, PartialEq, Eq, Structural)]
pub struct Ray {
    pub origin: Vec3,
    pub direction: Vec3,
}

/// What the mouse and the keyboard did since the last frame.
#[derive(Clone, Copy, Debug, PartialEq, Eq, Structural)]
pub struct InputFrame {
    /// The left button went down just now.
    pub left_pressed: bool,
    /// The left button is down.
    pub left_held: bool,
    pub toggle_pause: bool,
    pub quit: bool,
    /// How far the cursor moved.
    pub cursor_delta: Vec2,
    /// The ray through the cursor, where there is one.
    pub ray: Option<Ray>,
    /// Where that ray meets the level of the resting water, where it does.
    pub ground: Option<Vec3>,
}

/// What a frame of input asks of the window and of the camera.
#[derive(Clone, Copy, Debug, PartialEq, Eq, Structural)]
pub struct InputOutcome {
    pub exit: bool,
    pub camera_enabled: bool,
}

/// Where the point `center` of the pool is in the world.
pub open spec fn world_position(center: Vec3) -> Vec3 {
    Vec3 {
        x: product(center.x, POOL_HALF),
        y: product(center.y, WORLD_SCALE),
        z: product(center.z, POOL_HALF),
    }
}

/// Where the point `center` of the pool is in the world.
pub fn ball_world_position(center: Vec3) -> (r: Vec3)
    ensures
        r == world_position(center),
{
    Vec3 {
        x: times(center.x, POOL_HALF),
        y: times(center.y, WORLD_SCALE),
        z: times(center.z, POOL_HALF),
    }
}

/// What decides whether a ray meets a sphere: the discriminant of the quadratic
/// equation for the distance along the ray.
pub open spec fn sphere_discriminant(origin: Vec3, towards: Vec3, center: Vec3, radius: Scalar) -> Scalar {
    let offset = vector_difference(origin, center);
    let a = inner(towards, towards);
    let b = product(TWO, inner(offset, towards));
    let c = difference(inner(offset, offset), product(radius, radius));
    difference(product(b, b), product(product(FOUR, a), c))
}

/// The smaller of the two distances along a ray at which it meets a sphere.
pub open spec fn sphere_distance(origin: Vec3, towards: Vec3, center: Vec3, radius: Scalar) -> Scalar {
    let offset = vector_difference(origin, center);
    let a = inner(towards, towards);
    let b = product(TWO, inner(offset, towards));
    quotient(
        difference(opposite(b), root(sphere_discriminant(origin, towards, center, radius))),
        product(TWO, a),
    )
}

/// Whether a ray enters a sphere ahead of its origin.
pub open spec fn hits_sphere(origin: Vec3, towards: Vec3, center: Vec3, radius: Scalar) -> bool {
    &&& !less(sphere_discriminant(origin, towards, center, radius), ZERO)
    &&& less(ZERO, sphere_distance(origin, towards, center, radius))
}

/// Whether a ray enters a sphere ahead of its origin.
pub fn ray_hits_sphere(origin: Vec3, direction: Vec3, center: Vec3, radius: Scalar) -> (r: bool)
    ensures
        r == hits_sphere(origin, direction, center, radius),
{
    let to_center: Vec3 = origin.minus(center);
    let a: Scalar = direction.dot(direction);
    let b: Scalar = times(TWO, to_center.dot(direction));
    let c: Scalar = minus(to_center.dot(to_center), times(radius, radius));
    let discriminant: Scalar = minus(times(b, b), times(times(FOUR, a), c));
    if lt(discriminant, ZERO) {
        return false;
    }
    lt(ZERO, divided(minus(negate(b), sqrt(discriminant)), times(TWO, a)))
}

/// How far along a ray a plane lies.
pub open spec fn plane_distance(ray: Ray, point: Vec3, normal: Vec3) -> Scalar {
    quotient(
        inner(normal, vector_difference(point, ray.origin)),
        inner(normal, ray.direction),
    )
}

/// Where a ray meets the plane through `point` with the given normal: nowhere,
/// where it runs along the plane or the plane lies behind it.
pub open spec fn plane_hit(ray: Ray, point: Vec3, normal: Vec3) -> Option<Vec3> {
    if less(absolute(inner(normal, ray.direction)), PARALLEL) {
        None
    } else if less(plane_distance(ray, point, normal), ZERO) {
        None
    } else {
        Some(
            vector_sum(ray.origin, vector_scaled(ray.direction, plane_distance(ray, point, normal))),
        )
    }
}

/// Where a ray meets the plane through `plane_point` with the given normal.
pub fn intersect_ray_plane(
    origin: Vec3,
    direction: Vec3,
    plane_point: Vec3,
    plane_normal: Vec3,
) -> (r: Option<Vec3>)
    ensures
        r == plane_hit(Ray { origin, direction }, plane_point, plane_normal),
{
    let denominator: Scalar = plane_normal.dot(direction);
    if lt(abs(denominator), PARALLEL) {
        return None;
    }
    let distance: Scalar = divided(plane_normal.dot(plane_point.minus(origin)), denominator);
    if lt(distance, ZERO) {
        return None;
    }
    Some(origin.plus(direction.times(distance)))
}

/// Whether a point of the water level lies in the pool.
pub open spec fn in_pool(point: Vec3) -> bool {
    at_most(absolute(point.x), POOL_HALF) && at_most(absolute(point.z), POOL_HALF)
}

/// Whether a point of the water level lies in the pool.
fn is_in_pool(point: Vec3) -> (r: bool)
    ensures
        r == in_pool(point),
{
    le(abs(point.x), POOL_HALF) && le(abs(point.z), POOL_HALF)
}

/// Where a point of the water level lies on the height field, which spans [0, 1].
pub open spec fn field_point(point: Vec3) -> Vec2 {
    Vec2 {
        x: sum(product(quotient(point.x, POOL_HALF), HALF), HALF),
        y: sum(product(quotient(point.z, POOL_HALF), HALF), HALF),
    }
}

/// Where a point of the water level lies on the height field.
fn to_field(point: Vec3) -> (r: Vec2)
    ensures
        r == field_point(point),
{
    Vec2 {
        x: plus(times(divided(point.x, POOL_HALF), HALF), HALF),
        y: plus(times(divided(point.z, POOL_HALF), HALF), HALF),
    }
}

/// The plane through the ball that faces a ray, and where the ray meets it.
pub open spec fn facing_plane(center: Vec3, ray: Option<Ray>) -> Option<(Vec3, Vec3)> {
    match ray {
        None => None,
        Some(ray) => {
            let normal = vector_opposite(direction(ray.direction));
            match plane_hit(ray, world_position(center), normal) {
                None => None,
                Some(hit) => Some((normal, hit)),
            }
        },
    }
}

/// What a press of the button takes hold of.
pub open spec fn pressed_on(center: Vec3, ray: Option<Ray>, ground: Option<Vec3>) -> DragMode {
    if ray matches Some(ray) && hits_sphere(
        ray.origin,
        ray.direction,
        world_position(center),
        SPHERE_RADIUS,
    ) {
        DragMode::Ball
    } else if ground matches Some(point) && in_pool(point) {
        DragMode::Drops
    } else {
        DragMode::Orbit
    }
}

/// A point of the world brought to where the ball may be, as a point of the pool.
pub open spec fn held_in_pool(place: Vec3) -> Vec3 {
    Vec3 {
        x: quotient(clamped(place.x, NEGATIVE_SIDE_LIMIT, SIDE_LIMIT), POOL_HALF),
        y: quotient(clamped(place.y, FLOOR_LIMIT, CEILING_LIMIT), WORLD_SCALE),
        z: quotient(clamped(place.z, NEGATIVE_SIDE_LIMIT, SIDE_LIMIT), POOL_HALF),
    }
}

/// The place on the height field that a random word picks: its upper half along one
/// side, its lower half along the other.
pub open spec fn scatter_point(word: u32) -> Vec2 {
    Vec2 {
        x: quotient(from_whole(word as int / 0x1_0000), SCATTER_STEPS),
        y: quotient(from_whole(word as int % 0x1_0000), SCATTER_STEPS),
    }
}

/// The place on the height field that a random word picks.
pub fn scatter(word: u32) -> (r: Vec2)
    ensures
        r == scatter_point(word),
{
    Vec2 {
        x: divided(from_u32(word / 0x1_0000), SCATTER_STEPS),
        y: divided(from_u32(word % 0x1_0000), SCATTER_STEPS),
    }
}

/// A turn around an axis.
#[derive(Clone, Copy, Debug, PartialEq, Eq, Structural)]
pub struct Turn {
    pub axis: Vec3,
    pub half_angle: Scalar,
}

/// The axis that the ball turns around by itself.
pub open spec fn spin_axis() -> Vec3 {
    direction(Vec3 { x: SLANT_X, y: SLANT_Y, z: SLANT_Z })
}

/// The turn that the ball makes by itself in `delta`.
pub open spec fn spinning_turn(delta: Scalar) -> Turn {
    Turn { axis: spin_axis(), half_angle: quotient(product(SPIN_RATE, delta), TWO) }
}

/// Whether the cursor moved.
pub open spec fn cursor_moved(input: InputFrame) -> bool {
    less(CURSOR_TOLERANCE, plane_length(input.cursor_delta))
}

/// The axis that the ball turns around by itself.
fn slanted_axis() -> (r: Vec3)
    ensures
        r == spin_axis(),
{
    Vec3 { x: SLANT_X, y: SLANT_Y, z: SLANT_Z }.normalize()
}

impl WaterState {
    /// The state after the pause key.
    pub open spec fn after_keys(self, input: InputFrame) -> WaterState {
        WaterState { paused: self.paused != input.toggle_pause, ..self }
    }

    /// The state after the button went down, stayed as it was or came up. A ball
    /// that no facing plane can be found for is not grabbed: the camera orbits.
    pub open spec fn after_button(self, input: InputFrame) -> WaterState {
        let pressed = if !input.left_pressed {
            self
        } else {
            let mode = pressed_on(self.ball_center, input.ray, input.ground);
            match facing_plane(self.ball_center, input.ray) {
                Some((normal, hit)) if mode == DragMode::Ball => WaterState {
                    drag_mode: mode,
                    drag_plane_normal: normal,
                    drag_prev_hit: hit,
                    ..self
                },
                _ => WaterState {
                    drag_mode: if mode == DragMode::Ball { DragMode::Orbit } else { mode },
                    ..self
                },
            }
        };
        if input.left_held {
            pressed
        } else {
            WaterState { drag_mode: DragMode::Idle, ..pressed }
        }
    }

    /// The state after the ball followed the cursor over the plane it was grabbed in.
    pub open spec fn after_ball_drag(self, input: InputFrame) -> WaterState {
        match input.ray {
            None => self,
            Some(ray) => match plane_hit(ray, self.drag_prev_hit, self.drag_plane_normal) {
                None => self,
                Some(hit) => WaterState {
                    ball_center: held_in_pool(
                        vector_sum(
                            world_position(self.ball_center),
                            vector_difference(hit, self.drag_prev_hit),
                        ),
                    ),
                    ball_velocity: Vec3 { x: ZERO, y: ZERO, z: ZERO },
                    drag_prev_hit: hit,
                    ..self
                },
            },
        }
    }

    /// The drop that a cursor dragged over the pool makes.
    pub open spec fn dragged_drop(self, input: InputFrame) -> Option<Vec2> {
        match input.ground {
            Some(point) if (input.left_pressed || cursor_moved(input)) && in_pool(point) => Some(
                field_point(point),
            ),
            _ => None,
        }
    }

    /// The state after what is dragged followed the cursor.
    pub open spec fn after_drag(self, input: InputFrame) -> WaterState {
        let clear = WaterState { pending_drop: None, ..self };
        match self.drag_mode {
            DragMode::Ball => clear.after_ball_drag(input),
            DragMode::Drops => WaterState { pending_drop: self.dragged_drop(input), ..self },
            _ => clear,
        }
    }

    /// The state after a frame of input.
    pub open spec fn after_input(self, input: InputFrame) -> WaterState {
        self.after_keys(input).after_button(input).after_drag(input)
    }

    /// How much of the ball is under water, from 0 to 1.
    pub open spec fn submerged(self) -> Scalar {
        clamped(
            quotient(difference(SPHERE_SIM_RADIUS, self.ball_center.y), SPHERE_SIM_DIAMETER),
            ZERO,
            ONE,
        )
    }

    /// The velocity after gravity and buoyancy acted for `delta`.
    pub open spec fn pulled_velocity(self, delta: Scalar) -> Vec3 {
        vector_sum(
            self.ball_velocity,
            vector_scaled(
                Vec3 { x: ZERO, y: GRAVITY, z: ZERO },
                difference(delta, product(product(BUOYANCY, delta), self.submerged())),
            ),
        )
    }

    /// The velocity after the water braked it too, with the square of the speed.
    pub open spec fn braked_velocity(self, delta: Scalar) -> Vec3 {
        let pulled = self.pulled_velocity(delta);
        let squared = inner(pulled, pulled);
        if less(SLOW, squared) {
            vector_difference(
                pulled,
                vector_scaled(
                    direction(pulled),
                    product(product(self.submerged(), delta), squared),
                ),
            )
        } else {
            pulled
        }
    }

    /// Where the ball gets before the floor and the walls stop it.
    pub open spec fn free_center(self, delta: Scalar) -> Vec3 {
        vector_sum(self.ball_center, vector_scaled(self.braked_velocity(delta), delta))
    }

    /// The state after the ball moved for `delta`: it bounces off the floor and is
    /// held back by the walls.
    pub open spec fn after_step(self, delta: Scalar) -> WaterState {
        let velocity = self.braked_velocity(delta);
        let center = self.free_center(delta);
        let bounced = less(center.y, FLOOR_LIMIT);
        WaterState {
            ball_center: Vec3 {
                x: clamped(center.x, NEGATIVE_SIDE_LIMIT, SIDE_LIMIT),
                y: if bounced { FLOOR_LIMIT } else { center.y },
                z: clamped(center.z, NEGATIVE_SIDE_LIMIT, SIDE_LIMIT),
            },
            ball_velocity: Vec3 {
                y: if bounced { product(absolute(velocity.y), REBOUND) } else { velocity.y },
                ..velocity
            },
            ..self
        }
    }

    /// The state after the ball moved in a frame that took `delta_time`: not at
    /// all while paused, and not by itself while it is held.
    pub open spec fn after_motion(self, delta_time: Scalar) -> WaterState {
        if self.paused {
            self
        } else if self.drag_mode == DragMode::Ball {
            WaterState { ball_velocity: Vec3 { x: ZERO, y: ZERO, z: ZERO }, ..self }
        } else {
            self.after_step(smaller(delta_time, MAX_FRAME_TIME))
        }
    }

    /// How the ball moved over the floor since the last frame.
    pub open spec fn floor_movement(self) -> Vec3 {
        let before = world_position(self.ball_previous_center);
        let now = world_position(self.ball_center);
        Vec3 { x: difference(now.x, before.x), y: ZERO, z: difference(now.z, before.z) }
    }

    /// The axis that the ball rolls around, across its movement over the floor.
    pub open spec fn roll_axis(self) -> Vec3 {
        outer(
            Vec3 { x: ZERO, y: ONE, z: ZERO },
            vector_unscaled(self.floor_movement(), length(self.floor_movement())),
        )
    }

    /// Whether the ball moved far enough over the floor to roll.
    pub open spec fn rolls(self) -> bool {
        less(SHORT, length(self.floor_movement())) && less(SHORT, length(self.roll_axis()))
    }

    /// The turn that the movement over the floor gives the ball.
    pub open spec fn rolling_turn(self) -> Option<Turn> {
        if self.rolls() {
            Some(
                Turn {
                    axis: vector_unscaled(self.roll_axis(), length(self.roll_axis())),
                    half_angle: quotient(quotient(length(self.floor_movement()), SPHERE_RADIUS), TWO),
                },
            )
        } else {
            None
        }
    }

    /// The turns that the ball makes in a frame that took `delta_time`, first by itself
    /// and then rolling with its movement; none while paused.
    pub open spec fn turns_in(self, delta_time: Scalar) -> Option<(Turn, Option<Turn>)> {
        if self.paused {
            None
        } else {
            Some(
                (
                    spinning_turn(smaller(delta_time, MAX_FRAME_TIME)),
                    self.after_motion(delta_time).rolling_turn(),
                ),
            )
        }
    }

    /// The rotation after the ball turned by itself and rolled.
    pub open spec fn turned(self, spin: SineCosine, roll: SineCosine) -> Vec4 {
        let spun = quaternion_product(turn(spin_axis(), spin), self.ball_rotation);
        match self.rolling_turn() {
            Some(rolling) => quaternion_direction(quaternion_product(turn(rolling.axis, roll), spun)),
            None => quaternion_direction(spun),
        }
    }

    /// The drop that a frame makes: one that was asked for, else one of the rain,
    /// and none while paused.
    pub open spec fn drop(self, scattered: Vec2) -> Option<Vec2> {
        if self.paused {
            None
        } else if self.pending_drop.is_some() {
            self.pending_drop
        } else if self.rain {
            Some(scattered)
        } else {
            None
        }
    }

    /// What the pass is told in a frame.
    pub open spec fn published(self, scattered: Vec2, params: WaterParams) -> WaterParams {
        let moved = WaterParams {
            sphere_old: self.ball_previous_center,
            sphere_new: self.ball_center,
            sphere_radius: SPHERE_SIM_RADIUS,
            ball_rotation: self.ball_rotation,
            ball_shown: self.ball_shown,
            ..params
        };
        match self.drop(scattered) {
            Some(place) => WaterParams {
                drop_active: true,
                drop_center: place,
                drop_radius: DROP_RADIUS,
                drop_strength: DROP_STRENGTH,
                ..moved
            },
            None => WaterParams { drop_active: false, ..moved },
        }
    }

    /// The state after the pass was told.
    pub open spec fn after_publish(self) -> WaterState {
        WaterState { pending_drop: None, ball_previous_center: self.ball_center, ..self }
    }

    /// The state before the first frame.
    pub fn new() -> (r: WaterState)
        ensures
            r.ball_center == (Vec3 { x: BALL_START_X, y: BALL_START_Y, z: BALL_START_Z }),
            r.ball_previous_center == r.ball_center,
            r.ball_velocity == (Vec3 { x: ZERO, y: ZERO, z: ZERO }),
            r.ball_rotation == (Vec4 { x: ZERO, y: ZERO, z: ZERO, w: ONE }),
            r.drag_mode == DragMode::Idle,
            r.drag_plane_normal == (Vec3 { x: ZERO, y: ZERO, z: ONE }),
            r.drag_prev_hit == (Vec3 { x: ZERO, y: ZERO, z: ZERO }),
            r.pending_drop == None::<Vec2>,
            !r.paused,
            !r.rain,
            r.ball_shown,
    {
        let start: Vec3 = Vec3 { x: BALL_START_X, y: BALL_START_Y, z: BALL_START_Z };
        WaterState {
            ball_center: start,
            ball_previous_center: start,
            ball_velocity: Vec3::zeros(),
            ball_rotation: Vec4 { x: ZERO, y: ZERO, z: ZERO, w: ONE },
            drag_mode: DragMode::Idle,
            drag_plane_normal: Vec3 { x: ZERO, y: ZERO, z: ONE },
            drag_prev_hit: Vec3::zeros(),
            pending_drop: None,
            paused: false,
            rain: false,
            ball_shown: true,
        }
    }

    /// What a press of the button takes hold of.
    pub fn classify_press(&self, ray: Option<Ray>, ground: Option<Vec3>) -> (r: DragMode)
        ensures
            r == pressed_on(self.ball_center, ray, ground),
    {
        if let Some(ray) = ray {
            let ball: Vec3 = ball_world_position(self.ball_center);
            if ray_hits_sphere(ray.origin, ray.direction, ball, SPHERE_RADIUS) {
                return DragMode::Ball;
            }
        }
        if let Some(point) = ground {
            if is_in_pool(point) {
                return DragMode::Drops;
            }
        }
        DragMode::Orbit
    }

    /// The plane through the ball that faces the ray, and where the ray meets it.
    pub fn grab_plane(&self, ray: Option<Ray>) -> (r: Option<(Vec3, Vec3)>)
        ensures
            r == facing_plane(self.ball_center, ray),
    {
        match ray {
            None => None,
            Some(ray) => {
                let normal: Vec3 = ray.direction.normalize().negated();
                let ball: Vec3 = ball_world_position(self.ball_center);
                match intersect_ray_plane(ray.origin, ray.direction, ball, normal) {
                    None => None,
                    Some(hit) => Some((normal, hit)),
                }
            },
        }
    }

    /// Moves the dragged ball to where the ray now meets the plane it was grabbed in.
    fn drag_ball(&mut self, input: InputFrame)
        ensures
            *final(self) == old(self).after_ball_drag(input),
    {
        if let Some(ray) = input.ray {
            let hit: Option<Vec3> = intersect_ray_plane(
                ray.origin,
                ray.direction,
                self.drag_prev_hit,
                self.drag_plane_normal,
            );
            if let Some(hit) = hit {
                proof {
                    lemma_limits_ordered();
                }
                let delta: Vec3 = hit.minus(self.drag_prev_hit);
                let place: Vec3 = ball_world_position(self.ball_center).plus(delta);
                self.ball_center = Vec3 {
                    x: divided(clamp(place.x, NEGATIVE_SIDE_LIMIT, SIDE_LIMIT), POOL_HALF),
                    y: divided(clamp(place.y, FLOOR_LIMIT, CEILING_LIMIT), WORLD_SCALE),
                    z: divided(clamp(place.z, NEGATIVE_SIDE_LIMIT, SIDE_LIMIT), POOL_HALF),
                };
                self.ball_velocity = Vec3::zeros();
                self.drag_prev_hit = hit;
            }
        }
    }

    /// Takes in a frame of input. The camera stands still while the ball or the
    /// water is dragged.
    #[verifier::rlimit(30)]
    pub fn handle_input(&mut self, input: InputFrame) -> (r: InputOutcome)
        ensures
            *final(self) == old(self).after_input(input),
            r.exit == input.quit,
            r.camera_enabled == !(final(self).drag_mode == DragMode::Ball || final(self).drag_mode
                == DragMode::Drops),
    {
        if input.toggle_pause {
            self.paused = !self.paused;
        }
        if input.left_pressed {
            self.drag_mode = self.classify_press(input.ray, input.ground);
            if self.drag_mode == DragMode::Ball {
                match self.grab_plane(input.ray) {
                    Some((normal, hit)) => {
                        self.drag_plane_normal = normal;
                        self.drag_prev_hit = hit;
                    },
                    None => {
                        self.drag_mode = DragMode::Orbit;
                    },
                }
            }
        }
        if !input.left_held {
            self.drag_mode = DragMode::Idle;
        }
        assert(*self == old(self).after_keys(input).after_button(input));
        let camera_enabled: bool = !(self.drag_mode == DragMode::Ball || self.drag_mode
            == DragMode::Drops);
        self.pending_drop = None;
        match self.drag_mode {
            DragMode::Ball => {
                self.drag_ball(input);
            },
            DragMode::Drops => {
                let moved: bool = input.left_pressed || lt(CURSOR_TOLERANCE, input.cursor_delta.norm());
                if let Some(point) = input.ground {
                    if moved && is_in_pool(point) {
                        self.pending_drop = Some(to_field(point));
                    }
                }
            },
            DragMode::Idle | DragMode::Orbit => {},
        }
        InputOutcome { exit: input.quit, camera_enabled }
    }

    /// Takes in the control panel: whether it rains, whether the ball is shown, and
    /// whether the reset button was clicked. A click is passed on to the pass.
    pub fn apply_controls(&mut self, rain: bool, ball: bool, reset: bool, params: &mut WaterParams)
        ensures
            *final(self) == (WaterState { rain, ball_shown: ball, ..*old(self) }),
            *final(params) == (WaterParams { reset: old(params).reset || reset, ..*old(params) }),
    {
        self.rain = rain;
        self.ball_shown = ball;
        if reset {
            params.reset = true;
        }
    }

    /// Moves the free ball for `delta`.
    pub fn step_ball_physics(&mut self, delta: Scalar)
        ensures
            *final(self) == old(self).after_step(delta),
    {
        proof {
            lemma_limits_ordered();
        }
        let submerged: Scalar = clamp(
            divided(minus(SPHERE_SIM_RADIUS, self.ball_center.y), SPHERE_SIM_DIAMETER),
            ZERO,
            ONE,
        );
        let gravity: Vec3 = Vec3 { x: ZERO, y: GRAVITY, z: ZERO };
        let pull: Vec3 = gravity.times(minus(delta, times(times(BUOYANCY, delta), submerged)));
        let mut velocity: Vec3 = self.ball_velocity.plus(pull);
        let speed_squared: Scalar = velocity.dot(velocity);
        if lt(SLOW, speed_squared) {
            let drag: Vec3 = velocity.normalize().times(times(times(submerged, delta), speed_squared));
            velocity = velocity.minus(drag);
        }
        let mut center: Vec3 = self.ball_center.plus(velocity.times(delta));
        if lt(center.y, FLOOR_LIMIT) {
            center.y = FLOOR_LIMIT;
            velocity.y = times(abs(velocity.y), REBOUND);
        }
        center.x = clamp(center.x, NEGATIVE_SIDE_LIMIT, SIDE_LIMIT);
        center.z = clamp(center.z, NEGATIVE_SIDE_LIMIT, SIDE_LIMIT);
        self.ball_center = center;
        self.ball_velocity = velocity;
    }

    /// Moves the ball in a frame that took `delta_time`. What comes back are the
    /// turns that the ball makes in this frame, first by itself and then rolling;
    /// none while paused.
    pub fn simulate(&mut self, delta_time: Scalar) -> (r: Option<(Turn, Option<Turn>)>)
        ensures
            *final(self) == old(self).after_motion(delta_time),
            r == old(self).turns_in(delta_time),
    {
        if self.paused {
            return None;
        }
        let delta: Scalar = min(delta_time, MAX_FRAME_TIME);
        if self.drag_mode == DragMode::Ball {
            self.ball_velocity = Vec3::zeros();
        } else {
            self.step_ball_physics(delta);
        }
        let spin: Turn = Turn {
            axis: slanted_axis(),
            half_angle: divided(times(SPIN_RATE, delta), TWO),
        };
        Some((spin, self.roll()))
    }

    /// The turn that the movement over the floor gives the ball.
    fn roll(&self) -> (r: Option<Turn>)
        ensures
            r == self.rolling_turn(),
    {
        let previous: Vec3 = ball_world_position(self.ball_previous_center);
        let current: Vec3 = ball_world_position(self.ball_center);
        let horizontal: Vec3 = Vec3 {
            x: minus(current.x, previous.x),
            y: ZERO,
            z: minus(current.z, previous.z),
        };
        let distance: Scalar = horizontal.norm();
        if !lt(SHORT, distance) {
            return None;
        }
        let motion: Vec3 = horizontal.divided(distance);
        let axis: Vec3 = Vec3 { x: ZERO, y: ONE, z: ZERO }.cross(motion);
        let axis_length: Scalar = axis.norm();
        if !lt(SHORT, axis_length) {
            return None;
        }
        let angle: Scalar = divided(distance, SPHERE_RADIUS);
        Some(Turn { axis: axis.divided(axis_length), half_angle: divided(angle, TWO) })
    }

    /// Turns the ball, given the sine and the cosine of the half angles of the two
    /// turns that it makes in this frame. The second is read only where it rolls.
    pub fn apply_ball_rotation(&mut self, spin: SineCosine, roll: SineCosine)
        ensures
            *final(self) == (WaterState {
                ball_rotation: old(self).turned(spin, roll),
                ..*old(self)
            }),
    {
        let mut rotation: Vec4 = Vec4::from_turn(slanted_axis(), spin).quaternion_times(
            self.ball_rotation,
        );
        if let Some(rolling) = self.roll() {
            rotation = Vec4::from_turn(rolling.axis, roll).quaternion_times(rotation);
        }
        self.ball_rotation = rotation.quaternion_normalize();
    }

    /// Tells the pass where the ball went, how it is turned, whether it is shown and
    /// whether a drop falls. A pending drop
    /// is used up, fall it or not. `scattered` is where a drop of the rain would fall.
    pub fn publish(&mut self, scattered: Vec2, params: &mut WaterParams)
        ensures
            *final(self) == old(self).after_publish(),
            *final(params) == old(self).published(scattered, *old(params)),
    {
        params.sphere_old = self.ball_previous_center;
        params.sphere_new = self.ball_center;
        params.sphere_radius = SPHERE_SIM_RADIUS;
        params.ball_rotation = self.ball_rotation;
        params.ball_shown = self.ball_shown;
        let pending: Option<Vec2> = self.pending_drop;
        self.pending_drop = None;
        let place: Option<Vec2> = if self.paused {
            None
        } else if pending.is_some() {
            pending
        } else if self.rain {
            Some(scattered)
        } else {
            None
        };
        match place {
            Some(place) => {
                params.drop_active = true;
                params.drop_center = place;
                params.drop_radius = DROP_RADIUS;
                params.drop_strength = DROP_STRENGTH;
            },
            None => {
                params.drop_active = false;
            },
        }
        self.ball_previous_center = self.ball_center;
    }
}

} // verus!
