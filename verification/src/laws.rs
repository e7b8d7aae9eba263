//! What holds of the interaction from frame to frame.

use crate::arithmetic::{from_whole, product, quotient, sum, unit};
use crate::bounds::{
    is_finite, lemma_dyadic, lemma_one_is_neutral, lemma_product_between, lemma_quotient_between,
    lemma_sum_between,
};
use crate::constants::{
    BALL_START_X, BALL_START_Y, BALL_START_Z, CEILING_LIMIT, FLOOR_LIMIT, HALF, MAX_FRAME_TIME,
    NEGATIVE_SIDE_LIMIT, POOL_HALF, SCATTER_STEPS, SIDE_LIMIT,
};
use crate::grid_laws::{lemma_from_whole, lemma_from_whole_order};
use crate::limits::{inside_pool, lemma_limit_values, lemma_limits_ordered, lemma_within_limits};
use crate::params::WaterParams;
use crate::plugin::{
    field_point, held_in_pool, plane_hit, pressed_on, scatter_point, world_position, DragMode,
    InputFrame, WaterState,
};
use crate::rounding::lemma_rounded_exact;
use crate::scalar::{
    absolute, at_most, clamped, is_nan, lemma_absolute, lemma_clamped, lemma_magnitude_zero,
    lemma_spread_order, smaller, value, Scalar, ONE, ZERO,
};
use crate::vector::{vector_difference, vector_sum, Vec2, Vec3};
use vstd::arithmetic::power2::lemma2_to64;
use vstd::prelude::*;

verus! {

/// Nothing is dragged once the button is up.
pub proof fn lemma_release(state: WaterState, input: InputFrame)
    requires
        !input.left_held,
    ensures
        state.after_input(input).drag_mode == DragMode::Idle,
        state.after_input(input).pending_drop == None::<Vec2>,
        state.after_input(input).ball_center == state.ball_center,
{
}

/// A click on the water makes a drop where it hits, and the pass is told in this frame
/// unless the game is paused.
pub proof fn lemma_click_makes_drop(
    state: WaterState,
    input: InputFrame,
    point: Vec3,
    scattered: Vec2,
    params: WaterParams,
)
    requires
        input.left_pressed,
        input.left_held,
        pressed_on(state.ball_center, input.ray, input.ground) == DragMode::Drops,
        input.ground == Some(point),
    ensures
        state.after_input(input).pending_drop == Some(field_point(point)),
        ({
            let told = state.after_input(input).published(scattered, params);
            &&& told.drop_active == !state.after_input(input).paused
            &&& told.drop_active ==> told.drop_center == field_point(point)
        }),
{
}

/// A press beside the ball and the pool orbits the camera and changes nothing else.
pub proof fn lemma_press_outside(state: WaterState, input: InputFrame)
    requires
        input.left_pressed,
        input.left_held,
        pressed_on(state.ball_center, input.ray, input.ground) == DragMode::Orbit,
    ensures
        state.after_input(input) == (WaterState {
            drag_mode: DragMode::Orbit,
            pending_drop: None,
            paused: state.paused != input.toggle_pause,
            ..state
        }),
{
}

/// What is dragged stays the same as long as the button stays down.
pub proof fn lemma_drag_lasts(state: WaterState, input: InputFrame)
    requires
        input.left_held,
        !input.left_pressed,
    ensures
        state.after_input(input).drag_mode == state.drag_mode,
{
}

/// The ball moves by input only while it is dragged, and a drop is made only while
/// the water is dragged.
pub proof fn lemma_drag_needed(state: WaterState, input: InputFrame)
    ensures
        state.after_input(input).drag_mode != DragMode::Ball ==> state.after_input(input).ball_center
            == state.ball_center && state.after_input(input).ball_velocity == state.ball_velocity,
        state.after_input(input).drag_mode != DragMode::Drops
            ==> state.after_input(input).pending_drop == None::<Vec2>,
{
}

/// The pause key pressed in two frames leaves the game running or paused as it was.
pub proof fn lemma_pause_twice(state: WaterState, first: InputFrame, second: InputFrame)
    requires
        first.toggle_pause,
        second.toggle_pause,
    ensures
        state.after_input(first).paused == !state.paused,
        state.after_input(first).after_input(second).paused == state.paused,
{
}

/// Input changes neither the rain nor whether the ball is shown.
pub proof fn lemma_input_leaves_controls(state: WaterState, input: InputFrame)
    ensures
        state.after_input(input).rain == state.rain,
        state.after_input(input).ball_shown == state.ball_shown,
        state.after_input(input).ball_rotation == state.ball_rotation,
        state.after_input(input).ball_previous_center == state.ball_previous_center,
{
}

/// While paused the ball stands still and no drop falls.
pub proof fn lemma_paused(state: WaterState, delta_time: Scalar, scattered: Vec2, params: WaterParams)
    requires
        state.paused,
    ensures
        state.after_motion(delta_time) == state,
        !state.published(scattered, params).drop_active,
{
}

/// A held ball has no speed.
pub proof fn lemma_held_ball_rests(state: WaterState, delta_time: Scalar)
    requires
        !state.paused,
        state.drag_mode == DragMode::Ball,
    ensures
        state.after_motion(delta_time).ball_velocity == (Vec3 { x: ZERO, y: ZERO, z: ZERO }),
        state.after_motion(delta_time).ball_center == state.ball_center,
{
}

/// A frame never simulates more than the longest time, whatever it took.
pub proof fn lemma_frame_time(delta_time: Scalar)
    ensures
        at_most(smaller(delta_time, MAX_FRAME_TIME), MAX_FRAME_TIME),
{
}

/// The pass sees the ball's way without gaps: where a frame begins is where the one
/// before ended, whatever happened to the ball in between.
pub proof fn lemma_way_without_gaps(
    state: WaterState,
    later: WaterState,
    scattered: Vec2,
    later_scattered: Vec2,
    params: WaterParams,
)
    requires
        later.ball_previous_center == state.after_publish().ball_previous_center,
    ensures
        later.published(later_scattered, state.published(scattered, params)).sphere_old
            == state.published(scattered, params).sphere_new,
{
}

/// A pending drop is told to the pass once.
pub proof fn lemma_drop_once(state: WaterState, scattered: Vec2, params: WaterParams)
    requires
        !state.rain,
    ensures
        !state.after_publish().published(scattered, state.published(scattered, params)).drop_active,
        state.published(scattered, params).drop_active <==> (state.pending_drop.is_some() && !state.paused),
        state.pending_drop.is_some() && !state.paused ==> state.published(scattered, params).drop_center
            == state.pending_drop.unwrap(),
{
}

/// In the rain a drop falls in every frame that is not paused.
pub proof fn lemma_rain(state: WaterState, scattered: Vec2, params: WaterParams)
    requires
        state.rain,
    ensures
        state.published(scattered, params).drop_active == !state.paused,
        !state.paused && state.pending_drop.is_none() ==> state.published(scattered, params).drop_center
            == scattered,
{
}

/// Telling the pass about the ball and the drops does not touch a requested reset.
pub proof fn lemma_reset_survives(state: WaterState, scattered: Vec2, params: WaterParams)
    ensures
        state.published(scattered, params).reset == params.reset,
{
}

/// A coordinate between -1 and 1 is mapped between 0 and 1.
proof fn lemma_field_coordinate(x: Scalar)
    requires
        at_most(absolute(x), POOL_HALF),
    ensures
        at_most(ZERO, sum(product(quotient(x, POOL_HALF), HALF), HALF)),
        at_most(sum(product(quotient(x, POOL_HALF), HALF), HALF), ONE),
{
    lemma_limit_values();
    lemma_absolute(x);
    lemma_finite_up_to_one(x);
    lemma_one_is_neutral(x);
    let (v, h) = (value(x), value(HALF));
    let low: Scalar = 0xBF00_0000;
    assert(value(low) == -h);
    assert(unit() * (-h) <= v * h <= unit() * h) by (nonlinear_arith)
        requires
            -unit() <= v <= unit(),
            h >= 0,
    ;
    lemma_product_between(x, HALF, low, HALF);
    let p = product(x, HALF);
    lemma_absolute(p);
    lemma_finite_up_to_one(p);
    lemma_sum_between(p, HALF, ZERO, ONE);
}

/// A number that is not above 1 in size is finite.
proof fn lemma_finite_up_to_one(x: Scalar)
    requires
        at_most(absolute(x), ONE),
    ensures
        is_finite(x),
{
    if !is_finite(x) {
        lemma_spread_order(ONE as int, absolute(x) as int);
    }
}

/// A drop made by dragging over the pool lies on the height field.
pub proof fn lemma_drop_on_field(state: WaterState, input: InputFrame)
    ensures
        state.after_input(input).pending_drop matches Some(place) ==> {
            &&& at_most(ZERO, place.x) && at_most(place.x, ONE)
            &&& at_most(ZERO, place.y) && at_most(place.y, ONE)
        },
{
    let pressed = state.after_keys(input).after_button(input);
    if pressed.drag_mode == DragMode::Drops && pressed.dragged_drop(input).is_some() {
        let point = input.ground.unwrap();
        lemma_field_coordinate(point.x);
        lemma_field_coordinate(point.z);
    }
}

/// A drop of the rain lies on the height field, whatever the random word is.
pub proof fn lemma_scatter_on_field(word: u32)
    ensures
        at_most(ZERO, scatter_point(word).x) && at_most(scatter_point(word).x, ONE),
        at_most(ZERO, scatter_point(word).y) && at_most(scatter_point(word).y, ONE),
{
    lemma_scatter_coordinate(word as int / 0x1_0000);
    lemma_scatter_coordinate(word as int % 0x1_0000);
}

/// A coordinate of a drop of the rain lies between 0 and 1.
proof fn lemma_scatter_coordinate(n: int)
    requires
        0 <= n < 0x1_0000,
    ensures
        at_most(ZERO, quotient(from_whole(n), SCATTER_STEPS)),
        at_most(quotient(from_whole(n), SCATTER_STEPS), ONE),
{
    lemma_limit_values();
    lemma2_to64();
    lemma_dyadic(0x80_0000, 142, 7);
    let steps = value(SCATTER_STEPS);
    assert(steps == 0x1_0000 * unit());
    lemma_from_whole(n);
    lemma_from_whole(0x1_0000);
    lemma_from_whole_order(n, 0x1_0000);
    lemma_rounded_exact(0x1_0000 * unit(), 1, SCATTER_STEPS as int);
    assert(from_whole(0x1_0000) == SCATTER_STEPS);
    let v = value(from_whole(n));
    lemma_magnitude_zero(from_whole(n));
    assert(steps * 0 <= v * unit() <= steps * unit()) by (nonlinear_arith)
        requires
            0 <= v <= steps,
            unit() > 0,
    ;
    lemma_quotient_between(from_whole(n), SCATTER_STEPS, ZERO, ONE);
}

/// The ball starts inside the pool.
pub proof fn lemma_starts_inside()
    ensures
        inside_pool(Vec3 { x: BALL_START_X, y: BALL_START_Y, z: BALL_START_Z }),
{
    lemma_limits_ordered();
    lemma_within_limits(Vec3 { x: BALL_START_X, y: BALL_START_Y, z: BALL_START_Z });
    lemma_limit_values();
    lemma_spread_order(0x3ECC_CCCD, SIDE_LIMIT as int);
    lemma_spread_order(0x3F00_0000, SIDE_LIMIT as int);
    lemma_spread_order(BALL_START_Z as int, SIDE_LIMIT as int);
}

/// Whether a vector is made of numbers.
pub open spec fn all_numbers(a: Vec3) -> bool {
    !is_nan(a.x) && !is_nan(a.y) && !is_nan(a.z)
}

/// The free ball stays inside the pool as long as its way is made of numbers.
pub proof fn lemma_step_inside(state: WaterState, delta: Scalar)
    requires
        all_numbers(state.free_center(delta)),
    ensures
        inside_pool(state.after_step(delta).ball_center),
{
    let center = state.free_center(delta);
    lemma_limits_ordered();
    lemma_limit_values();
    lemma_clamped(center.x, NEGATIVE_SIDE_LIMIT, SIDE_LIMIT);
    lemma_clamped(center.z, NEGATIVE_SIDE_LIMIT, SIDE_LIMIT);
    lemma_within_limits(state.after_step(delta).ball_center);
}

/// A frame leaves the ball inside the pool.
pub proof fn lemma_motion_inside(state: WaterState, delta_time: Scalar)
    requires
        inside_pool(state.ball_center),
        !state.paused && state.drag_mode != DragMode::Ball ==> all_numbers(
            state.free_center(smaller(delta_time, MAX_FRAME_TIME)),
        ),
    ensures
        inside_pool(state.after_motion(delta_time).ball_center),
{
    if !state.paused && state.drag_mode != DragMode::Ball {
        lemma_step_inside(state, smaller(delta_time, MAX_FRAME_TIME));
    }
}

/// A ball dragged to a place made of numbers stays inside the pool, and not too high.
pub proof fn lemma_held_inside(place: Vec3)
    requires
        all_numbers(place),
    ensures
        inside_pool(held_in_pool(place)),
        at_most(held_in_pool(place).y, CEILING_LIMIT),
{
    lemma_limits_ordered();
    lemma_clamped(place.x, NEGATIVE_SIDE_LIMIT, SIDE_LIMIT);
    lemma_clamped(place.y, FLOOR_LIMIT, CEILING_LIMIT);
    lemma_clamped(place.z, NEGATIVE_SIDE_LIMIT, SIDE_LIMIT);
    lemma_one_is_neutral(clamped(place.x, NEGATIVE_SIDE_LIMIT, SIDE_LIMIT));
    lemma_one_is_neutral(clamped(place.y, FLOOR_LIMIT, CEILING_LIMIT));
    lemma_one_is_neutral(clamped(place.z, NEGATIVE_SIDE_LIMIT, SIDE_LIMIT));
    lemma_within_limits(held_in_pool(place));
}

/// Where input takes the ball before the pool holds it back, where it takes it anywhere.
pub open spec fn drag_target(state: WaterState, input: InputFrame) -> Option<Vec3> {
    let held = state.after_keys(input).after_button(input);
    match (held.drag_mode, input.ray) {
        (DragMode::Ball, Some(ray)) => match plane_hit(ray, held.drag_prev_hit, held.drag_plane_normal) {
            Some(hit) => Some(
                vector_sum(
                    world_position(held.ball_center),
                    vector_difference(hit, held.drag_prev_hit),
                ),
            ),
            None => None,
        },
        _ => None,
    }
}

/// Input leaves the ball inside the pool as long as it is dragged to numbers.
pub proof fn lemma_input_inside(state: WaterState, input: InputFrame)
    requires
        inside_pool(state.ball_center),
        match drag_target(state, input) {
            Some(place) => all_numbers(place),
            None => true,
        },
    ensures
        inside_pool(state.after_input(input).ball_center),
{
    if let Some(place) = drag_target(state, input) {
        lemma_held_inside(place);
    }
}

} // verus!
