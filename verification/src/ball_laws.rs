//! What holds of the ball: gravity wins above the water and buoyancy under it, it
//! bounces off the floor, and it rolls across its way.

use crate::arithmetic::{difference, opposite, product, quotient, sum, unit};
use crate::bounds::{
    is_finite, lemma_dyadic, lemma_one_is_neutral, lemma_product_between, lemma_product_commutes,
    lemma_quotient_at_least, lemma_quotient_between, lemma_sum_between, lemma_sum_commutes,
    lemma_sum_exact, lemma_sum_order,
};
use crate::constants::{
    BUOYANCY, FLOOR_LIMIT, GRAVITY, HALF, MAX_FRAME_TIME, REBOUND, SHORT, SLOW, SPHERE_SIM_DIAMETER,
    SPHERE_SIM_RADIUS, TWO,
};
use crate::laws::{all_numbers, lemma_step_inside};
use crate::limits::{inside_pool, lemma_limit_values, lemma_limits_ordered};
use crate::plugin::{Turn, WaterState};
use crate::ranges::{
    lemma_difference_within, lemma_inner_within, lemma_power, lemma_product_within,
    lemma_quotient_within, lemma_root_within, lemma_vector_scaled_within, lemma_vector_sum_within,
    lemma_vector_within_more, lemma_within_more, vector_within, within,
};
use crate::rounding::{lemma_rounded_exact, lemma_rounded_nearest};
use crate::scalar::{
    absolute, at_most, is_nan, lemma_clamped, lemma_magnitude_zero, lemma_spread_order, less,
    magnitude, spread, unsigned, value, Scalar, INFINITY, ONE, SIGN, ZERO,
};
use crate::vector::{direction, inner, length, vector_scaled, vector_unscaled, Vec3};
use vstd::arithmetic::power2::{lemma2_to64, lemma2_to64_rest, pow2};
use vstd::prelude::*;

verus! {

/// Adding zero changes no value.
pub proof fn lemma_zero_added(a: Scalar, zero: Scalar)
    requires
        is_finite(a),
        unsigned(zero) == 0,
    ensures
        is_finite(sum(a, zero)),
        is_finite(sum(zero, a)),
        value(sum(a, zero)) == value(a),
        value(sum(zero, a)) == value(a),
{
    lemma_magnitude_zero(zero);
    lemma_magnitude_zero(ZERO);
    lemma_magnitude_zero(SIGN);
    if value(a) != 0 {
        lemma_sum_exact(a, zero, a);
        lemma_sum_exact(zero, a, a);
    }
}

/// The opposite of a number denotes the opposite.
pub proof fn lemma_opposite(a: Scalar)
    ensures
        value(opposite(a)) == -value(a),
        is_finite(opposite(a)) == is_finite(a),
        is_nan(opposite(a)) == is_nan(a),
{
    lemma_magnitude_zero(a);
}

/// A number taken off one that is not larger leaves nothing above zero.
proof fn lemma_difference_not_above(a: Scalar, b: Scalar)
    requires
        is_finite(a),
        is_finite(b),
        value(a) <= value(b),
    ensures
        !is_nan(difference(a, b)),
        value(difference(a, b)) <= 0,
{
    lemma_opposite(a);
    lemma_opposite(b);
    lemma_sum_commutes(a, opposite(b));
    lemma_sum_order(opposite(b), opposite(a), a);
    lemma_magnitude_zero(ZERO);
    lemma_magnitude_zero(SIGN);
}

/// A product with a factor of zero is zero.
pub proof fn lemma_zero_times(a: Scalar, zero: Scalar)
    requires
        is_finite(a),
        unsigned(zero) == 0,
    ensures
        unsigned(product(a, zero)) == 0,
        unsigned(product(zero, a)) == 0,
{
    lemma_limit_values();
    lemma_magnitude_zero(zero);
    let m = magnitude(a);
    assert(m * 0 == 0 && 0 * m == 0);
    lemma_magnitude_zero(ZERO);
    lemma_rounded_exact(0, unit(), 0);
}

/// The time that a frame may simulate lies between 0 and a half.
pub proof fn lemma_frame_time_small(delta: Scalar)
    requires
        at_most(ZERO, delta),
        at_most(delta, MAX_FRAME_TIME),
    ensures
        is_finite(delta),
        0 <= value(delta),
        2 * value(delta) <= unit(),
{
    lemma_limit_values();
    lemma_magnitude_zero(delta);
    lemma_spread_order(MAX_FRAME_TIME as int, HALF as int);
    if !is_finite(delta) {
        lemma_spread_order(MAX_FRAME_TIME as int, unsigned(delta));
    }
}

/// What gravity and buoyancy denote.
pub proof fn lemma_forces()
    ensures
        value(GRAVITY) == -4 * unit(),
        unit() <= value(BUOYANCY) <= 2 * unit(),
        unit() > 0,
{
    lemma_limit_values();
    lemma2_to64();
    lemma_dyadic(0x80_0000, 128, 21);
    lemma_spread_order(ONE as int, BUOYANCY as int);
    lemma_spread_order(BUOYANCY as int, TWO as int);
}

/// What the lift of a ball amounts to when all of it is under water: no less than
/// the time, and little.
proof fn lemma_lift(delta: Scalar)
    requires
        at_most(ZERO, delta),
        at_most(delta, MAX_FRAME_TIME),
    ensures
        is_finite(product(BUOYANCY, delta)),
        value(delta) <= value(product(BUOYANCY, delta)) <= unit(),
{
    lemma_limit_values();
    lemma_forces();
    lemma_frame_time_small(delta);
    let (b, d, u) = (value(BUOYANCY), value(delta), unit());
    assert(u * d <= b * d <= u * u) by (nonlinear_arith)
        requires
            u <= b <= 2 * u,
            0 <= d,
            2 * d <= u,
            u > 0,
    ;
    lemma_product_between(BUOYANCY, delta, delta, ONE);
    lemma_up_to_one(product(BUOYANCY, delta));
}

/// A number between 0 and 1 is finite.
proof fn lemma_up_to_one(a: Scalar)
    requires
        !is_nan(a),
        0 <= value(a) <= unit(),
    ensures
        is_finite(a),
{
    lemma_limit_values();
    lemma_magnitude_zero(a);
    if !is_finite(a) {
        lemma_spread_order(ONE as int, unsigned(a));
    }
}

/// The pull of gravity over a small factor is small, and against the factor's sign.
pub proof fn lemma_pull(k: Scalar)
    requires
        is_finite(k),
        -unit() <= value(k) <= unit(),
    ensures
        is_finite(product(GRAVITY, k)),
        value(k) >= 0 ==> value(product(GRAVITY, k)) <= 0,
        value(k) <= 0 ==> value(product(GRAVITY, k)) >= 0,
{
    lemma_limit_values();
    lemma_forces();
    let up: Scalar = 0x4080_0000;
    lemma2_to64();
    lemma_dyadic(0x80_0000, 128, 21);
    assert(value(up) == 4 * unit());
    let (g, v, u) = (value(GRAVITY), value(k), unit());
    assert(u * g <= g * v <= u * (4 * u)) by (nonlinear_arith)
        requires
            g == -4 * u,
            -u <= v <= u,
            u > 0,
    ;
    if v >= 0 {
        assert(g * v <= 0 && u * 0 == 0) by (nonlinear_arith)
            requires
                g <= 0,
                v >= 0,
        ;
        lemma_product_between(GRAVITY, k, GRAVITY, ZERO);
    }
    if v <= 0 {
        assert(g * v >= 0 && u * 0 == 0) by (nonlinear_arith)
            requires
                g <= 0,
                v <= 0,
        ;
        lemma_product_between(GRAVITY, k, ZERO, up);
    }
    let r = product(GRAVITY, k);
    lemma_magnitude_zero(r);
    if !is_finite(r) {
        lemma_spread_order(up as int, unsigned(r));
    }
}

/// A ball that is wholly out of the water is not sped up upwards.
pub proof fn lemma_gravity_wins(state: WaterState, delta: Scalar)
    requires
        at_most(ZERO, delta),
        at_most(delta, MAX_FRAME_TIME),
        !is_nan(state.ball_velocity.y),
        at_most(SPHERE_SIM_RADIUS, state.ball_center.y),
    ensures
        at_most(state.pulled_velocity(delta).y, state.ball_velocity.y),
{
    lemma_limit_values();
    lemma_frame_time_small(delta);
    lemma_lift(delta);
    lemma_magnitude_zero(ZERO);
    let y = state.ball_center.y;
    let room = difference(SPHERE_SIM_RADIUS, y);
    if is_finite(y) {
        lemma_difference_not_above(SPHERE_SIM_RADIUS, y);
    } else {
        lemma_magnitude_zero(y);
        assert(room == SIGN + INFINITY);
    }
    lemma_magnitude_zero(room);
    let q = quotient(room, SPHERE_SIM_DIAMETER);
    lemma_rounded_nearest(magnitude(room) * unit(), magnitude(SPHERE_SIM_DIAMETER));
    if unsigned(room) == 0 {
        lemma_rounded_exact(0, magnitude(SPHERE_SIM_DIAMETER), 0);
    }
    lemma_magnitude_zero(q);
    let s = state.submerged();
    assert(unsigned(s) == 0);
    let lift = product(product(BUOYANCY, delta), s);
    lemma_zero_times(product(BUOYANCY, delta), s);
    let k = difference(delta, lift);
    lemma_zero_added(delta, opposite(lift));
    lemma_pull(k);
    let pull = product(GRAVITY, k);
    if is_finite(state.ball_velocity.y) {
        lemma_sum_order(pull, ZERO, state.ball_velocity.y);
        lemma_zero_added(state.ball_velocity.y, ZERO);
        lemma_sum_commutes(state.ball_velocity.y, pull);
    }
}

/// A ball that is wholly under water is not sped up downwards.
pub proof fn lemma_buoyancy_wins(state: WaterState, delta: Scalar)
    requires
        at_most(ZERO, delta),
        at_most(delta, MAX_FRAME_TIME),
        !is_nan(state.ball_velocity.y),
        at_most(state.ball_center.y, opposite(SPHERE_SIM_RADIUS)),
    ensures
        at_most(state.ball_velocity.y, state.pulled_velocity(delta).y),
{
    lemma_limit_values();
    lemma_frame_time_small(delta);
    lemma_lift(delta);
    lemma_magnitude_zero(ZERO);
    let y = state.ball_center.y;
    let radius = SPHERE_SIM_RADIUS;
    lemma_opposite(y);
    lemma_opposite(radius);
    let room = difference(radius, y);
    if is_finite(y) {
        lemma_sum_commutes(radius, opposite(y));
        lemma_sum_order(radius, opposite(y), radius);
        lemma_sum_exact(radius, radius, SPHERE_SIM_DIAMETER);
    } else {
        lemma_magnitude_zero(y);
        assert(room == INFINITY);
    }
    lemma_magnitude_zero(room);
    let q = quotient(room, SPHERE_SIM_DIAMETER);
    if is_finite(room) {
        let (r, d) = (value(room), value(SPHERE_SIM_DIAMETER));
        assert(d * unit() <= r * unit()) by (nonlinear_arith)
            requires
                d <= r,
                unit() > 0,
        ;
        lemma_quotient_at_least(room, SPHERE_SIM_DIAMETER, ONE);
    } else {
        lemma_spread_order(ONE as int, INFINITY as int);
    }
    lemma_magnitude_zero(q);
    let s = state.submerged();
    assert(s == ONE) by {
        if unsigned(q) < ONE {
            lemma_spread_order(unsigned(q), ONE as int);
        } else if unsigned(q) > ONE {
            lemma_spread_order(ONE as int, unsigned(q));
        }
    }
    let lift = product(BUOYANCY, delta);
    lemma_one_is_neutral(lift);
    let k = difference(delta, lift);
    lemma_difference_not_above(delta, lift);
    lemma_difference_small(delta, lift);
    lemma_pull(k);
    let pull = product(GRAVITY, k);
    if is_finite(state.ball_velocity.y) {
        lemma_sum_order(ZERO, pull, state.ball_velocity.y);
        lemma_zero_added(state.ball_velocity.y, ZERO);
        lemma_sum_commutes(state.ball_velocity.y, pull);
    }
}

/// The difference of two numbers between 0 and 1 lies between -1 and 1.
proof fn lemma_difference_small(a: Scalar, b: Scalar)
    requires
        is_finite(a),
        is_finite(b),
        0 <= value(a) <= unit(),
        0 <= value(b) <= unit(),
    ensures
        is_finite(difference(a, b)),
        -unit() <= value(difference(a, b)) <= unit(),
{
    lemma_limit_values();
    lemma_opposite(b);
    let low: Scalar = 0xBF80_0000;
    lemma_sum_between(a, opposite(b), low, ONE);
    let r = difference(a, b);
    lemma_magnitude_zero(r);
    if !is_finite(r) {
        lemma_spread_order(ONE as int, unsigned(r));
    }
}

/// What is left of a speed after a bounce is not negative.
proof fn lemma_rebound(v: Scalar)
    requires
        !is_nan(v),
    ensures
        at_most(ZERO, product(absolute(v), REBOUND)),
{
    lemma_limit_values();
    let a = absolute(v);
    lemma_magnitude_zero(a);
    lemma_magnitude_zero(REBOUND);
    lemma_rounded_nearest(magnitude(a) * magnitude(REBOUND), unit());
    lemma_magnitude_zero(product(a, REBOUND));
    lemma_magnitude_zero(ZERO);
}

/// The ball does not move downwards right after it bounced off the floor.
pub proof fn lemma_bounce(state: WaterState, delta: Scalar)
    requires
        less(state.free_center(delta).y, FLOOR_LIMIT),
        !is_nan(state.braked_velocity(delta).y),
    ensures
        at_most(ZERO, state.after_step(delta).ball_velocity.y),
        state.after_step(delta).ball_center.y == FLOOR_LIMIT,
{
    let velocity = state.braked_velocity(delta);
    lemma_rebound(velocity.y);
    assert(state.after_step(delta).ball_velocity.y == product(absolute(velocity.y), REBOUND));
}

/// A coordinate of a ball inside the pool lies between -1 and 1.
proof fn lemma_coordinate_small(x: Scalar)
    requires
        !is_nan(x),
        -unit() <= value(x) <= unit(),
    ensures
        is_finite(x),
{
    lemma_limit_values();
    lemma_magnitude_zero(x);
    if !is_finite(x) {
        lemma_spread_order(ONE as int, unsigned(x));
    }
}

/// How far a ball inside the pool moves along an axis: by no more than 2, and by nothing
/// where it stays.
proof fn lemma_movement_small(now: Scalar, before: Scalar)
    requires
        !is_nan(now),
        !is_nan(before),
        -unit() <= value(now) <= unit(),
        -unit() <= value(before) <= unit(),
    ensures
        is_finite(difference(now, before)),
        -2 * unit() <= value(difference(now, before)) <= 2 * unit(),
        now == before ==> difference(now, before) == ZERO,
{
    lemma_limit_values();
    lemma_coordinate_small(now);
    lemma_coordinate_small(before);
    lemma_opposite(before);
    let low: Scalar = 0xC000_0000;
    assert(value(low) == -2 * unit());
    lemma_sum_between(now, opposite(before), low, TWO);
    let r = difference(now, before);
    lemma_magnitude_zero(r);
    if !is_finite(r) {
        lemma_spread_order(TWO as int, unsigned(r));
    }
}

/// The movement over the floor of a ball that stays inside the pool.
pub proof fn lemma_floor_movement(state: WaterState)
    requires
        inside_pool(state.ball_center),
        inside_pool(state.ball_previous_center),
    ensures
        state.floor_movement().y == ZERO,
        is_finite(state.floor_movement().x),
        is_finite(state.floor_movement().z),
        -2 * unit() <= value(state.floor_movement().x) <= 2 * unit(),
        -2 * unit() <= value(state.floor_movement().z) <= 2 * unit(),
        state.ball_center == state.ball_previous_center ==> state.floor_movement().x == ZERO
            && state.floor_movement().z == ZERO,
{
    lemma_limit_values();
    let (now, before) = (state.ball_center, state.ball_previous_center);
    lemma_one_is_neutral(now.x);
    lemma_one_is_neutral(now.z);
    lemma_one_is_neutral(before.x);
    lemma_one_is_neutral(before.z);
    lemma_movement_small(now.x, before.x);
    lemma_movement_small(now.z, before.z);
}

/// A ball that did not move does not roll.
pub proof fn lemma_resting_ball_does_not_roll(state: WaterState)
    requires
        inside_pool(state.ball_center),
        state.ball_previous_center == state.ball_center,
    ensures
        state.rolling_turn() == None::<Turn>,
{
    lemma_floor_movement(state);
    lemma_limit_values();
    lemma_magnitude_zero(ZERO);
    lemma_magnitude_zero(SHORT);
    lemma_rounded_exact(0, unit(), 0);
    assert(magnitude(ZERO) * magnitude(ZERO) == 0);
    assert(product(ZERO, ZERO) == ZERO);
    assert(length(state.floor_movement()) == ZERO);
}

/// A component of the direction of a movement that is long enough to roll is finite.
proof fn lemma_direction_small(part: Scalar, distance: Scalar)
    requires
        is_finite(part),
        -2 * unit() <= value(part) <= 2 * unit(),
        less(SHORT, distance),
    ensures
        is_finite(quotient(part, distance)),
{
    lemma_limit_values();
    lemma_magnitude_zero(SHORT);
    lemma_magnitude_zero(distance);
    if is_finite(distance) {
        lemma2_to64();
        lemma2_to64_rest();
        let (high, low): (Scalar, Scalar) = (0x4880_0000, 0xC880_0000);
        lemma_dyadic(0x80_0000, 144, 5);
        lemma_spread_order(0x3700_0000, SHORT as int);
        lemma_dyadic(0x80_0000, 109, 40);
        let (v, d, u) = (value(part), value(distance), unit());
        assert(value(high) == 0x4_0000 * u && value(low) == -0x4_0000 * u);
        let p = spread(0x3700_0000);
        assert(p * 0x100_0000_0000 == 0x80_0000 * u);
        assert(d * (-0x4_0000 * u) <= v * u <= d * (0x4_0000 * u)) by (nonlinear_arith)
            requires
                -2 * u <= v <= 2 * u,
                p * 0x100_0000_0000 == 0x80_0000 * u,
                d > p,
                u > 0,
        ;
        lemma_quotient_between(part, distance, low, high);
        let r = quotient(part, distance);
        lemma_magnitude_zero(r);
        if !is_finite(r) {
            lemma_spread_order(high as int, unsigned(r));
        }
    }
}

/// A ball rolls around a level axis at a right angle to its way: the axis is the way's
/// direction turned by a quarter.
pub proof fn lemma_rolls_across(state: WaterState)
    requires
        inside_pool(state.ball_center),
        inside_pool(state.ball_previous_center),
        state.rolls(),
    ensures
        ({
            let way = vector_unscaled(state.floor_movement(), length(state.floor_movement()));
            &&& value(state.roll_axis().x) == value(way.z)
            &&& value(state.roll_axis().y) == 0
            &&& value(state.roll_axis().z) == -value(way.x)
        }),
{
    lemma_across(state);
}

/// The axis across a movement over the floor that is long enough to roll.
pub proof fn lemma_across(state: WaterState)
    requires
        inside_pool(state.ball_center),
        inside_pool(state.ball_previous_center),
        less(SHORT, length(state.floor_movement())),
    ensures
        ({
            let way = vector_unscaled(state.floor_movement(), length(state.floor_movement()));
            &&& is_finite(state.roll_axis().x)
            &&& is_finite(state.roll_axis().y)
            &&& is_finite(state.roll_axis().z)
            &&& value(state.roll_axis().x) == value(way.z)
            &&& value(state.roll_axis().y) == 0
            &&& value(state.roll_axis().z) == -value(way.x)
        }),
{
    lemma_floor_movement(state);
    lemma_limit_values();
    lemma_magnitude_zero(ZERO);
    let movement = state.floor_movement();
    let distance = length(movement);
    let way = vector_unscaled(movement, distance);
    lemma_direction_small(movement.x, distance);
    lemma_direction_small(movement.z, distance);
    lemma_magnitude_zero(distance);
    lemma_magnitude_zero(SHORT);
    if is_finite(distance) {
        lemma_rounded_exact(0, magnitude(distance), 0);
        assert(magnitude(ZERO) * unit() == 0) by (nonlinear_arith)
            requires
                magnitude(ZERO) == 0,
        ;
    }
    assert(unsigned(way.y) == 0);
    lemma_one_is_neutral(way.x);
    lemma_one_is_neutral(way.z);
    lemma_product_commutes(ONE, way.x);
    lemma_product_commutes(ONE, way.z);
    lemma_zero_times(way.x, ZERO);
    lemma_zero_times(way.y, ZERO);
    lemma_zero_times(way.z, ZERO);
    let (a, b, c) = (product(ZERO, way.x), product(ZERO, way.y), product(ZERO, way.z));
    lemma_opposite(way.x);
    lemma_zero_added(way.z, opposite(b));
    lemma_zero_added(opposite(way.x), b);
    lemma_zero_added(a, opposite(c));
    lemma_magnitude_zero(a);
}

/// Whether a ball is inside the pool, no higher than a million and no faster than that
/// along any axis.
pub open spec fn ordinary(state: WaterState) -> bool {
    &&& inside_pool(state.ball_center)
    &&& within(state.ball_center.y, 20)
    &&& vector_within(state.ball_velocity, 20)
}

/// The share of the ball that is under water is a number from 0 to 1.
proof fn lemma_submerged(state: WaterState)
    requires
        ordinary(state),
    ensures
        within(state.submerged(), 0),
        value(state.submerged()) >= 0,
{
    lemma_limit_values();
    lemma2_to64();
    lemma_limits_ordered();
    let y = state.ball_center.y;
    let room = difference(SPHERE_SIM_RADIUS, y);
    lemma_power(0);
    lemma_within_more(SPHERE_SIM_RADIUS, 0, 20);
    lemma_difference_within(SPHERE_SIM_RADIUS, y, 20);
    assert(pow2(1) == 2);
    lemma_quotient_within(room, SPHERE_SIM_DIAMETER, 21, 1);
    let q = quotient(room, SPHERE_SIM_DIAMETER);
    lemma_clamped(q, ZERO, ONE);
}

/// The velocity after gravity and buoyancy acted on an ordinary ball.
proof fn lemma_pulled_within(state: WaterState, delta: Scalar)
    requires
        ordinary(state),
        at_most(ZERO, delta),
        at_most(delta, MAX_FRAME_TIME),
    ensures
        vector_within(state.pulled_velocity(delta), 21),
{
    lemma_submerged(state);
    lemma_frame_time_small(delta);
    lemma_forces();
    lemma_limit_values();
    lemma2_to64();
    let s = state.submerged();
    lemma_product_within(BUOYANCY, delta, 1, 0);
    lemma_product_within(product(BUOYANCY, delta), s, 1, 0);
    lemma_within_more(delta, 0, 1);
    let k = difference(delta, product(product(BUOYANCY, delta), s));
    lemma_difference_within(delta, product(product(BUOYANCY, delta), s), 1);
    let gravity = Vec3 { x: ZERO, y: GRAVITY, z: ZERO };
    assert(pow2(2) == 4);
    assert(vector_within(gravity, 2));
    lemma_vector_scaled_within(gravity, k, 2, 2);
    lemma_vector_within_more(vector_scaled(gravity, k), 4, 20);
    lemma_vector_sum_within(state.ball_velocity, vector_scaled(gravity, k), 20);
}

/// The direction of a velocity that is not too slow for the water to brake.
proof fn lemma_fast_direction(v: Vec3)
    requires
        vector_within(v, 21),
        less(SLOW, inner(v, v)),
    ensures
        within(inner(v, v), 44),
        vector_within(direction(v), 31),
{
    lemma2_to64();
    lemma_limit_values();
    lemma_inner_within(v, v, 21, 21);
    let squared = inner(v, v);
    let low: Scalar = 0x3A80_0000;
    lemma_dyadic(0x80_0000, 116, 33);
    lemma2_to64_rest();
    lemma_spread_order(0x3580_0000, SLOW as int);
    lemma_dyadic(0x80_0000, 106, 43);
    let (l, w, u) = (value(low), spread(0x3580_0000), unit());
    assert(l * 0x400 == u);
    assert(w * 0x10_0000 == u);
    assert(l * l <= value(squared) * u) by (nonlinear_arith)
        requires
            l * 0x400 == u,
            w * 0x10_0000 == u,
            w <= value(squared),
            u > 0,
    ;
    lemma_root_within(squared, low, 22);
    let k = length(v);
    assert(pow2(10) == 0x400);
    lemma_quotient_within(v.x, k, 21, 10);
    lemma_quotient_within(v.y, k, 21, 10);
    lemma_quotient_within(v.z, k, 21, 10);
}

/// Where an ordinary ball gets in a frame is made of numbers.
pub proof fn lemma_ordinary_way(state: WaterState, delta: Scalar)
    requires
        ordinary(state),
        at_most(ZERO, delta),
        at_most(delta, MAX_FRAME_TIME),
    ensures
        all_numbers(state.free_center(delta)),
{
    lemma_pulled_within(state, delta);
    lemma_submerged(state);
    lemma_frame_time_small(delta);
    lemma_limit_values();
    lemma2_to64();
    let s = state.submerged();
    let pulled = state.pulled_velocity(delta);
    let squared = inner(pulled, pulled);
    let velocity = state.braked_velocity(delta);
    if less(SLOW, squared) {
        lemma_fast_direction(pulled);
        lemma_product_within(s, delta, 0, 0);
        lemma_product_within(product(s, delta), squared, 0, 44);
        let k = product(product(s, delta), squared);
        lemma_vector_scaled_within(direction(pulled), k, 31, 44);
        lemma_vector_within_more(pulled, 21, 75);
        lemma_vector_sum_within(pulled, vector_scaled(direction(pulled), k), 75);
    } else {
        lemma_vector_within_more(pulled, 21, 76);
    }
    lemma_vector_scaled_within(velocity, delta, 76, 0);
    let center = state.ball_center;
    assert(vector_within(center, 20)) by {
        lemma_power(0);
        lemma_coordinate_small(center.x);
        lemma_coordinate_small(center.z);
        lemma_within_more(center.x, 0, 20);
        lemma_within_more(center.z, 0, 20);
    }
    lemma_vector_within_more(center, 20, 76);
    lemma_vector_sum_within(center, vector_scaled(velocity, delta), 76);
}

/// An ordinary ball stays inside the pool.
pub proof fn lemma_ordinary_step_inside(state: WaterState, delta: Scalar)
    requires
        ordinary(state),
        at_most(ZERO, delta),
        at_most(delta, MAX_FRAME_TIME),
    ensures
        inside_pool(state.after_step(delta).ball_center),
{
    lemma_ordinary_way(state, delta);
    lemma_step_inside(state, delta);
}

} // verus!
