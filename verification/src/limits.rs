//! How the limits of the ball follow from the pool and from the ball's radius.

use crate::arithmetic::{difference, opposite, product, unit};
use crate::bounds::{
    lemma_dyadic, lemma_one, lemma_one_is_neutral, lemma_product_commutes, lemma_product_exact,
    lemma_sum_exact,
};
use crate::constants::{
    CEILING_LIMIT, EXTENT, FLOOR_LIMIT, FLOOR_Y, HALF, MINUS_ONE, NEGATIVE_SIDE_LIMIT, POOL_HALF,
    POOL_RIM, SIDE_LIMIT, SPHERE_SIM_DIAMETER, SPHERE_SIM_RADIUS, TWO, WATER_LEVEL, WATER_Y,
    WORLD_SCALE,
};
use crate::scalar::{
    at_most, is_nan, lemma_magnitude_zero, lemma_spread_order, less, value, ONE, ZERO,
};
use crate::vector::Vec3;
use vstd::arithmetic::power2::lemma2_to64;
use vstd::prelude::*;

verus! {

/// What the numbers that the ball's limits are made of denote.
pub proof fn lemma_limit_values()
    ensures
        unit() > 0,
        value(ZERO) == 0,
        value(ONE) == unit(),
        value(TWO) == 2 * unit(),
        2 * value(HALF) == unit(),
        4 * value(SPHERE_SIM_RADIUS) == unit(),
        4 * value(SIDE_LIMIT) == 3 * unit(),
        value(NEGATIVE_SIDE_LIMIT) == -value(SIDE_LIMIT),
        value(FLOOR_LIMIT) == -value(SIDE_LIMIT),
        value(MINUS_ONE) == -unit(),
{
    lemma2_to64();
    lemma_magnitude_zero(ZERO);
    lemma_one();
    lemma_dyadic(0x80_0000, 127, 22);
    lemma_dyadic(0x80_0000, 125, 24);
    lemma_dyadic(0x80_0000, 124, 25);
    lemma_dyadic(0xC0_0000, 125, 24);
}

/// The limits leave room for the ball.
pub proof fn lemma_limits_ordered()
    ensures
        at_most(NEGATIVE_SIDE_LIMIT, SIDE_LIMIT),
        at_most(FLOOR_LIMIT, CEILING_LIMIT),
        at_most(ZERO, ONE),
{
    lemma_limit_values();
}

/// The limits are what the pool leaves of its size for the ball's radius.
pub proof fn lemma_limits_follow()
    ensures
        SIDE_LIMIT == product(POOL_HALF, difference(ONE, SPHERE_SIM_RADIUS)),
        SIDE_LIMIT == difference(ONE, SPHERE_SIM_RADIUS),
        NEGATIVE_SIDE_LIMIT == opposite(SIDE_LIMIT),
        FLOOR_LIMIT == difference(SPHERE_SIM_RADIUS, ONE),
        FLOOR_LIMIT == product(difference(SPHERE_SIM_RADIUS, ONE), WORLD_SCALE),
        CEILING_LIMIT == WORLD_SCALE,
        SPHERE_SIM_DIAMETER == product(TWO, SPHERE_SIM_RADIUS),
{
    lemma_limit_values();
    assert(opposite(SPHERE_SIM_RADIUS) == 0xBE80_0000);
    assert(opposite(ONE) == MINUS_ONE);
    assert(value(0xBE80_0000) == -value(SPHERE_SIM_RADIUS));
    lemma_sum_exact(ONE, 0xBE80_0000, SIDE_LIMIT);
    lemma_one_is_neutral(SIDE_LIMIT);
    lemma_product_commutes(POOL_HALF, SIDE_LIMIT);
    lemma_sum_exact(SPHERE_SIM_RADIUS, MINUS_ONE, FLOOR_LIMIT);
    lemma_one_is_neutral(FLOOR_LIMIT);
    let (t, r, h) = (value(TWO), value(SPHERE_SIM_RADIUS), value(SPHERE_SIM_DIAMETER));
    assert(t * r == unit() * h) by (nonlinear_arith)
        requires
            t == 2 * unit(),
            4 * r == unit(),
            2 * h == unit(),
    ;
    lemma_product_exact(TWO, SPHERE_SIM_RADIUS, SPHERE_SIM_DIAMETER);
}

/// The pass draws the pool in the space that input and the ball live in: the same half
/// width, the same level of the water, and the floor one half width below it.
pub proof fn lemma_drawn_pool()
    ensures
        EXTENT == POOL_HALF,
        WATER_LEVEL == WATER_Y,
        FLOOR_Y == opposite(POOL_HALF),
        value(FLOOR_LIMIT) - value(SPHERE_SIM_RADIUS) == value(FLOOR_Y),
        value(SIDE_LIMIT) + value(SPHERE_SIM_RADIUS) == value(EXTENT),
        less(WATER_LEVEL, POOL_RIM),
{
    lemma_limit_values();
    lemma_spread_order(0, POOL_RIM as int);
}

/// Whether a ball with its centre there touches neither walls nor floor from the
/// wrong side.
pub open spec fn inside_pool(center: Vec3) -> bool {
    &&& !is_nan(center.x) && !is_nan(center.y) && !is_nan(center.z)
    &&& value(MINUS_ONE) <= value(center.x) - value(SPHERE_SIM_RADIUS)
    &&& value(center.x) + value(SPHERE_SIM_RADIUS) <= value(POOL_HALF)
    &&& value(MINUS_ONE) <= value(center.z) - value(SPHERE_SIM_RADIUS)
    &&& value(center.z) + value(SPHERE_SIM_RADIUS) <= value(POOL_HALF)
    &&& value(MINUS_ONE) <= value(center.y) - value(SPHERE_SIM_RADIUS)
}

/// A centre within the limits is that of a ball inside the pool, and the other way round.
pub proof fn lemma_within_limits(center: Vec3)
    ensures
        inside_pool(center) <==> {
            &&& at_most(NEGATIVE_SIDE_LIMIT, center.x) && at_most(center.x, SIDE_LIMIT)
            &&& at_most(NEGATIVE_SIDE_LIMIT, center.z) && at_most(center.z, SIDE_LIMIT)
            &&& at_most(FLOOR_LIMIT, center.y)
        },
{
    lemma_limit_values();
}

} // verus!
