//! How the ball rolls: where it moved far enough over the floor, around the level axis
//! across its way, by the angle that its way covers on its surface.

use crate::arithmetic::{difference, product, quotient, size, sum, unit};
use crate::ball_laws::{lemma_across, lemma_floor_movement};
use crate::bounds::{is_finite, lemma_dyadic, lemma_one_is_neutral};
use crate::constants::{SHORT, SPHERE_RADIUS, TWO};
use crate::limits::{inside_pool, lemma_limit_values};
use crate::motion_laws::{lemma_far_from_overflow, lemma_small_ratio};
use crate::picking_laws::{exact_inner, lemma_small_difference, lemma_small_inner};
use crate::plugin::{spin_axis, Turn, WaterState};
use crate::ranges::{lemma_power, lemma_within_more, within};
use crate::rotation_laws::{
    is_unit, lemma_bounded, lemma_direction_is_unit, lemma_finite_square, lemma_finite_sum,
    lemma_near_components, lemma_near_not_tiny, lemma_nearer, lemma_rolling_axis, lemma_signs,
    lemma_square_nonnegative, lemma_term, lemma_tiny, lemma_vector_squares, lemma_zero_over,
    near_unit, pure, squares, TINY, UNIT_PARTS,
};
use crate::rounding::{lemma_rounded_root_between, lemma_spread_at, rounded_root};
use crate::scalar::{
    is_nan, lemma_magnitude_zero, lemma_spread_order, less, spread, unsigned, value, Scalar, ONE,
    SIGN, ZERO,
};
use crate::spin_laws::{
    after_turn, apart, bounded, exact, is_length, lemma_again_near, lemma_direction_near,
    lemma_exact_bounded, lemma_left_apart, lemma_normalised_near, lemma_quaternion_components,
    lemma_right_apart, lemma_roots_close, lemma_scaled_turn, lemma_slanted_near, lemma_spun,
    lemma_tight_multiply, lemma_tight_squares, lemma_tight_turn, scaled, slant_length, slanted_turn,
    tight_circle, turned_to, Exact,
};
use crate::vector::{
    direction, inner, length, quaternion_direction, quaternion_product, turn, SineCosine, Vec3,
    Vec4,
};
use vstd::arithmetic::power2::{
    lemma2_to64, lemma2_to64_rest, lemma_pow2_adds, lemma_pow2_strictly_increases, pow2,
};
use vstd::prelude::*;

verus! {

/// Whether a ball inside the pool moved over the floor by `x` and `z`, a way of length `d`,
/// but for little.
pub open spec fn moved_over_floor(state: WaterState, x: int, z: int, d: int) -> bool {
    &&& inside_pool(state.ball_center)
    &&& inside_pool(state.ball_previous_center)
    &&& x == value(state.ball_center.x) - value(state.ball_previous_center.x)
    &&& z == value(state.ball_center.z) - value(state.ball_previous_center.z)
    &&& d >= 0
    &&& size(d * d - (x * x + z * z)) * 0x10_0000 <= d * d
}

/// A component of the movement, and its square.
proof fn lemma_movement_near(now: Scalar, before: Scalar)
    requires
        is_finite(now),
        is_finite(before),
        size(value(now)) <= unit(),
        size(value(before)) <= unit(),
    ensures
        ({
            let (m, x) = (value(difference(now, before)), value(now) - value(before));
            &&& is_finite(difference(now, before))
            &&& size(m - x) * 0x100_0000 <= size(m)
            &&& size(m * m - x * x) * 0x20_0000 <= x * x
        }),
{
    lemma_limit_values();
    lemma_far_from_overflow();
    lemma_small_difference(now, before, size(value(now) - value(before)));
    let (m, x) = (value(difference(now, before)), value(now) - value(before));
    let (g, h) = (m - x, m + x);
    assert(m * m - x * x == g * h) by (nonlinear_arith)
        requires
            g == m - x,
            h == m + x,
    ;
    assert(size(g) * 0x80_0000 <= size(x));
    assert(size(h) <= 3 * size(x));
    assert(size(g * h) * 0x20_0000 <= x * x) by (nonlinear_arith)
        requires
            size(g) * 0x80_0000 <= size(x),
            size(h) <= 3 * size(x),
    {
        assert(size(g * h) == size(g) * size(h)) by (nonlinear_arith);
        assert((size(g) * 0x80_0000) * size(h) <= size(x) * (3 * size(x))) by (nonlinear_arith)
            requires
                0 <= size(g) * 0x80_0000 <= size(x),
                0 <= size(h) <= 3 * size(x),
        ;
        assert((size(g) * 0x80_0000) * size(h) == (size(g) * size(h)) * 0x80_0000) by (nonlinear_arith);
        assert(size(x) * (3 * size(x)) == 3 * (x * x)) by (nonlinear_arith);
        assert(x * x >= 0) by (nonlinear_arith);
    }
}

/// The movement over the floor as computed, and how long it is.
proof fn lemma_way(state: WaterState, x: int, z: int, d: int)
    requires
        moved_over_floor(state, x, z, d),
    ensures
        ({
            let m = state.floor_movement();
            &&& is_finite(m.x) && is_finite(m.z) && m.y == ZERO
            &&& size(value(m.x)) <= 2 * unit() && size(value(m.z)) <= 2 * unit()
            &&& size(value(m.x) - x) * 0x100_0000 <= size(value(m.x))
            &&& size(value(m.z) - z) * 0x100_0000 <= size(value(m.z))
            &&& size(d * d - exact_inner(m, m)) * 0x4_0000 <= d * d
            &&& x * x + z * z <= 2 * (d * d)
        }),
{
    lemma_limit_values();
    lemma_floor_movement(state);
    let (c, p, m) = (state.ball_center, state.ball_previous_center, state.floor_movement());
    lemma_one_is_neutral(c.x);
    lemma_one_is_neutral(c.z);
    lemma_one_is_neutral(p.x);
    lemma_one_is_neutral(p.z);
    lemma_coordinate_finite(c.x);
    lemma_coordinate_finite(c.z);
    lemma_coordinate_finite(p.x);
    lemma_coordinate_finite(p.z);
    lemma_movement_near(c.x, p.x);
    lemma_movement_near(c.z, p.z);
    lemma_square_nonnegative(x);
    lemma_square_nonnegative(z);
    lemma_square_nonnegative(d);
    assert(value(ZERO) * value(ZERO) == 0) by (nonlinear_arith)
        requires
            value(ZERO) == 0,
    ;
}

/// A coordinate up to 1 is finite.
proof fn lemma_coordinate_finite(x: Scalar)
    requires
        !is_nan(x),
        size(value(x)) <= unit(),
    ensures
        is_finite(x),
{
    lemma_limit_values();
    lemma_magnitude_zero(x);
    if !is_finite(x) {
        lemma_spread_order(ONE as int, unsigned(x));
    }
}

/// What the pattern of a way that is too short to roll denotes.
proof fn lemma_short()
    ensures
        value(SHORT) * 0x1_8000 <= unit(),
        value(SHORT) * 0x1_A000 >= unit(),
        SHORT < SIGN,
        unit() > 0,
{
    lemma_limit_values();
    lemma2_to64();
    lemma_magnitude_zero(SHORT);
    lemma2_to64_rest();
    lemma_dyadic(0xA7_C5AC, 109, 40);
    assert(value(SHORT) * 0x100_0000_0000 == 0xA7_C5AC * unit());
}

/// A way of a length that is not too short, as computed.
#[verifier::rlimit(30)]
proof fn lemma_long_way(state: WaterState, x: int, z: int, d: int)
    requires
        moved_over_floor(state, x, z, d),
        0x1_0000 * d >= unit(),
    ensures
        ({
            let m = state.floor_movement();
            &&& is_finite(length(m))
            &&& value(length(m)) >= value(TINY)
            &&& is_unit(pure(direction(m)))
            &&& is_length(m, d)
            &&& size(value(length(m)) - d) * 0x1_0000 <= d
            &&& less(SHORT, length(m))
        }),
{
    lemma_limit_values();
    lemma_tiny();
    lemma_short();
    lemma_way(state, x, z, d);
    let (m, u) = (state.floor_movement(), unit());
    lemma2_to64();
    lemma_power(1);
    assert(pow2(1) * u == 2 * u) by (nonlinear_arith)
        requires
            pow2(1) == 2,
    ;
    lemma_within_more(m.x, 1, 50);
    lemma_within_more(m.z, 1, 50);
    assert(within(m.y, 50)) by {
        lemma_power(0);
        assert(within(ZERO, 1));
        lemma_within_more(ZERO, 1, 50);
    }
    assert(d * d > 0) by (nonlinear_arith)
        requires
            d > 0,
    ;
    assert(value(ZERO) * value(ZERO) == 0) by (nonlinear_arith)
        requires
            value(ZERO) == 0,
    ;
    assert(2 * size(value(m.x)) >= d || 2 * size(value(m.z)) >= d) by {
        if 2 * size(value(m.x)) < d && 2 * size(value(m.z)) < d {
            lemma_small_squares(value(m.x), d);
            lemma_small_squares(value(m.z), d);
        }
    }
    lemma_pow2_adds(99, 50);
    lemma_pow2_strictly_increases(17, 50);
    assert(0x2_0000 * value(TINY) <= u) by (nonlinear_arith)
        requires
            value(TINY) == pow2(99),
            u == pow2(99) * pow2(50),
            pow2(50) >= 0x2_0000,
    ;
    lemma_direction_is_unit(m);
    lemma_vector_squares(m);
    let (k, n) = (value(length(m)), value(inner(m, m)) * u);
    lemma_square_nonnegative(k);
    assert(size(k * k - d * d) * 0x1_0000 <= d * d);
    lemma_roots_close(k, d, 0x1_0000);
    lemma_magnitude_zero(length(m));
}

/// The square of a number below the half of another.
proof fn lemma_small_squares(v: int, d: int)
    requires
        2 * size(v) < d,
    ensures
        4 * (v * v) <= d * d,
{
    assert(4 * (v * v) <= d * d) by (nonlinear_arith)
        requires
            2 * size(v) < d,
    ;
}

/// Whether an axis is the level one across a way by `x` and `z` of length `d`.
pub open spec fn across(axis: Vec3, x: int, z: int, d: int) -> bool {
    &&& size(value(axis.x) * d - z * unit()) * 0x1000 <= unit() * d
    &&& size(value(axis.y)) * 0x1000 <= unit()
    &&& size(value(axis.z) * d + x * unit()) * 0x1000 <= unit() * d
}

/// A ball that moved clearly more than a hundred thousandth over the floor rolls, around
/// the level axis across its way, by the way over the radius: the half of that angle is
/// twice the way.
#[verifier::rlimit(30)]
pub proof fn lemma_ball_rolls_along_its_way(state: WaterState, x: int, z: int, d: int)
    requires
        moved_over_floor(state, x, z, d),
        0x1_0000 * d >= unit(),
    ensures
        state.rolling_turn() matches Some(turn) && across(turn.axis, x, z, d) && size(
            value(turn.half_angle) - 2 * d,
        ) * 0x1000 <= d,
{
    lemma_roll_axis(state, x, z, d);
    lemma_long_way(state, x, z, d);
    lemma_way_size(state, x, z, d);
    lemma_tiny();
    lemma_half_angle(length(state.floor_movement()), d);
}

/// How long a way inside the pool can be.
proof fn lemma_way_size(state: WaterState, x: int, z: int, d: int)
    requires
        moved_over_floor(state, x, z, d),
    ensures
        d <= 8 * unit(),
        size(value(state.floor_movement().x)) <= 2 * d,
        size(value(state.floor_movement().z)) <= 2 * d,
{
    lemma_limit_values();
    lemma_way(state, x, z, d);
    let (m, u) = (state.floor_movement(), unit());
    assert(value(ZERO) * value(ZERO) == 0) by (nonlinear_arith)
        requires
            value(ZERO) == 0,
    ;
    lemma_square_nonnegative(value(m.x));
    lemma_square_nonnegative(value(m.z));
    lemma_square_nonnegative(d);
    assert(value(m.x) * value(m.x) <= 4 * (u * u) && value(m.z) * value(m.z) <= 4 * (u * u)) by (nonlinear_arith)
        requires
            size(value(m.x)) <= 2 * u,
            size(value(m.z)) <= 2 * u,
    ;
    assert(d <= 8 * u) by (nonlinear_arith)
        requires
            d * d <= 16 * (u * u),
            u > 0,
    ;
    if d > 0 {
        lemma_bounded(value(m.x), d);
        lemma_bounded(value(m.z), d);
    } else {
        lemma_no_square(value(m.x));
        lemma_no_square(value(m.z));
    }
}

/// Only zero has the square zero.
proof fn lemma_no_square(v: int)
    requires
        v * v <= 0,
    ensures
        v == 0,
{
    assert(v == 0) by (nonlinear_arith)
        requires
            v * v <= 0,
    ;
}

/// The axis across a way that is not too short.
#[verifier::rlimit(30)]
proof fn lemma_roll_axis(state: WaterState, x: int, z: int, d: int)
    requires
        moved_over_floor(state, x, z, d),
        0x1_0000 * d >= unit(),
    ensures
        less(SHORT, length(state.roll_axis())),
        across(direction(state.roll_axis()), x, z, d),
        is_unit(pure(direction(state.roll_axis()))),
{
    lemma_limit_values();
    lemma_tiny();
    lemma_way(state, x, z, d);
    lemma_way_size(state, x, z, d);
    lemma_long_way(state, x, z, d);
    lemma_across(state);
    let (m, u) = (state.floor_movement(), unit());
    let (way, axis) = (direction(m), state.roll_axis());
    lemma_direction_near(m, d);
    lemma_level_way(m);
    lemma_turned_way(way, axis);
    lemma_again_near(axis);
    lemma_unit_length(axis);
    let a = direction(axis);
    lemma_across_component(value(a.x), value(axis.x), value(m.z), z, d, u);
    lemma_signs(value(axis.z), d);
    lemma_across_component(-value(a.z), -value(axis.z), value(m.x), x, d, u);
    assert((-value(a.z)) * d - x * u == -(value(a.z) * d + x * u)) by (nonlinear_arith);
}

/// A level unit vector turned by a quarter.
proof fn lemma_turned_way(way: Vec3, axis: Vec3)
    requires
        is_unit(pure(way)),
        value(way.y) == 0,
        is_finite(axis.x) && is_finite(axis.y) && is_finite(axis.z),
        value(axis.x) == value(way.z),
        value(axis.y) == 0,
        value(axis.z) == -value(way.x),
    ensures
        is_unit(pure(axis)),
{
    lemma_signs(value(way.x), value(way.x));
    lemma_limit_values();
}

/// The direction of a level way is level.
proof fn lemma_level_way(m: Vec3)
    requires
        m.y == ZERO,
        is_finite(length(m)),
        value(length(m)) > 0,
    ensures
        value(direction(m).y) == 0,
{
    lemma_limit_values();
    lemma_zero_over(length(m));
}

/// The length of a unit vector is far above what is too short.
proof fn lemma_unit_length(a: Vec3)
    requires
        is_unit(pure(a)),
    ensures
        less(SHORT, length(a)),
{
    lemma_limit_values();
    lemma_tiny();
    lemma_short();
    lemma_near_not_tiny(pure(a), UNIT_PARTS as int);
    lemma_magnitude_zero(ZERO);
    lemma_direction_is_unit(a);
    lemma_vector_squares(a);
    let (k, u) = (value(length(a)), unit());
    let w = u * u;
    assert(w > 0) by (nonlinear_arith)
        requires
            w == u * u,
            u > 0,
    ;
    lemma_square_nonnegative(k);
    assert(4 * (k * k) >= w);
    assert(2 * k >= u) by (nonlinear_arith)
        requires
            4 * (k * k) >= w,
            w == u * u,
            k > 0,
            u > 0,
    ;
    lemma_magnitude_zero(length(a));
}

/// A component of the axis across a way.
proof fn lemma_across_component(a: int, b: int, m: int, z: int, d: int, u: int)
    requires
        u > 0,
        d > 0,
        size(a - b) * 0x4000 <= u,
        size(b * d - m * u) * 0x4000 <= u * d,
        size(m - z) * 0x100_0000 <= size(m),
        size(m) <= 2 * d,
    ensures
        size(a * d - z * u) * 0x1000 <= u * d,
{
    let (g, h) = (a - b, m - z);
    assert(a * d - b * d == g * d && m * u - z * u == h * u) by (nonlinear_arith)
        requires
            g == a - b,
            h == m - z,
    ;
    assert(size(g * d) * 0x4000 <= u * d) by (nonlinear_arith)
        requires
            size(g) * 0x4000 <= u,
            d > 0,
    {
        assert(size(g * d) == size(g) * d) by (nonlinear_arith)
            requires
                d > 0,
        ;
        assert((size(g) * 0x4000) * d <= u * d) by (nonlinear_arith)
            requires
                size(g) * 0x4000 <= u,
                d > 0,
        ;
    }
    assert(size(h * u) * 0x100_0000 <= 2 * (u * d)) by (nonlinear_arith)
        requires
            size(h) * 0x100_0000 <= 2 * d,
            u > 0,
    {
        assert(size(h * u) == size(h) * u) by (nonlinear_arith)
            requires
                u > 0,
        ;
        assert((size(h) * 0x100_0000) * u <= (2 * d) * u) by (nonlinear_arith)
            requires
                size(h) * 0x100_0000 <= 2 * d,
                u > 0,
        ;
    }
    assert(u * d > 0) by (nonlinear_arith)
        requires
            u > 0,
            d > 0,
    ;
}

/// The half of the angle of a way, as computed.
proof fn lemma_half_angle(k: Scalar, d: int)
    requires
        is_finite(k),
        value(k) > 0,
        size(value(k) - d) * 0x1_0000 <= d,
        0x1_0000 * d >= unit(),
        d <= 8 * unit(),
    ensures
        size(value(quotient(quotient(k, SPHERE_RADIUS), TWO)) - 2 * d) * 0x1000 <= d,
{
    lemma_limit_values();
    lemma_far_from_overflow();
    let (u, v, r) = (unit(), value(k), value(SPHERE_RADIUS));
    assert(v * u <= r * (4 * v)) by (nonlinear_arith)
        requires
            4 * r == u,
            v > 0,
    ;
    lemma_small_ratio(k, SPHERE_RADIUS, 4 * v);
    let a = quotient(k, SPHERE_RADIUS);
    let x = value(a);
    assert(4 * (v * u) == (4 * v) * u) by (nonlinear_arith);
    lemma_ratio_near(x, r, v * u, 4 * v, u);
    let t = value(TWO);
    assert(size(x) * u <= t * size(x)) by (nonlinear_arith)
        requires
            t == 2 * u,
            u > 0,
    ;
    lemma_small_ratio(a, TWO, size(x));
    let y = value(quotient(a, TWO));
    lemma_half_near(y, t, x, u);
}

/// A quotient by a quarter.
proof fn lemma_ratio_near(x: int, r: int, vu: int, four: int, u: int)
    requires
        u > 0,
        4 * r == u,
        4 * vu == four * u,
        size(x * r - vu) * 0x100_0000 <= r * (size(x) + 0x80_0000),
    ensures
        size(x - four) * 0x100_0000 <= size(x) + 0x80_0000,
{
    let g = x - four;
    assert(x * r - vu == g * r) by (nonlinear_arith)
        requires
            g == x - four,
            4 * r == u,
            4 * vu == four * u,
    ;
    assert(size(g * r) == size(g) * r) by (nonlinear_arith)
        requires
            r > 0,
    ;
    assert(size(g) * 0x100_0000 <= size(x) + 0x80_0000) by (nonlinear_arith)
        requires
            (size(g) * r) * 0x100_0000 <= r * (size(x) + 0x80_0000),
            r > 0,
    {
        assert(r * (size(g) * 0x100_0000) <= r * (size(x) + 0x80_0000)) by (nonlinear_arith)
            requires
                (size(g) * r) * 0x100_0000 <= r * (size(x) + 0x80_0000),
        ;
    }
}

/// A quotient by two.
pub proof fn lemma_half_near(y: int, t: int, x: int, u: int)
    requires
        u > 0,
        t == 2 * u,
        size(y * t - x * u) * 0x100_0000 <= t * (size(y) + 0x80_0000),
    ensures
        size(2 * y - x) * 0x100_0000 <= 2 * (size(y) + 0x80_0000),
{
    let g = 2 * y - x;
    assert(y * t - x * u == g * u) by (nonlinear_arith)
        requires
            g == 2 * y - x,
            t == 2 * u,
    ;
    assert(size(g * u) == size(g) * u) by (nonlinear_arith)
        requires
            u > 0,
    ;
    assert(size(g) * 0x100_0000 <= 2 * (size(y) + 0x80_0000)) by (nonlinear_arith)
        requires
            (size(g) * u) * 0x100_0000 <= t * (size(y) + 0x80_0000),
            t == 2 * u,
            u > 0,
    {
        assert(u * (size(g) * 0x100_0000) <= u * (2 * (size(y) + 0x80_0000))) by (nonlinear_arith)
            requires
                (size(g) * u) * 0x100_0000 <= t * (size(y) + 0x80_0000),
                t == 2 * u,
        ;
    }
}

/// A ball that moved clearly less than a hundred thousandth over the floor does not roll.
pub proof fn lemma_short_way_does_not_roll(state: WaterState, x: int, z: int, d: int)
    requires
        moved_over_floor(state, x, z, d),
        0x2_0000 * d <= unit(),
    ensures
        state.rolling_turn() is None,
{
    lemma_limit_values();
    lemma_tiny();
    lemma_short();
    lemma_way(state, x, z, d);
    let (m, u) = (state.floor_movement(), unit());
    lemma_way_squares(m);
    let n = inner(m, m);
    lemma_magnitude_zero(n);
    lemma_magnitude_zero(length(m));
    let (k, w, xn) = (value(SHORT), u * u, value(n) * u);
    assert(w >= 0x8000_0000_0000_0000 * u) by (nonlinear_arith)
        requires
            w == u * u,
            u > 0x8000_0000_0000_0000,
    ;
    lemma_square_nonnegative(d);
    assert((d * d) * 0x4_0000_0000 <= w) by (nonlinear_arith)
        requires
            0 <= 0x2_0000 * d <= u,
            w == u * u,
    ;
    assert((k * k) * 0x2_A400_0000 >= w) by (nonlinear_arith)
        requires
            k * 0x1_A000 >= u,
            w == u * u,
            u > 0,
    ;
    assert(0 <= xn) by (nonlinear_arith)
        requires
            xn == value(n) * u,
            value(n) >= 0,
            u > 0,
    ;
    assert(xn <= k * k);
    if value(n) > 0 {
        lemma2_to64();
        lemma_spread_at(0, 0);
        assert(spread(0) * spread(0) == 0) by (nonlinear_arith)
            requires
                spread(0) == 0,
        ;
        lemma_magnitude_zero(SHORT);
        lemma_rounded_root_between(xn, 0, SHORT as int);
        let r = rounded_root(xn);
        assert(unsigned(length(m)) == r);
        if r < SHORT {
            lemma_spread_order(r, SHORT as int);
        }
    }
}

/// The square of the length of a way inside the pool, as computed.
proof fn lemma_way_squares(m: Vec3)
    requires
        is_finite(m.x) && is_finite(m.z),
        m.y == ZERO,
        size(value(m.x)) <= 2 * unit(),
        size(value(m.z)) <= 2 * unit(),
    ensures
        is_finite(inner(m, m)),
        value(inner(m, m)) >= 0,
        size(value(inner(m, m)) * unit() - exact_inner(m, m)) * 0x100_0000 <= 5 * (value(inner(m, m)) * unit())
            + 0x200_0000 * unit(),
{
    lemma_limit_values();
    lemma_far_from_overflow();
    let u = unit();
    lemma_two_squared(value(m.x), u);
    lemma_two_squared(value(m.y), u);
    lemma_two_squared(value(m.z), u);
    assert((4 * u) * u == 4 * (u * u)) by (nonlinear_arith);
    lemma_small_inner(m, m, 4 * u);
    let (p, q, r) = (product(m.x, m.x), product(m.y, m.y), product(m.z, m.z));
    lemma_finite_square(m.x);
    lemma_finite_square(m.y);
    lemma_finite_square(m.z);
    lemma_finite_sum(p, q);
    lemma_finite_sum(sum(p, q), r);
    let (n, s, a, b, c) = (value(inner(m, m)), value(sum(p, q)), value(p), value(q), value(r));
    let (g, h) = (s - (a + b), n - (s + c));
    assert(n * u == h * u + g * u + a * u + b * u + c * u) by (nonlinear_arith)
        requires
            g == s - (a + b),
            h == n - (s + c),
    ;
    assert(size(g * u) * 0x100_0000 <= n * u && size(h * u) * 0x100_0000 <= n * u) by (nonlinear_arith)
        requires
            size(g) * 0x100_0000 <= n,
            size(h) * 0x100_0000 <= n,
            u > 0,
    {
        assert(size(g * u) == size(g) * u && size(h * u) == size(h) * u) by (nonlinear_arith)
            requires
                u > 0,
        ;
        assert((size(g) * 0x100_0000) * u <= n * u && (size(h) * 0x100_0000) * u <= n * u) by (nonlinear_arith)
            requires
                size(g) * 0x100_0000 <= n,
                size(h) * 0x100_0000 <= n,
                u > 0,
        ;
    }
    assert(u * (a + 0x80_0000) + u * (b + 0x80_0000) + u * (c + 0x80_0000) <= 3 * (n * u) + 0x200_0000 * u)
        by (nonlinear_arith)
        requires
            a + b + c <= 3 * n,
            u > 0,
    ;
}

/// The square of a number up to two.
proof fn lemma_two_squared(v: int, u: int)
    requires
        size(v) <= 2 * u,
    ensures
        size(v * v) <= 4 * (u * u),
{
    assert(size(v * v) <= 4 * (u * u)) by (nonlinear_arith)
        requires
            size(v) <= 2 * u,
    ;
}

/// The turn around an axis of length 1, times one unit.
pub open spec fn axis_turn(axis: Vec3, half: SineCosine) -> Exact {
    let s = value(half.sine);
    Exact { x: value(axis.x) * s, y: value(axis.y) * s, z: value(axis.z) * s, w: unit() * value(half.cosine) }
}

/// A component of the turn around an axis.
proof fn lemma_axis_turn_component(p: int, d: int, a: int, s: int, u: int)
    requires
        u > 0,
        size(p * u - d * s) * 0x100_0000 <= 5 * (u * u),
        size(d - a) * 0x4000 <= u,
        16 * size(s) <= 17 * u,
        16 * size(a) <= 17 * u,
    ensures
        size(u * p - a * s) * 0x2000 <= u * u,
        8 * size(a * s) <= 10 * (u * u),
{
    let (g, w) = (d - a, u * u);
    assert(d * s - a * s == g * s && p * u == u * p) by (nonlinear_arith)
        requires
            g == d - a,
    ;
    assert(size(g * s) * 0x4_0000 <= 17 * w) by (nonlinear_arith)
        requires
            size(g) * 0x4000 <= u,
            16 * size(s) <= 17 * u,
            w == u * u,
    {
        assert(size(g * s) == size(g) * size(s)) by (nonlinear_arith);
        assert((size(g) * 0x4000) * (16 * size(s)) <= u * (17 * u)) by (nonlinear_arith)
            requires
                0 <= size(g) * 0x4000 <= u,
                0 <= 16 * size(s) <= 17 * u,
        ;
        assert((size(g) * 0x4000) * (16 * size(s)) == 0x4_0000 * (size(g) * size(s))) by (nonlinear_arith);
    }
    assert(256 * size(a * s) <= 289 * w && w > 0) by (nonlinear_arith)
        requires
            16 * size(a) <= 17 * u,
            16 * size(s) <= 17 * u,
            w == u * u,
            u > 0,
    {
        assert(size(a * s) == size(a) * size(s)) by (nonlinear_arith);
        assert((16 * size(a)) * (16 * size(s)) <= (17 * u) * (17 * u)) by (nonlinear_arith)
            requires
                0 <= 16 * size(a) <= 17 * u,
                0 <= 16 * size(s) <= 17 * u,
        ;
        assert((16 * size(a)) * (16 * size(s)) == 256 * (size(a) * size(s))) by (nonlinear_arith);
        assert((17 * u) * (17 * u) == 289 * (u * u)) by (nonlinear_arith);
    }
}

/// The turn around an axis of length 1, as computed.
proof fn lemma_axis_turn_near(axis: Vec3, half: SineCosine)
    requires
        is_unit(pure(axis)),
        tight_circle(half),
    ensures
        near_unit(turn(axis, half), 0x4000),
        apart(scaled(exact(turn(axis, half)), unit()), axis_turn(axis, half), 0x2000, unit() * unit()),
        bounded(scaled(axis_turn(axis, half), 8), 10 * (unit() * unit())),
{
    lemma_limit_values();
    lemma_again_near(axis);
    lemma_tight_turn(axis, half);
    let (p, d, u, s) = (turn(axis, half), direction(axis), unit(), value(half.sine));
    lemma_near_components(pure(d), UNIT_PARTS as int);
    lemma_quaternion_components(pure(axis), UNIT_PARTS as int);
    lemma_term(d.x, half.sine);
    lemma_term(d.y, half.sine);
    lemma_term(d.z, half.sine);
    lemma_axis_turn_component(value(p.x), value(d.x), value(axis.x), s, u);
    lemma_axis_turn_component(value(p.y), value(d.y), value(axis.y), s, u);
    lemma_axis_turn_component(value(p.z), value(d.z), value(axis.z), s, u);
    lemma_square_nonnegative(u);
    let c = value(half.cosine);
    assert(8 * size(u * c) <= 10 * (u * u)) by (nonlinear_arith)
        requires
            16 * size(c) <= 17 * u,
            u > 0,
    {
        assert(size(u * c) == u * size(c)) by (nonlinear_arith)
            requires
                u > 0,
        ;
        assert(u * (16 * size(c)) <= u * (17 * u)) by (nonlinear_arith)
            requires
                16 * size(c) <= 17 * u,
                u > 0,
        ;
    }
}

/// A component of the rotation after the ball turned by itself, times ten lengths and a
/// unit, against the exact one.
proof fn lemma_first_component(v: int, e: int, x: int, l: int, u: int)
    requires
        u > 0,
        u <= l,
        size(v * u - e) * 0x100_0000 <= 76 * (u * u),
        16 * (size((10 * l) * e - x) * 400) <= 68 * ((u * u) * u),
    ensures
        size((10 * (l * u)) * v - x) * 0x380 <= 10 * (l * (u * u)),
{
    let w = u * u;
    let (h, m) = (v * u - e, 10 * (l * w));
    assert((10 * (l * u)) * v == (10 * l) * (v * u)) by (nonlinear_arith);
    assert((10 * l) * (v * u) - (10 * l) * e == (10 * l) * h) by (nonlinear_arith)
        requires
            h == v * u - e,
    ;
    assert(size((10 * l) * h) * 0x100_0000 <= 76 * m) by (nonlinear_arith)
        requires
            size(h) * 0x100_0000 <= 76 * w,
            m == 10 * (l * w),
            l > 0,
    {
        assert(size((10 * l) * h) == (10 * l) * size(h)) by (nonlinear_arith)
            requires
                l > 0,
        ;
        assert((10 * l) * (size(h) * 0x100_0000) <= (10 * l) * (76 * w)) by (nonlinear_arith)
            requires
                size(h) * 0x100_0000 <= 76 * w,
                l > 0,
        ;
        assert((10 * l) * (76 * w) == 76 * (10 * (l * w))) by (nonlinear_arith);
    }
    assert(10 * (w * u) <= m && m > 0) by (nonlinear_arith)
        requires
            m == 10 * (l * w),
            w == u * u,
            u <= l,
            u > 0,
    {
        assert(w > 0) by (nonlinear_arith)
            requires
                w == u * u,
                u > 0,
        ;
        assert(w * u <= l * w && l * w > 0) by (nonlinear_arith)
            requires
                u <= l,
                w > 0,
                u > 0,
        ;
    }
}

/// A component of the rotation after both turns.
proof fn lemma_second_component(r: int, v: int, e: int, y: int, z: int, x: int, l: int, u: int)
    requires
        u > 0,
        u <= l,
        size(r - v) * 0x600 <= u,
        size(v * u - e) * 0x100_0000 <= 76 * (u * u),
        y == (10 * (l * u)) * (u * e),
        16 * (size(y - z) * 0x2000) <= 68 * ((u * u) * (10 * (l * (u * u)))),
        8 * (size(z - x) * 0x380) <= 40 * ((10 * (l * (u * u))) * (u * u)),
    ensures
        size((10 * (l * (u * (u * u)))) * r - x) * 0x80 <= u * (10 * (l * (u * (u * u)))),
{
    let w = u * u;
    let b = 10 * (l * w);
    let (scale, m) = (10 * (l * (u * w)), b * w);
    let (g, h) = (r - v, v * u - e);
    assert(w > 0) by (nonlinear_arith)
        requires
            w == u * u,
            u > 0,
    ;
    assert(b > 0) by (nonlinear_arith)
        requires
            b == 10 * (l * w),
            l > 0,
            w > 0,
    ;
    assert(m > 0) by (nonlinear_arith)
        requires
            m == b * w,
            b > 0,
            w > 0,
    ;
    assert(scale == b * u && u * scale == m && w * b == m) by (nonlinear_arith)
        requires
            scale == 10 * (l * (u * w)),
            b == 10 * (l * w),
            m == b * w,
            w == u * u,
    ;
    assert(scale * r - scale * v == (b * u) * g) by (nonlinear_arith)
        requires
            g == r - v,
            scale == b * u,
    ;
    assert(scale * v - y == b * h) by (nonlinear_arith)
        requires
            scale == b * u,
            y == (10 * (l * u)) * (u * e),
            b == 10 * (l * w),
            w == u * u,
            h == v * u - e,
    {
        assert((10 * (l * u)) * (u * e) == b * e) by (nonlinear_arith)
            requires
                b == 10 * (l * w),
                w == u * u,
        ;
        assert((b * u) * v == b * (v * u)) by (nonlinear_arith);
        assert(b * (v * u) - b * e == b * h) by (nonlinear_arith)
            requires
                h == v * u - e,
        ;
    }
    assert(size((b * u) * g) * 0x600 <= m) by (nonlinear_arith)
        requires
            size(g) * 0x600 <= u,
            b > 0,
            u > 0,
            m == b * w,
            w == u * u,
    {
        let c = b * u;
        assert(c > 0) by (nonlinear_arith)
            requires
                c == b * u,
                b > 0,
                u > 0,
        ;
        assert(size(c * g) == c * size(g)) by (nonlinear_arith)
            requires
                c > 0,
        ;
        assert(c * (size(g) * 0x600) <= c * u) by (nonlinear_arith)
            requires
                size(g) * 0x600 <= u,
                c > 0,
        ;
        assert(c * u == b * w) by (nonlinear_arith)
            requires
                c == b * u,
                w == u * u,
        ;
    }
    assert(size(b * h) * 0x100_0000 <= 76 * m) by (nonlinear_arith)
        requires
            size(h) * 0x100_0000 <= 76 * w,
            b > 0,
            m == b * w,
    {
        assert(size(b * h) == b * size(h)) by (nonlinear_arith)
            requires
                b > 0,
        ;
        assert(b * (size(h) * 0x100_0000) <= b * (76 * w)) by (nonlinear_arith)
            requires
                size(h) * 0x100_0000 <= 76 * w,
                b > 0,
        ;
        assert(b * (76 * w) == 76 * (b * w)) by (nonlinear_arith);
    }
}

/// A ball that rolls turns around its slanted axis and then around the axis that it rolls
/// around, by the given half angles.
#[verifier::rlimit(50)]
pub proof fn lemma_ball_spins_and_rolls(state: WaterState, spin: SineCosine, roll: SineCosine, rolling: Turn, l: int)
    requires
        is_unit(state.ball_rotation),
        tight_circle(spin),
        tight_circle(roll),
        slant_length(l),
        is_finite(state.ball_center.x) && is_finite(state.ball_center.z),
        is_finite(state.ball_previous_center.x) && is_finite(state.ball_previous_center.z),
        state.rolling_turn() == Some(rolling),
    ensures
        turned_to(
            state.turned(spin, roll),
            10 * (l * (unit() * (unit() * unit()))),
            after_turn(
                axis_turn(rolling.axis, roll),
                after_turn(slanted_turn(spin, l), exact(state.ball_rotation)),
            ),
            0x80,
        ),
{
    lemma_limit_values();
    lemma_rolling_axis(state);
    let (axis, q, u) = (rolling.axis, state.ball_rotation, unit());
    assert(axis == direction(state.roll_axis()));
    lemma_slanted_near(spin, l);
    let first = lemma_spun(spin, l, q);
    let (p, w) = (turn(axis, roll), u * u);
    lemma_axis_turn_near(axis, roll);
    lemma_nearer(p, 0x4000, 64);
    lemma_nearer(first, 0x1000, 64);
    lemma_tight_squares(p, first);
    let v = quaternion_product(p, first);
    assert(w > 0) by (nonlinear_arith)
        requires
            w == u * u,
            u > 0,
    ;
    lemma_tight_multiply(w, squares(v), squares(p), squares(first));
    lemma_normalised_near(v);
    let r = quaternion_direction(v);
    assert(r == state.turned(spin, roll));
    let a = turn(spin_axis(), spin);
    let (e, x) = (after_turn(exact(a), exact(q)), after_turn(slanted_turn(spin, l), exact(q)));
    lemma_first_component(value(first.x), e.x, x.x, l, u);
    lemma_first_component(value(first.y), e.y, x.y, l, u);
    lemma_first_component(value(first.z), e.z, x.z, l, u);
    lemma_first_component(value(first.w), e.w, x.w, l, u);
    lemma_both_turns(p, axis_turn(axis, roll), first, x, l);
    let (f, g) = (after_turn(exact(p), exact(first)), after_turn(axis_turn(axis, roll), x));
    let k = 10 * (l * u);
    let z = after_turn(axis_turn(axis, roll), scaled(exact(first), k));
    lemma_second_component(value(r.x), value(v.x), f.x, k * (u * f.x), z.x, g.x, l, u);
    lemma_second_component(value(r.y), value(v.y), f.y, k * (u * f.y), z.y, g.y, l, u);
    lemma_second_component(value(r.z), value(v.z), f.z, k * (u * f.z), z.z, g.z, l, u);
    lemma_second_component(value(r.w), value(v.w), f.w, k * (u * f.w), z.w, g.w, l, u);
}

/// The product of two turns that are both close to exact ones.
proof fn lemma_both_turns(p: Vec4, turned: Exact, first: Vec4, x: Exact, l: int)
    requires
        l > 0,
        near_unit(first, 0x1000),
        apart(scaled(exact(p), unit()), turned, 0x2000, unit() * unit()),
        bounded(scaled(turned, 8), 10 * (unit() * unit())),
        apart(scaled(exact(first), 10 * (l * unit())), x, 0x380, 10 * (l * (unit() * unit()))),
    ensures
        ({
            let (f, g, u) = (after_turn(exact(p), exact(first)), after_turn(turned, x), unit());
            let k = 10 * (l * u);
            let z = after_turn(turned, scaled(exact(first), k));
            let b = 10 * (l * (u * u));
            &&& 16 * (size(k * (u * f.x) - z.x) * 0x2000) <= 68 * ((u * u) * b)
            &&& 16 * (size(k * (u * f.y) - z.y) * 0x2000) <= 68 * ((u * u) * b)
            &&& 16 * (size(k * (u * f.z) - z.z) * 0x2000) <= 68 * ((u * u) * b)
            &&& 16 * (size(k * (u * f.w) - z.w) * 0x2000) <= 68 * ((u * u) * b)
            &&& 8 * (size(z.x - g.x) * 0x380) <= 40 * (b * (u * u))
            &&& 8 * (size(z.y - g.y) * 0x380) <= 40 * (b * (u * u))
            &&& 8 * (size(z.z - g.z) * 0x380) <= 40 * (b * (u * u))
            &&& 8 * (size(z.w - g.w) * 0x380) <= 40 * (b * (u * u))
        }),
{
    lemma_limit_values();
    let u = unit();
    let (k, b, w) = (10 * (l * u), 10 * (l * (u * u)), u * u);
    lemma_exact_bounded(first, 0x1000);
    let (o, s) = (exact(first), scaled(exact(p), u));
    // The left factor, against the first turn times sixteen times its scale.
    lemma_left_apart(s, turned, scaled(o, 16), 0x2000, w, 17 * u);
    lemma_scaled_turn(exact(p), o, u);
    lemma_scaled_turn(s, o, 16);
    lemma_scaled_turn(turned, o, 16);
    lemma_scaled_turn(turned, o, k);
    let (c, d) = (after_turn(s, o), after_turn(turned, o));
    assert(4 * (w * (17 * u)) == 68 * (w * u)) by (nonlinear_arith);
    lemma_times_scale(c.x, d.x, k, w, l, u);
    lemma_times_scale(c.y, d.y, k, w, l, u);
    lemma_times_scale(c.z, d.z, k, w, l, u);
    lemma_times_scale(c.w, d.w, k, w, l, u);
    // The right factor.
    let m = scaled(o, k);
    lemma_right_apart(scaled(turned, 8), m, x, 0x380, b, 10 * w);
    lemma_scaled_turn(turned, m, 8);
    lemma_scaled_turn(turned, x, 8);
    assert(4 * (b * (10 * w)) == 40 * (b * w)) by (nonlinear_arith);
}

/// Both sides of a difference times the scale.
proof fn lemma_times_scale(c: int, d: int, k: int, w: int, l: int, u: int)
    requires
        u > 0,
        l > 0,
        w == u * u,
        k == 10 * (l * u),
        size(16 * c - 16 * d) * 0x2000 <= 68 * (w * u),
    ensures
        16 * (size(k * c - k * d) * 0x2000) <= 68 * (w * (10 * (l * (u * u)))),
{
    let g = c - d;
    assert(k > 0) by (nonlinear_arith)
        requires
            k == 10 * (l * u),
            l > 0,
            u > 0,
    ;
    assert(k * c - k * d == k * g) by (nonlinear_arith)
        requires
            g == c - d,
    ;
    assert(size(k * g) == k * size(g)) by (nonlinear_arith)
        requires
            k > 0,
    ;
    assert(k * (16 * (size(g) * 0x2000)) <= k * (68 * (w * u))) by (nonlinear_arith)
        requires
            16 * (size(g) * 0x2000) <= 68 * (w * u),
            k > 0,
    ;
    assert(k * (16 * (size(g) * 0x2000)) == 16 * ((k * size(g)) * 0x2000)) by (nonlinear_arith);
    assert(k * (68 * (w * u)) == 68 * (w * (10 * (l * (u * u))))) by (nonlinear_arith)
        requires
            k == 10 * (l * u),
    ;
}

} // verus!
