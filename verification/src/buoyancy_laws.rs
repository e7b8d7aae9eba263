//! Where the ball floats: with ten elevenths of it under water. A ball at rest that lies
//! deeper starts to rise, and one that lies higher starts to sink.

use crate::arithmetic::{difference, opposite, product, quotient, size, sum, unit};
use crate::ball_laws::{
    lemma_forces, lemma_frame_time_small, lemma_opposite, lemma_pull, lemma_zero_added,
    lemma_zero_times,
};
use crate::bounds::{
    is_finite, lemma_dyadic, lemma_product_between, lemma_product_error, lemma_quotient_between,
    lemma_sum_between, lemma_sum_error,
};
use crate::constants::{BUOYANCY, GRAVITY, MAX_FRAME_TIME, SLOW, SPHERE_SIM_RADIUS, TWO};
use crate::limits::{lemma_limit_values, lemma_limits_ordered};
use crate::plugin::WaterState;
use crate::ranges::lemma_root_within;
use crate::rounding::lemma_spread_at;
use crate::scalar::{
    absolute, at_most, is_nan, lemma_magnitude_zero, lemma_spread_order, less, spread, unsigned,
    value, Scalar, FRACTION_LIMIT, ONE, SIGN, ZERO,
};
use crate::vector::{direction, inner, length, Vec3};
use vstd::arithmetic::power2::{
    lemma2_to64, lemma2_to64_rest, lemma_pow2_pos, lemma_pow2_strictly_increases, lemma_pow2_unfold,
    pow2,
};
use vstd::prelude::*;

verus! {

/// The shortest time that is long enough for the lift to outweigh its rounding, in units
/// of the smallest positive number.
pub const SHORTEST_TIME: u32 = 0x1_0000;

/// The margin of the floating line is one part in this many: by so much more or less than
/// ten elevenths of the ball has to be under water for it to rise or to sink.
pub const FLOAT_MARGIN: u32 = 0x1_0000;

/// Whether more of the ball is under water than floats, by the margin.
pub open spec fn deeper(share: Scalar) -> bool {
    11 * FLOAT_MARGIN * value(share) >= (10 * FLOAT_MARGIN + 11) * unit()
}

/// Whether less of the ball is under water than floats, by the margin.
pub open spec fn higher(share: Scalar) -> bool {
    11 * FLOAT_MARGIN * value(share) <= (10 * FLOAT_MARGIN - 11) * unit()
}

/// Whether the ball has no speed.
pub open spec fn at_rest(state: WaterState) -> bool {
    &&& unsigned(state.ball_velocity.x) == 0
    &&& unsigned(state.ball_velocity.y) == 0
    &&& unsigned(state.ball_velocity.z) == 0
}

/// What the lift amounts to: more than the time for a deep ball, less for a high one.
#[verifier::rlimit(30)]
proof fn lemma_lift_against_time(delta: Scalar, share: Scalar)
    requires
        SHORTEST_TIME <= value(delta),
        at_most(delta, MAX_FRAME_TIME),
        at_most(ZERO, share),
        at_most(share, ONE),
    ensures
        ({
            let lift = product(product(BUOYANCY, delta), share);
            &&& is_finite(lift)
            &&& 0 <= value(lift) <= 2 * value(delta)
            &&& deeper(share) ==> value(lift) > value(delta)
            &&& higher(share) ==> value(lift) < value(delta)
        }),
{
    lemma_limit_values();
    lemma_magnitude_zero(ZERO);
    lemma_frame_time_small(delta);
    lemma_forces();
    lemma2_to64();
    lemma_dyadic(0x8C_CCCD, 126, 23);
    let (u, d, b, s) = (unit(), value(delta), value(BUOYANCY), value(share));
    let m = 0x8C_CCCDint;
    let limit = FRACTION_LIMIT as int;
    assert(b * limit == m * u);
    let part = product(BUOYANCY, delta);
    assert(0 <= b * d <= u * u) by (nonlinear_arith)
        requires
            0 <= b <= 2 * u,
            0 <= d,
            2 * d <= u,
            u > 0,
    ;
    assert(u * 0 == 0);
    lemma_product_between(BUOYANCY, delta, ZERO, ONE);
    lemma_finite_to_one(part);
    lemma_product_error(BUOYANCY, delta);
    let p = value(part);
    lemma_finite_to_one(share);
    assert(0 <= p * s <= u * p) by (nonlinear_arith)
        requires
            0 <= p,
            0 <= s <= u,
    ;
    lemma_product_between(part, share, ZERO, part);
    let lift = product(part, share);
    lemma_finite_to_one(lift);
    lemma_product_error(part, share);
    let l = value(lift);
    assert((2 * limit) * p + p + limit >= 2 * m * d && (2 * limit) * p <= 2 * m * d + p + limit)
        by (nonlinear_arith)
        requires
            size(p * u - b * d) * (2 * limit) <= u * (p + limit),
            b * limit == m * u,
            u > 0,
            limit > 0,
    ;
    if deeper(share) {
        assert(11 * FLOAT_MARGIN * ((2 * limit) * l + l + limit) >= (2 * limit) * ((10 * FLOAT_MARGIN + 11) * p))
            by (nonlinear_arith)
            requires
                size(l * u - p * s) * (2 * limit) <= u * (l + limit),
                11 * FLOAT_MARGIN * s >= (10 * FLOAT_MARGIN + 11) * u,
                p >= 0,
                u > 0,
                limit > 0,
        ;
    }
    if higher(share) {
        assert(11 * FLOAT_MARGIN * ((2 * limit) * l - l - limit) <= (2 * limit) * ((10 * FLOAT_MARGIN - 11) * p))
            by (nonlinear_arith)
            requires
                size(l * u - p * s) * (2 * limit) <= u * (l + limit),
                11 * FLOAT_MARGIN * s <= (10 * FLOAT_MARGIN - 11) * u,
                p >= 0,
                u > 0,
                limit > 0,
        ;
    }
}

/// A number between 0 and 1 is finite.
proof fn lemma_finite_to_one(a: Scalar)
    requires
        !is_nan(a),
        0 <= value(a) <= unit(),
    ensures
        is_finite(a),
{
    lemma_limit_values();
    lemma_magnitude_zero(a);
    if !is_finite(a) {
        lemma_spread_order(ONE as int, unsigned(a));
    }
}

/// A difference of two numbers is zero only where they are equal, and has the sign of the
/// exact one.
proof fn lemma_difference_sign(a: Scalar, b: Scalar, low: Scalar, high: Scalar)
    requires
        is_finite(a),
        is_finite(b),
        is_finite(low),
        is_finite(high),
        value(low) <= value(a) - value(b) <= value(high),
        value(low) <= 0 <= value(high),
    ensures
        is_finite(difference(a, b)),
        value(low) <= value(difference(a, b)) <= value(high),
        value(a) > value(b) ==> value(difference(a, b)) > 0,
        value(a) < value(b) ==> value(difference(a, b)) < 0,
{
    lemma_opposite(b);
    lemma_magnitude_zero(ZERO);
    let r = difference(a, b);
    lemma_sum_between(a, opposite(b), low, high);
    lemma_magnitude_zero(r);
    lemma_magnitude_zero(low);
    lemma_magnitude_zero(high);
    if !is_finite(r) {
        if value(r) > 0 {
            lemma_spread_order(unsigned(high), unsigned(r));
        } else {
            lemma_spread_order(unsigned(low), unsigned(r));
        }
    }
    lemma_sum_error(a, opposite(b));
    if value(a) >= value(b) {
        lemma_sum_between(a, opposite(b), ZERO, high);
    } else {
        lemma_sum_between(a, opposite(b), low, ZERO);
    }
}

/// The velocity that gravity and buoyancy give a ball at rest.
#[verifier::rlimit(30)]
proof fn lemma_pulled_at_rest(state: WaterState, delta: Scalar)
    requires
        at_rest(state),
        SHORTEST_TIME <= value(delta),
        at_most(delta, MAX_FRAME_TIME),
        !is_nan(state.submerged()),
    ensures
        ({
            let pulled = state.pulled_velocity(delta);
            &&& unsigned(pulled.x) == 0
            &&& unsigned(pulled.z) == 0
            &&& is_finite(pulled.y)
            &&& -unit() <= 4 * value(pulled.y) <= unit()
            &&& deeper(state.submerged()) ==> value(pulled.y) > 0
            &&& higher(state.submerged()) ==> value(pulled.y) < 0
        }),
{
    lemma_limit_values();
    lemma_limits_ordered();
    lemma_forces();
    lemma_magnitude_zero(ZERO);
    lemma_magnitude_zero(SIGN);
    lemma_frame_time_small(delta);
    let share = state.submerged();
    lemma_clamped_share(state);
    lemma_lift_against_time(delta, share);
    let lift = product(product(BUOYANCY, delta), share);
    let k = difference(delta, lift);
    lemma_opposite(delta);
    lemma_difference_sign(delta, lift, opposite(delta), delta);
    lemma_pull(k);
    let pull = product(GRAVITY, k);
    lemma_product_error(GRAVITY, k);
    let (g, v, y, u, limit) = (value(GRAVITY), value(k), value(pull), unit(), FRACTION_LIMIT as int);
    assert(y == 0 ==> v == 0) by (nonlinear_arith)
        requires
            g == -4 * u,
            size(y * u - g * v) * (2 * limit) <= u * (size(y) + limit),
            u > 0,
            limit > 0,
    ;
    let sixteenth: Scalar = 0x3D80_0000;
    lemma2_to64();
    lemma_dyadic(0x80_0000, 122, 27);
    lemma_spread_order(MAX_FRAME_TIME as int, sixteenth as int);
    let quarter: Scalar = 0xBE80_0000;
    assert(value(quarter) == -value(SPHERE_SIM_RADIUS));
    assert(u * value(quarter) <= g * v <= u * value(SPHERE_SIM_RADIUS)) by (nonlinear_arith)
        requires
            g == -4 * u,
            4 * value(SPHERE_SIM_RADIUS) == u,
            value(quarter) == -value(SPHERE_SIM_RADIUS),
            -u <= 16 * v <= u,
            u > 0,
    ;
    lemma_product_between(GRAVITY, k, quarter, SPHERE_SIM_RADIUS);
    lemma_zero_added(pull, state.ball_velocity.y);
    lemma_zero_times(k, ZERO);
    let still = product(ZERO, k);
    lemma_both_zero(state.ball_velocity.x, still);
    lemma_both_zero(state.ball_velocity.z, still);
}

/// The sum of zeros is zero.
proof fn lemma_both_zero(a: Scalar, b: Scalar)
    requires
        unsigned(a) == 0,
        unsigned(b) == 0,
    ensures
        unsigned(sum(a, b)) == 0,
{
    lemma_magnitude_zero(a);
    lemma_magnitude_zero(b);
}

/// The share of the ball that is under water lies between 0 and 1.
proof fn lemma_clamped_share(state: WaterState)
    requires
        !is_nan(state.submerged()),
    ensures
        at_most(ZERO, state.submerged()),
        at_most(state.submerged(), ONE),
{
    lemma_limits_ordered();
}

/// The patterns of a half and of a quarter of a number that is not too small.
proof fn lemma_halves(a: Scalar)
    requires
        a < SIGN,
        is_finite(a),
        a > 0x3580_0000,
    ensures
        2 * value((a - FRACTION_LIMIT) as u32) == value(a),
        4 * value((a - 2 * FRACTION_LIMIT) as u32) == value(a),
        0 < value((a - 2 * FRACTION_LIMIT) as u32),
{
    let limit = FRACTION_LIMIT as int;
    let e = a as int / limit - 1;
    let m = limit + a as int % limit;
    assert(a == e * limit + m);
    lemma_spread_at(m, e);
    lemma_spread_at(m, e - 1);
    lemma_spread_at(m, e - 2);
    assert((e - 1) * limit + m == a - limit && (e - 2) * limit + m == a - 2 * limit);
    lemma_pow2_unfold(e as nat);
    lemma_pow2_unfold((e - 1) as nat);
    lemma_pow2_pos((e - 2) as nat);
    let p = pow2((e - 2) as nat) as int;
    assert(m * (2 * p) == 2 * (m * p) && m * (2 * (2 * p)) == 4 * (m * p) && m * p > 0) by (nonlinear_arith)
        requires
            m > 0,
            p > 0,
    ;
}

/// The water brakes a ball that moves straight up or down by no more than half its speed.
proof fn lemma_braked_keeps_sign(state: WaterState, delta: Scalar)
    requires
        !is_nan(state.submerged()),
        at_most(ZERO, delta),
        at_most(delta, MAX_FRAME_TIME),
        unsigned(state.pulled_velocity(delta).x) == 0,
        unsigned(state.pulled_velocity(delta).z) == 0,
        is_finite(state.pulled_velocity(delta).y),
        -unit() <= 4 * value(state.pulled_velocity(delta).y) <= unit(),
    ensures
        is_finite(state.braked_velocity(delta).y),
        value(state.pulled_velocity(delta).y) > 0 ==> value(state.braked_velocity(delta).y) > 0,
        value(state.pulled_velocity(delta).y) < 0 ==> value(state.braked_velocity(delta).y) < 0,
{
    let pulled = state.pulled_velocity(delta);
    if less(SLOW, inner(pulled, pulled)) {
        lemma_limit_values();
        lemma_magnitude_zero(ZERO);
        lemma_clamped_share(state);
        lemma_frame_time_small(delta);
        let share = state.submerged();
        lemma_finite_to_one(share);
        let (s, d, u) = (value(share), value(delta), unit());
        assert(0 <= s * d <= u * u && u * 0 == 0) by (nonlinear_arith)
            requires
                0 <= s <= u,
                0 <= d,
                2 * d <= u,
        ;
        lemma_product_between(share, delta, ZERO, ONE);
        lemma_finite_to_one(product(share, delta));
        lemma_drag(pulled, product(share, delta));
    }
}

/// The pattern of half a number.
spec fn half_of(y: Scalar) -> Scalar {
    (absolute(y) - FRACTION_LIMIT) as u32
}

/// The pattern of a quarter of a number.
spec fn quarter_of(y: Scalar) -> Scalar {
    (absolute(y) - 2 * FRACTION_LIMIT) as u32
}

/// The square of a speed that the water brakes, and the size of that speed.
#[verifier::rlimit(30)]
proof fn lemma_square(y: Scalar)
    requires
        is_finite(y),
        -unit() <= 4 * value(y) <= unit(),
        less(SLOW, product(y, y)),
    ensures
        is_finite(product(y, y)),
        0 <= value(product(y, y)) <= value(quarter_of(y)),
        value(half_of(y)) * value(half_of(y)) <= value(product(y, y)) * unit(),
        0x3580_0000 < absolute(y) <= ONE,
        2 * value(half_of(y)) == size(value(y)),
        4 * value(quarter_of(y)) == size(value(y)),
        0 < value(quarter_of(y)),
{
    lemma_limit_values();
    lemma_magnitude_zero(ZERO);
    let py = product(y, y);
    let (v, u, limit) = (value(y), unit(), FRACTION_LIMIT as int);
    lemma_magnitude_zero(y);
    assert(0 <= v * v <= u * u) by (nonlinear_arith)
        requires
            -u <= 4 * v <= u,
    ;
    assert(u * 0 == 0);
    lemma_product_between(y, y, ZERO, ONE);
    lemma_finite_to_one(py);
    lemma_product_error(y, y);
    let a = absolute(y);
    lemma2_to64();
    lemma2_to64_rest();
    lemma_dyadic(0x80_0000, 106, 43);
    lemma_spread_order(0x3580_0000, SLOW as int);
    let w = spread(0x3580_0000);
    assert(w * 0x10_0000 == u);
    assert(a > 0x3580_0000) by {
        if a <= 0x3580_0000 {
            if a < 0x3580_0000 {
                lemma_spread_order(a as int, 0x3580_0000);
            }
            assert(v * v <= u * value(SLOW)) by (nonlinear_arith)
                requires
                    -w <= v <= w,
                    0 <= w,
                    w * 0x10_0000 == u,
                    w <= value(SLOW),
            ;
            lemma_product_between(y, y, ZERO, SLOW);
        }
    }
    if a > ONE {
        lemma_spread_order(ONE as int, a as int);
    }
    lemma_spread_order(0x3580_0000, a as int);
    lemma_halves(a);
    let (h, q, n) = (value(half_of(y)), value(quarter_of(y)), value(py));
    assert(2 * h == size(v) && 4 * q == size(v));
    lemma_pow2_strictly_increases(63, 149);
    assert(h * h <= n * u) by {
        let (x, z) = (v * v, n * u);
        assert(4 * (h * h) == x) by (nonlinear_arith)
            requires
                2 * h == size(v),
                x == v * v,
        ;
        assert(u * (n + limit) <= u * (2 * u)) by (nonlinear_arith)
            requires
                0 <= n <= u,
                limit <= u,
        ;
        assert(u * u <= 0x100_0000_0000 * x) by (nonlinear_arith)
            requires
                w <= size(v),
                w * 0x10_0000 == u,
                x == v * v,
                w > 0,
        ;
        assert(u * (n + limit) == z + limit * u) by (nonlinear_arith)
            requires
                z == n * u,
        ;
        assert(0x8000_0000_0000_0000 * u <= u * u) by (nonlinear_arith)
            requires
                u >= 0x8000_0000_0000_0000,
        ;
    }
    assert(v * v <= u * q) by (nonlinear_arith)
        requires
            -u <= 4 * v <= u,
            4 * q == size(v),
    ;
    lemma_product_between(y, y, ZERO, quarter_of(y));
}

/// A speed divided by at least half of it is no more than 2, and keeps its sign.
proof fn lemma_short_direction(y: Scalar, len: Scalar)
    requires
        is_finite(y),
        is_finite(len),
        value(len) > 0,
        2 * value(len) >= size(value(y)),
    ensures
        is_finite(quotient(y, len)),
        -2 * unit() <= value(quotient(y, len)) <= 2 * unit(),
        value(y) > 0 ==> value(quotient(y, len)) >= 0,
        value(y) <= 0 ==> value(quotient(y, len)) <= 0,
{
    lemma_limit_values();
    lemma_magnitude_zero(ZERO);
    lemma_opposite(TWO);
    let (v, l, u) = (value(y), value(len), unit());
    assert(l * (-2 * u) <= v * u <= l * (2 * u)) by (nonlinear_arith)
        requires
            2 * l >= size(v),
            u > 0,
    ;
    assert(l * 0 == 0);
    if v > 0 {
        assert(v * u >= 0) by (nonlinear_arith)
            requires
                v > 0,
                u > 0,
        ;
        lemma_quotient_between(y, len, ZERO, TWO);
    } else {
        assert(v * u <= 0) by (nonlinear_arith)
            requires
                v <= 0,
                u > 0,
        ;
        lemma_quotient_between(y, len, opposite(TWO), ZERO);
    }
    lemma_finite_to_two(quotient(y, len));
}

/// The drag on a speed is no more than half of it.
#[verifier::rlimit(30)]
proof fn lemma_small_drag(y: Scalar, dir: Scalar, part: Scalar, squared: Scalar)
    requires
        is_finite(y),
        -unit() <= 4 * value(y) <= unit(),
        0x3580_0000 < absolute(y) <= ONE,
        2 * value(half_of(y)) == size(value(y)),
        4 * value(quarter_of(y)) == size(value(y)),
        is_finite(dir),
        -2 * unit() <= value(dir) <= 2 * unit(),
        value(y) > 0 ==> value(dir) >= 0,
        value(y) <= 0 ==> value(dir) <= 0,
        is_finite(part),
        0 <= value(part) <= unit(),
        is_finite(squared),
        0 <= value(squared) <= value(quarter_of(y)),
    ensures
        ({
            let left = difference(y, product(dir, product(part, squared)));
            &&& is_finite(left)
            &&& value(y) > 0 ==> value(left) > 0
            &&& value(y) < 0 ==> value(left) < 0
        }),
{
    lemma_limit_values();
    lemma_magnitude_zero(ZERO);
    let (half, quarter) = (half_of(y), quarter_of(y));
    let (v, u, h, q) = (value(y), unit(), value(half), value(quarter));
    let (p, n, c) = (value(part), value(squared), value(dir));
    lemma_opposite(half);
    lemma_magnitude_zero(half);
    assert(u * 0 == 0);
    assert(0 <= p * n <= u * q) by (nonlinear_arith)
        requires
            0 <= p <= u,
            0 <= n <= q,
    ;
    lemma_product_between(part, squared, ZERO, quarter);
    let factor = product(part, squared);
    lemma_finite_to_one(factor);
    let f = value(factor);
    let drag = product(dir, factor);
    if v > 0 {
        assert(0 <= c * f <= u * h) by (nonlinear_arith)
            requires
                0 <= c <= 2 * u,
                0 <= f <= q,
                h == 2 * q,
                u > 0,
        ;
        lemma_product_between(dir, factor, ZERO, half);
    } else {
        assert(u * (-h) <= c * f <= 0) by (nonlinear_arith)
            requires
                -2 * u <= c <= 0,
                0 <= f <= q,
                h == 2 * q,
                u > 0,
        ;
        lemma_product_between(dir, factor, opposite(half), ZERO);
    }
    lemma_magnitude_zero(drag);
    lemma_finite_to_two(drag);
    let (low, high): (Scalar, Scalar) = (0xBF80_0000, ONE);
    assert(value(low) == -u);
    lemma_difference_sign(y, drag, low, high);
}

/// The inner product of a velocity that is straight up or down is the square of its speed.
proof fn lemma_upright_square(v: Vec3)
    requires
        unsigned(v.x) == 0,
        unsigned(v.z) == 0,
        is_finite(product(v.y, v.y)),
    ensures
        is_finite(inner(v, v)),
        value(inner(v, v)) == value(product(v.y, v.y)),
{
    let py = product(v.y, v.y);
    lemma_zero_times(v.x, v.x);
    lemma_zero_times(v.z, v.z);
    lemma_zero_added(py, product(v.x, v.x));
    lemma_zero_added(sum(product(v.x, v.x), py), product(v.z, v.z));
}

/// The braking of a velocity that is straight up or down.
proof fn lemma_drag(v: Vec3, part: Scalar)
    requires
        unsigned(v.x) == 0,
        unsigned(v.z) == 0,
        is_finite(v.y),
        -unit() <= 4 * value(v.y) <= unit(),
        less(SLOW, inner(v, v)),
        is_finite(part),
        0 <= value(part) <= unit(),
    ensures
        ({
            let left = difference(v.y, product(direction(v).y, product(part, inner(v, v))));
            &&& is_finite(left)
            &&& value(v.y) > 0 ==> value(left) > 0
            &&& value(v.y) < 0 ==> value(left) < 0
        }),
{
    lemma_limit_values();
    lemma_magnitude_zero(ZERO);
    let (y, u) = (v.y, unit());
    assert(0 <= value(y) * value(y) <= u * u && u * 0 == 0) by (nonlinear_arith)
        requires
            -u <= 4 * value(y) <= u,
    ;
    lemma_product_between(y, y, ZERO, ONE);
    lemma_finite_to_one(product(y, y));
    lemma_upright_square(v);
    lemma_square(y);
    let squared = inner(v, v);
    lemma2_to64();
    assert(pow2(0) * u == u) by (nonlinear_arith)
        requires
            pow2(0) == 1,
    ;
    lemma_magnitude_zero(half_of(y));
    lemma_root_within(squared, half_of(y), 0);
    lemma_short_direction(y, length(v));
    lemma_small_drag(y, direction(v).y, part, squared);
}

/// A number between -2 and 2 is finite.
proof fn lemma_finite_to_two(a: Scalar)
    requires
        !is_nan(a),
        -2 * unit() <= value(a) <= 2 * unit(),
    ensures
        is_finite(a),
{
    lemma_limit_values();
    lemma_magnitude_zero(a);
    if !is_finite(a) {
        lemma_spread_order(TWO as int, unsigned(a));
    }
}

/// A ball at rest with more than ten elevenths of it under water starts to rise, and one
/// with less starts to sink, by a margin of one part in `FLOAT_MARGIN`. Times so short
/// that rounding eats up the lift are left out.
pub proof fn lemma_floating_line(state: WaterState, delta: Scalar)
    requires
        at_rest(state),
        SHORTEST_TIME <= value(delta),
        at_most(delta, MAX_FRAME_TIME),
        !is_nan(state.submerged()),
    ensures
        deeper(state.submerged()) ==> less(ZERO, state.braked_velocity(delta).y),
        higher(state.submerged()) ==> less(state.braked_velocity(delta).y, ZERO),
{
    lemma_limit_values();
    lemma_magnitude_zero(ZERO);
    lemma_pulled_at_rest(state, delta);
    lemma_braked_keeps_sign(state, delta);
}

} // verus!
