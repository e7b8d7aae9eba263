//! How a frame moves the free ball: gravity pulls it, the share of it that is under water
//! is lifted and braked, and it goes where its velocity takes it, as far as the floor and
//! the walls let it.

use crate::arithmetic::{difference, product, quotient, size, sum, unit};
use crate::ball_laws::{lemma_forces, lemma_frame_time_small, lemma_zero_added, lemma_zero_times};
use crate::bounds::{is_finite, lemma_dyadic, lemma_quotient_between, lemma_quotient_error};
use crate::constants::{
    BUOYANCY, FLOOR_LIMIT, GRAVITY, MAX_FRAME_TIME, NEGATIVE_SIDE_LIMIT, REBOUND, SIDE_LIMIT, SLOW,
    SPHERE_SIM_DIAMETER, SPHERE_SIM_RADIUS,
};
use crate::limits::{inside_pool, lemma_limit_values, lemma_limits_ordered};
use crate::picking_laws::{
    exact_inner, lemma_component_off, lemma_finite_between, lemma_small_difference,
    lemma_small_inner, lemma_small_product, lemma_small_sum, lemma_unit_components,
};
use crate::plugin::{DragMode, WaterState};
use crate::ranges::{lemma_power, lemma_root_within, negative_power, power};
use crate::rotation_laws::{
    lemma_finite_square, lemma_finite_sum, lemma_long_vector, lemma_nearer,
    lemma_square_nonnegative, lemma_tiny, lemma_vector_squares, pure, TINY, UNIT_PARTS,
};
use crate::scalar::{
    absolute, at_most, clamped, is_nan, lemma_absolute, lemma_clamped, lemma_magnitude_zero,
    lemma_spread_order, less, smaller, spread, unsigned, value, Scalar, ONE, ZERO,
};
use crate::vector::{direction, inner, length, Vec3};
use vstd::arithmetic::power2::{lemma2_to64, lemma2_to64_rest, lemma_pow2_strictly_increases, pow2};
use vstd::prelude::*;

verus! {

/// An exact number held between two others.
pub open spec fn held(n: int, low: int, high: int) -> int {
    if n < low {
        low
    } else if n > high {
        high
    } else {
        n
    }
}

/// Twice the share of a ball at height `y` that is under water: none of it from a quarter
/// above the water on, all of it from a quarter below on.
pub open spec fn twice_under(y: int) -> int {
    held(unit() - 4 * y, 0, 2 * unit())
}

/// The exact time that a frame simulates: no more than the longest.
pub open spec fn frame_time(delta_time: Scalar) -> int {
    if value(delta_time) < value(MAX_FRAME_TIME) {
        value(delta_time)
    } else {
        value(MAX_FRAME_TIME)
    }
}

/// A product with one factor that is off by little.
pub proof fn lemma_factor_off(x: int, y: int, z: int, e: int, most: int)
    requires
        size(x - y) * 0x100_0000 <= e,
        size(z) <= most,
    ensures
        size(x * z - y * z) * 0x100_0000 <= e * most,
{
    let g = x - y;
    assert(x * z - y * z == g * z) by (nonlinear_arith)
        requires
            g == x - y,
    ;
    assert(size(g * z) == size(g) * size(z)) by (nonlinear_arith);
    assert((size(g) * 0x100_0000) * size(z) <= e * most) by (nonlinear_arith)
        requires
            0 <= size(g) * 0x100_0000 <= e,
            0 <= size(z) <= most,
    ;
    assert((size(g) * 0x100_0000) * size(z) == (size(g) * size(z)) * 0x100_0000) by (nonlinear_arith);
}

/// Sizes that stay far from overflow.
pub proof fn lemma_far_from_overflow()
    ensures
        unit() > 0x8000_0000_0000_0000,
        0x10_0000 * unit() <= pow2(100) * unit(),
        0x4000_0000 * unit() <= pow2(100) * unit(),
        0x1_0000_0000 * unit() <= pow2(100) * unit(),
{
    lemma_tiny();
    lemma2_to64();
    lemma_pow2_strictly_increases(32, 100);
    let u = unit();
    assert(0x1_0000_0000 * u <= pow2(100) * u) by (nonlinear_arith)
        requires
            pow2(100) >= 0x1_0000_0000,
            u > 0,
    ;
}

/// A quotient by a positive number, of a given size.
pub proof fn lemma_small_ratio(a: Scalar, b: Scalar, q: int)
    requires
        is_finite(a),
        is_finite(b),
        value(b) > 0,
        0x100_0000 <= q <= pow2(100) * unit(),
        size(value(a)) * unit() <= value(b) * q,
    ensures
        is_finite(quotient(a, b)),
        16 * size(value(quotient(a, b))) <= 17 * q,
        size(value(quotient(a, b)) * value(b) - value(a) * unit()) * 0x100_0000 <= value(b) * (size(
            value(quotient(a, b)),
        ) + 0x80_0000),
        value(a) <= 0 ==> value(quotient(a, b)) <= 0,
        value(a) >= 0 ==> value(quotient(a, b)) >= 0,
{
    lemma_limit_values();
    lemma_power(100);
    let (u, d, v) = (unit(), value(b), value(a));
    let top = pow2(100) * u;
    assert(d * (-top) <= v * u <= d * top) by (nonlinear_arith)
        requires
            size(v) * u <= d * q,
            q <= top,
            d > 0,
            u > 0,
    ;
    lemma_quotient_between(a, b, negative_power(100), power(100));
    let r = quotient(a, b);
    lemma_finite_between(r);
    assert(d * 0 == 0);
    if v <= 0 {
        assert(v * u <= 0) by (nonlinear_arith)
            requires
                v <= 0,
                u > 0,
        ;
        lemma_quotient_between(a, b, negative_power(100), ZERO);
    }
    if v >= 0 {
        assert(v * u >= 0) by (nonlinear_arith)
            requires
                v >= 0,
                u > 0,
        ;
        lemma_quotient_between(a, b, ZERO, power(100));
    }
    lemma_quotient_error(a, b);
    let (t, m) = (value(r), size(value(r)));
    assert(size(t * d) == m * d) by (nonlinear_arith)
        requires
            m == size(t),
            d > 0,
    ;
    assert(size(v * u) == size(v) * u) by (nonlinear_arith)
        requires
            u > 0,
    ;
    assert(16 * m <= 17 * q) by (nonlinear_arith)
        requires
            (m * d) * 0x100_0000 <= (d * q) * 0x100_0000 + d * (m + 0x80_0000),
            d > 0,
            q >= 0x100_0000,
            m >= 0,
    {
        assert(d * (m * 0xff_ffff) <= d * (q * 0x100_0000 + 0x80_0000)) by (nonlinear_arith)
            requires
                (m * d) * 0x100_0000 <= (d * q) * 0x100_0000 + d * (m + 0x80_0000),
        ;
        assert(m * 0xff_ffff <= q * 0x100_0000 + 0x80_0000) by (nonlinear_arith)
            requires
                d * (m * 0xff_ffff) <= d * (q * 0x100_0000 + 0x80_0000),
                d > 0,
        ;
    }
}

/// A number divided by a half.
proof fn lemma_over_half(a: Scalar)
    requires
        is_finite(a),
        size(value(a)) <= 0x1000_0000 * unit(),
    ensures
        is_finite(quotient(a, SPHERE_SIM_DIAMETER)),
        size(value(quotient(a, SPHERE_SIM_DIAMETER)) - 2 * value(a)) * 0x100_0000 <= size(
            value(quotient(a, SPHERE_SIM_DIAMETER)),
        ) + 0x80_0000,
{
    lemma_limit_values();
    lemma_far_from_overflow();
    let (u, v, h) = (unit(), value(a), value(SPHERE_SIM_DIAMETER));
    let q = 2 * size(v) + 0x100_0000;
    assert(size(v) * u <= h * q) by (nonlinear_arith)
        requires
            2 * h == u,
            q == 2 * size(v) + 0x100_0000,
            u > 0,
    ;
    lemma_small_ratio(a, SPHERE_SIM_DIAMETER, q);
    let t = value(quotient(a, SPHERE_SIM_DIAMETER));
    let g = t - 2 * v;
    assert(t * h - v * u == g * h) by (nonlinear_arith)
        requires
            2 * h == u,
            g == t - 2 * v,
    ;
    assert(size(g * h) == size(g) * h) by (nonlinear_arith)
        requires
            h > 0,
    ;
    assert(size(g) * 0x100_0000 <= size(t) + 0x80_0000) by (nonlinear_arith)
        requires
            (size(g) * h) * 0x100_0000 <= h * (size(t) + 0x80_0000),
            h > 0,
    {
        assert(h * (size(g) * 0x100_0000) <= h * (size(t) + 0x80_0000)) by (nonlinear_arith)
            requires
                (size(g) * h) * 0x100_0000 <= h * (size(t) + 0x80_0000),
        ;
    }
}

/// The share of the ball that is under water, as computed.
proof fn lemma_share(state: WaterState)
    requires
        is_finite(state.ball_center.y),
        size(value(state.ball_center.y)) <= 0x10_0000 * unit(),
    ensures
        is_finite(state.submerged()),
        0 <= value(state.submerged()) <= unit(),
        size(2 * value(state.submerged()) - twice_under(value(state.ball_center.y))) * 0x100_0000 <= 16 * unit(),
{
    lemma_limit_values();
    lemma_far_from_overflow();
    let (y, u) = (state.ball_center.y, unit());
    lemma_small_difference(SPHERE_SIM_RADIUS, y, size(value(SPHERE_SIM_RADIUS) - value(y)));
    let room = difference(SPHERE_SIM_RADIUS, y);
    let q = quotient(room, SPHERE_SIM_DIAMETER);
    lemma_over_half(room);
    lemma_magnitude_zero(q);
    lemma_limits_ordered();
    lemma_clamped(q, ZERO, ONE);
}

/// What a frame may simulate.
pub proof fn lemma_frame_time_near(delta_time: Scalar)
    requires
        at_most(ZERO, delta_time),
    ensures
        ({
            let delta = smaller(delta_time, MAX_FRAME_TIME);
            &&& is_finite(delta)
            &&& value(delta) == frame_time(delta_time)
            &&& 0 <= 16 * value(delta) <= unit()
            &&& at_most(ZERO, delta)
            &&& at_most(delta, MAX_FRAME_TIME)
        }),
{
    lemma_limit_values();
    let delta = smaller(delta_time, MAX_FRAME_TIME);
    lemma_magnitude_zero(delta);
    lemma_magnitude_zero(MAX_FRAME_TIME);
    lemma2_to64();
    lemma_dyadic(0x80_0000, 122, 27);
    lemma_spread_order(MAX_FRAME_TIME as int, 0x3D80_0000);
    lemma_frame_time_small(delta);
}

/// Whether `w` is the vertical speed that a ball at height `y` with vertical speed `v` gets
/// in time `t` from gravity, which pulls at 4, and from the water, which lifts eleven tenths
/// as much of the share that is under it; `w` is a whole number of the smallest unit.
pub open spec fn pulled_to(v: int, y: int, t: int, w: int) -> bool {
    size(5 * (unit() * w) - (5 * (unit() * v) - 20 * (unit() * t) + 11 * (t * twice_under(y)))) <= 5 * unit()
}

/// Buoyancy is eleven tenths, but for rounding.
proof fn lemma_eleven_tenths()
    ensures
        size(10 * value(BUOYANCY) - 11 * unit()) * 0x40_0000 <= unit(),
        unit() <= value(BUOYANCY) <= 2 * unit(),
{
    lemma_forces();
    lemma2_to64();
    lemma_dyadic(0x8C_CCCD, 126, 23);
}

/// Lift and time against the exact ones.
proof fn lemma_lift_near(b: int, t: int, s: int, twice: int, x: int, l: int, k: int, u: int)
    requires
        u > 0,
        size(10 * b - 11 * u) * 0x40_0000 <= u,
        0 <= 16 * t <= u,
        0 <= s <= u,
        size(2 * s - twice) * 0x100_0000 <= 16 * u,
        size(x * u - b * t) * 0x100_0000 <= 2 * (u * u),
        size(l * u - x * s) * 0x100_0000 <= 4 * (u * u),
        size(k - (t - l)) * 0x100_0000 <= 3 * u,
    ensures
        size(20 * (u * k) - (20 * (u * t) - 11 * (t * twice))) * 0x100_0000 <= 200 * (u * u),
{
    // 20 u u k, step by step, each side times u where a product of three is at hand.
    let w = u * u;
    assert(w > 0) by (nonlinear_arith)
        requires
            w == u * u,
            u > 0,
    ;
    assert(size(u * k - (u * t - u * l)) * 0x100_0000 <= 3 * w) by (nonlinear_arith)
        requires
            size(k - (t - l)) * 0x100_0000 <= 3 * u,
            w == u * u,
            u > 0,
    {
        let g = k - (t - l);
        assert(u * k - (u * t - u * l) == u * g) by (nonlinear_arith)
            requires
                g == k - (t - l),
        ;
        assert(size(u * g) == u * size(g)) by (nonlinear_arith)
            requires
                u > 0,
        ;
        assert(u * (size(g) * 0x100_0000) <= u * (3 * u)) by (nonlinear_arith)
            requires
                size(g) * 0x100_0000 <= 3 * u,
                u > 0,
        ;
    }
    lemma_factor_off(x * u, b * t, s, 2 * w, u);
    assert((x * u) * s == u * (x * s)) by (nonlinear_arith);
    let (xs, bts) = (x * s, (b * t) * s);
    assert((2 * w) * u == u * (2 * w)) by (nonlinear_arith);
    // Tenths.
    assert(0 <= t * s <= w) by (nonlinear_arith)
        requires
            0 <= 16 * t <= u,
            0 <= s <= u,
            w == u * u,
    ;
    lemma_factor_off(10 * b, 11 * u, t * s, 4 * u, w);
    assert((10 * b) * (t * s) == 10 * bts) by (nonlinear_arith)
        requires
            bts == (b * t) * s,
    ;
    assert((11 * u) * (t * s) == u * (11 * (t * s))) by (nonlinear_arith);
    assert((4 * u) * w == u * (4 * w)) by (nonlinear_arith);
    lemma_factor_off(2 * s, twice, 16 * t, 16 * u, u);
    assert((2 * s) * (16 * t) == 32 * (t * s) && twice * (16 * t) == 16 * (t * twice)) by (nonlinear_arith);
    assert((16 * u) * u == 16 * w) by (nonlinear_arith)
        requires
            w == u * u,
    ;
    let ul = u * l;
    assert(l * u == ul) by (nonlinear_arith)
        requires
            ul == u * l,
    ;
    // u * (20 x s) against u * (22 t s), then without the factor.
    let g = 20 * xs - 22 * (t * s);
    assert(size(u * g) * 0x100_0000 <= u * (48 * w)) by {
        assert(u * g == 20 * (u * xs) - 2 * (u * (11 * (t * s)))) by (nonlinear_arith)
            requires
                g == 20 * xs - 22 * (t * s),
        ;
        assert(u * (48 * w) == 20 * (u * (2 * w)) + 2 * (u * (4 * w))) by (nonlinear_arith);
    }
    assert(size(g) * 0x100_0000 <= 48 * w) by {
        assert(size(u * g) == u * size(g)) by (nonlinear_arith)
            requires
                u > 0,
        ;
        assert(size(g) * 0x100_0000 <= 48 * w) by (nonlinear_arith)
            requires
                (u * size(g)) * 0x100_0000 <= u * (48 * w),
                u > 0,
        {
            assert(u * (size(g) * 0x100_0000) <= u * (48 * w)) by (nonlinear_arith)
                requires
                    (u * size(g)) * 0x100_0000 <= u * (48 * w),
            ;
        }
    }
    assert(size(20 * ul - 20 * xs) * 0x100_0000 <= 80 * w);
}

/// The vertical speed after gravity and buoyancy, as computed.
#[verifier::rlimit(30)]
proof fn lemma_pulled_near(state: WaterState, delta: Scalar, w: int)
    requires
        is_finite(state.ball_center.y),
        size(value(state.ball_center.y)) <= 0x10_0000 * unit(),
        is_finite(state.ball_velocity.x),
        is_finite(state.ball_velocity.y),
        is_finite(state.ball_velocity.z),
        size(value(state.ball_velocity.y)) <= 8 * unit(),
        is_finite(delta),
        0 <= 16 * value(delta) <= unit(),
        pulled_to(value(state.ball_velocity.y), value(state.ball_center.y), value(delta), w),
    ensures
        ({
            let p = state.pulled_velocity(delta);
            &&& is_finite(p.x) && is_finite(p.y) && is_finite(p.z)
            &&& value(p.x) == value(state.ball_velocity.x)
            &&& value(p.z) == value(state.ball_velocity.z)
            &&& size(value(p.y) - w) * 0x100_0000 <= 96 * unit()
            &&& size(value(p.y)) <= 9 * unit()
        }),
{
    lemma_limit_values();
    lemma_far_from_overflow();
    lemma_forces();
    lemma_eleven_tenths();
    lemma_share(state);
    let (u, v, y, t) = (unit(), state.ball_velocity, value(state.ball_center.y), value(delta));
    let (b, s) = (value(BUOYANCY), value(state.submerged()));
    assert(0 <= b * t <= u * u) by (nonlinear_arith)
        requires
            u <= b <= 2 * u,
            0 <= 16 * t <= u,
            u > 0,
    ;
    lemma_small_product(BUOYANCY, delta, u);
    let x = product(BUOYANCY, delta);
    assert(size(value(x) * s) <= (2 * u) * u) by (nonlinear_arith)
        requires
            8 * size(value(x)) <= 9 * u,
            0 <= s <= u,
            u > 0,
    ;
    lemma_small_product(x, state.submerged(), 2 * u);
    assert((2 * u) * u == 2 * (u * u)) by (nonlinear_arith);
    let l = product(x, state.submerged());
    lemma_small_difference(delta, l, size(t - value(l)));
    let k = difference(delta, l);
    lemma_lift_near(b, t, s, twice_under(y), value(x), value(l), value(k), u);
    let g = value(GRAVITY);
    assert(g * value(k) == -4 * (u * value(k))) by (nonlinear_arith)
        requires
            g == -4 * u,
    ;
    assert(size(u * value(k)) <= 3 * (u * u)) by (nonlinear_arith)
        requires
            size(value(k)) <= 3 * u,
            u > 0,
    ;
    assert((12 * u) * u == 12 * (u * u)) by (nonlinear_arith);
    lemma_small_product(GRAVITY, k, 12 * u);
    let p = product(GRAVITY, k);
    lemma_zero_times(k, ZERO);
    lemma_zero_added(v.x, product(ZERO, k));
    lemma_zero_added(v.z, product(ZERO, k));
    lemma_small_sum(v.y, p, size(value(v.y) + value(p)));
    let r = value(sum(v.y, p));
    // Everything times five units.
    let (e, f, wy) = (r - (value(v.y) + value(p)), 5 * (u * w), value(v.y));
    assert(value(p) * u == u * value(p)) by (nonlinear_arith);
    assert(5 * (u * r) == 5 * (u * e) + 5 * (u * wy) + 5 * (u * value(p))) by (nonlinear_arith)
        requires
            e == r - (wy + value(p)),
    ;
    assert(size(r) <= 24 * u);
    assert(size(u * e) * 0x100_0000 <= 24 * (u * u)) by (nonlinear_arith)
        requires
            size(e) * 0x100_0000 <= 24 * u,
            u > 0,
    {
        assert(size(u * e) == u * size(e)) by (nonlinear_arith)
            requires
                u > 0,
        ;
        assert(u * (size(e) * 0x100_0000) <= u * (24 * u)) by (nonlinear_arith)
            requires
                size(e) * 0x100_0000 <= 24 * u,
                u > 0,
        ;
    }
    assert(u * u >= 0x8000_0000_0000_0000 * u) by (nonlinear_arith)
        requires
            u > 0x8000_0000_0000_0000,
    ;
    let d = r - w;
    assert(5 * (u * r) - f == 5 * (u * d)) by (nonlinear_arith)
        requires
            f == 5 * (u * w),
            d == r - w,
    ;
    assert(size(5 * (u * d)) * 0x100_0000 <= 460 * (u * u) + 5 * (0x100_0000 * u));
    assert(size(d) * 0x100_0000 <= 96 * u) by (nonlinear_arith)
        requires
            size(5 * (u * d)) * 0x100_0000 <= 480 * (u * u),
            u > 0,
    {
        assert(size(5 * (u * d)) == 5 * (u * size(d))) by (nonlinear_arith)
            requires
                u > 0,
        ;
        assert(u * (5 * (size(d) * 0x100_0000)) <= u * (480 * u)) by (nonlinear_arith)
            requires
                (5 * (u * size(d))) * 0x100_0000 <= 480 * (u * u),
        ;
        assert(5 * (size(d) * 0x100_0000) <= 480 * u) by (nonlinear_arith)
            requires
                u * (5 * (size(d) * 0x100_0000)) <= u * (480 * u),
                u > 0,
        ;
    }
    lemma_pull_small(wy, y, t, w, u);
}

/// The pull of a frame is small.
proof fn lemma_pull_small(v: int, y: int, t: int, w: int, u: int)
    requires
        u == unit(),
        u > 0x8000_0000_0000_0000,
        0 <= 16 * t <= u,
        pulled_to(v, y, t, w),
    ensures
        2 * size(w - v) <= u,
{
    let s = twice_under(y);
    assert(0 <= t * s <= u * u) by (nonlinear_arith)
        requires
            0 <= 16 * t <= u,
            0 <= s <= 2 * u,
    ;
    assert(16 * (u * t) <= u * u && 8 * (t * s) <= u * u && 0 <= u * t) by (nonlinear_arith)
        requires
            0 <= 16 * t <= u,
            0 <= s <= 2 * u,
    ;
    let d = w - v;
    assert(u * u >= 0x8000_0000_0000_0000 * u) by (nonlinear_arith)
        requires
            u > 0x8000_0000_0000_0000,
    ;
    assert(5 * (u * w) - 5 * (u * v) == 5 * (u * d)) by (nonlinear_arith)
        requires
            d == w - v,
    ;
    assert(2 * size(5 * (u * d)) <= 5 * (u * u));
    assert(2 * size(d) <= u) by (nonlinear_arith)
        requires
            2 * size(5 * (u * d)) <= 5 * (u * u),
            u > 0,
    {
        assert(size(5 * (u * d)) == 5 * (u * size(d))) by (nonlinear_arith)
            requires
                u > 0,
        ;
        assert(u * (2 * size(d)) <= u * u) by (nonlinear_arith)
            requires
                2 * (5 * (u * size(d))) <= 5 * (u * u),
        ;
    }
}

/// A factor common to both sides, taken off.
pub proof fn lemma_without_factor(x: int, u: int, e: int)
    requires
        u > 0,
        size(x * u) * 0x100_0000 <= e * u,
    ensures
        size(x) * 0x100_0000 <= e,
{
    assert(size(x * u) == size(x) * u) by (nonlinear_arith)
        requires
            u > 0,
    ;
    assert(size(x) * 0x100_0000 <= e) by (nonlinear_arith)
        requires
            (size(x) * u) * 0x100_0000 <= e * u,
            u > 0,
    {
        assert((size(x) * 0x100_0000) * u <= e * u) by (nonlinear_arith)
            requires
                (size(x) * u) * 0x100_0000 <= e * u,
        ;
    }
}

/// A component of the drag against the exact one: `d` is the drag, `c` the direction, `m`
/// the strength, `a` the share of the time, `n` the square of the speed, `k` the speed and
/// `p` the velocity.
proof fn lemma_drag_near(d: int, c: int, m: int, a: int, n: int, k: int, p: int, u: int)
    requires
        u > 0,
        size(d * u - c * m) * 0x100_0000 <= 104 * (u * u),
        size(m * u - a * n) * 0x100_0000 <= 82 * (u * u),
        size(n * u - k * k) * 0x100_0000 <= 3 * (k * k),
        size(c * k - p * u) * 0x100_0000 <= 2 * (u * k),
        8 * size(c) <= 9 * u,
        0 <= 8 * a <= u,
        0 < k <= 19 * u,
    ensures
        size(d * (u * u) - p * (k * a)) * 0x100_0000 <= 448 * (u * (u * u)),
{
    let (w, ca, ak) = (u * u, c * a, a * k);
    assert(w > 0) by (nonlinear_arith)
        requires
            w == u * u,
            u > 0,
    ;
    let uw = u * w;
    assert(uw > 0) by (nonlinear_arith)
        requires
            uw == u * w,
            u > 0,
            w > 0,
    ;
    // d u u against c m u.
    lemma_factor_off(d * u, c * m, u, 104 * w, u);
    assert((d * u) * u == d * w && (104 * w) * u == 104 * uw) by (nonlinear_arith)
        requires
            w == u * u,
            uw == u * w,
    ;
    // c (m u) against c a n.
    lemma_factor_off(m * u, a * n, 8 * c, 82 * w, 9 * u);
    assert((m * u) * (8 * c) == 8 * ((c * m) * u) && (a * n) * (8 * c) == 8 * (ca * n)) by (nonlinear_arith)
        requires
            ca == c * a,
    ;
    assert((82 * w) * (9 * u) == 738 * uw) by (nonlinear_arith)
        requires
            uw == u * w,
    ;
    assert(size(d * w - ca * n) * 0x100_0000 <= 197 * uw);
    // The same times u, with the square of the speed.
    let (x, y) = (d * w, ca * n);
    lemma_factor_off(x, y, u, 197 * uw, u);
    assert(size(64 * ca) <= 9 * w) by (nonlinear_arith)
        requires
            ca == c * a,
            8 * size(c) <= 9 * u,
            0 <= 8 * a <= u,
            w == u * u,
    {
        assert(size(c * a) == size(c) * a) by (nonlinear_arith)
            requires
                a >= 0,
        ;
        assert((8 * size(c)) * (8 * a) <= (9 * u) * u) by (nonlinear_arith)
            requires
                0 <= 8 * size(c) <= 9 * u,
                0 <= 8 * a <= u,
        ;
        assert((8 * size(c)) * (8 * a) == 64 * (size(c) * a)) by (nonlinear_arith);
    }
    assert(0 < k * k <= 361 * w) by (nonlinear_arith)
        requires
            0 < k <= 19 * u,
            w == u * u,
    ;
    lemma_factor_off(n * u, k * k, 64 * ca, 1083 * w, 9 * w);
    assert((n * u) * (64 * ca) == 64 * (y * u) && (k * k) * (64 * ca) == 64 * (ca * (k * k))) by (nonlinear_arith)
        requires
            y == ca * n,
    ;
    assert((1083 * w) * (9 * w) == 9747 * (w * w)) by (nonlinear_arith);
    // c k against p u, times a k.
    assert(0 <= 8 * ak <= 19 * w) by (nonlinear_arith)
        requires
            ak == a * k,
            0 <= 8 * a <= u,
            0 < k <= 19 * u,
            w == u * u,
    ;
    assert(2 * (u * k) <= 38 * w) by (nonlinear_arith)
        requires
            k <= 19 * u,
            w == u * u,
            u > 0,
    ;
    lemma_factor_off(c * k, p * u, 8 * ak, 38 * w, 19 * w);
    assert((c * k) * (8 * ak) == 8 * (ca * (k * k))) by (nonlinear_arith)
        requires
            ca == c * a,
            ak == a * k,
    ;
    let z = p * (k * a);
    assert((p * u) * (8 * ak) == 8 * (z * u)) by (nonlinear_arith)
        requires
            ak == a * k,
            z == p * (k * a),
    ;
    assert((38 * w) * (19 * w) == 722 * (w * w)) by (nonlinear_arith);
    assert((197 * uw) * u == 197 * (w * w)) by (nonlinear_arith)
        requires
            uw == u * w,
            w == u * u,
    ;
    assert(w * w > 0) by (nonlinear_arith)
        requires
            w > 0,
    ;
    assert(size(x * u - z * u) * 0x100_0000 <= 448 * (w * w));
    assert(x * u - z * u == (x - z) * u && 448 * (w * w) == (448 * uw) * u) by (nonlinear_arith)
        requires
            uw == u * w,
            w == u * u,
    ;
    lemma_without_factor(x - z, u, 448 * uw);
}

/// Whether `r` is what braking leaves of the component `w` of a velocity of the given
/// speed, for a time `t` and twice a share `twice` under water: the square of the speed
/// takes off as much along the velocity. One part in `parts` of 1 is left open.
pub open spec fn braked_to(w: int, speed: int, twice: int, t: int, r: int, parts: int) -> bool {
    let u = unit();
    size(2 * (r * (u * (u * u))) - (2 * (w * (u * (u * u))) - (w * speed) * (twice * t))) * parts <= 2 * ((u * u) * (
    u * u))
}

/// What braking leaves of a component, in terms of the share and the time as computed.
proof fn lemma_left_near(r: int, d: int, p: int, k: int, a: int, st: int, u: int)
    requires
        u > 0,
        size(d * (u * u) - p * (k * a)) * 0x100_0000 <= 448 * (u * (u * u)),
        size(r - (p - d)) * 0x100_0000 <= 73 * u,
        size(a * u - st) * 0x100_0000 <= 2 * (u * u),
        size(p) <= 9 * u,
        0 < k <= 19 * u,
    ensures
        size(r * (u * (u * u)) - (p * (u * (u * u)) - (p * k) * st)) * 0x100_0000 <= 863 * ((u * u) * (u * u)),
{
    let w = u * u;
    let uw = u * w;
    lemma_factor_off(r, p - d, w, 73 * u, w);
    assert(w > 0) by (nonlinear_arith)
        requires
            w == u * u,
            u > 0,
    ;
    assert((p - d) * w == p * w - d * w && (73 * u) * w == 73 * uw) by (nonlinear_arith)
        requires
            uw == u * w,
    ;
    let z = p * (k * a);
    assert(size(r * w - (p * w - z)) * 0x100_0000 <= 521 * uw);
    lemma_factor_off(r * w, p * w - z, u, 521 * uw, u);
    assert((r * w) * u == r * uw && (p * w - z) * u == p * uw - z * u) by (nonlinear_arith)
        requires
            uw == u * w,
    ;
    assert((521 * uw) * u == 521 * (w * w)) by (nonlinear_arith)
        requires
            uw == u * w,
            w == u * u,
    ;
    assert(size(p * k) <= 171 * w) by (nonlinear_arith)
        requires
            size(p) <= 9 * u,
            0 < k <= 19 * u,
            w == u * u,
    ;
    lemma_factor_off(a * u, st, p * k, 2 * w, 171 * w);
    assert((a * u) * (p * k) == z * u && st * (p * k) == (p * k) * st) by (nonlinear_arith)
        requires
            z == p * (k * a),
    ;
    assert((2 * w) * (171 * w) == 342 * (w * w)) by (nonlinear_arith);
}

/// Another number for the speed, whose square is close.
proof fn lemma_speed_swapped(p: int, k: int, speed: int, st: int, u: int)
    requires
        u > 0,
        0 < k,
        0 <= speed,
        size(p) <= 2 * k,
        0 <= 16 * st <= u * u,
        size(k * k - speed * speed) * 0x1000 <= 2 * (u * u),
    ensures
        size((p * k) * st - (p * speed) * st) * 0x4000 <= (u * u) * (u * u),
{
    let (w, g, h) = (u * u, k - speed, k + speed);
    assert(k * k - speed * speed == g * h) by (nonlinear_arith)
        requires
            g == k - speed,
            h == k + speed,
    ;
    assert(size(p * g) <= 2 * size(g * h)) by (nonlinear_arith)
        requires
            size(p) <= 2 * k,
            0 < k <= h,
    {
        assert(size(p * g) == size(p) * size(g)) by (nonlinear_arith);
        assert(size(g * h) == size(g) * h) by (nonlinear_arith)
            requires
                h > 0,
        ;
        assert(size(p) * size(g) <= (2 * h) * size(g)) by (nonlinear_arith)
            requires
                size(p) <= 2 * h,
                size(g) >= 0,
        ;
        assert((2 * h) * size(g) == 2 * (size(g) * h)) by (nonlinear_arith);
    }
    assert((p * k) * st - (p * speed) * st == (p * g) * st) by (nonlinear_arith)
        requires
            g == k - speed,
    ;
    assert(size((p * g) * st) * 0x4000 <= w * w) by (nonlinear_arith)
        requires
            size(p * g) * 0x1000 <= 4 * w,
            0 <= 16 * st <= w,
            w >= 0,
    {
        let x = p * g;
        assert(size(x * st) == size(x) * st) by (nonlinear_arith)
            requires
                st >= 0,
        ;
        assert((size(x) * 0x1000) * (16 * st) <= (4 * w) * w) by (nonlinear_arith)
            requires
                0 <= size(x) * 0x1000 <= 4 * w,
                0 <= 16 * st <= w,
        ;
        assert((size(x) * 0x1000) * (16 * st) == 0x1_0000 * (size(x) * st)) by (nonlinear_arith);
        assert((4 * w) * w == 4 * (w * w)) by (nonlinear_arith);
    }
}

/// The length of a velocity that is not too slow for the water to brake.
proof fn lemma_fast_length(v: Vec3)
    requires
        is_finite(inner(v, v)),
        value(inner(v, v)) <= 324 * unit(),
        less(SLOW, inner(v, v)),
    ensures
        is_finite(length(v)),
        value(length(v)) >= value(TINY),
{
    lemma2_to64();
    lemma2_to64_rest();
    lemma_limit_values();
    lemma_tiny();
    let squared = inner(v, v);
    let low: Scalar = 0x3A80_0000;
    lemma_dyadic(0x80_0000, 116, 33);
    lemma_spread_order(0x3580_0000, SLOW as int);
    lemma_magnitude_zero(SLOW);
    lemma_magnitude_zero(squared);
    lemma_dyadic(0x80_0000, 106, 43);
    let (l, w, u) = (value(low), spread(0x3580_0000), unit());
    assert(l * 0x400 == u);
    assert(w * 0x10_0000 == u);
    assert(l * l <= value(squared) * u) by (nonlinear_arith)
        requires
            l * 0x400 == u,
            w * 0x10_0000 == u,
            w <= value(squared),
            u > 0,
    ;
    assert(324 * u <= pow2(44) * u) by (nonlinear_arith)
        requires
            pow2(44) >= 324,
            u > 0,
    {
    }
    lemma_root_within(squared, low, 22);
    lemma_spread_order(TINY as int, low as int);
}

/// A component of a velocity that is braked, before the water is so slow that it does not.
#[verifier::rlimit(50)]
proof fn lemma_fast_component(v: Vec3, p: Scalar, share: Scalar, delta: Scalar, speed: int)
    requires
        is_finite(v.x) && is_finite(v.y) && is_finite(v.z),
        p == v.x || p == v.y || p == v.z,
        size(value(v.x)) <= 9 * unit(),
        size(value(v.y)) <= 9 * unit(),
        size(value(v.z)) <= 9 * unit(),
        is_finite(share),
        0 <= value(share) <= unit(),
        is_finite(delta),
        0 <= 16 * value(delta) <= unit(),
        less(SLOW, inner(v, v)),
        0 <= speed,
        size(speed * speed - exact_inner(v, v)) * 0x1000 <= unit() * unit(),
    ensures
        ({
            let m = product(product(share, delta), inner(v, v));
            let r = difference(p, product(quotient(p, length(v)), m));
            let u = unit();
            &&& is_finite(r)
            &&& size(
                value(r) * (u * (u * u)) - (value(p) * (u * (u * u)) - (value(p) * speed) * (value(share) * value(
                    delta,
                ))),
            ) * 0x2000 <= (u * u) * (u * u)
        }),
{
    lemma_limit_values();
    lemma_far_from_overflow();
    lemma_velocity_squares(v);
    lemma_fast_length(v);
    lemma_long_vector(v);
    lemma_vector_squares(v);
    let (u, w) = (unit(), unit() * unit());
    let (n, c) = (inner(v, v), direction(v));
    let k = value(length(v));
    lemma_nearer(pure(c), UNIT_PARTS as int, 64);
    lemma_unit_components(c);
    lemma_tiny();
    lemma_component_off(p, length(v));
    let cp = quotient(p, length(v));
    let (s, t) = (value(share), value(delta));
    let st = s * t;
    assert(0 <= 16 * st <= w) by (nonlinear_arith)
        requires
            st == s * t,
            0 <= s <= u,
            0 <= 16 * t <= u,
            w == u * u,
    ;
    assert(w >= 0x8000_0000_0000_0000 * u) by (nonlinear_arith)
        requires
            w == u * u,
            u > 0x8000_0000_0000_0000,
    ;
    lemma_small_product(share, delta, u);
    let a = product(share, delta);
    assert(0 <= 8 * value(a) <= u) by {
        let av = value(a);
        assert(16 * (av * u) <= 2 * w);
        assert(8 * av <= u) by (nonlinear_arith)
            requires
                16 * (av * u) <= 2 * w,
                w == u * u,
                u > 0,
        ;
    }
    let nv = value(n);
    assert(0 <= value(a) * nv <= (41 * u) * u) by (nonlinear_arith)
        requires
            0 <= 8 * value(a) <= u,
            0 <= nv <= 324 * u,
            u > 0,
    ;
    lemma_small_product(a, n, 41 * u);
    let m = product(a, n);
    assert((41 * u) * u == 41 * w && (52 * u) * u == 52 * w) by (nonlinear_arith)
        requires
            w == u * u,
    ;
    assert(size(value(cp) * value(m)) <= 52 * w) by (nonlinear_arith)
        requires
            8 * size(value(cp)) <= 9 * u,
            8 * size(value(m)) <= 9 * (41 * u),
            w == u * u,
            u > 0,
    {
        let (x, y) = (size(value(cp)), size(value(m)));
        assert(size(value(cp) * value(m)) == x * y) by (nonlinear_arith)
            requires
                x == size(value(cp)),
                y == size(value(m)),
        ;
        assert((8 * x) * (8 * y) <= (9 * u) * (369 * u)) by (nonlinear_arith)
            requires
                0 <= 8 * x <= 9 * u,
                0 <= 8 * y <= 369 * u,
        ;
        assert((8 * x) * (8 * y) == 64 * (x * y) && (9 * u) * (369 * u) == 3321 * (u * u)) by (nonlinear_arith);
    }
    lemma_small_product(cp, m, 52 * u);
    let d = product(cp, m);
    lemma_small_difference(p, d, size(value(p) - value(d)));
    let r = difference(p, d);
    assert(0 < k <= 19 * u) by {
        assert(k * k <= 330 * w) by {
            lemma_square_nonnegative(k);
            assert(nv * u <= 324 * w) by (nonlinear_arith)
                requires
                    nv <= 324 * u,
                    w == u * u,
                    u > 0,
            ;
        }
        assert(k <= 19 * u) by (nonlinear_arith)
            requires
                k * k <= 330 * w,
                w == u * u,
                u > 0,
        ;
    }
    lemma_drag_near(value(d), value(cp), value(m), value(a), nv, k, value(p), u);
    lemma_left_near(value(r), value(d), value(p), k, value(a), st, u);
    assert(size(value(p)) <= 2 * k) by {
        let (x, y) = (value(cp), value(p));
        assert(size(x * k) * 8 <= 9 * (u * k)) by (nonlinear_arith)
            requires
                8 * size(x) <= 9 * u,
                k > 0,
        {
            assert(size(x * k) == size(x) * k) by (nonlinear_arith)
                requires
                    k > 0,
            ;
            assert((8 * size(x)) * k <= (9 * u) * k) by (nonlinear_arith)
                requires
                    8 * size(x) <= 9 * u,
                    k > 0,
            ;
        }
        assert(u * k > 0) by (nonlinear_arith)
            requires
                u > 0,
                k > 0,
        ;
        assert(size(y * u) <= 2 * (u * k));
        assert(size(y) <= 2 * k) by (nonlinear_arith)
            requires
                size(y * u) <= 2 * (u * k),
                u > 0,
        {
            assert(size(y * u) == size(y) * u) by (nonlinear_arith)
                requires
                    u > 0,
            ;
            assert(u * size(y) <= u * (2 * k)) by (nonlinear_arith)
                requires
                    size(y) * u <= 2 * (u * k),
            ;
        }
    }
    assert(k * k <= 361 * w) by (nonlinear_arith)
        requires
            0 < k <= 19 * u,
            w == u * u,
    ;
    assert(size(k * k - speed * speed) * 0x1000 <= 2 * w);
    lemma_speed_swapped(value(p), k, speed, st, u);
    assert(w * w > 0) by (nonlinear_arith)
        requires
            w > 0,
    ;
}

/// The square of the speed of an ordinary ball.
proof fn lemma_velocity_squares(v: Vec3)
    requires
        is_finite(v.x) && is_finite(v.y) && is_finite(v.z),
        size(value(v.x)) <= 9 * unit(),
        size(value(v.y)) <= 9 * unit(),
        size(value(v.z)) <= 9 * unit(),
    ensures
        is_finite(inner(v, v)),
        0 <= value(inner(v, v)) <= 324 * unit(),
        size(value(inner(v, v)) * unit() - exact_inner(v, v)) * 0x100_0000 <= 1296 * (unit() * unit()),
{
    lemma_limit_values();
    lemma_far_from_overflow();
    let u = unit();
    lemma_nine_squared(value(v.x), u);
    lemma_nine_squared(value(v.y), u);
    lemma_nine_squared(value(v.z), u);
    assert((81 * u) * u == 81 * (u * u)) by (nonlinear_arith);
    lemma_small_inner(v, v, 81 * u);
    lemma_finite_square(v.x);
    lemma_finite_square(v.y);
    lemma_finite_square(v.z);
    lemma_finite_sum(product(v.x, v.x), product(v.y, v.y));
    lemma_finite_sum(sum(product(v.x, v.x), product(v.y, v.y)), product(v.z, v.z));
}

/// The square of a speed up to nine.
proof fn lemma_nine_squared(v: int, u: int)
    requires
        size(v) <= 9 * u,
    ensures
        0 <= v * v <= 81 * (u * u),
{
    assert(0 <= v * v <= 81 * (u * u)) by (nonlinear_arith)
        requires
            size(v) <= 9 * u,
    ;
}

/// A component of a velocity that is too slow for the water to brake.
proof fn lemma_slow_component(v: Vec3, p: int, st: int, speed: int)
    requires
        is_finite(v.x) && is_finite(v.y) && is_finite(v.z),
        p == value(v.x) || p == value(v.y) || p == value(v.z),
        size(value(v.x)) <= 9 * unit(),
        size(value(v.y)) <= 9 * unit(),
        size(value(v.z)) <= 9 * unit(),
        0 <= 16 * st <= unit() * unit(),
        !less(SLOW, inner(v, v)),
        size(speed * speed - exact_inner(v, v)) * 0x1000 <= unit() * unit(),
    ensures
        size((p * speed) * st) * 0x2000 <= (unit() * unit()) * (unit() * unit()),
{
    lemma_limit_values();
    lemma2_to64();
    lemma2_to64_rest();
    lemma_velocity_squares(v);
    lemma_magnitude_zero(inner(v, v));
    lemma_magnitude_zero(SLOW);
    lemma_spread_order(SLOW as int, 0x3600_0000);
    lemma_dyadic(0x80_0000, 107, 42);
    let (u, w, n) = (unit(), unit() * unit(), value(inner(v, v)));
    let low = spread(0x3600_0000);
    assert(low * 0x8_0000 == u);
    assert((n * u) * 0x8_0000 <= w) by (nonlinear_arith)
        requires
            n <= low,
            low * 0x8_0000 == u,
            w == u * u,
            u > 0,
    ;
    lemma_square_nonnegative(value(v.x));
    lemma_square_nonnegative(value(v.y));
    lemma_square_nonnegative(value(v.z));
    lemma_square_nonnegative(u);
    assert((p * p) * 0x1000 <= w);
    assert((speed * speed) * 0x1000 <= 2 * w);
    assert(2 * size(p * speed) <= p * p + speed * speed) by (nonlinear_arith);
    let x = p * speed;
    assert(size(x) * 0x1000 <= 2 * w);
    assert(size(x * st) * 0x2000 <= w * w) by (nonlinear_arith)
        requires
            size(x) * 0x1000 <= 2 * w,
            0 <= 16 * st <= w,
            w >= 0,
    {
        assert(size(x * st) == size(x) * st) by (nonlinear_arith)
            requires
                st >= 0,
        ;
        assert((size(x) * 0x1000) * (16 * st) <= (2 * w) * w) by (nonlinear_arith)
            requires
                0 <= size(x) * 0x1000 <= 2 * w,
                0 <= 16 * st <= w,
        ;
        assert((size(x) * 0x1000) * (16 * st) == 16 * ((size(x) * st) * 0x1000)) by (nonlinear_arith);
        assert((2 * w) * w == 2 * (w * w)) by (nonlinear_arith);
        assert(w * w >= 0) by (nonlinear_arith);
    }
}

/// What braking leaves, in terms of the exact share and the exact speed before it.
proof fn lemma_braked_exact(r: int, p: int, w: int, speed: int, s: int, twice: int, t: int, u: int)
    requires
        u == unit(),
        u > 0,
        size(p) <= 9 * u,
        0 <= speed <= 16 * u,
        0 <= 16 * t <= u,
        0 <= twice <= 2 * u,
        size(2 * s - twice) * 0x100_0000 <= 16 * u,
        size(p - w) * 0x100_0000 <= 96 * u,
        size(r * (u * (u * u)) - (p * (u * (u * u)) - (p * speed) * (s * t))) * 0x2000 <= (u * u) * (u * u),
    ensures
        braked_to(w, speed, twice, t, r, 0x1000),
{
    let uu = u * u;
    let (cube, four) = (u * uu, uu * uu);
    assert(uu > 0) by (nonlinear_arith)
        requires
            uu == u * u,
            u > 0,
    ;
    assert(four > 0 && cube > 0) by (nonlinear_arith)
        requires
            four == uu * uu,
            cube == u * uu,
            uu > 0,
            u > 0,
    ;
    let (ps, ws) = (p * speed, w * speed);
    // p against w.
    lemma_factor_off(p, w, cube, 96 * u, cube);
    assert((96 * u) * cube == 96 * four) by (nonlinear_arith)
        requires
            cube == u * uu,
            four == uu * uu,
            uu == u * u,
    ;
    // The share.
    assert(size(ps) <= 144 * uu) by (nonlinear_arith)
        requires
            ps == p * speed,
            size(p) <= 9 * u,
            0 <= speed <= 16 * u,
            uu == u * u,
    ;
    assert(size(16 * (ps * t)) <= 144 * cube) by (nonlinear_arith)
        requires
            size(ps) <= 144 * uu,
            0 <= 16 * t <= u,
            cube == u * uu,
            uu > 0,
    {
        assert(size(ps * t) == size(ps) * t) by (nonlinear_arith)
            requires
                t >= 0,
        ;
        assert(size(ps) * (16 * t) <= (144 * uu) * u) by (nonlinear_arith)
            requires
                0 <= size(ps) <= 144 * uu,
                0 <= 16 * t <= u,
        ;
    }
    lemma_factor_off(2 * s, twice, 16 * (ps * t), 16 * u, 144 * cube);
    assert((2 * s) * (16 * (ps * t)) == 32 * (ps * (s * t)) && twice * (16 * (ps * t)) == 16 * (ps * (twice * t)))
        by (nonlinear_arith);
    assert((16 * u) * (144 * cube) == 2304 * four) by (nonlinear_arith)
        requires
            cube == u * uu,
            four == uu * uu,
            uu == u * u,
    ;
    // p against w again.
    let rest = speed * (twice * t);
    assert(0 <= rest <= 2 * cube) by (nonlinear_arith)
        requires
            rest == speed * (twice * t),
            0 <= speed <= 16 * u,
            0 <= twice <= 2 * u,
            0 <= 16 * t <= u,
            cube == u * uu,
            uu == u * u,
            u > 0,
    {
        let x = twice * t;
        assert(0 <= 16 * x <= 2 * uu) by (nonlinear_arith)
            requires
                x == twice * t,
                0 <= twice <= 2 * u,
                0 <= 16 * t <= u,
                uu == u * u,
        ;
        assert(0 <= speed * (16 * x) <= (16 * u) * (2 * uu)) by (nonlinear_arith)
            requires
                0 <= speed <= 16 * u,
                0 <= 16 * x <= 2 * uu,
        ;
        assert(speed * (16 * x) == 16 * (speed * x)) by (nonlinear_arith);
        assert((16 * u) * (2 * uu) == 32 * (u * uu)) by (nonlinear_arith);
    }
    lemma_factor_off(p, w, rest, 96 * u, 2 * cube);
    assert(p * rest == ps * (twice * t) && w * rest == ws * (twice * t)) by (nonlinear_arith)
        requires
            rest == speed * (twice * t),
            ps == p * speed,
            ws == w * speed,
    ;
    assert((96 * u) * (2 * cube) == 192 * four) by (nonlinear_arith)
        requires
            cube == u * uu,
            four == uu * uu,
            uu == u * u,
    ;
}

/// Whether the velocities along the three axes, and the squares that they add up to, belong
/// to one speed, but for little.
pub open spec fn is_speed(x: int, y: int, z: int, speed: int) -> bool {
    &&& 0 <= speed
    &&& size(speed * speed - (x * x + y * y + z * z)) * 0x2000 <= unit() * unit()
}

/// Whether a ball is inside the pool, not very high, and no faster than 8 along any axis.
pub open spec fn ordinary_ball(state: WaterState) -> bool {
    &&& inside_pool(state.ball_center)
    &&& is_finite(state.ball_center.y) && value(state.ball_center.y) <= 0x10_0000 * unit()
    &&& is_finite(state.ball_velocity.x) && size(value(state.ball_velocity.x)) <= 8 * unit()
    &&& is_finite(state.ball_velocity.y) && size(value(state.ball_velocity.y)) <= 8 * unit()
    &&& is_finite(state.ball_velocity.z) && size(value(state.ball_velocity.z)) <= 8 * unit()
}

/// The speed after the pull is also that of the pulled velocity as computed.
proof fn lemma_speed_of_pulled(x: int, p: int, w: int, z: int, speed: int, u: int)
    requires
        u == unit(),
        u > 0,
        size(x) <= 8 * u,
        size(z) <= 8 * u,
        size(p) <= 9 * u,
        size(p - w) * 0x100_0000 <= 96 * u,
        is_speed(x, w, z, speed),
    ensures
        size(speed * speed - (x * x + p * p + z * z)) * 0x1000 <= u * u,
        speed <= 16 * u,
{
    let (g, h, uu) = (p - w, p + w, u * u);
    assert(p * p - w * w == g * h) by (nonlinear_arith)
        requires
            g == p - w,
            h == p + w,
    ;
    lemma_factor_off(p, w, h, 96 * u, 19 * u);
    assert(p * h - w * h == g * h) by (nonlinear_arith)
        requires
            g == p - w,
    ;
    assert((96 * u) * (19 * u) == 1824 * uu) by (nonlinear_arith)
        requires
            uu == u * u,
    ;
    lemma_nine_squared(x, u);
    lemma_nine_squared(p, u);
    lemma_nine_squared(z, u);
    assert(speed <= 16 * u) by (nonlinear_arith)
        requires
            speed * speed <= 256 * uu,
            uu == u * u,
            u > 0,
    ;
}

/// The velocity of the free ball before the floor stops it.
#[verifier::rlimit(50)]
proof fn lemma_free_velocity(state: WaterState, delta: Scalar, w: int, speed: int)
    requires
        ordinary_ball(state),
        is_finite(delta),
        0 <= 16 * value(delta) <= unit(),
        pulled_to(value(state.ball_velocity.y), value(state.ball_center.y), value(delta), w),
        is_speed(value(state.ball_velocity.x), w, value(state.ball_velocity.z), speed),
    ensures
        ({
            let (f, v) = (state.braked_velocity(delta), state.ball_velocity);
            let (twice, t) = (twice_under(value(state.ball_center.y)), value(delta));
            &&& is_finite(f.x) && is_finite(f.y) && is_finite(f.z)
            &&& braked_to(value(v.x), speed, twice, t, value(f.x), 0x1000)
            &&& braked_to(w, speed, twice, t, value(f.y), 0x1000)
            &&& braked_to(value(v.z), speed, twice, t, value(f.z), 0x1000)
            &&& size(value(f.x)) <= 20 * unit()
            &&& size(value(f.y)) <= 20 * unit()
            &&& size(value(f.z)) <= 20 * unit()
        }),
{
    lemma_limit_values();
    lemma_share(state);
    lemma_pulled_near(state, delta, w);
    let (p, v, f) = (state.pulled_velocity(delta), state.ball_velocity, state.braked_velocity(delta));
    let (u, s, t) = (unit(), state.submerged(), value(delta));
    let twice = twice_under(value(state.ball_center.y));
    lemma_speed_of_pulled(value(v.x), value(p.y), w, value(v.z), speed, u);
    let st = value(s) * t;
    assert(0 <= 16 * st <= u * u) by (nonlinear_arith)
        requires
            st == value(s) * t,
            0 <= value(s) <= u,
            0 <= 16 * t <= u,
    ;
    assert((u * u) * (u * u) >= 0) by (nonlinear_arith);
    if less(SLOW, inner(p, p)) {
        lemma_fast_component(p, p.x, s, delta, speed);
        lemma_fast_component(p, p.y, s, delta, speed);
        lemma_fast_component(p, p.z, s, delta, speed);
    } else {
        lemma_slow_component(p, value(p.x), st, speed);
        lemma_slow_component(p, value(p.y), st, speed);
        lemma_slow_component(p, value(p.z), st, speed);
    }
    lemma_braked_exact(value(f.x), value(p.x), value(v.x), speed, value(s), twice, t, u);
    lemma_braked_exact(value(f.y), value(p.y), w, speed, value(s), twice, t, u);
    lemma_braked_exact(value(f.z), value(p.z), value(v.z), speed, value(s), twice, t, u);
    lemma_braked_size(value(f.x), value(p.x), speed, st, u);
    lemma_braked_size(value(f.y), value(p.y), speed, st, u);
    lemma_braked_size(value(f.z), value(p.z), speed, st, u);
}

/// Braking does not make a ball much faster.
proof fn lemma_braked_size(r: int, p: int, speed: int, st: int, u: int)
    requires
        u > 0,
        size(p) <= 9 * u,
        0 <= speed <= 16 * u,
        0 <= 16 * st <= u * u,
        size(r * (u * (u * u)) - (p * (u * (u * u)) - (p * speed) * st)) * 0x2000 <= (u * u) * (u * u),
    ensures
        size(r) <= 20 * u,
{
    let uu = u * u;
    let (cube, four) = (u * uu, uu * uu);
    assert(cube > 0) by (nonlinear_arith)
        requires
            cube == u * uu,
            uu == u * u,
            u > 0,
    ;
    assert(size(p * cube) <= 9 * four) by (nonlinear_arith)
        requires
            size(p) <= 9 * u,
            cube == u * uu,
            four == uu * uu,
            uu == u * u,
            u > 0,
    {
        assert(size(p * cube) == size(p) * cube) by (nonlinear_arith)
            requires
                cube > 0,
        ;
        assert(size(p) * cube <= (9 * u) * cube) by (nonlinear_arith)
            requires
                size(p) <= 9 * u,
                cube > 0,
        ;
        assert((9 * u) * cube == 9 * four) by (nonlinear_arith)
            requires
                cube == u * uu,
                four == uu * uu,
                uu == u * u,
        ;
    }
    assert(size((p * speed) * st) <= 9 * four) by (nonlinear_arith)
        requires
            size(p) <= 9 * u,
            0 <= speed <= 16 * u,
            0 <= 16 * st <= uu,
            four == uu * uu,
            uu == u * u,
            u > 0,
    {
        let x = p * speed;
        assert(size(x) <= 144 * uu) by (nonlinear_arith)
            requires
                x == p * speed,
                size(p) <= 9 * u,
                0 <= speed <= 16 * u,
                uu == u * u,
        ;
        assert(size(x * st) == size(x) * st) by (nonlinear_arith)
            requires
                st >= 0,
        ;
        assert(size(x) * (16 * st) <= (144 * uu) * uu) by (nonlinear_arith)
            requires
                0 <= size(x) <= 144 * uu,
                0 <= 16 * st <= uu,
        ;
        assert(size(x) * (16 * st) == 16 * (size(x) * st) && (144 * uu) * uu == 144 * (uu * uu)) by (nonlinear_arith);
    }
    assert(four >= 0) by (nonlinear_arith)
        requires
            four == uu * uu,
    ;
    assert(size(r * cube) <= 20 * four);
    assert(size(r) <= 20 * u) by (nonlinear_arith)
        requires
            size(r * cube) <= 20 * four,
            cube == u * uu,
            four == uu * uu,
            uu == u * u,
            cube > 0,
    {
        assert(size(r * cube) == size(r) * cube) by (nonlinear_arith)
            requires
                cube > 0,
        ;
        assert(20 * four == (20 * u) * cube) by (nonlinear_arith)
            requires
                cube == u * uu,
                four == uu * uu,
                uu == u * u,
        ;
        assert(size(r) <= 20 * u) by (nonlinear_arith)
            requires
                size(r) * cube <= (20 * u) * cube,
                cube > 0,
        ;
    }
}

/// Whether `a` is where a coordinate `c` gets with the velocity `v` in time `t`, but for a
/// part in a million of it and of 1.
pub open spec fn moved_to(c: int, v: int, t: int, a: int) -> bool {
    size(a * unit() - (c * unit() + v * t)) * 0x10_0000 <= unit() * (size(c) + unit())
}

/// Whether `a` is where a coordinate `c` gets with the velocity `v` in time `t` between
/// walls that leave the ball three quarters to either side.
pub open spec fn moved_between_walls(c: int, v: int, t: int, a: int) -> bool {
    let u = unit();
    size(4 * (a * u) - held(4 * (c * u + v * t), -3 * (u * u), 3 * (u * u))) * 0x10_0000 <= 4 * (u * (size(c) + u))
}

/// Whether a ball that would have fallen with vertical speed `f` from height `c` through
/// the floor, three quarters down, lies on it at height `a` instead, and goes up with seven
/// tenths of that speed, which is `v`.
pub open spec fn bounced(c: int, f: int, t: int, a: int, v: int) -> bool {
    let u = unit();
    &&& 4 * a == -3 * u
    &&& v >= 0
    &&& size(10 * v + 7 * f) * 0x8000 <= u
    &&& (4 * (c * u + f * t) + 3 * (u * u)) * 0x10_0000 <= 4 * (u * (size(c) + u))
}

/// Where a coordinate gets, as computed.
proof fn lemma_moved(c: Scalar, f: Scalar, delta: Scalar)
    requires
        is_finite(c),
        is_finite(f),
        is_finite(delta),
        size(value(c)) <= 0x10_0000 * unit(),
        size(value(f)) <= 20 * unit(),
        0 <= 16 * value(delta) <= unit(),
    ensures
        ({
            let a = sum(c, product(f, delta));
            &&& is_finite(a)
            &&& moved_to(value(c), value(f), value(delta), value(a))
            &&& value(f) >= 0 ==> value(a) >= value(c)
            &&& value(f) <= 0 ==> value(a) <= value(c)
        }),
{
    lemma_limit_values();
    lemma_far_from_overflow();
    let (u, v, t) = (unit(), value(f), value(delta));
    assert(size(v * t) <= (2 * u) * u) by (nonlinear_arith)
        requires
            size(v) <= 20 * u,
            0 <= 16 * t <= u,
            u > 0,
    {
        assert(size(v * t) == size(v) * t) by (nonlinear_arith)
            requires
                t >= 0,
        ;
        assert(size(v) * (16 * t) <= (20 * u) * u) by (nonlinear_arith)
            requires
                0 <= size(v) <= 20 * u,
                0 <= 16 * t <= u,
        ;
    }
    assert(v >= 0 ==> v * t >= 0) by (nonlinear_arith)
        requires
            t >= 0,
    ;
    assert(v <= 0 ==> v * t <= 0) by (nonlinear_arith)
        requires
            t >= 0,
    ;
    lemma_small_product(f, delta, 2 * u);
    let p = product(f, delta);
    lemma_small_sum(c, p, size(value(c) + value(p)));
    let (a, x) = (value(sum(c, p)), value(c));
    let e = a - (x + value(p));
    assert(a * u == e * u + x * u + value(p) * u) by (nonlinear_arith)
        requires
            e == a - (x + value(p)),
    ;
    assert(size(e * u) * 0x100_0000 <= (2 * size(x) + 3 * u) * u) by (nonlinear_arith)
        requires
            size(e) * 0x100_0000 <= 2 * size(x) + 3 * u,
            u > 0,
    {
        assert(size(e * u) == size(e) * u) by (nonlinear_arith)
            requires
                u > 0,
        ;
        assert((size(e) * 0x100_0000) * u <= (2 * size(x) + 3 * u) * u) by (nonlinear_arith)
            requires
                size(e) * 0x100_0000 <= 2 * size(x) + 3 * u,
                u > 0,
        ;
    }
    assert((2 * size(x) + 3 * u) * u + 2 * ((2 * u) * u) <= 16 * (u * (size(x) + u))) by (nonlinear_arith)
        requires
            u > 0,
    ;
}

/// Holding two numbers between the same limits brings them no further apart.
pub proof fn lemma_held_closer(x: int, y: int, low: int, high: int)
    requires
        low <= high,
    ensures
        size(held(x, low, high) - held(y, low, high)) <= size(x - y),
{
}

/// A coordinate between the walls, as computed.
proof fn lemma_moved_between_walls(c: Scalar, f: Scalar, delta: Scalar)
    requires
        is_finite(c),
        is_finite(f),
        is_finite(delta),
        size(value(c)) <= 0x10_0000 * unit(),
        size(value(f)) <= 20 * unit(),
        0 <= 16 * value(delta) <= unit(),
    ensures
        moved_between_walls(
            value(c),
            value(f),
            value(delta),
            value(clamped(sum(c, product(f, delta)), NEGATIVE_SIDE_LIMIT, SIDE_LIMIT)),
        ),
{
    lemma_limit_values();
    lemma_limits_ordered();
    lemma_moved(c, f, delta);
    let (u, s) = (unit(), sum(c, product(f, delta)));
    lemma_magnitude_zero(s);
    let (x, y) = (4 * (value(s) * u), 4 * (value(c) * u + value(f) * value(delta)));
    let a = value(clamped(s, NEGATIVE_SIDE_LIMIT, SIDE_LIMIT));
    lemma_held_closer(x, y, -3 * (u * u), 3 * (u * u));
    assert(u * u >= 0) by (nonlinear_arith);
    assert(4 * (a * u) == held(x, -3 * (u * u), 3 * (u * u))) by {
        lemma_side(value(s), u);
    }
}

/// The walls, times the unit.
proof fn lemma_side(s: int, u: int)
    requires
        u > 0,
    ensures
        4 * s < -3 * u <==> 4 * (s * u) < -3 * (u * u),
        4 * s > 3 * u <==> 4 * (s * u) > 3 * (u * u),
        forall|a: int| 4 * a == 3 * u ==> 4 * (#[trigger] (a * u)) == 3 * (u * u),
        forall|a: int| 4 * a == -3 * u ==> 4 * (#[trigger] (a * u)) == -3 * (u * u),
{
    assert(4 * s < -3 * u <==> 4 * (s * u) < -3 * (u * u)) by (nonlinear_arith)
        requires
            u > 0,
    ;
    assert(4 * s > 3 * u <==> 4 * (s * u) > 3 * (u * u)) by (nonlinear_arith)
        requires
            u > 0,
    ;
    assert forall|a: int| 4 * a == 3 * u implies 4 * (#[trigger] (a * u)) == 3 * (u * u) by {
        assert(4 * (a * u) == 3 * (u * u)) by (nonlinear_arith)
            requires
                4 * a == 3 * u,
        ;
    }
    assert forall|a: int| 4 * a == -3 * u implies 4 * (#[trigger] (a * u)) == -3 * (u * u) by {
        assert(4 * (a * u) == -3 * (u * u)) by (nonlinear_arith)
            requires
                4 * a == -3 * u,
        ;
    }
}

/// What is left of a speed after a bounce.
proof fn lemma_rebound_near(f: Scalar)
    requires
        is_finite(f),
        value(f) <= 0,
        size(value(f)) <= 20 * unit(),
    ensures
        value(product(absolute(f), REBOUND)) >= 0,
        size(10 * value(product(absolute(f), REBOUND)) + 7 * value(f)) * 0x8000 <= unit(),
{
    lemma_limit_values();
    lemma_far_from_overflow();
    lemma2_to64();
    lemma_dyadic(0xB3_3333, 125, 24);
    lemma_absolute(f);
    lemma_magnitude_zero(f);
    let (u, b, v) = (unit(), value(REBOUND), value(absolute(f)));
    assert(b * 0x100_0000 == 0xB3_3333 * u);
    assert(0 <= v * b <= (20 * u) * u) by (nonlinear_arith)
        requires
            0 <= v <= 20 * u,
            b * 0x100_0000 == 0xB3_3333 * u,
            u > 0,
    ;
    lemma_small_product(absolute(f), REBOUND, 20 * u);
    let r = value(product(absolute(f), REBOUND));
    lemma_factor_off(10 * b, 7 * u, v, 4 * u, 20 * u);
    assert((10 * b) * v == 10 * (v * b) && (7 * u) * v == (7 * v) * u) by (nonlinear_arith);
    assert((4 * u) * (20 * u) == 80 * (u * u) && (20 * u) * u == 20 * (u * u)) by (nonlinear_arith);
    let g = 10 * r - 7 * v;
    assert(10 * (r * u) - (7 * v) * u == g * u) by (nonlinear_arith)
        requires
            g == 10 * r - 7 * v,
    ;
    assert(size(g * u) * 0x100_0000 <= 480 * (u * u));
    assert((480 * u) * u == 480 * (u * u)) by (nonlinear_arith);
    lemma_without_factor(g, u, 480 * u);
}

/// A coordinate inside the pool is finite and small.
proof fn lemma_inside_small(state: WaterState)
    requires
        ordinary_ball(state),
    ensures
        is_finite(state.ball_center.x) && size(value(state.ball_center.x)) <= unit(),
        is_finite(state.ball_center.z) && size(value(state.ball_center.z)) <= unit(),
        size(value(state.ball_center.y)) <= 0x10_0000 * unit(),
        4 * value(state.ball_center.y) >= -3 * unit(),
{
    lemma_limit_values();
    let c = state.ball_center;
    lemma_magnitude_zero(c.x);
    lemma_magnitude_zero(c.z);
    if !is_finite(c.x) {
        lemma_spread_order(ONE as int, unsigned(c.x));
    }
    if !is_finite(c.z) {
        lemma_spread_order(ONE as int, unsigned(c.z));
    }
}

/// A frame moves the free ball. Gravity and the lift of the water give it the vertical
/// speed `w`, the water brakes it with the square of its speed, and it goes where the
/// velocity that is left takes it: between the walls, and down to the floor, off which it
/// bounces. Nothing else changes.
#[verifier::rlimit(50)]
pub proof fn lemma_free_ball_moves(state: WaterState, delta_time: Scalar, w: int, speed: int)
    requires
        !state.paused,
        state.drag_mode != DragMode::Ball,
        at_most(ZERO, delta_time),
        ordinary_ball(state),
        pulled_to(value(state.ball_velocity.y), value(state.ball_center.y), frame_time(delta_time), w),
        is_speed(value(state.ball_velocity.x), w, value(state.ball_velocity.z), speed),
    ensures
        ({
            let after = state.after_motion(delta_time);
            let (c, v, a, b) = (state.ball_center, state.ball_velocity, after.ball_center, after.ball_velocity);
            let (twice, t) = (twice_under(value(c.y)), frame_time(delta_time));
            &&& after == (WaterState { ball_center: a, ball_velocity: b, ..state })
            &&& braked_to(value(v.x), speed, twice, t, value(b.x), 0x1000)
            &&& braked_to(value(v.z), speed, twice, t, value(b.z), 0x1000)
            &&& moved_between_walls(value(c.x), value(b.x), t, value(a.x))
            &&& moved_between_walls(value(c.z), value(b.z), t, value(a.z))
            &&& 4 * value(a.y) >= -3 * unit()
            &&& exists|f: int| #[trigger]
                braked_to(w, speed, twice, t, f, 0x1000) && (f == value(b.y) && moved_to(
                    value(c.y),
                    f,
                    t,
                    value(a.y),
                ) || bounced(value(c.y), f, t, value(a.y), value(b.y)))
        }),
{
    lemma_limit_values();
    lemma_frame_time_near(delta_time);
    lemma_inside_small(state);
    let delta = smaller(delta_time, MAX_FRAME_TIME);
    lemma_free_velocity(state, delta, w, speed);
    let (c, f) = (state.ball_center, state.braked_velocity(delta));
    lemma_moved_between_walls(c.x, f.x, delta);
    lemma_moved_between_walls(c.z, f.z, delta);
    lemma_moved(c.y, f.y, delta);
    let after = state.after_motion(delta_time);
    let (y, u, t) = (sum(c.y, product(f.y, delta)), unit(), value(delta));
    lemma_magnitude_zero(y);
    assert(braked_to(w, speed, twice_under(value(c.y)), t, value(f.y), 0x1000));
    if less(y, FLOOR_LIMIT) {
        assert(value(f.y) <= 0);
        lemma_rebound_near(f.y);
        lemma_side(value(y), u);
        assert(bounced(value(c.y), value(f.y), t, value(after.ball_center.y), value(after.ball_velocity.y)));
    }
}

/// Whether a free ball at rest is simulated for an ordinary time, from a 256th on.
pub open spec fn resting_frame(state: WaterState, delta_time: Scalar) -> bool {
    &&& !state.paused
    &&& state.drag_mode != DragMode::Ball
    &&& inside_pool(state.ball_center)
    &&& value(state.ball_velocity.x) == 0
    &&& value(state.ball_velocity.y) == 0
    &&& value(state.ball_velocity.z) == 0
    &&& !is_nan(delta_time)
    &&& 256 * value(delta_time) >= unit()
}

/// What is left of a small upright speed is close to it.
proof fn lemma_upright_left(w: int, speed: int, twice: int, t: int, f: int, u: int)
    requires
        u == unit(),
        u > 0,
        speed == size(w),
        4 * size(w) <= u,
        0 <= twice <= 2 * u,
        0 <= 16 * t <= u,
        braked_to(w, speed, twice, t, f, 0x1000),
    ensures
        w >= 0 ==> 0x1000 * f >= 0xF00 * w - u,
        w <= 0 ==> 0x1000 * f <= 0xF00 * w + u,
{
    let uu = u * u;
    let (cube, four) = (u * uu, uu * uu);
    assert(uu > 0) by (nonlinear_arith)
        requires
            uu == u * u,
            u > 0,
    ;
    assert(cube > 0) by (nonlinear_arith)
        requires
            cube == u * uu,
            u > 0,
            uu > 0,
    ;
    let (x, m) = (twice * t, size(w));
    assert(0 <= 8 * x <= uu) by (nonlinear_arith)
        requires
            x == twice * t,
            0 <= twice <= 2 * u,
            0 <= 16 * t <= u,
            uu == u * u,
    ;
    assert(w * speed == (if w >= 0 { m * m } else { -(m * m) })) by (nonlinear_arith)
        requires
            speed == m,
            m == size(w),
    ;
    assert(0 <= 32 * ((m * m) * x) <= m * cube) by (nonlinear_arith)
        requires
            0 <= 4 * m <= u,
            0 <= 8 * x <= uu,
            cube == u * uu,
    {
        assert(0 <= m * m && 4 * (m * m) <= m * u) by (nonlinear_arith)
            requires
                0 <= 4 * m <= u,
        ;
        assert((4 * (m * m)) * (8 * x) <= (m * u) * uu) by (nonlinear_arith)
            requires
                0 <= 4 * (m * m) <= m * u,
                0 <= 8 * x <= uu,
        ;
        assert((m * u) * uu == m * (u * uu)) by (nonlinear_arith);
        assert(0 <= (m * m) * x) by (nonlinear_arith)
            requires
                0 <= m * m,
                0 <= x,
        ;
    }
    assert((-(m * m)) * x == -((m * m) * x)) by (nonlinear_arith);
    assert(four == u * cube) by (nonlinear_arith)
        requires
            four == uu * uu,
            cube == u * uu,
            uu == u * u,
    ;
    assert(w * cube == (if w >= 0 { m * cube } else { -(m * cube) })) by (nonlinear_arith)
        requires
            m == size(w),
    ;
    // Everything is a multiple of the cube of the unit.
    assert(size(2 * (f * cube) - (2 * (w * cube) - (w * speed) * x)) * 0x1000 <= 2 * four);
    if w >= 0 {
        assert(0x1000 * (f * cube) >= 0xF00 * (w * cube) - u * cube);
        assert(0x1000 * f >= 0xF00 * w - u) by (nonlinear_arith)
            requires
                0x1000 * (f * cube) >= 0xF00 * (w * cube) - u * cube,
                cube > 0,
        ;
    }
    if w <= 0 {
        assert((w * speed) * x == -((m * m) * x)) by (nonlinear_arith)
            requires
                w <= 0,
                speed == m,
                m == -w,
        ;
        assert(w * cube == -(m * cube)) by (nonlinear_arith)
            requires
                m == -w,
        ;
        assert(0x1000 * (f * cube) <= 0xF00 * (w * cube) + u * cube);
        assert(0x1000 * f <= 0xF00 * w + u) by (nonlinear_arith)
            requires
                0x1000 * (f * cube) <= 0xF00 * (w * cube) + u * cube,
                cube > 0,
        ;
    }
}

/// The values of a vector that denotes zero.
proof fn lemma_at_rest(state: WaterState, delta_time: Scalar, w: int)
    requires
        resting_frame(state, delta_time),
        is_finite(state.ball_center.y),
        value(state.ball_center.y) <= 0x10_0000 * unit(),
        4 * size(w) <= unit(),
    ensures
        ordinary_ball(state),
        at_most(ZERO, delta_time),
        is_speed(value(state.ball_velocity.x), w, value(state.ball_velocity.z), size(w)),
        0 < frame_time(delta_time),
        256 * frame_time(delta_time) >= unit(),
        16 * frame_time(delta_time) <= unit(),
{
    lemma_limit_values();
    lemma2_to64();
    let v = state.ball_velocity;
    lemma_magnitude_zero(v.x);
    lemma_magnitude_zero(v.y);
    lemma_magnitude_zero(v.z);
    lemma_frame_time_near(delta_time);
    lemma_magnitude_zero(MAX_FRAME_TIME);
    lemma_dyadic(0x80_0000, 121, 28);
    lemma_spread_order(0x3D00_0000, MAX_FRAME_TIME as int);
    assert(size(w) * size(w) == w * w) by (nonlinear_arith);
    assert(0int * 0int == 0);
    lemma_square_nonnegative(unit());
}

/// A frame of a ball at rest that is pulled to the vertical speed `w`: what is left of that
/// speed, and what comes of it.
proof fn lemma_upright_frame(state: WaterState, delta_time: Scalar, w: int) -> (f: int)
    requires
        resting_frame(state, delta_time),
        is_finite(state.ball_center.y),
        value(state.ball_center.y) <= 0x10_0000 * unit(),
        4 * size(w) <= unit(),
        pulled_to(0, value(state.ball_center.y), frame_time(delta_time), w),
    ensures
        ({
            let (after, u) = (state.after_motion(delta_time), unit());
            let (y, t) = (value(state.ball_center.y), frame_time(delta_time));
            let (a, v) = (value(after.ball_center.y), value(after.ball_velocity.y));
            &&& w >= 0 ==> 0x1000 * f >= 0xF00 * w - u
            &&& w <= 0 ==> 0x1000 * f <= 0xF00 * w + u
            &&& braked_to(w, size(w), twice_under(y), t, f, 0x1000)
            &&& (f == v && moved_to(y, f, t, a)) || bounced(y, f, t, a, v)
        }),
{
    lemma_limit_values();
    let (y, t) = (value(state.ball_center.y), frame_time(delta_time));
    lemma_at_rest(state, delta_time, w);
    lemma_free_ball_moves(state, delta_time, w, size(w));
    let after = state.after_motion(delta_time);
    let f = choose|f: int| #[trigger]
        braked_to(w, size(w), twice_under(y), t, f, 0x1000) && (f == value(after.ball_velocity.y) && moved_to(
            y,
            f,
            t,
            value(after.ball_center.y),
        ) || bounced(y, f, t, value(after.ball_center.y), value(after.ball_velocity.y)));
    lemma_upright_left(w, size(w), twice_under(y), t, f, unit());
    f
}

/// A free ball at rest that is wholly under water ends the frame going up, and higher than
/// it was.
pub proof fn lemma_resting_ball_rises(state: WaterState, delta_time: Scalar)
    requires
        resting_frame(state, delta_time),
        4 * value(state.ball_center.y) <= -unit(),
    ensures
        value(state.after_motion(delta_time).ball_velocity.y) > 0,
        value(state.after_motion(delta_time).ball_center.y) > value(state.ball_center.y),
{
    lemma_limit_values();
    lemma_far_from_overflow();
    let (y, u, t) = (value(state.ball_center.y), unit(), frame_time(delta_time));
    let w = (2 * t) / 5;
    lemma_magnitude_zero(state.ball_center.y);
    if !is_finite(state.ball_center.y) {
        lemma_spread_order(ONE as int, unsigned(state.ball_center.y));
    }
    lemma_frame_time_near_rest(state, delta_time);
    lemma_at_rest(state, delta_time, w);
    assert(twice_under(y) == 2 * u);
    assert(pulled_to(0, y, t, w)) by {
        assert(u * 0 == 0);
        assert(t * (2 * u) == 2 * (u * t)) by (nonlinear_arith);
        assert(size(5 * (u * w) - 2 * (u * t)) <= 5 * u) by (nonlinear_arith)
            requires
                0 <= 2 * t - 5 * w < 5,
                u > 0,
        ;
    }
    let after = state.after_motion(delta_time);
    let f = lemma_upright_frame(state, delta_time, w);
    assert(0x1000 * f >= 4 * u);
    lemma_goes_on(y, f, t, value(after.ball_center.y), u);
}

/// The time of a frame that is long enough.
proof fn lemma_frame_time_near_rest(state: WaterState, delta_time: Scalar)
    requires
        resting_frame(state, delta_time),
    ensures
        0 <= 16 * frame_time(delta_time) <= unit(),
{
    lemma_limit_values();
    lemma_frame_time_near(delta_time);
}

/// A speed that is not tiny moves a ball within a frame.
proof fn lemma_goes_on(y: int, f: int, t: int, a: int, u: int)
    requires
        u == unit(),
        u > 0,
        size(y) <= u,
        256 * t >= u,
        moved_to(y, f, t, a),
    ensures
        0x1000 * f >= 4 * u ==> a > y,
        0x1000 * f <= -4 * u ==> a < y,
{
    let uu = u * u;
    assert(uu > 0) by (nonlinear_arith)
        requires
            uu == u * u,
            u > 0,
    ;
    assert(u * (size(y) + u) <= 2 * uu) by (nonlinear_arith)
        requires
            size(y) <= u,
            uu == u * u,
            u > 0,
    ;
    let d = a - y;
    assert(a * u - y * u == d * u) by (nonlinear_arith)
        requires
            d == a - y,
    ;
    if 0x1000 * f >= 4 * u {
        assert(0x10_0000 * (f * t) >= 4 * uu) by (nonlinear_arith)
            requires
                0x1000 * f >= 4 * u,
                256 * t >= u,
                uu == u * u,
                u > 0,
        ;
        assert(d > 0) by (nonlinear_arith)
            requires
                d * u > 0,
                u > 0,
        ;
    }
    if 0x1000 * f <= -4 * u {
        assert(0x10_0000 * (f * t) <= -4 * uu) by (nonlinear_arith)
            requires
                0x1000 * f <= -4 * u,
                256 * t >= u,
                uu == u * u,
                u > 0,
        ;
        assert(d < 0) by (nonlinear_arith)
            requires
                d * u < 0,
                u > 0,
        ;
    }
}

/// A free ball at rest that is wholly above the water, and not above the world, ends the
/// frame going down, and lower than it was.
pub proof fn lemma_resting_ball_falls(state: WaterState, delta_time: Scalar)
    requires
        resting_frame(state, delta_time),
        4 * value(state.ball_center.y) >= unit(),
        value(state.ball_center.y) <= unit(),
    ensures
        value(state.after_motion(delta_time).ball_velocity.y) < 0,
        value(state.after_motion(delta_time).ball_center.y) < value(state.ball_center.y),
{
    lemma_limit_values();
    lemma_far_from_overflow();
    let (y, u, t) = (value(state.ball_center.y), unit(), frame_time(delta_time));
    let w = -4 * t;
    lemma_magnitude_zero(state.ball_center.y);
    if !is_finite(state.ball_center.y) {
        lemma_spread_order(ONE as int, unsigned(state.ball_center.y));
    }
    lemma_frame_time_near_rest(state, delta_time);
    lemma_at_rest(state, delta_time, w);
    assert(twice_under(y) == 0);
    assert(pulled_to(0, y, t, w)) by {
        assert(u * 0 == 0 && t * 0 == 0);
        assert(u * w == -4 * (u * t)) by (nonlinear_arith)
            requires
                w == -4 * t,
        ;
    }
    let after = state.after_motion(delta_time);
    let f = lemma_upright_frame(state, delta_time, w);
    assert(0x1000 * f <= -4 * u);
    if f != value(after.ball_velocity.y) {
        lemma_no_bounce(y, w, f, t, u);
    }
    lemma_goes_on(y, f, t, value(after.ball_center.y), u);
}

/// A ball above the water does not reach the floor in a frame.
proof fn lemma_no_bounce(y: int, w: int, f: int, t: int, u: int)
    requires
        u == unit(),
        u > 0,
        u <= 4 * y <= 4 * u,
        w == -4 * t,
        0 <= 16 * t <= u,
        braked_to(w, size(w), 0, t, f, 0x1000),
    ensures
        !((4 * (y * u + f * t) + 3 * (u * u)) * 0x10_0000 <= 4 * (u * (size(y) + u))),
{
    let uu = u * u;
    let (cube, four) = (u * uu, uu * uu);
    assert(uu > 0) by (nonlinear_arith)
        requires
            uu == u * u,
            u > 0,
    ;
    assert(cube > 0) by (nonlinear_arith)
        requires
            cube == u * uu,
            u > 0,
            uu > 0,
    ;
    assert(0 * t == 0);
    assert((w * size(w)) * 0 == 0);
    let g = f - w;
    assert(2 * (f * cube) - 2 * (w * cube) == 2 * (g * cube)) by (nonlinear_arith)
        requires
            g == f - w,
    ;
    assert(four == u * cube) by (nonlinear_arith)
        requires
            four == uu * uu,
            cube == u * uu,
            uu == u * u,
    ;
    assert(size(2 * (g * cube)) * 0x1000 <= 2 * (u * cube));
    assert(size(g) * 0x1000 <= u) by (nonlinear_arith)
        requires
            size(2 * (g * cube)) * 0x1000 <= 2 * (u * cube),
            cube > 0,
    {
        assert(size(2 * (g * cube)) == 2 * (size(g) * cube)) by (nonlinear_arith)
            requires
                cube > 0,
        ;
        assert((size(g) * 0x1000) * cube <= u * cube) by (nonlinear_arith)
            requires
                (2 * (size(g) * cube)) * 0x1000 <= 2 * (u * cube),
        ;
        assert(size(g) * 0x1000 <= u) by (nonlinear_arith)
            requires
                (size(g) * 0x1000) * cube <= u * cube,
                cube > 0,
        ;
    }
    assert(f >= -u);
    assert(f * t * 16 >= -uu) by (nonlinear_arith)
        requires
            f >= -u,
            0 <= 16 * t <= u,
            uu == u * u,
            u > 0,
    ;
    assert(4 * (y * u) >= uu) by (nonlinear_arith)
        requires
            4 * y >= u,
            uu == u * u,
            u > 0,
    ;
    assert(u * (size(y) + u) <= 2 * uu) by (nonlinear_arith)
        requires
            size(y) <= u,
            uu == u * u,
            u > 0,
    ;
}

/// A frame of the free ball is a step of its physics for the time of the frame, or for the
/// longest time where the frame took longer or its time is not a number: so two frames are
/// two steps.
pub proof fn lemma_frames_are_steps(state: WaterState, first: Scalar, second: Scalar)
    requires
        !state.paused,
        state.drag_mode != DragMode::Ball,
    ensures
        at_most(first, MAX_FRAME_TIME) ==> state.after_motion(first) == state.after_step(first),
        less(MAX_FRAME_TIME, first) ==> state.after_motion(first) == state.after_step(MAX_FRAME_TIME),
        is_nan(first) ==> state.after_motion(first) == state.after_step(MAX_FRAME_TIME),
        at_most(first, MAX_FRAME_TIME) && at_most(second, MAX_FRAME_TIME) ==> state.after_motion(first).after_motion(
            second,
        ) == state.after_step(first).after_step(second),
{
}

} // verus!
