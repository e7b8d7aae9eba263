//! What is picked lies where it was picked: the point that a ray meets a plane in lies on
//! that plane, and a plane laid through that point is met there again, up to rounding.

use crate::arithmetic::{difference, opposite, product, quotient, size, sum, unit};
use crate::ball_laws::lemma_opposite;
use crate::bounds::{
    is_finite, lemma_one, lemma_one_is_neutral, lemma_product_between, lemma_product_error,
    lemma_quotient_between, lemma_quotient_error, lemma_sum_between, lemma_sum_error,
};
use crate::constants::{
    CEILING_LIMIT, FLOOR_LIMIT, HALF, NEGATIVE_SIDE_LIMIT, PARALLEL, SIDE_LIMIT,
};
use crate::limits::{inside_pool, lemma_limit_values};
use crate::plugin::{
    facing_plane, plane_distance, plane_hit, world_position, InputFrame, Ray, WaterState,
};
use crate::ranges::{lemma_power, negative_power, power};
use crate::rotation_laws::{
    is_unit, lemma_direction_is_unit, lemma_near_not_tiny, lemma_nearer, lemma_signs,
    lemma_square_nonnegative, lemma_times_four, lemma_tiny, lemma_vector_squares, near_unit, pure,
    squares, UNIT_PARTS,
};
use crate::rounding::lemma_rounded_nearest;
use crate::scalar::{
    absolute, at_most, clamped, is_nan, lemma_magnitude_zero, lemma_spread_order, less, magnitude,
    unsigned, value, Scalar, INFINITY, ONE, ZERO,
};
use crate::vector::{
    direction, inner, length, vector_difference, vector_opposite, vector_scaled, vector_sum, Vec3,
};
use vstd::arithmetic::power2::{lemma2_to64, lemma_pow2_adds, lemma_pow2_strictly_increases, pow2};
use vstd::prelude::*;

verus! {

/// Whether a bound on sizes is ordinary: neither tiny nor near overflow.
pub open spec fn ordinary(q: int) -> bool {
    0x100_0000 <= q <= pow2(100) * unit()
}

/// A number that lies between two finite ones is finite.
pub proof fn lemma_finite_between(s: Scalar)
    requires
        at_most(negative_power(100), s),
        at_most(s, power(100)),
    ensures
        is_finite(s),
{
    lemma_power(100);
    lemma_magnitude_zero(s);
    if !is_finite(s) {
        assert(unsigned(s) == INFINITY);
        lemma_spread_order(power(100) as int, INFINITY as int);
    }
}

/// A product of a given size.
pub proof fn lemma_small_product(a: Scalar, b: Scalar, q: int)
    requires
        is_finite(a),
        is_finite(b),
        ordinary(q),
        size(value(a) * value(b)) <= q * unit(),
    ensures
        is_finite(product(a, b)),
        8 * size(value(product(a, b))) <= 9 * q,
        size(value(product(a, b)) * unit() - value(a) * value(b)) * 0x100_0000 <= 2 * (q * unit()),
        value(a) * value(b) <= 0 ==> value(product(a, b)) <= 0,
        value(a) * value(b) >= 0 ==> value(product(a, b)) >= 0,
{
    lemma_limit_values();
    lemma_power(100);
    let (u, e) = (unit(), value(a) * value(b));
    let top = pow2(100) * u;
    assert(u * (-top) <= e <= u * top) by (nonlinear_arith)
        requires
            size(e) <= q * u,
            q <= top,
            u > 0,
    ;
    lemma_product_between(a, b, negative_power(100), power(100));
    lemma_finite_between(product(a, b));
    if e <= 0 {
        assert(u * 0 == 0);
        lemma_product_between(a, b, negative_power(100), ZERO);
    }
    if e >= 0 {
        assert(u * 0 == 0);
        lemma_product_between(a, b, ZERO, power(100));
    }
    lemma_product_error(a, b);
    let p = value(product(a, b));
    assert(8 * size(p) <= 9 * q) by (nonlinear_arith)
        requires
            size(p * u - e) * 0x100_0000 <= u * (size(p) + 0x80_0000),
            size(e) <= q * u,
            u > 0,
            q >= 0x100_0000,
    {
        let s = size(p);
        assert(size(p * u) == s * u) by (nonlinear_arith)
            requires
                s == size(p),
                u > 0,
        ;
        assert((s * u) * 0x100_0000 <= (q * u) * 0x100_0000 + u * (s + 0x80_0000));
        assert(u * (s * 0xff_ffff) <= u * (q * 0x100_0000 + 0x80_0000)) by (nonlinear_arith)
            requires
                (s * u) * 0x100_0000 <= (q * u) * 0x100_0000 + u * (s + 0x80_0000),
        ;
        assert(s * 0xff_ffff <= q * 0x100_0000 + 0x80_0000) by (nonlinear_arith)
            requires
                u * (s * 0xff_ffff) <= u * (q * 0x100_0000 + 0x80_0000),
                u > 0,
        ;
    }
    assert(u * (size(p) + 0x80_0000) <= 2 * (q * u)) by (nonlinear_arith)
        requires
            8 * size(p) <= 9 * q,
            q >= 0x100_0000,
            u > 0,
    ;
}

/// A sum of a given size.
pub proof fn lemma_small_sum(a: Scalar, b: Scalar, q: int)
    requires
        is_finite(a),
        is_finite(b),
        0 <= q <= pow2(100) * unit(),
        size(value(a) + value(b)) <= q,
    ensures
        is_finite(sum(a, b)),
        16 * size(value(sum(a, b))) <= 17 * q,
        size(value(sum(a, b)) - (value(a) + value(b))) * 0x100_0000 <= size(value(sum(a, b))),
        value(a) + value(b) <= 0 ==> value(sum(a, b)) <= 0,
        value(a) + value(b) >= 0 ==> value(sum(a, b)) >= 0,
        value(b) <= 0 ==> value(sum(a, b)) <= value(a),
        value(b) >= 0 ==> value(sum(a, b)) >= value(a),
{
    lemma_limit_values();
    lemma_power(100);
    lemma_sum_between(a, b, negative_power(100), power(100));
    lemma_finite_between(sum(a, b));
    lemma_sum_error(a, b);
    if value(a) + value(b) <= 0 {
        lemma_sum_between(a, b, negative_power(100), ZERO);
    }
    if value(a) + value(b) >= 0 {
        lemma_sum_between(a, b, ZERO, power(100));
    }
    if value(b) <= 0 {
        lemma_sum_between(a, b, negative_power(100), a);
    }
    if value(b) >= 0 {
        lemma_sum_between(a, b, a, power(100));
    }
}

/// A difference of a given size.
pub proof fn lemma_small_difference(a: Scalar, b: Scalar, q: int)
    requires
        is_finite(a),
        is_finite(b),
        0 <= q <= pow2(100) * unit(),
        size(value(a) - value(b)) <= q,
    ensures
        is_finite(difference(a, b)),
        16 * size(value(difference(a, b))) <= 17 * q,
        size(value(difference(a, b)) - (value(a) - value(b))) * 0x100_0000 <= size(value(difference(a, b))),
        value(a) <= value(b) ==> value(difference(a, b)) <= 0,
        value(a) >= value(b) ==> value(difference(a, b)) >= 0,
{
    lemma_opposite(b);
    lemma_small_sum(a, opposite(b), q);
}

/// A quotient by a negative number, of a given size.
pub proof fn lemma_small_quotient(a: Scalar, b: Scalar, q: int)
    requires
        is_finite(a),
        is_finite(b),
        value(b) < 0,
        ordinary(q),
        size(value(a)) * unit() <= -value(b) * q,
    ensures
        is_finite(quotient(a, b)),
        16 * size(value(quotient(a, b))) <= 17 * q,
        size(value(quotient(a, b)) * value(b) - value(a) * unit()) * 0x100_0000 <= -value(b) * (size(
            value(quotient(a, b)),
        ) + 0x80_0000),
        value(a) <= 0 ==> value(quotient(a, b)) >= 0,
{
    lemma_limit_values();
    lemma_power(100);
    lemma_opposite(b);
    lemma_magnitude_zero(b);
    let c = opposite(b);
    let (u, d, v) = (unit(), value(c), value(a));
    let top = pow2(100) * u;
    assert(d * (-top) <= v * u <= d * top) by (nonlinear_arith)
        requires
            size(v) * u <= d * q,
            q <= top,
            d > 0,
            u > 0,
    ;
    lemma_quotient_between(a, c, negative_power(100), power(100));
    let r = quotient(a, c);
    lemma_finite_between(r);
    if v <= 0 {
        assert(d * 0 == 0);
        assert(v * u <= 0) by (nonlinear_arith)
            requires
                v <= 0,
                u > 0,
        ;
        lemma_quotient_between(a, c, negative_power(100), ZERO);
    }
    lemma_quotient_error(a, c);
    assert(quotient(a, b) == opposite(r)) by {
        lemma_magnitude_zero(c);
        lemma_rounded_nearest(magnitude(a) * u, magnitude(b));
    }
    lemma_opposite(r);
    let (t, s) = (value(r), value(quotient(a, b)));
    assert(s * value(b) == t * d) by (nonlinear_arith)
        requires
            s == -t,
            value(b) == -d,
    ;
    let m = size(t);
    assert(size(t * d) == m * d) by (nonlinear_arith)
        requires
            m == size(t),
            d > 0,
    ;
    assert(size(v * u) == size(v) * u) by (nonlinear_arith)
        requires
            u > 0,
    ;
    assert(16 * m <= 17 * q) by (nonlinear_arith)
        requires
            (m * d) * 0x100_0000 <= (d * q) * 0x100_0000 + d * (m + 0x80_0000),
            d > 0,
            q >= 0x100_0000,
            m >= 0,
    {
        assert(d * (m * 0xff_ffff) <= d * (q * 0x100_0000 + 0x80_0000)) by (nonlinear_arith)
            requires
                (m * d) * 0x100_0000 <= (d * q) * 0x100_0000 + d * (m + 0x80_0000),
        ;
        assert(m * 0xff_ffff <= q * 0x100_0000 + 0x80_0000) by (nonlinear_arith)
            requires
                d * (m * 0xff_ffff) <= d * (q * 0x100_0000 + 0x80_0000),
                d > 0,
        ;
    }
}

/// The exact inner product, in squared units of the smallest positive number.
pub open spec fn exact_inner(a: Vec3, b: Vec3) -> int {
    value(a.x) * value(b.x) + value(a.y) * value(b.y) + value(a.z) * value(b.z)
}

/// An inner product of terms of a given size.
#[verifier::rlimit(30)]
pub proof fn lemma_small_inner(a: Vec3, b: Vec3, q: int)
    requires
        is_finite(a.x) && is_finite(a.y) && is_finite(a.z),
        is_finite(b.x) && is_finite(b.y) && is_finite(b.z),
        0x100_0000 <= q,
        4 * q <= pow2(100) * unit(),
        size(value(a.x) * value(b.x)) <= q * unit(),
        size(value(a.y) * value(b.y)) <= q * unit(),
        size(value(a.z) * value(b.z)) <= q * unit(),
    ensures
        is_finite(inner(a, b)),
        size(value(inner(a, b))) <= 4 * q,
        size(value(inner(a, b)) * unit() - exact_inner(a, b)) * 0x100_0000 <= 16 * (q * unit()),
        value(a.x) * value(b.x) <= 0 && value(a.y) * value(b.y) <= 0 && value(a.z) * value(b.z) <= 0
            ==> value(inner(a, b)) <= 0,
{
    lemma_one();
    lemma_small_product(a.x, b.x, q);
    lemma_small_product(a.y, b.y, q);
    lemma_small_product(a.z, b.z, q);
    let (x, y, z) = (product(a.x, b.x), product(a.y, b.y), product(a.z, b.z));
    lemma_small_sum(x, y, size(value(x) + value(y)));
    let s = sum(x, y);
    lemma_small_sum(s, z, size(value(s) + value(z)));
    let (n, u) = (value(inner(a, b)), unit());
    let off = n - (value(x) + value(y) + value(z));
    assert(size(off) * 0x100_0000 <= 8 * q);
    assert(size(off * u) * 0x100_0000 <= 8 * (q * u)) by (nonlinear_arith)
        requires
            size(off) * 0x100_0000 <= 8 * q,
            u > 0,
    ;
    assert(n * u == off * u + value(x) * u + value(y) * u + value(z) * u) by (nonlinear_arith)
        requires
            off == n - (value(x) + value(y) + value(z)),
    ;
}

/// A component of what is near a unit vector is hardly above 1.
proof fn lemma_hardly_above(v: int, u: int)
    requires
        u > 0,
        64 * (v * v) <= 81 * (u * u),
    ensures
        8 * size(v) <= 9 * u,
{
    assert(8 * size(v) <= 9 * u) by (nonlinear_arith)
        requires
            u > 0,
            64 * (v * v) <= 81 * (u * u),
    ;
}

/// The components of what is near a unit vector are hardly above 1.
pub proof fn lemma_unit_components(a: Vec3)
    requires
        near_unit(pure(a), 64),
    ensures
        8 * size(value(a.x)) <= 9 * unit(),
        8 * size(value(a.y)) <= 9 * unit(),
        8 * size(value(a.z)) <= 9 * unit(),
        64 * squares(pure(a)) >= 63 * (unit() * unit()),
        64 * squares(pure(a)) <= 65 * (unit() * unit()),
        squares(pure(a)) == exact_inner(a, a),
{
    lemma_limit_values();
    lemma_square_nonnegative(value(a.x));
    lemma_square_nonnegative(value(a.y));
    lemma_square_nonnegative(value(a.z));
    lemma_square_nonnegative(unit());
    assert(value(ZERO) * value(ZERO) == 0) by (nonlinear_arith)
        requires
            value(ZERO) == 0,
    ;
    lemma_hardly_above(value(a.x), unit());
    lemma_hardly_above(value(a.y), unit());
    lemma_hardly_above(value(a.z), unit());
}

/// A component divided by the length keeps its sign, and is off by little.
pub proof fn lemma_component_off(a: Scalar, k: Scalar)
    requires
        is_finite(a),
        is_finite(k),
        is_finite(quotient(a, k)),
        value(k) > 0,
        8 * size(value(quotient(a, k))) <= 9 * unit(),
        unit() >= 0x100_0000,
    ensures
        value(a) >= 0 ==> value(quotient(a, k)) >= 0,
        value(a) <= 0 ==> value(quotient(a, k)) <= 0,
        size(value(quotient(a, k)) * value(k) - value(a) * unit()) * 0x100_0000 <= 2 * (unit() * value(k)),
{
    lemma_limit_values();
    lemma_quotient_error(a, k);
    let (c, d, u, v) = (value(quotient(a, k)), value(k), unit(), value(a));
    assert(d * (size(c) + 0x80_0000) <= 2 * (u * d)) by (nonlinear_arith)
        requires
            8 * size(c) <= 9 * u,
            u >= 0x100_0000,
            d > 0,
    ;
    assert(v >= 0 ==> c >= 0) by {
        if v >= 0 && c < 0 {
            lemma_sign_kept(v, c, d, u);
        }
    }
    assert(v <= 0 ==> c <= 0) by {
        if v <= 0 && c > 0 {
            assert((-c) * d - (-v) * u == -(c * d - v * u)) by (nonlinear_arith);
            lemma_sign_kept(-v, -c, d, u);
        }
    }
}

/// A quotient that is off by little has the sign of its dividend.
proof fn lemma_sign_kept(v: int, c: int, d: int, u: int)
    requires
        d > 0,
        u > 0,
        v >= 0,
        size(c * d - v * u) * 0x100_0000 <= d * (size(c) + 0x80_0000),
    ensures
        c >= 0,
{
    if c < 0 {
        assert(false) by (nonlinear_arith)
            requires
                d > 0,
                u > 0,
                v >= 0,
                c < 0,
                (v * u - c * d) * 0x100_0000 <= d * (0x80_0000 - c),
        {
            assert(v * u >= 0) by (nonlinear_arith)
                requires
                    v >= 0,
                    u > 0,
            ;
            assert((-(c * d)) * 0x100_0000 <= d * (0x80_0000 - c));
            assert(d * (-(c * 0xff_ffff)) <= d * 0x80_0000) by (nonlinear_arith)
                requires
                    (-(c * d)) * 0x100_0000 <= d * (0x80_0000 - c),
            ;
            assert(-(c * 0xff_ffff) <= 0x80_0000) by (nonlinear_arith)
                requires
                    d * (-(c * 0xff_ffff)) <= d * 0x80_0000,
                    d > 0,
            ;
        }
    }
}

/// A product of two components that are hardly above 1.
pub proof fn lemma_unit_product(a: int, b: int, u: int)
    requires
        u > 0,
        8 * size(a) <= 9 * u,
        8 * size(b) <= 9 * u,
    ensures
        size(a * b) <= 2 * (u * u),
        (2 * u) * u == 2 * (u * u),
{
    assert(size(a * b) <= 2 * (u * u)) by (nonlinear_arith)
        requires
            u > 0,
            8 * size(a) <= 9 * u,
            8 * size(b) <= 9 * u,
    ;
    assert((2 * u) * u == 2 * (u * u)) by (nonlinear_arith);
}

/// A term of the inner product of a vector and its direction.
proof fn lemma_aligned_term(c: int, k: int, d: int, u: int)
    requires
        u > 0,
        k > 0,
        8 * size(d) <= 9 * u,
        size(c * k - d * u) * 0x100_0000 <= 2 * (u * k),
    ensures
        size(k * (c * d) - u * (d * d)) * 0x100_0000 <= 3 * (u * (u * k)),
{
    let e = c * k - d * u;
    assert(k * (c * d) - u * (d * d) == e * d) by (nonlinear_arith)
        requires
            e == c * k - d * u,
    ;
    assert(size(e * d) * 0x100_0000 <= 3 * (u * (u * k))) by (nonlinear_arith)
        requires
            size(e) * 0x100_0000 <= 2 * (u * k),
            8 * size(d) <= 9 * u,
            u > 0,
            k > 0,
    {
        let m = u * k;
        assert(m > 0) by (nonlinear_arith)
            requires
                m == u * k,
                u > 0,
                k > 0,
        ;
        assert(size(e * d) == size(e) * size(d)) by (nonlinear_arith);
        assert((size(e) * 0x100_0000) * (8 * size(d)) <= (2 * m) * (9 * u)) by (nonlinear_arith)
            requires
                0 <= size(e) * 0x100_0000 <= 2 * m,
                0 <= 8 * size(d) <= 9 * u,
        ;
        assert((size(e) * size(d)) * 0x100_0000 * 8 == (size(e) * 0x100_0000) * (8 * size(d))) by (nonlinear_arith);
        assert((2 * m) * (9 * u) == 18 * (u * m)) by (nonlinear_arith);
        assert(u * m >= 0) by (nonlinear_arith)
            requires
                u > 0,
                m > 0,
        ;
    }
}

/// The inner product of a vector near length 1 and its direction is not far below 1.
proof fn lemma_aligned(s: int, k: int, total: int, u: int)
    requires
        u > 0,
        k > 0,
        4 * k <= 5 * u,
        64 * total >= 63 * (u * u),
        size(k * s - u * total) * 0x100_0000 <= 9 * (u * (u * k)),
    ensures
        4 * s >= 3 * (u * u),
{
    if 4 * s < 3 * (u * u) {
        let w = u * u;
        assert(w > 0) by (nonlinear_arith)
            requires
                w == u * u,
                u > 0,
        ;
        let uw = u * w;
        assert(uw > 0) by (nonlinear_arith)
            requires
                uw == u * w,
                u > 0,
                w > 0,
        ;
        assert(64 * (u * total) >= 63 * uw) by (nonlinear_arith)
            requires
                64 * total >= 63 * w,
                uw == u * w,
                u > 0,
        ;
        assert(4 * (u * (u * k)) <= 5 * uw) by (nonlinear_arith)
            requires
                4 * k <= 5 * u,
                w == u * u,
                uw == u * w,
                u > 0,
        ;
        assert(16 * (k * s) <= 15 * uw) by (nonlinear_arith)
            requires
                4 * s < 3 * w,
                0 < k,
                4 * k <= 5 * u,
                uw == u * w,
                w > 0,
        {
            assert((4 * k) * (4 * s) <= (4 * k) * (3 * w)) by (nonlinear_arith)
                requires
                    4 * s < 3 * w,
                    0 < k,
            ;
            assert((4 * k) * (3 * w) <= (5 * u) * (3 * w)) by (nonlinear_arith)
                requires
                    4 * k <= 5 * u,
                    w > 0,
            ;
            assert((5 * u) * (3 * w) == 15 * uw) by (nonlinear_arith)
                requires
                    uw == u * w,
            ;
            assert((4 * k) * (4 * s) == 16 * (k * s)) by (nonlinear_arith);
        }
        assert(false);
    }
}

/// The length of what is near a unit vector.
pub proof fn lemma_near_length(d: Vec3)
    requires
        near_unit(pure(d), 64),
    ensures
        is_unit(pure(direction(d))),
        is_finite(length(d)),
        0 < value(length(d)),
        4 * value(length(d)) <= 5 * unit(),
{
    lemma_tiny();
    lemma_limit_values();
    lemma_near_not_tiny(pure(d), 64);
    lemma_direction_is_unit(d);
    lemma_vector_squares(d);
    lemma_unit_components(d);
    let (n, k, u) = (value(inner(d, d)) * unit(), value(length(d)), unit());
    lemma_square_nonnegative(k);
    lemma_square_nonnegative(u);
    assert(16 * (k * k) <= 25 * (u * u));
    assert(4 * k <= 5 * u) by (nonlinear_arith)
        requires
            16 * (k * k) <= 25 * (u * u),
            u > 0,
    ;
}

/// A plane that faces a ray whose direction has about length 1.
#[verifier::rlimit(30)]
pub proof fn lemma_facing(d: Vec3)
    requires
        near_unit(pure(d), 64),
    ensures
        faces(vector_opposite(direction(d)), d),
{
    lemma_tiny();
    lemma_near_length(d);
    lemma_unit_components(d);
    let c = direction(d);
    let (k, u) = (value(length(d)), unit());
    lemma_nearer(pure(c), UNIT_PARTS as int, 64);
    lemma_unit_components(c);
    lemma_component_off(d.x, length(d));
    lemma_component_off(d.y, length(d));
    lemma_component_off(d.z, length(d));
    lemma_aligned_term(value(c.x), k, value(d.x), u);
    lemma_aligned_term(value(c.y), k, value(d.y), u);
    lemma_aligned_term(value(c.z), k, value(d.z), u);
    let s = exact_inner(c, d);
    lemma_times_four(k, value(c.x) * value(d.x), value(c.y) * value(d.y), value(c.z) * value(d.z), 0);
    lemma_times_four(u, value(d.x) * value(d.x), value(d.y) * value(d.y), value(d.z) * value(d.z), 0);
    assert(k * 0 == 0 && u * 0 == 0);
    lemma_aligned(s, k, exact_inner(d, d), u);
    let n = vector_opposite(c);
    lemma_opposite(c.x);
    lemma_opposite(c.y);
    lemma_opposite(c.z);
    lemma_signs(value(c.x), value(d.x));
    lemma_signs(value(c.y), value(d.y));
    lemma_signs(value(c.z), value(d.z));
    assert(exact_inner(n, d) == -s);
    lemma_unit_product(value(n.x), value(d.x), u);
    lemma_unit_product(value(n.y), value(d.y), u);
    lemma_unit_product(value(n.z), value(d.z), u);
    lemma_power(100);
    lemma2_to64();
    lemma_pow2_strictly_increases(4, 100);
    assert(8 * u <= pow2(100) * u) by (nonlinear_arith)
        requires
            pow2(100) >= 8,
            u > 0,
    ;
    lemma_small_inner(n, d, 2 * u);
    let e = value(inner(n, d));
    assert(8 * e <= -5 * u) by (nonlinear_arith)
        requires
            size(e * u + s) * 0x100_0000 <= 32 * (u * u),
            4 * s >= 3 * (u * u),
            u > 0,
    {
        let w = u * u;
        assert(w > 0) by (nonlinear_arith)
            requires
                w == u * u,
                u > 0,
        ;
        assert(8 * (e * u) <= -5 * w);
        assert(8 * e <= -5 * u) by (nonlinear_arith)
            requires
                8 * (e * u) <= -5 * w,
                w == u * u,
                u > 0,
        ;
    }
}

/// Whether a normal of about length 1 faces a direction of about length 1, and is as good
/// as opposite to it.
pub open spec fn faces(n: Vec3, d: Vec3) -> bool {
    let e = value(inner(n, d));
    &&& is_finite(n.x) && is_finite(n.y) && is_finite(n.z)
    &&& is_finite(d.x) && is_finite(d.y) && is_finite(d.z)
    &&& 8 * size(value(n.x)) <= 9 * unit() && 8 * size(value(d.x)) <= 9 * unit()
    &&& 8 * size(value(n.y)) <= 9 * unit() && 8 * size(value(d.y)) <= 9 * unit()
    &&& 8 * size(value(n.z)) <= 9 * unit() && 8 * size(value(d.z)) <= 9 * unit()
    &&& opposed(n.x, d.x) && opposed(n.y, d.y) && opposed(n.z, d.z)
    &&& is_finite(inner(n, d))
    &&& -8 * unit() <= e
    &&& 8 * e <= -5 * unit()
    &&& size(e * unit() - exact_inner(n, d)) * 0x100_0000 <= 32 * (unit() * unit())
}

/// Whether two numbers are not on the same side of zero.
pub open spec fn opposed(a: Scalar, b: Scalar) -> bool {
    &&& value(b) >= 0 ==> value(a) <= 0
    &&& value(b) <= 0 ==> value(a) >= 0
}

/// Whether a vector is made of finite numbers of a size up to `most`.
pub open spec fn reaches(a: Vec3, most: int) -> bool {
    &&& is_finite(a.x) && size(value(a.x)) <= most
    &&& is_finite(a.y) && size(value(a.y)) <= most
    &&& is_finite(a.z) && size(value(a.z)) <= most
}

/// A coordinate of a point along a ray: how far it is off, and on which side of the origin
/// it lies.
pub proof fn lemma_reached(o: Scalar, d: Scalar, t: Scalar, most: int)
    requires
        is_finite(o),
        is_finite(d),
        is_finite(t),
        0x100_0000 <= most,
        1000 * most <= pow2(100) * unit(),
        size(value(o)) <= most,
        8 * size(value(d)) <= 9 * unit(),
        0 <= value(t) <= 23 * most,
    ensures
        ({
            let h = sum(o, product(d, t));
            &&& is_finite(h)
            &&& size(value(h)) <= 33 * most
            &&& size(value(h) * unit() - value(o) * unit() - value(d) * value(t)) * 0x100_0000 <= 85 * (most
                * unit())
            &&& value(d) >= 0 ==> value(h) >= value(o)
            &&& value(d) <= 0 ==> value(h) <= value(o)
        }),
{
    lemma_one();
    let (u, v, w) = (unit(), value(d), value(t));
    assert(size(v * w) <= (26 * most) * u) by (nonlinear_arith)
        requires
            8 * size(v) <= 9 * u,
            0 <= w <= 23 * most,
            most > 0,
            u > 0,
    {
        assert(size(v * w) == size(v) * w) by (nonlinear_arith)
            requires
                w >= 0,
        ;
        assert((8 * size(v)) * w <= (9 * u) * (23 * most)) by (nonlinear_arith)
            requires
                0 <= 8 * size(v) <= 9 * u,
                0 <= w <= 23 * most,
        ;
        assert((9 * u) * (23 * most) == 207 * (most * u)) by (nonlinear_arith);
        assert((26 * most) * u == 26 * (most * u)) by (nonlinear_arith);
        assert(most * u > 0) by (nonlinear_arith)
            requires
                most > 0,
                u > 0,
        ;
    }
    lemma_small_product(d, t, 26 * most);
    assert(v >= 0 ==> v * w >= 0) by (nonlinear_arith)
        requires
            w >= 0,
    ;
    assert(v <= 0 ==> v * w <= 0) by (nonlinear_arith)
        requires
            w >= 0,
    ;
    let g = product(d, t);
    lemma_small_sum(o, g, 31 * most);
    let (h, a, b) = (value(sum(o, g)), value(o), value(g));
    let e = h - (a + b);
    assert(h * u - a * u == e * u + b * u) by (nonlinear_arith)
        requires
            e == h - (a + b),
    ;
    assert(size(e * u) * 0x100_0000 <= 33 * (most * u)) by (nonlinear_arith)
        requires
            size(e) * 0x100_0000 <= 33 * most,
            u > 0,
    ;
    assert(2 * ((26 * most) * u) == 52 * (most * u)) by (nonlinear_arith);
}

/// A term of the inner product of a normal and a way, and the exact term.
pub proof fn lemma_way_term(n: int, x: int, y: int, bound: int, u: int)
    requires
        u > 0,
        bound >= 0,
        8 * size(n) <= 9 * u,
        size(x - y) * 0x100_0000 <= bound,
    ensures
        8 * (size(n * x - n * y) * 0x100_0000) <= 9 * (bound * u),
{
    let e = x - y;
    assert(n * x - n * y == n * e) by (nonlinear_arith)
        requires
            e == x - y,
    ;
    assert(size(n * e) == size(n) * size(e)) by (nonlinear_arith);
    assert((8 * size(n)) * (size(e) * 0x100_0000) <= (9 * u) * bound) by (nonlinear_arith)
        requires
            0 <= 8 * size(n) <= 9 * u,
            0 <= size(e) * 0x100_0000 <= bound,
    ;
    assert((8 * size(n)) * (size(e) * 0x100_0000) == 8 * ((size(n) * size(e)) * 0x100_0000)) by (nonlinear_arith);
    assert((9 * u) * bound == 9 * (bound * u)) by (nonlinear_arith);
}

/// The exact inner product of a normal with a difference.
pub open spec fn exact_side(n: Vec3, a: Vec3, b: Vec3) -> int {
    value(n.x) * (value(a.x) - value(b.x)) + value(n.y) * (value(a.y) - value(b.y)) + value(n.z) * (value(a.z)
        - value(b.z))
}

/// A point at distance `t` along a ray lies `t` times as far on a side of the origin as
/// the direction does.
#[verifier::rlimit(30)]
proof fn lemma_side_of_point(n: Vec3, ray: Ray, t: Scalar, most: int)
    requires
        faces(n, ray.direction),
        reaches(ray.origin, most),
        is_finite(t),
        0x100_0000 <= most,
        1000 * most <= pow2(100) * unit(),
        0 <= value(t) <= 23 * most,
    ensures
        ({
            let h = vector_sum(ray.origin, vector_scaled(ray.direction, t));
            &&& reaches(h, 33 * most)
            &&& size(exact_side(n, h, ray.origin) - value(t) * value(inner(n, ray.direction))) * 0x100_0000 <= 1024
                * (most * unit())
        }),
{
    lemma_one();
    let (o, d) = (ray.origin, ray.direction);
    lemma_reached(o.x, d.x, t, most);
    lemma_reached(o.y, d.y, t, most);
    lemma_reached(o.z, d.z, t, most);
    let h = vector_sum(o, vector_scaled(d, t));
    let (u, w, e) = (unit(), value(t), value(inner(n, d)));
    lemma_scaled_term(value(n.x), value(h.x), value(o.x), value(d.x), w, most, u);
    lemma_scaled_term(value(n.y), value(h.y), value(o.y), value(d.y), w, most, u);
    lemma_scaled_term(value(n.z), value(h.z), value(o.z), value(d.z), w, most, u);
    let (f, s) = (exact_side(n, h, o), exact_inner(n, d));
    let (p, q, r) = (
        value(n.x) * (value(h.x) - value(o.x)),
        value(n.y) * (value(h.y) - value(o.y)),
        value(n.z) * (value(h.z) - value(o.z)),
    );
    lemma_times_four(u, p, q, r, 0);
    lemma_times_four(w, value(n.x) * value(d.x), value(n.y) * value(d.y), value(n.z) * value(d.z), 0);
    assert(u * 0 == 0 && w * 0 == 0);
    let m = most * (u * u);
    assert(8 * (size(f * u - w * s) * 0x100_0000) <= 2295 * m);
    assert(size(w * s - w * (e * u)) * 0x100_0000 <= 736 * m) by (nonlinear_arith)
        requires
            size(e * u - s) * 0x100_0000 <= 32 * (u * u),
            0 <= w <= 23 * most,
            m == most * (u * u),
            u > 0,
    {
        let (g, z) = (e * u - s, u * u);
        assert(w * s - w * (e * u) == -(w * g)) by (nonlinear_arith)
            requires
                g == e * u - s,
        ;
        assert(size(w * g) == w * size(g)) by (nonlinear_arith)
            requires
                w >= 0,
        ;
        assert(w * (size(g) * 0x100_0000) <= (23 * most) * (32 * z)) by (nonlinear_arith)
            requires
                0 <= w <= 23 * most,
                0 <= size(g) * 0x100_0000 <= 32 * z,
        ;
        assert(w * (size(g) * 0x100_0000) == (w * size(g)) * 0x100_0000) by (nonlinear_arith);
        assert((23 * most) * (32 * z) == 736 * (most * z)) by (nonlinear_arith);
    }
    assert(m >= 0) by (nonlinear_arith)
        requires
            m == most * (u * u),
            most > 0,
            u > 0,
    ;
    let off = f - w * e;
    assert(off * u == f * u - w * (e * u)) by (nonlinear_arith)
        requires
            off == f - w * e,
    ;
    assert(size(off * u) * 0x100_0000 <= 1024 * m);
    assert(size(off) * 0x100_0000 <= 1024 * (most * u)) by (nonlinear_arith)
        requires
            size(off * u) * 0x100_0000 <= 1024 * m,
            m == most * (u * u),
            u > 0,
    {
        assert(size(off * u) == size(off) * u) by (nonlinear_arith)
            requires
                u > 0,
        ;
        assert((size(off) * 0x100_0000) * u <= (1024 * (most * u)) * u) by (nonlinear_arith)
            requires
                (size(off) * u) * 0x100_0000 <= 1024 * m,
                m == most * (u * u),
        ;
        assert(size(off) * 0x100_0000 <= 1024 * (most * u)) by (nonlinear_arith)
            requires
                (size(off) * 0x100_0000) * u <= (1024 * (most * u)) * u,
                u > 0,
        ;
    }
}

/// A term of the side that a point lies on.
proof fn lemma_scaled_term(n: int, h: int, o: int, d: int, t: int, most: int, u: int)
    requires
        u > 0,
        most > 0,
        8 * size(n) <= 9 * u,
        size(h * u - o * u - d * t) * 0x100_0000 <= 85 * (most * u),
    ensures
        8 * (size(u * (n * (h - o)) - t * (n * d)) * 0x100_0000) <= 765 * (most * (u * u)),
{
    let (x, y) = (h * u - o * u, d * t);
    assert(most * u > 0) by (nonlinear_arith)
        requires
            most > 0,
            u > 0,
    ;
    lemma_way_term(n, x, y, 85 * (most * u), u);
    assert(n * x == u * (n * (h - o))) by (nonlinear_arith)
        requires
            x == h * u - o * u,
    ;
    assert(n * y == t * (n * d)) by (nonlinear_arith)
        requires
            y == d * t,
    ;
    assert(9 * ((85 * (most * u)) * u) == 765 * (most * (u * u))) by (nonlinear_arith);
}

/// Both sides of a product with a rounded difference.
proof fn lemma_side_sign(n: int, x: int, y: int)
    requires
        n * y <= 0,
        y <= 0 ==> x <= 0,
        y >= 0 ==> x >= 0,
    ensures
        n * x <= 0,
{
    assert(n * x <= 0) by (nonlinear_arith)
        requires
            n * y <= 0,
            y <= 0 ==> x <= 0,
            y >= 0 ==> x >= 0,
    ;
}

/// A term of the inner product of a normal and the way to a point.
pub proof fn lemma_plane_term(n: Scalar, p: Scalar, o: Scalar, r: int, q: int)
    requires
        is_finite(n),
        is_finite(p),
        is_finite(o),
        8 * size(value(n)) <= 9 * unit(),
        size(value(p) - value(o)) <= r,
        0 < r <= pow2(100) * unit(),
        4 * q >= 5 * r,
    ensures
        ({
            let x = difference(p, o);
            &&& is_finite(x)
            &&& size(value(n) * value(x)) <= q * unit()
            &&& 8 * (size(value(n) * value(x) - value(n) * (value(p) - value(o))) * 0x100_0000) <= 8 * (q * unit())
            &&& value(n) * (value(p) - value(o)) <= 0 ==> value(n) * value(x) <= 0
        }),
{
    lemma_one();
    lemma_small_difference(p, o, r);
    let (v, x, y, u) = (value(n), value(difference(p, o)), value(p) - value(o), unit());
    if v * y <= 0 {
        lemma_side_sign(v, x, y);
    }
    lemma_way_term(v, x, y, size(x), u);
    assert(size(v * x) <= q * u) by (nonlinear_arith)
        requires
            8 * size(v) <= 9 * u,
            16 * size(x) <= 17 * r,
            4 * q >= 5 * r,
            r > 0,
            u > 0,
    {
        assert(size(v * x) == size(v) * size(x)) by (nonlinear_arith);
        assert((8 * size(v)) * (16 * size(x)) <= (9 * u) * (17 * r)) by (nonlinear_arith)
            requires
                0 <= 8 * size(v) <= 9 * u,
                0 <= 16 * size(x) <= 17 * r,
        ;
        assert((8 * size(v)) * (16 * size(x)) == 128 * (size(v) * size(x))) by (nonlinear_arith);
        assert((9 * u) * (17 * r) == 153 * (r * u)) by (nonlinear_arith);
        assert(5 * (r * u) <= 4 * (q * u)) by (nonlinear_arith)
            requires
                4 * q >= 5 * r,
                u > 0,
        ;
        assert(r * u > 0) by (nonlinear_arith)
            requires
                r > 0,
                u > 0,
        ;
    }
    assert(9 * (size(x) * u) <= 8 * (q * u)) by (nonlinear_arith)
        requires
            16 * size(x) <= 17 * r,
            4 * q >= 5 * r,
            r > 0,
            u > 0,
    ;
}

/// How far along a ray a plane lies that faces it.
#[verifier::rlimit(30)]
proof fn lemma_distance(n: Vec3, ray: Ray, p: Vec3, r: int, q: int)
    requires
        faces(n, ray.direction),
        is_finite(ray.origin.x) && is_finite(ray.origin.y) && is_finite(ray.origin.z),
        is_finite(p.x) && is_finite(p.y) && is_finite(p.z),
        size(value(p.x) - value(ray.origin.x)) <= r,
        size(value(p.y) - value(ray.origin.y)) <= r,
        size(value(p.z) - value(ray.origin.z)) <= r,
        0x100_0000 <= r,
        4 * q >= 5 * r,
        8 * q <= pow2(100) * unit(),
    ensures
        ({
            let (t, o) = (plane_distance(ray, p, n), ray.origin);
            let e = value(inner(n, ray.direction));
            &&& is_finite(t)
            &&& size(value(t)) <= 7 * q
            &&& size(value(t) * e - exact_side(n, p, o)) * 0x100_0000 <= -e * (8 * q) + 19 * (q * unit())
            &&& value(n.x) * (value(p.x) - value(o.x)) <= 0 && value(n.y) * (value(p.y) - value(o.y)) <= 0
                && value(n.z) * (value(p.z) - value(o.z)) <= 0 ==> value(t) >= 0
        }),
{
    lemma_one();
    let o = ray.origin;
    lemma_plane_term(n.x, p.x, o.x, r, q);
    lemma_plane_term(n.y, p.y, o.y, r, q);
    lemma_plane_term(n.z, p.z, o.z, r, q);
    let way = vector_difference(p, o);
    lemma_small_inner(n, way, q);
    let (a, b) = (inner(n, way), inner(n, ray.direction));
    let (e, u, v) = (value(b), unit(), value(a));
    assert(size(v * u - exact_side(n, p, o)) * 0x100_0000 <= 19 * (q * u));
    assert(size(v) * u <= -e * (7 * q)) by (nonlinear_arith)
        requires
            size(v) <= 4 * q,
            8 * e <= -5 * u,
            u > 0,
            q > 0,
    {
        assert(size(v) * u <= (4 * q) * u) by (nonlinear_arith)
            requires
                size(v) <= 4 * q,
                u > 0,
        ;
        assert((5 * u) * (7 * q) <= (-8 * e) * (7 * q)) by (nonlinear_arith)
            requires
                8 * e <= -5 * u,
                q > 0,
        ;
        assert((5 * u) * (7 * q) == 35 * (q * u)) by (nonlinear_arith);
        assert((4 * q) * u == 4 * (q * u)) by (nonlinear_arith);
        assert((-8 * e) * (7 * q) == 8 * (-e * (7 * q))) by (nonlinear_arith);
        assert(q * u > 0) by (nonlinear_arith)
            requires
                q > 0,
                u > 0,
        ;
    }
    lemma_small_quotient(a, b, 7 * q);
    let t = value(quotient(a, b));
    lemma_nearer_distance(t, e, v, q, u);
    assert(-e * (size(t) + 0x80_0000) <= -e * (8 * q)) by (nonlinear_arith)
        requires
            size(t) <= 7 * q,
            q >= 0x80_0000,
            e < 0,
    ;
}

/// A bound on a quotient, from how far it is off.
proof fn lemma_nearer_distance(t: int, e: int, v: int, q: int, u: int)
    requires
        u > 0,
        q >= 0x100_0000,
        8 * e <= -5 * u,
        size(v) <= 4 * q,
        size(t * e - v * u) * 0x100_0000 <= -e * (size(t) + 0x80_0000),
    ensures
        size(t) <= 7 * q,
{
    let (s, d) = (size(t), -e);
    assert(size(t * e) == s * d) by (nonlinear_arith)
        requires
            s == size(t),
            d == -e,
            d > 0,
    ;
    assert(size(v * u) == size(v) * u) by (nonlinear_arith)
        requires
            u > 0,
    ;
    assert(5 * (size(v) * u) <= 32 * (q * d)) by (nonlinear_arith)
        requires
            0 <= size(v) <= 4 * q,
            5 * u <= 8 * d,
            u > 0,
    {
        assert(size(v) * (5 * u) <= (4 * q) * (8 * d)) by (nonlinear_arith)
            requires
                0 <= size(v) <= 4 * q,
                0 <= 5 * u <= 8 * d,
        ;
        assert(size(v) * (5 * u) == 5 * (size(v) * u)) by (nonlinear_arith);
        assert((4 * q) * (8 * d) == 32 * (q * d)) by (nonlinear_arith);
    }
    assert((s * d) * 0x100_0000 <= (size(v) * u) * 0x100_0000 + d * (s + 0x80_0000));
    assert(d * (5 * (s * 0xff_ffff)) <= d * (q * 0x2000_0000 + 5 * 0x80_0000)) by (nonlinear_arith)
        requires
            (s * d) * 0x100_0000 <= (size(v) * u) * 0x100_0000 + d * (s + 0x80_0000),
            5 * (size(v) * u) <= 32 * (q * d),
    ;
    assert(5 * (s * 0xff_ffff) <= q * 0x2000_0000 + 5 * 0x80_0000) by (nonlinear_arith)
        requires
            d * (5 * (s * 0xff_ffff)) <= d * (q * 0x2000_0000 + 5 * 0x80_0000),
            d > 0,
    ;
}

/// Whether a ray and the centre of a ball are of ordinary size: the direction has about
/// length 1, and no coordinate is larger than `most`, which is itself at least 1 and far
/// from overflow.
pub open spec fn ordinary_pick(center: Vec3, ray: Ray, most: int) -> bool {
    &&& near_unit(pure(ray.direction), 64)
    &&& unit() <= most <= pow2(80) * unit()
    &&& reaches(ray.origin, most)
    &&& reaches(center, most)
}

/// The normal of the plane through the ball that faces a ray.
pub open spec fn facing_normal(ray: Ray) -> Vec3 {
    vector_opposite(direction(ray.direction))
}

/// The size of ordinary coordinates leaves room for what is computed from them.
pub proof fn lemma_room(most: int)
    requires
        unit() <= most <= pow2(80) * unit(),
    ensures
        0x100_0000 <= most,
        1000 * most <= pow2(100) * unit(),
{
    lemma_tiny();
    lemma2_to64();
    lemma_pow2_adds(80, 20);
    let (p, u) = (pow2(80) as int, unit());
    assert(1000 * most <= pow2(100) * u) by (nonlinear_arith)
        requires
            most <= p * u,
            pow2(100) == p * 0x10_0000,
            0 < most,
    ;
}

/// A plane that faces a ray does not run along it.
pub proof fn lemma_not_parallel(n: Vec3, d: Vec3)
    requires
        faces(n, d),
    ensures
        !less(absolute(inner(n, d)), PARALLEL),
{
    lemma_limit_values();
    lemma_magnitude_zero(inner(n, d));
    lemma_magnitude_zero(PARALLEL);
    lemma_spread_order(PARALLEL as int, HALF as int);
    assert(unsigned(absolute(inner(n, d))) == unsigned(inner(n, d)));
}

/// The distance of the plane through the ball along the ray, and the side of the origin
/// that the ball lies on.
pub proof fn lemma_ball_distance(center: Vec3, ray: Ray, most: int)
    requires
        ordinary_pick(center, ray, most),
    ensures
        ({
            let n = facing_normal(ray);
            let t = plane_distance(ray, center, n);
            let e = value(inner(n, ray.direction));
            &&& world_position(center) == center
            &&& faces(n, ray.direction)
            &&& is_finite(t)
            &&& size(value(t)) <= 21 * most
            &&& size(value(t) * e - exact_side(n, center, ray.origin)) * 0x100_0000 <= 249 * (most * unit())
        }),
{
    lemma_one();
    lemma_room(most);
    lemma_one_is_neutral(center.x);
    lemma_one_is_neutral(center.y);
    lemma_one_is_neutral(center.z);
    lemma_facing(ray.direction);
    let n = facing_normal(ray);
    lemma_distance(n, ray, center, 2 * most, 3 * most);
    let (e, u) = (value(inner(n, ray.direction)), unit());
    assert(-e * (8 * (3 * most)) <= 192 * (most * u)) by (nonlinear_arith)
        requires
            -8 * u <= e,
            most > 0,
    ;
    assert((3 * most) * u == 3 * (most * u)) by (nonlinear_arith);
}

/// A ball is picked exactly where the plane through it that faces the ray does not lie
/// behind the origin of the ray; the ray never runs along that plane.
pub proof fn lemma_picked_ahead(center: Vec3, ray: Ray, most: int)
    requires
        ordinary_pick(center, ray, most),
    ensures
        facing_plane(center, Some(ray)).is_some() <==> value(plane_distance(ray, center, facing_normal(ray))) >= 0,
{
    lemma_limit_values();
    lemma_ball_distance(center, ray, most);
    lemma_not_parallel(facing_normal(ray), ray.direction);
}

/// The point that a ray picks on the plane through the ball lies on that plane, but for at
/// most a part in 8192 of the largest coordinate.
pub proof fn lemma_picked_on_plane(center: Vec3, ray: Ray, most: int)
    requires
        ordinary_pick(center, ray, most),
    ensures
        facing_plane(center, Some(ray)) matches Some((normal, hit)) ==> reaches(hit, 33 * most) && size(
            exact_side(normal, hit, center),
        ) * 0x2000 <= most * unit(),
{
    lemma_limit_values();
    lemma_room(most);
    lemma_ball_distance(center, ray, most);
    let n = facing_normal(ray);
    let t = plane_distance(ray, center, n);
    if let Some((normal, hit)) = facing_plane(center, Some(ray)) {
        lemma_side_of_point(n, ray, t, most);
        lemma_sides(n, hit, center, ray.origin);
        let m = most * unit();
        assert(m > 0) by (nonlinear_arith)
            requires
                m == most * unit(),
                most > 0,
                unit() > 0,
        ;
    }
}

/// Sides add up along a way.
pub proof fn lemma_sides(n: Vec3, a: Vec3, b: Vec3, c: Vec3)
    ensures
        exact_side(n, a, b) == exact_side(n, a, c) - exact_side(n, b, c),
{
    lemma_sides_of(value(n.x), value(a.x), value(b.x), value(c.x));
    lemma_sides_of(value(n.y), value(a.y), value(b.y), value(c.y));
    lemma_sides_of(value(n.z), value(a.z), value(b.z), value(c.z));
}

/// A term of those sides.
proof fn lemma_sides_of(n: int, a: int, b: int, c: int)
    ensures
        n * (a - b) == n * (a - c) - n * (b - c),
{
    assert(n * (a - b) == n * (a - c) - n * (b - c)) by (nonlinear_arith);
}

/// A point along a ray does not lie before the origin, seen from a plane that faces it.
proof fn lemma_ahead(n: Scalar, d: Scalar, h: int, o: int)
    requires
        opposed(n, d),
        value(d) >= 0 ==> h >= o,
        value(d) <= 0 ==> h <= o,
    ensures
        value(n) * (h - o) <= 0,
{
    let (v, w) = (value(n), h - o);
    assert(v * w <= 0) by (nonlinear_arith)
        requires
            (v <= 0 && w >= 0) || (v >= 0 && w <= 0),
    ;
}

/// Two distances to the same plane, as far apart as the sides show.
proof fn lemma_distances(t: int, s: int, e: int, f: int, most: int, u: int)
    requires
        u > 0,
        most > 0,
        8 * e <= -5 * u,
        size(f - t * e) * 0x100_0000 <= 1024 * (most * u),
        size(s * e - f) * 0x100_0000 <= -e * (344 * most) + 817 * (most * u),
    ensures
        size(s - t) * 0x100_0000 <= 3290 * most,
{
    let (g, d) = (s - t, -e);
    assert(s * e - t * e == -(g * d)) by (nonlinear_arith)
        requires
            g == s - t,
            d == -e,
    ;
    assert(size(g * d) == size(g) * d) by (nonlinear_arith)
        requires
            d > 0,
    ;
    assert(5 * (most * u) <= 8 * (d * most)) by (nonlinear_arith)
        requires
            5 * u <= 8 * d,
            most > 0,
    ;
    assert(d * (344 * most) == 344 * (d * most)) by (nonlinear_arith);
    assert(d * most > 0) by (nonlinear_arith)
        requires
            d > 0,
            most > 0,
    ;
    assert((size(g) * d) * 0x100_0000 <= 3290 * (d * most));
    assert(size(g) * 0x100_0000 <= 3290 * most) by (nonlinear_arith)
        requires
            (size(g) * d) * 0x100_0000 <= 3290 * (d * most),
            d > 0,
    {
        assert(d * (size(g) * 0x100_0000) <= d * (3290 * most)) by (nonlinear_arith)
            requires
                (size(g) * d) * 0x100_0000 <= 3290 * (d * most),
        ;
        assert(size(g) * 0x100_0000 <= 3290 * most) by (nonlinear_arith)
            requires
                d * (size(g) * 0x100_0000) <= d * (3290 * most),
                d > 0,
        ;
    }
}

/// A coordinate of two points along a ray whose distances are close.
proof fn lemma_points_close(o: Scalar, d: Scalar, t: Scalar, s: Scalar, most: int)
    requires
        is_finite(o),
        is_finite(d),
        is_finite(t),
        is_finite(s),
        0x100_0000 <= most,
        1000 * most <= pow2(100) * unit(),
        size(value(o)) <= most,
        8 * size(value(d)) <= 9 * unit(),
        0 <= value(t) <= 23 * most,
        0 <= value(s) <= 23 * most,
        size(value(s) - value(t)) * 0x100_0000 <= 3290 * most,
    ensures
        size(value(sum(o, product(d, s))) - value(sum(o, product(d, t)))) * 0x1000 <= most,
{
    lemma_one();
    lemma_reached(o, d, t, most);
    lemma_reached(o, d, s, most);
    let (u, a, b) = (unit(), value(sum(o, product(d, s))), value(sum(o, product(d, t))));
    let (v, x, y) = (value(d), value(s), value(t));
    let g = a - b;
    assert(a * u - b * u == g * u) by (nonlinear_arith)
        requires
            g == a - b,
    ;
    assert(most * u > 0) by (nonlinear_arith)
        requires
            most > 0,
            u > 0,
    ;
    lemma_way_term(v, x, y, 3290 * most, u);
    assert(9 * ((3290 * most) * u) == 29610 * (most * u)) by (nonlinear_arith);
    assert(size(g * u) * 0x100_0000 <= 4096 * (most * u));
    assert(size(g) * 0x1000 <= most) by (nonlinear_arith)
        requires
            size(g * u) * 0x100_0000 <= 4096 * (most * u),
            u > 0,
    {
        assert(size(g * u) == size(g) * u) by (nonlinear_arith)
            requires
                u > 0,
        ;
        assert(u * (size(g) * 0x1000) <= u * most) by (nonlinear_arith)
            requires
                (size(g) * u) * 0x100_0000 <= 4096 * (most * u),
        ;
        assert(size(g) * 0x1000 <= most) by (nonlinear_arith)
            requires
                u * (size(g) * 0x1000) <= u * most,
                u > 0,
        ;
    }
}

/// Whether two points differ along no axis by more than a part in `parts` of `most`.
pub open spec fn close(a: Vec3, b: Vec3, most: int, parts: int) -> bool {
    &&& size(value(a.x) - value(b.x)) * parts <= most
    &&& size(value(a.y) - value(b.y)) * parts <= most
    &&& size(value(a.z) - value(b.z)) * parts <= most
}

/// A plane laid through the point that a ray picked is met by that ray again, in a point
/// that differs along each axis by at most a part in 4096 of the largest coordinate; so
/// does its distance along the ray.
#[verifier::rlimit(30)]
pub proof fn lemma_picked_again(center: Vec3, ray: Ray, most: int)
    requires
        ordinary_pick(center, ray, most),
    ensures
        facing_plane(center, Some(ray)) matches Some((normal, hit)) ==> {
            &&& plane_hit(ray, hit, normal) matches Some(again)
            &&& reaches(again, 33 * most)
            &&& close(again, hit, most, 0x1000)
            &&& size(
                value(plane_distance(ray, hit, normal)) - value(plane_distance(ray, world_position(center), normal)),
            ) * 0x1000 <= most
        },
{
    lemma_limit_values();
    lemma_room(most);
    lemma_ball_distance(center, ray, most);
    let n = facing_normal(ray);
    let (o, d) = (ray.origin, ray.direction);
    let t = plane_distance(ray, center, n);
    if let Some((normal, hit)) = facing_plane(center, Some(ray)) {
        assert(0 <= value(t));
        lemma_side_of_point(n, ray, t, most);
        lemma_reached(o.x, d.x, t, most);
        lemma_reached(o.y, d.y, t, most);
        lemma_reached(o.z, d.z, t, most);
        lemma_ahead(n.x, d.x, value(hit.x), value(o.x));
        lemma_ahead(n.y, d.y, value(hit.y), value(o.y));
        lemma_ahead(n.z, d.z, value(hit.z), value(o.z));
        lemma_distance(n, ray, hit, 34 * most, 43 * most);
        let s = plane_distance(ray, hit, n);
        let (e, u) = (value(inner(n, d)), unit());
        assert(8 * (43 * most) == 344 * most);
        assert(19 * ((43 * most) * u) == 817 * (most * u)) by (nonlinear_arith);
        lemma_distances(value(t), value(s), e, exact_side(n, hit, o), most, u);
        lemma_not_parallel(n, d);
        lemma_points_close(o.x, d.x, t, s, most);
        lemma_points_close(o.y, d.y, t, s, most);
        lemma_points_close(o.z, d.z, t, s, most);
        lemma_side_of_point(n, ray, s, most);
    }
}

/// A coordinate that follows a small movement, and is held between limits that it was
/// between before.
proof fn lemma_coordinate_follows(c: Scalar, again: Scalar, hit: Scalar, low: Scalar, high: Scalar, most: int)
    requires
        is_finite(c),
        is_finite(again),
        is_finite(hit),
        !is_nan(low),
        !is_nan(high),
        value(low) <= value(c) <= value(high),
        size(value(c)) <= most,
        0x100_0000 <= most,
        1000 * most <= pow2(100) * unit(),
        size(value(again) - value(hit)) * 0x1000 <= most,
    ensures
        ({
            let place = quotient(clamped(sum(c, difference(again, hit)), low, high), ONE);
            size(value(place) - value(c)) * 0x800 <= most
        }),
{
    lemma_one();
    let step = size(value(again) - value(hit));
    lemma_small_difference(again, hit, step);
    let moved = difference(again, hit);
    lemma_small_sum(c, moved, size(value(c) + value(moved)));
    let place = sum(c, moved);
    lemma_magnitude_zero(place);
    lemma_one_is_neutral(clamped(place, low, high));
}

/// A press of the button does not move the ball, whatever it takes hold of: a ball that is
/// grabbed stays where it is, but for at most a part in 2048 of the largest coordinate.
pub proof fn lemma_grabbed_ball_stays(state: WaterState, input: InputFrame, ray: Ray, most: int)
    requires
        input.left_pressed,
        input.ray == Some(ray),
        inside_pool(state.ball_center),
        at_most(state.ball_center.y, CEILING_LIMIT),
        ordinary_pick(state.ball_center, ray, most),
    ensures
        close(state.after_input(input).ball_center, state.ball_center, most, 0x800),
{
    lemma_limit_values();
    lemma_room(most);
    let c = state.ball_center;
    lemma_picked_on_plane(c, ray, most);
    lemma_picked_again(c, ray, most);
    lemma_ball_distance(c, ray, most);
    if let Some((normal, hit)) = facing_plane(c, Some(ray)) {
        if let Some(again) = plane_hit(ray, hit, normal) {
            lemma_coordinate_follows(c.x, again.x, hit.x, NEGATIVE_SIDE_LIMIT, SIDE_LIMIT, most);
            lemma_coordinate_follows(c.y, again.y, hit.y, FLOOR_LIMIT, CEILING_LIMIT, most);
            lemma_coordinate_follows(c.z, again.z, hit.z, NEGATIVE_SIDE_LIMIT, SIDE_LIMIT, most);
        }
    }
}

} // verus!
