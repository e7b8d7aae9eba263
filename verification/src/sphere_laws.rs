//! When the cursor is on the ball: a ray that clearly meets the sphere ahead of its origin
//! takes hold of it, and one that clearly misses it, or leaves it behind, does not.

use crate::arithmetic::{difference, opposite, product, quotient, root, size, unit};
use crate::ball_laws::lemma_opposite;
use crate::bounds::{is_finite, lemma_dyadic, lemma_one_is_neutral};
use crate::constants::{FOUR, SPHERE_RADIUS, TWO};
use crate::limits::lemma_limit_values;
use crate::motion_laws::{
    lemma_factor_off, lemma_far_from_overflow, lemma_small_ratio, lemma_without_factor,
};
use crate::picking_laws::{
    exact_inner, exact_side, lemma_small_difference, lemma_small_inner, lemma_small_product,
    lemma_unit_components, lemma_unit_product, reaches,
};
use crate::plugin::{hits_sphere, pressed_on, sphere_discriminant, DragMode, Ray};
use crate::press_laws::{lemma_press_on_pool, over_pool};
use crate::ranges::{lemma_power, lemma_root_within, power};
use crate::rotation_laws::{
    lemma_root_error, lemma_square_nonnegative, lemma_tiny, near_unit, pure, TINY,
};
use crate::rounding::{lemma_rounded_root_between, lemma_spread_at, rounded_root};
use crate::scalar::{
    is_nan, lemma_magnitude_zero, lemma_spread_order, less, spread, unsigned, value, Scalar, ZERO,
};
use crate::vector::{inner, vector_difference, Vec3};
use vstd::arithmetic::power2::{
    lemma2_to64, lemma2_to64_rest, lemma_pow2_adds, lemma_pow2_strictly_increases, pow2,
};
use vstd::prelude::*;

verus! {

/// Whether a ray and a ball are of ordinary size: the direction has about length 1, and no
/// coordinate is larger than `k`, which is at most a thousand.
pub open spec fn ordinary_aim(center: Vec3, ray: Ray, k: int) -> bool {
    &&& near_unit(pure(ray.direction), 64)
    &&& 1 <= k <= 0x400
    &&& reaches(ray.origin, k * unit())
    &&& reaches(center, k * unit())
}

/// The exact square of the distance from the origin of a ray to a centre.
pub open spec fn exact_distance(center: Vec3, ray: Ray) -> int {
    let (o, c) = (ray.origin, center);
    (value(o.x) - value(c.x)) * (value(o.x) - value(c.x)) + (value(o.y) - value(c.y)) * (value(o.y) - value(c.y)) + (
    value(o.z) - value(c.z)) * (value(o.z) - value(c.z))
}

/// How far outside a ball of radius a quarter the origin of a ray is: sixteen times the
/// square of the distance less that of the radius.
pub open spec fn outside(center: Vec3, ray: Ray) -> int {
    16 * exact_distance(center, ray) - unit() * unit()
}

/// How much a ray goes away from a centre, in terms of its direction.
pub open spec fn away(center: Vec3, ray: Ray) -> int {
    exact_side(ray.direction, ray.origin, center)
}

/// Sixteen times by how much the line of a ray meets a ball of radius a quarter: the square
/// of what it goes towards the centre less what it would have to go.
pub open spec fn meets(center: Vec3, ray: Ray) -> int {
    16 * (away(center, ray) * away(center, ray)) - exact_inner(ray.direction, ray.direction) * outside(center, ray)
}

/// A coordinate of the way from a centre to the origin of a ray.
proof fn lemma_offset(o: Scalar, c: Scalar, d: Scalar, k: int)
    requires
        is_finite(o) && size(value(o)) <= k * unit(),
        is_finite(c) && size(value(c)) <= k * unit(),
        is_finite(d) && 8 * size(value(d)) <= 9 * unit(),
        1 <= k <= 0x400,
    ensures
        ({
            let (f, e, u) = (difference(o, c), value(o) - value(c), unit());
            let kk = k * k;
            &&& is_finite(f)
            &&& 8 * size(value(f)) <= 17 * (k * u)
            &&& size(value(f) - e) * 0x100_0000 <= size(value(f))
            &&& size(value(f) * value(d)) <= (3 * k * u) * u
            &&& 64 * (size(value(f) * value(d) - e * value(d)) * 0x100_0000) <= 153 * (k * (u * u))
            &&& size(value(f) * value(f)) <= (5 * kk * u) * u
            &&& size(value(f) * value(f) - e * e) * 0x100_0000 <= 9 * (kk * (u * u))
        }),
{
    lemma_limit_values();
    lemma_far_from_overflow();
    let (u, e) = (unit(), value(o) - value(c));
    let (m, kk) = (k * u, k * k);
    assert(u <= m <= 0x400 * u) by (nonlinear_arith)
        requires
            m == k * u,
            1 <= k <= 0x400,
            u > 0,
    ;
    lemma_small_difference(o, c, 2 * m);
    let (f, v) = (value(difference(o, c)), value(d));
    let uu = u * u;
    assert(m * u == k * uu && m * m == kk * uu) by (nonlinear_arith)
        requires
            m == k * u,
            kk == k * k,
            uu == u * u,
    ;
    assert(uu > 0) by (nonlinear_arith)
        requires
            uu == u * u,
            u > 0,
    ;
    assert(kk >= 1) by (nonlinear_arith)
        requires
            kk == k * k,
            k >= 1,
    ;
    assert(k * uu > 0 && kk * uu > 0) by (nonlinear_arith)
        requires
            k >= 1,
            kk >= 1,
            uu > 0,
    ;
    assert((3 * k * u) * u == 3 * (k * uu) && (5 * kk * u) * u == 5 * (kk * uu)) by (nonlinear_arith)
        requires
            uu == u * u,
    ;
    assert(64 * size(f * v) <= 153 * (m * u)) by (nonlinear_arith)
        requires
            8 * size(f) <= 17 * m,
            8 * size(v) <= 9 * u,
    {
        assert(size(f * v) == size(f) * size(v)) by (nonlinear_arith);
        assert((8 * size(f)) * (8 * size(v)) <= (17 * m) * (9 * u)) by (nonlinear_arith)
            requires
                0 <= 8 * size(f) <= 17 * m,
                0 <= 8 * size(v) <= 9 * u,
        ;
        assert((8 * size(f)) * (8 * size(v)) == 64 * (size(f) * size(v)) && (17 * m) * (9 * u) == 153 * (m * u))
            by (nonlinear_arith);
    }
    let g = f - e;
    assert(f * v - e * v == g * v) by (nonlinear_arith)
        requires
            g == f - e,
    ;
    assert(64 * (size(g * v) * 0x100_0000) <= 153 * (m * u)) by (nonlinear_arith)
        requires
            8 * (size(g) * 0x100_0000) <= 17 * m,
            8 * size(v) <= 9 * u,
    {
        assert(size(g * v) == size(g) * size(v)) by (nonlinear_arith);
        assert((8 * (size(g) * 0x100_0000)) * (8 * size(v)) <= (17 * m) * (9 * u)) by (nonlinear_arith)
            requires
                0 <= 8 * (size(g) * 0x100_0000) <= 17 * m,
                0 <= 8 * size(v) <= 9 * u,
        ;
        assert((8 * (size(g) * 0x100_0000)) * (8 * size(v)) == 64 * ((size(g) * size(v)) * 0x100_0000))
            by (nonlinear_arith);
        assert((17 * m) * (9 * u) == 153 * (m * u)) by (nonlinear_arith);
    }
    assert(size(f * f) * 64 <= 289 * (m * m)) by (nonlinear_arith)
        requires
            8 * size(f) <= 17 * m,
    ;
    assert(f * f - e * e == g * (f + e)) by (nonlinear_arith)
        requires
            g == f - e,
    ;
    let h = f + e;
    assert(size(h) <= 5 * m - size(g));
    assert(64 * (size(g * h) * 0x100_0000) <= 576 * (m * m)) by (nonlinear_arith)
        requires
            8 * (size(g) * 0x100_0000) <= 17 * m,
            8 * size(h) <= 33 * m + size(g),
            8 * size(g) <= m,
            m > 0,
    {
        assert(size(g * h) == size(g) * size(h)) by (nonlinear_arith);
        assert((8 * (size(g) * 0x100_0000)) * (64 * size(h)) <= (17 * m) * (265 * m)) by (nonlinear_arith)
            requires
                0 <= 8 * (size(g) * 0x100_0000) <= 17 * m,
                0 <= 64 * size(h) <= 265 * m,
        ;
        assert((8 * (size(g) * 0x100_0000)) * (64 * size(h)) == 512 * ((size(g) * size(h)) * 0x100_0000))
            by (nonlinear_arith);
        assert((17 * m) * (265 * m) == 4505 * (m * m)) by (nonlinear_arith);
        assert(m * m > 0) by (nonlinear_arith)
            requires
                m > 0,
        ;
    }
}

/// The coefficients of the quadratic equation for the distance along a ray.
pub open spec fn coefficients(center: Vec3, ray: Ray) -> (Scalar, Scalar, Scalar) {
    let offset = vector_difference(ray.origin, center);
    (
        inner(ray.direction, ray.direction),
        product(TWO, inner(offset, ray.direction)),
        difference(inner(offset, offset), product(SPHERE_RADIUS, SPHERE_RADIUS)),
    )
}

/// What the coefficients denote.
spec fn near_coefficients(center: Vec3, ray: Ray, k: int) -> bool {
    let (a, b, c) = coefficients(center, ray);
    let (u, kk) = (unit(), k * k);
    &&& is_finite(a) && is_finite(b) && is_finite(c)
    &&& 31 * u <= 32 * value(a) <= 33 * u
    &&& size(value(a) * u - exact_inner(ray.direction, ray.direction)) * 0x100_0000 <= 32 * (u * u)
    &&& size(value(b)) <= 27 * (k * u)
    &&& size(value(b) * u - 2 * away(center, ray)) * 0x100_0000 <= 160 * (k * (u * u))
    &&& size(value(c)) <= 23 * (kk * u)
    &&& size(16 * (value(c) * u) - outside(center, ray)) * 0x100_0000 <= 2112 * (kk * (u * u))
}

/// The square of the length of the direction.
proof fn lemma_first_coefficient(d: Vec3)
    requires
        near_unit(pure(d), 64),
    ensures
        ({
            let (a, u) = (inner(d, d), unit());
            &&& is_finite(a)
            &&& 31 * u <= 32 * value(a) <= 33 * u
            &&& size(value(a) * u - exact_inner(d, d)) * 0x100_0000 <= 32 * (u * u)
        }),
{
    lemma_limit_values();
    lemma_far_from_overflow();
    lemma_unit_components(d);
    let u = unit();
    lemma_unit_product(value(d.x), value(d.x), u);
    lemma_unit_product(value(d.y), value(d.y), u);
    lemma_unit_product(value(d.z), value(d.z), u);
    lemma_small_inner(d, d, 2 * u);
    let (a, uu) = (value(inner(d, d)), u * u);
    assert(uu > 0) by (nonlinear_arith)
        requires
            uu == u * u,
            u > 0,
    ;
    assert(31 * uu <= 32 * (a * u) <= 33 * uu);
    assert(31 * u <= 32 * a <= 33 * u) by (nonlinear_arith)
        requires
            31 * uu <= 32 * (a * u) <= 33 * uu,
            uu == u * u,
            u > 0,
    ;
}

/// How much the ray goes away from the centre, as computed.
#[verifier::rlimit(30)]
proof fn lemma_second_coefficient(center: Vec3, ray: Ray, k: int)
    requires
        ordinary_aim(center, ray, k),
    ensures
        ({
            let (b, u) = (coefficients(center, ray).1, unit());
            &&& is_finite(b)
            &&& size(value(b)) <= 27 * (k * u)
            &&& size(value(b) * u - 2 * away(center, ray)) * 0x100_0000 <= 160 * (k * (u * u))
        }),
{
    lemma_limit_values();
    lemma_far_from_overflow();
    lemma_unit_components(ray.direction);
    let (o, c, d, u) = (ray.origin, center, ray.direction, unit());
    let (m, uu) = (k * u, u * u);
    assert(u <= m <= 0x400 * u) by (nonlinear_arith)
        requires
            m == k * u,
            1 <= k <= 0x400,
            u > 0,
    ;
    lemma_offset(o.x, c.x, d.x, k);
    lemma_offset(o.y, c.y, d.y, k);
    lemma_offset(o.z, c.z, d.z, k);
    let f = vector_difference(o, c);
    assert(3 * k * u == 3 * m && k * uu == m * u) by (nonlinear_arith)
        requires
            m == k * u,
            uu == u * u,
    ;
    lemma_small_inner(f, d, 3 * m);
    let i = inner(f, d);
    assert((3 * m) * u == 3 * (m * u)) by (nonlinear_arith);
    assert(m * u > 0) by (nonlinear_arith)
        requires
            m > 0,
            u > 0,
    ;
    assert((value(o.x) - value(c.x)) * value(d.x) == value(d.x) * (value(o.x) - value(c.x)) && (value(o.y) - value(
        c.y,
    )) * value(d.y) == value(d.y) * (value(o.y) - value(c.y)) && (value(o.z) - value(c.z)) * value(d.z) == value(d.z)
        * (value(o.z) - value(c.z))) by (nonlinear_arith);
    let away = away(center, ray);
    assert(size(value(i) * u - away) * 0x100_0000 <= 56 * (m * u));
    let t = value(TWO);
    assert(t * value(i) == 2 * (value(i) * u)) by (nonlinear_arith)
        requires
            t == 2 * u,
    ;
    assert(size(value(i) * u) <= 12 * (m * u)) by (nonlinear_arith)
        requires
            size(value(i)) <= 12 * m,
            u > 0,
    ;
    assert((24 * m) * u == 24 * (m * u)) by (nonlinear_arith);
    lemma_small_product(TWO, i, 24 * m);
}

/// How far outside the ball the origin is, as computed.
#[verifier::rlimit(30)]
proof fn lemma_third_coefficient(center: Vec3, ray: Ray, k: int)
    requires
        ordinary_aim(center, ray, k),
    ensures
        ({
            let (c, u, kk) = (coefficients(center, ray).2, unit(), k * k);
            &&& is_finite(c)
            &&& size(value(c)) <= 23 * (kk * u)
            &&& size(16 * (value(c) * u) - outside(center, ray)) * 0x100_0000 <= 2112 * (kk * (u * u))
        }),
{
    lemma_limit_values();
    lemma_far_from_overflow();
    lemma_unit_components(ray.direction);
    let (o, c, d, u) = (ray.origin, center, ray.direction, unit());
    let (kk, uu) = (k * k, u * u);
    let m = kk * u;
    assert(u <= m <= 0x10_0000 * u && 1 <= kk) by (nonlinear_arith)
        requires
            m == kk * u,
            kk == k * k,
            1 <= k <= 0x400,
            u > 0,
    {
        assert(1 <= k * k <= 0x10_0000) by (nonlinear_arith)
            requires
                1 <= k <= 0x400,
        ;
        assert(u <= kk * u <= 0x10_0000 * u) by (nonlinear_arith)
            requires
                1 <= kk <= 0x10_0000,
                u > 0,
        ;
    }
    lemma_offset(o.x, c.x, d.x, k);
    lemma_offset(o.y, c.y, d.y, k);
    lemma_offset(o.z, c.z, d.z, k);
    let f = vector_difference(o, c);
    assert(5 * kk * u == 5 * m && kk * uu == m * u) by (nonlinear_arith)
        requires
            m == kk * u,
            uu == u * u,
    ;
    lemma_small_inner(f, f, 5 * m);
    let g = inner(f, f);
    assert((5 * m) * u == 5 * (m * u)) by (nonlinear_arith);
    assert(uu <= m * u && uu > 0) by (nonlinear_arith)
        requires
            uu == u * u,
            u <= m,
            u > 0,
    ;
    let r = value(SPHERE_RADIUS);
    assert(16 * (r * r) == uu) by (nonlinear_arith)
        requires
            4 * r == u,
            uu == u * u,
    ;
    lemma_small_product(SPHERE_RADIUS, SPHERE_RADIUS, u);
    let rr = product(SPHERE_RADIUS, SPHERE_RADIUS);
    lemma_small_difference(g, rr, size(value(g) - value(rr)));
    let v = value(difference(g, rr));
    let h = v - (value(g) - value(rr));
    assert(size(v) <= 23 * m);
    assert(v * u == h * u + value(g) * u - value(rr) * u) by (nonlinear_arith)
        requires
            h == v - (value(g) - value(rr)),
    ;
    assert(size(h * u) * 0x100_0000 <= 23 * (m * u)) by (nonlinear_arith)
        requires
            size(h) * 0x100_0000 <= 23 * m,
            u > 0,
    {
        assert(size(h * u) == size(h) * u) by (nonlinear_arith)
            requires
                u > 0,
        ;
        assert((size(h) * 0x100_0000) * u <= (23 * m) * u) by (nonlinear_arith)
            requires
                size(h) * 0x100_0000 <= 23 * m,
                u > 0,
        ;
    }
}

/// The coefficients are near the exact ones.
proof fn lemma_coefficients(center: Vec3, ray: Ray, k: int)
    requires
        ordinary_aim(center, ray, k),
    ensures
        near_coefficients(center, ray, k),
{
    lemma_first_coefficient(ray.direction);
    lemma_second_coefficient(center, ray, k);
    lemma_third_coefficient(center, ray, k);
}

/// The discriminant against the squares and products that it is computed from.
#[verifier::rlimit(50)]
proof fn lemma_discriminant(a: Scalar, b: Scalar, c: Scalar, k: int)
    requires
        is_finite(a) && is_finite(b) && is_finite(c),
        1 <= k <= 0x400,
        31 * unit() <= 32 * value(a) <= 33 * unit(),
        size(value(b)) <= 27 * (k * unit()),
        size(value(c)) <= 23 * ((k * k) * unit()),
    ensures
        ({
            let f = product(FOUR, a);
            let disc = difference(product(b, b), product(f, c));
            let (u, kk) = (unit(), k * k);
            &&& is_finite(disc) && is_finite(f)
            &&& 3 * u <= value(f) <= 6 * u
            &&& size(value(f) - 4 * value(a)) * 0x100_0000 <= 10 * u
            &&& size(value(disc)) <= 1037 * (kk * u)
            &&& size(value(disc) * u - (value(b) * value(b) - value(f) * value(c))) * 0x100_0000 <= 2772 * (kk * (u
                * u))
        }),
{
    lemma_limit_values();
    lemma_far_from_overflow();
    lemma2_to64();
    lemma_dyadic(0x80_0000, 128, 21);
    let (u, kk) = (unit(), k * k);
    let (m, uu) = (kk * u, u * u);
    assert(u <= m <= 0x10_0000 * u && 1 <= kk <= 0x10_0000) by (nonlinear_arith)
        requires
            m == kk * u,
            kk == k * k,
            1 <= k <= 0x400,
            u > 0,
    {
        assert(1 <= k * k <= 0x10_0000) by (nonlinear_arith)
            requires
                1 <= k <= 0x400,
        ;
        assert(u <= kk * u <= 0x10_0000 * u) by (nonlinear_arith)
            requires
                1 <= kk <= 0x10_0000,
                u > 0,
        ;
    }
    assert(kk * uu == m * u) by (nonlinear_arith)
        requires
            m == kk * u,
            uu == u * u,
    ;
    let (av, bv, cv, fv) = (value(a), value(b), value(c), value(FOUR));
    // Four times the first coefficient.
    assert(fv * av == 4 * (av * u)) by (nonlinear_arith)
        requires
            fv == 4 * u,
    ;
    assert((5 * u) * u == 5 * uu && 4 * size(av * u) <= 5 * uu) by (nonlinear_arith)
        requires
            uu == u * u,
            0 <= 32 * av <= 33 * u,
            u > 0,
    ;
    lemma_small_product(FOUR, a, 5 * u);
    let f = value(product(FOUR, a));
    assert(size(f - 4 * av) * 0x100_0000 <= 10 * u) by {
        let g = f - 4 * av;
        assert(f * u - 4 * (av * u) == g * u) by (nonlinear_arith)
            requires
                g == f - 4 * av,
        ;
        assert((10 * u) * u == 10 * uu) by (nonlinear_arith)
            requires
                uu == u * u,
        ;
        lemma_without_factor(g, u, 10 * u);
    }
    // The square of the second.
    assert(size(bv * bv) <= 729 * (m * u)) by (nonlinear_arith)
        requires
            size(bv) <= 27 * (k * u),
            m == kk * u,
            kk == k * k,
    {
        let x = k * u;
        assert(size(bv * bv) <= 729 * (x * x)) by (nonlinear_arith)
            requires
                size(bv) <= 27 * x,
        ;
        assert(x * x == (kk * u) * u) by (nonlinear_arith)
            requires
                x == k * u,
                kk == k * k,
        ;
    }
    assert((729 * m) * u == 729 * (m * u) && (138 * m) * u == 138 * (m * u)) by (nonlinear_arith);
    lemma_small_product(b, b, 729 * m);
    // The product of the others.
    assert(size(f * cv) <= 138 * (m * u)) by (nonlinear_arith)
        requires
            0 <= f <= 6 * u,
            size(cv) <= 23 * m,
            u > 0,
    {
        assert(size(f * cv) == f * size(cv)) by (nonlinear_arith)
            requires
                f >= 0,
        ;
        assert(f * size(cv) <= (6 * u) * (23 * m)) by (nonlinear_arith)
            requires
                0 <= f <= 6 * u,
                0 <= size(cv) <= 23 * m,
        ;
        assert((6 * u) * (23 * m) == 138 * (m * u)) by (nonlinear_arith);
    }
    lemma_small_product(product(FOUR, a), c, 138 * m);
    let (bb, fc) = (product(b, b), product(product(FOUR, a), c));
    lemma_small_difference(bb, fc, size(value(bb) - value(fc)));
    let v = value(difference(bb, fc));
    let h = v - (value(bb) - value(fc));
    assert(size(v) <= 1037 * m);
    assert(v * u == h * u + value(bb) * u - value(fc) * u) by (nonlinear_arith)
        requires
            h == v - (value(bb) - value(fc)),
    ;
    assert(size(h * u) * 0x100_0000 <= 1037 * (m * u)) by (nonlinear_arith)
        requires
            size(h) * 0x100_0000 <= 1037 * m,
            u > 0,
    {
        assert(size(h * u) == size(h) * u) by (nonlinear_arith)
            requires
                u > 0,
        ;
        assert((size(h) * 0x100_0000) * u <= (1037 * m) * u) by (nonlinear_arith)
            requires
                size(h) * 0x100_0000 <= 1037 * m,
                u > 0,
        ;
    }
}

/// The discriminant against by how much the line of the ray meets the ball.
proof fn lemma_meets_near(
    disc: int,
    a: int,
    b: int,
    c: int,
    f: int,
    aa: int,
    away: int,
    out: int,
    k: int,
    u: int,
)
    requires
        u > 0,
        k >= 1,
        64 * aa <= 65 * (u * u),
        0 <= aa,
        size(a * u - aa) * 0x100_0000 <= 32 * (u * u),
        size(f - 4 * a) * 0x100_0000 <= 10 * u,
        size(b) <= 27 * (k * u),
        size(b * u - 2 * away) * 0x100_0000 <= 160 * (k * (u * u)),
        size(c) <= 23 * ((k * k) * u),
        size(16 * (c * u) - out) * 0x100_0000 <= 2112 * ((k * k) * (u * u)),
        size(disc * u - (b * b - f * c)) * 0x100_0000 <= 2772 * ((k * k) * (u * u)),
    ensures
        size(4 * (disc * (u * (u * u))) - (16 * (away * away) - aa * out)) * 0x100_0000 <= 61200 * ((k * k) * ((u * u)
            * (u * u))),
{
    let (w, kk) = (u * u, k * k);
    let m = kk * (w * w);
    assert(w > 0) by (nonlinear_arith)
        requires
            w == u * u,
            u > 0,
    ;
    assert(kk >= 1) by (nonlinear_arith)
        requires
            kk == k * k,
            k >= 1,
    ;
    assert(m > 0) by (nonlinear_arith)
        requires
            m == kk * (w * w),
            kk >= 1,
            w > 0,
    {
        assert(w * w > 0) by (nonlinear_arith)
            requires
                w > 0,
        ;
        assert(kk * (w * w) > 0) by (nonlinear_arith)
            requires
                kk >= 1,
                w * w > 0,
        ;
    }
    // The square of the second coefficient.
    let (x, y) = (b * u, 2 * away);
    assert(size(x) <= 27 * (k * w)) by (nonlinear_arith)
        requires
            x == b * u,
            size(b) <= 27 * (k * u),
            w == u * u,
            u > 0,
    {
        assert(size(b * u) == size(b) * u) by (nonlinear_arith)
            requires
                u > 0,
        ;
        assert(size(b) * u <= (27 * (k * u)) * u) by (nonlinear_arith)
            requires
                size(b) <= 27 * (k * u),
                u > 0,
        ;
        assert((27 * (k * u)) * u == 27 * (k * w)) by (nonlinear_arith)
            requires
                w == u * u,
        ;
    }
    assert(k * w > 0) by (nonlinear_arith)
        requires
            k >= 1,
            w > 0,
    ;
    lemma_factor_off(x, y, x + y, 160 * (k * w), 55 * (k * w));
    assert(x * (x + y) - y * (x + y) == x * x - y * y) by (nonlinear_arith);
    assert((160 * (k * w)) * (55 * (k * w)) == 8800 * m) by (nonlinear_arith)
        requires
            m == kk * (w * w),
            kk == k * k,
    ;
    assert(x * x == w * (b * b) && y * y == 4 * (away * away)) by (nonlinear_arith)
        requires
            x == b * u,
            y == 2 * away,
            w == u * u,
    ;
    // The product of the others.
    let (fu, cu) = (f * u, 16 * (c * u));
    assert(size(fu - 4 * aa) * 0x100_0000 <= 138 * w) by {
        let g = f - 4 * a;
        assert(f * u - 4 * (a * u) == g * u) by (nonlinear_arith)
            requires
                g == f - 4 * a,
        ;
        assert(size(g * u) * 0x100_0000 <= 10 * w) by (nonlinear_arith)
            requires
                size(g) * 0x100_0000 <= 10 * u,
                w == u * u,
                u > 0,
        {
            assert(size(g * u) == size(g) * u) by (nonlinear_arith)
                requires
                    u > 0,
            ;
            assert((size(g) * 0x100_0000) * u <= (10 * u) * u) by (nonlinear_arith)
                requires
                    size(g) * 0x100_0000 <= 10 * u,
                    u > 0,
            ;
        }
    }
    let kw = kk * w;
    assert(kw > 0) by (nonlinear_arith)
        requires
            kw == kk * w,
            kk >= 1,
            w > 0,
    ;
    assert(size(cu) <= 368 * kw) by (nonlinear_arith)
        requires
            cu == 16 * (c * u),
            size(c) <= 23 * (kk * u),
            kw == kk * w,
            w == u * u,
            u > 0,
    {
        assert(size(c * u) == size(c) * u) by (nonlinear_arith)
            requires
                u > 0,
        ;
        assert(size(c) * u <= (23 * (kk * u)) * u) by (nonlinear_arith)
            requires
                size(c) <= 23 * (kk * u),
                u > 0,
        ;
        assert((23 * (kk * u)) * u == 23 * kw) by (nonlinear_arith)
            requires
                kw == kk * w,
                w == u * u,
        ;
    }
    lemma_factor_off(fu, 4 * aa, cu, 138 * w, 368 * kw);
    lemma_factor_off(cu, out, 64 * aa, 2112 * kw, 65 * w);
    assert((138 * w) * (368 * kw) == 50784 * m && (2112 * kw) * (65 * w) == 137280 * m) by (nonlinear_arith)
        requires
            m == kk * (w * w),
            kw == kk * w,
    ;
    assert(fu * cu == 16 * (w * (f * c))) by (nonlinear_arith)
        requires
            fu == f * u,
            cu == 16 * (c * u),
            w == u * u,
    ;
    assert((4 * aa) * cu == 4 * (aa * cu) && cu * (64 * aa) == 64 * (aa * cu) && out * (64 * aa) == 64 * (aa * out))
        by (nonlinear_arith);
    // The discriminant.
    lemma_factor_off(disc * u, b * b - f * c, w, 2772 * kw, w);
    assert((b * b - f * c) * w == w * (b * b) - w * (f * c) && (2772 * kw) * w == 2772 * m) by (nonlinear_arith)
        requires
            m == kk * (w * w),
            kw == kk * w,
    ;
    assert((disc * u) * w == disc * (u * w)) by (nonlinear_arith);
}

/// The root of a number that is not negative and not too large.
proof fn lemma_root_is_number(a: Scalar)
    requires
        is_finite(a),
        0 <= value(a) <= 0x1_0000_0000 * unit(),
    ensures
        is_finite(root(a)),
        0 <= value(root(a)) <= 0x4000_0000 * unit(),
        !is_nan(root(a)),
{
    lemma_limit_values();
    lemma_magnitude_zero(a);
    lemma_magnitude_zero(root(a));
    let (x, u) = (value(a) * unit(), unit());
    if value(a) > 0 {
        lemma2_to64();
        lemma_power(30);
        let p = pow2(30) as int;
        assert(0 <= x <= (p * u) * (p * u)) by (nonlinear_arith)
            requires
                x == value(a) * u,
                0 < value(a) <= 0x1_0000_0000 * u,
                p == 0x4000_0000,
                u > 0,
        {
            assert(0x1_0000_0000 * u <= (p * u) * p) by (nonlinear_arith)
                requires
                    p == 0x4000_0000,
                    u > 0,
            ;
            assert(value(a) * u <= ((p * u) * p) * u) by (nonlinear_arith)
                requires
                    value(a) <= (p * u) * p,
                    u > 0,
            ;
            assert(((p * u) * p) * u == (p * u) * (p * u)) by (nonlinear_arith);
            assert(value(a) * u >= 0) by (nonlinear_arith)
                requires
                    value(a) > 0,
                    u > 0,
            ;
        }
        lemma_spread_at(0, 0);
        assert(spread(0) * spread(0) == 0) by (nonlinear_arith)
            requires
                spread(0) == 0,
        ;
        lemma_rounded_root_between(x, 0, power(30) as int);
        assert(unsigned(root(a)) == rounded_root(x));
        if rounded_root(x) < power(30) {
            lemma_spread_order(rounded_root(x), power(30) as int);
        }
    }
}

/// Whether a ray clearly meets a ball ahead of its origin.
pub open spec fn clearly_meets(center: Vec3, ray: Ray, k: int) -> bool {
    let w = unit() * unit();
    &&& meets(center, ray) * 0x100 >= (k * k) * (w * w)
    &&& outside(center, ray) * 0x100 >= (k * k) * w
    &&& away(center, ray) < 0
}

/// Whether a ray clearly misses a ball: its line does, or it goes away from the ball, or it
/// starts inside.
pub open spec fn clearly_misses(center: Vec3, ray: Ray, k: int) -> bool {
    let w = unit() * unit();
    ||| meets(center, ray) * 0x100 < -((k * k) * (w * w))
    ||| away(center, ray) * 0x1_0000 >= k * w
    ||| outside(center, ray) * 0x100 <= -((k * k) * w)
}

/// The third coefficient, where the origin is clearly outside or inside.
proof fn lemma_outside_near(c: int, f: int, out: int, kk: int, u: int)
    requires
        u > 0,
        kk >= 1,
        3 * u <= f <= 6 * u,
        size(16 * (c * u) - out) * 0x100_0000 <= 2112 * (kk * (u * u)),
    ensures
        out * 0x100 >= kk * (u * u) ==> (f * c) * 0x100_0000 >= 11892 * (kk * (u * u)),
        out * 0x100 <= -(kk * (u * u)) ==> (f * c) * 0x100_0000 <= -11892 * (kk * (u * u)),
{
    let m = kk * u;
    assert(kk * (u * u) == m * u && m > 0) by (nonlinear_arith)
        requires
            m == kk * u,
            kk >= 1,
            u > 0,
    ;
    if out * 0x100 >= m * u {
        assert((c * u) * 0x1000_0000 >= 63424 * (m * u));
        assert(c * 0x1000_0000 >= 63424 * m) by (nonlinear_arith)
            requires
                (c * u) * 0x1000_0000 >= 63424 * (m * u),
                u > 0,
        ;
        assert((f * c) * 0x100_0000 >= 11892 * (m * u)) by (nonlinear_arith)
            requires
                c * 0x100_0000 >= 3964 * m,
                3 * u <= f,
                m > 0,
                u > 0,
        {
            assert(f * (c * 0x100_0000) >= (3 * u) * (3964 * m)) by (nonlinear_arith)
                requires
                    c * 0x100_0000 >= 3964 * m,
                    3 * u <= f,
                    m > 0,
                    u > 0,
            ;
            assert((3 * u) * (3964 * m) == 11892 * (m * u)) by (nonlinear_arith);
        }
    }
    if out * 0x100 <= -(m * u) {
        assert((c * u) * 0x1000_0000 <= -63424 * (m * u));
        assert(c * 0x1000_0000 <= -63424 * m) by (nonlinear_arith)
            requires
                (c * u) * 0x1000_0000 <= -63424 * (m * u),
                u > 0,
        ;
        assert((f * c) * 0x100_0000 <= -11892 * (m * u)) by (nonlinear_arith)
            requires
                c * 0x100_0000 <= -3964 * m,
                3 * u <= f,
                m > 0,
                u > 0,
        {
            assert(f * (c * 0x100_0000) <= (3 * u) * (-3964 * m)) by (nonlinear_arith)
                requires
                    c * 0x100_0000 <= -3964 * m,
                    3 * u <= f,
                    m > 0,
                    u > 0,
            ;
            assert((3 * u) * (-3964 * m) == -11892 * (m * u)) by (nonlinear_arith);
        }
    }
}

/// The sign of the distance at which a ray enters a ball.
proof fn lemma_entry(b: Scalar, k: Scalar, a: Scalar)
    requires
        is_finite(a) && is_finite(b) && is_finite(k),
        31 * unit() <= 32 * value(a) <= 33 * unit(),
        size(value(b)) <= 0x10_0000 * unit(),
        size(value(k)) <= 0x4000_0000 * unit(),
    ensures
        ({
            let t = quotient(difference(opposite(b), k), product(TWO, a));
            &&& -value(b) - value(k) <= 0 ==> !less(ZERO, t)
            &&& (-value(b) - value(k)) * 0x100_0000 >= 96 * unit() ==> less(ZERO, t)
        }),
{
    lemma_limit_values();
    lemma_far_from_overflow();
    lemma_opposite(b);
    let u = unit();
    let s = -value(b) - value(k);
    lemma_small_difference(opposite(b), k, size(s));
    let top = difference(opposite(b), k);
    let (v, two, av) = (value(top), value(TWO), value(a));
    assert(two * av == 2 * (av * u)) by (nonlinear_arith)
        requires
            two == 2 * u,
    ;
    assert(31 * (u * u) <= 32 * (av * u) <= 33 * (u * u)) by (nonlinear_arith)
        requires
            31 * u <= 32 * av <= 33 * u,
            u > 0,
    ;
    assert((3 * u) * u == 3 * (u * u) && u * u > 0) by (nonlinear_arith)
        requires
            u > 0,
    ;
    lemma_small_product(TWO, a, 3 * u);
    let e = product(TWO, a);
    let ev = value(e);
    assert(u <= ev <= 4 * u) by {
        assert(u * u <= ev * u <= 4 * (u * u));
        assert(u <= ev <= 4 * u) by (nonlinear_arith)
            requires
                u * u <= ev * u <= 4 * (u * u),
                u > 0,
        ;
    }
    let q = size(v) + 0x100_0000;
    assert(size(v) * u <= ev * q) by (nonlinear_arith)
        requires
            u <= ev,
            q >= size(v),
            u > 0,
    {
        assert(size(v) * u <= q * u) by (nonlinear_arith)
            requires
                size(v) <= q,
                u > 0,
        ;
        assert(q * u <= ev * q) by (nonlinear_arith)
            requires
                u <= ev,
                q >= 0,
        ;
    }
    lemma_small_ratio(top, e, q);
    let t = value(quotient(top, e));
    lemma_magnitude_zero(quotient(top, e));
    if s * 0x100_0000 >= 96 * u {
        assert(v * 0x100_0000 >= 95 * u);
        if t == 0 {
            assert(0 * ev == 0);
            assert((v * u) * 0x100_0000 >= 95 * (u * u)) by (nonlinear_arith)
                requires
                    v * 0x100_0000 >= 95 * u,
                    u > 0,
            ;
            assert(ev * 0x80_0000 <= (4 * u) * 0x80_0000);
            assert(u * u >= 0x8000_0000_0000_0000 * u) by (nonlinear_arith)
                requires
                    u > 0x8000_0000_0000_0000,
            ;
        }
    }
}

/// A number whose square is clearly larger, and that is not positive, lies clearly below.
proof fn lemma_margin(b: int, r: int, k: int, u: int)
    requires
        u > 0,
        k >= 1,
        b <= 0,
        0 <= r <= 33 * (k * u),
        size(b) <= 27 * (k * u),
        (b * b - r * r) * 0x100_0000 >= 5760 * ((k * k) * (u * u)),
    ensures
        (-b - r) * 0x100_0000 >= 96 * u,
{
    let m = k * u;
    let (g, h) = (-b - r, -b + r);
    assert(b * b - r * r == g * h) by (nonlinear_arith)
        requires
            g == -b - r,
            h == -b + r,
    ;
    assert((k * k) * (u * u) == m * m && m >= u) by (nonlinear_arith)
        requires
            m == k * u,
            k >= 1,
            u > 0,
    ;
    assert(0 <= h <= 60 * m);
    assert(m * m > 0) by (nonlinear_arith)
        requires
            m > 0,
    ;
    assert(g > 0) by (nonlinear_arith)
        requires
            (g * h) * 0x100_0000 >= 5760 * (m * m),
            m * m > 0,
            h >= 0,
    ;
    assert(g * 0x100_0000 >= 96 * m) by (nonlinear_arith)
        requires
            (g * h) * 0x100_0000 >= 5760 * (m * m),
            0 <= h <= 60 * m,
            g > 0,
            m > 0,
    {
        assert(g * h <= g * (60 * m)) by (nonlinear_arith)
            requires
                h <= 60 * m,
                g > 0,
        ;
        assert(m * (60 * (g * 0x100_0000)) >= m * (5760 * m)) by (nonlinear_arith)
            requires
                (g * (60 * m)) * 0x100_0000 >= 5760 * (m * m),
        ;
        assert(60 * (g * 0x100_0000) >= 5760 * m) by (nonlinear_arith)
            requires
                m * (60 * (g * 0x100_0000)) >= m * (5760 * m),
                m > 0,
        ;
    }
}

/// The root of a discriminant that is clearly positive.
proof fn lemma_clear_root(disc: Scalar, k: int)
    requires
        is_finite(disc),
        1 <= k <= 0x400,
        value(disc) <= 1037 * ((k * k) * unit()),
        value(disc) * 0x100_0000 >= unit(),
    ensures
        is_finite(root(disc)),
        0 < value(root(disc)) <= 33 * (k * unit()),
        size(value(disc) * unit() - value(root(disc)) * value(root(disc))) * 0x100_0000 <= 3267 * ((k * k) * (unit()
            * unit())),
{
    lemma_limit_values();
    lemma_tiny();
    lemma2_to64();
    lemma2_to64_rest();
    lemma_magnitude_zero(disc);
    let (u, kk, v) = (unit(), k * k, value(disc));
    let w = u * u;
    assert(1 <= kk <= 0x10_0000) by (nonlinear_arith)
        requires
            kk == k * k,
            1 <= k <= 0x400,
    ;
    assert(kk * u <= 0x10_0000 * u) by (nonlinear_arith)
        requires
            kk <= 0x10_0000,
            u > 0,
    ;
    lemma_pow2_strictly_increases(31, 102);
    assert(0x8000_0000 * u <= pow2(102) * u) by (nonlinear_arith)
        requires
            pow2(102) >= 0x8000_0000,
            u > 0,
    ;
    let t = value(TINY);
    lemma_pow2_adds(50, 49);
    assert(t >= 0x400_0000 * pow2(49)) by (nonlinear_arith)
        requires
            t == pow2(50) * pow2(49),
            pow2(50) >= 0x400_0000,
    ;
    assert(t * t <= v * u) by (nonlinear_arith)
        requires
            t * t == pow2(49) * u,
            pow2(49) == 0x2_0000_0000_0000,
            v >= 0x2_0000_0000_0000,
            u > 0,
    ;
    lemma_root_within(disc, TINY, 51);
    lemma_root_error(disc);
    let r = value(root(disc));
    lemma_square_nonnegative(r);
    assert(v * u <= 1037 * (kk * w)) by (nonlinear_arith)
        requires
            v <= 1037 * (kk * u),
            w == u * u,
            u > 0,
    {
        assert(v * u <= (1037 * (kk * u)) * u) by (nonlinear_arith)
            requires
                v <= 1037 * (kk * u),
                u > 0,
        ;
        assert((1037 * (kk * u)) * u == 1037 * (kk * w)) by (nonlinear_arith)
            requires
                w == u * u,
        ;
    }
    assert(kk * w > 0) by (nonlinear_arith)
        requires
            kk >= 1,
            w == u * u,
            u > 0,
    {
        assert(w > 0) by (nonlinear_arith)
            requires
                w == u * u,
                u > 0,
        ;
    }
    assert(r * r <= 1089 * (kk * w));
    let m = k * u;
    assert(kk * w == m * m && m > 0) by (nonlinear_arith)
        requires
            kk == k * k,
            w == u * u,
            m == k * u,
            k >= 1,
            u > 0,
    ;
    assert(r <= 33 * m) by (nonlinear_arith)
        requires
            r * r <= 1089 * (m * m),
            m > 0,
    ;
}

/// Sizes that belong to a bound on the coordinates.
proof fn lemma_sizes(k: int, u: int)
    requires
        1 <= k <= 0x400,
        u > 0,
    ensures
        1 <= k * k <= 0x10_0000,
        u <= k * u <= 0x400 * u,
        u <= (k * k) * u <= 0x10_0000 * u,
        (k * k) * (u * u) > 0,
        (k * k) * ((u * u) * (u * u)) > 0,
        k * (u * u) > 0,
{
    let (kk, w) = (k * k, u * u);
    assert(1 <= kk <= 0x10_0000) by (nonlinear_arith)
        requires
            kk == k * k,
            1 <= k <= 0x400,
    ;
    assert(w > 0) by (nonlinear_arith)
        requires
            w == u * u,
            u > 0,
    ;
    assert(w * w > 0) by (nonlinear_arith)
        requires
            w > 0,
    ;
    assert(u <= k * u <= 0x400 * u && u <= kk * u <= 0x10_0000 * u && k * w > 0 && kk * w > 0) by (nonlinear_arith)
        requires
            1 <= k <= 0x400,
            1 <= kk <= 0x10_0000,
            u > 0,
            w > 0,
    ;
    assert(kk * (w * w) > 0) by (nonlinear_arith)
        requires
            1 <= kk,
            w * w > 0,
    ;
}

/// The sign of the discriminant, where the line of the ray clearly meets or misses the ball.
proof fn lemma_disc_sign(disc: int, q: int, k: int, u: int)
    requires
        u > 0,
        1 <= k <= 0x400,
        size(4 * (disc * (u * (u * u))) - q) * 0x100_0000 <= 61200 * ((k * k) * ((u * u) * (u * u))),
    ensures
        q * 0x100 < -((k * k) * ((u * u) * (u * u))) ==> disc < 0,
        q * 0x100 >= (k * k) * ((u * u) * (u * u)) ==> disc * 0x100_0000 >= u,
{
    lemma_sizes(k, u);
    let (kk, w) = (k * k, u * u);
    let (m, cube) = (kk * (w * w), u * w);
    assert(cube > 0 && w * w == u * cube) by (nonlinear_arith)
        requires
            cube == u * w,
            w == u * u,
            u > 0,
    ;
    if q * 0x100 < -m {
        assert(disc < 0) by (nonlinear_arith)
            requires
                disc * cube < 0,
                cube > 0,
        ;
    }
    if q * 0x100 >= m {
        assert((disc * cube) * 0x100_0000 >= 1084 * m);
        assert(m >= u * cube) by (nonlinear_arith)
            requires
                m == kk * (w * w),
                w * w == u * cube,
                kk >= 1,
                u > 0,
                cube > 0,
        {
            assert(u * cube > 0) by (nonlinear_arith)
                requires
                    u > 0,
                    cube > 0,
            ;
        }
        assert(disc * 0x100_0000 >= u) by (nonlinear_arith)
            requires
                (disc * cube) * 0x100_0000 >= u * cube,
                cube > 0,
        ;
    }
}

/// The second coefficient is positive where the ray clearly goes away.
proof fn lemma_goes_away(b: int, away: int, k: int, u: int)
    requires
        u > 0,
        1 <= k <= 0x400,
        size(b * u - 2 * away) * 0x100_0000 <= 160 * (k * (u * u)),
    ensures
        away * 0x1_0000 >= k * (u * u) ==> b > 0,
{
    lemma_sizes(k, u);
    if away * 0x1_0000 >= k * (u * u) {
        assert(b * u > 0);
        assert(b > 0) by (nonlinear_arith)
            requires
                b * u > 0,
                u > 0,
        ;
    }
}

/// The second coefficient has the sign of what the ray goes away, where it is not small.
proof fn lemma_sign_of_square(b: int, r: int, away: int, k: int, u: int)
    requires
        u > 0,
        1 <= k <= 0x400,
        away < 0,
        (b * b - r * r) * 0x100_0000 >= 5760 * ((k * k) * (u * u)),
        size(b * u - 2 * away) * 0x100_0000 <= 160 * (k * (u * u)),
    ensures
        b <= 0,
{
    lemma_sizes(k, u);
    let m = k * u;
    assert((k * k) * (u * u) == m * m && k * (u * u) == m * u) by (nonlinear_arith)
        requires
            m == k * u,
    ;
    lemma_square_nonnegative(r);
    if b > 0 {
        assert((b * u) * 0x100_0000 <= 160 * (m * u));
        assert(b * 0x100_0000 <= 160 * m) by (nonlinear_arith)
            requires
                (b * u) * 0x100_0000 <= 160 * (m * u),
                u > 0,
        ;
        assert((b * b) * 0x100_0000 <= m * m) by (nonlinear_arith)
            requires
                b * 0x100_0000 <= 160 * m,
                b > 0,
        ;
    }
}

/// Where the origin is clearly inside the ball, the root of the discriminant outweighs the
/// second coefficient.
proof fn lemma_inside(disc: Scalar, b: int, fc: int, k: int)
    requires
        is_finite(disc),
        1 <= k <= 0x400,
        value(disc) <= 1037 * ((k * k) * unit()),
        fc * 0x100_0000 <= -11892 * ((k * k) * (unit() * unit())),
        size(value(disc) * unit() - (b * b - fc)) * 0x100_0000 <= 2772 * ((k * k) * (unit() * unit())),
    ensures
        -b - value(root(disc)) <= 0,
{
    lemma_limit_values();
    let (u, kk, v) = (unit(), k * k, value(disc));
    lemma_sizes(k, u);
    lemma_square_nonnegative(b);
    let m = kk * u;
    assert(kk * (u * u) == m * u) by (nonlinear_arith)
        requires
            m == kk * u,
    ;
    assert((v * u) * 0x100_0000 >= 9120 * (m * u));
    assert(v * 0x100_0000 >= 9120 * m) by (nonlinear_arith)
        requires
            (v * u) * 0x100_0000 >= 9120 * (m * u),
            u > 0,
    ;
    lemma_clear_root(disc, k);
    let r = value(root(disc));
    assert(b * b <= r * r);
    assert(-b <= r) by (nonlinear_arith)
        requires
            b * b <= r * r,
            r > 0,
    ;
}

/// A ray that clearly meets the ball hits it, one that clearly misses it does not.
#[verifier::rlimit(80)]
proof fn lemma_hit_decided(center: Vec3, ray: Ray, k: int)
    requires
        ordinary_aim(center, ray, k),
    ensures
        clearly_meets(center, ray, k) ==> hits_sphere(ray.origin, ray.direction, center, SPHERE_RADIUS),
        clearly_misses(center, ray, k) ==> !hits_sphere(ray.origin, ray.direction, center, SPHERE_RADIUS),
{
    lemma_limit_values();
    lemma_coefficients(center, ray, k);
    lemma_unit_components(ray.direction);
    let (a, b, c) = coefficients(center, ray);
    lemma_discriminant(a, b, c, k);
    let f = product(FOUR, a);
    let disc = sphere_discriminant(ray.origin, ray.direction, center, SPHERE_RADIUS);
    assert(disc == difference(product(b, b), product(f, c)));
    let (u, kk) = (unit(), k * k);
    let aa = exact_inner(ray.direction, ray.direction);
    lemma_square_nonnegative(value(ray.direction.x));
    lemma_square_nonnegative(value(ray.direction.y));
    lemma_square_nonnegative(value(ray.direction.z));
    let (away, out, dv, bv) = (away(center, ray), outside(center, ray), value(disc), value(b));
    lemma_meets_near(dv, value(a), bv, value(c), value(f), aa, away, out, k, u);
    lemma_magnitude_zero(disc);
    lemma_sizes(k, u);
    lemma_outside_near(value(c), value(f), out, kk, u);
    lemma_disc_sign(dv, meets(center, ray), k, u);
    lemma_goes_away(bv, away, k, u);
    if dv >= 0 {
        lemma_root_is_number(disc);
        let r = value(root(disc));
        lemma_entry(b, root(disc), a);
        if clearly_meets(center, ray, k) {
            lemma_clear_root(disc, k);
            assert((bv * bv - r * r) * 0x100_0000 >= 5760 * (kk * (u * u)));
            lemma_sign_of_square(bv, r, away, k, u);
            lemma_margin(bv, r, k, u);
        }
        if out * 0x100 <= -(kk * (u * u)) {
            lemma_inside(disc, bv, value(f) * value(c), k);
        }
    }
}

/// A press with a ray that clearly meets the ball is on the ball; one with a ray that
/// clearly misses it is on the water where the cursor is over the pool, and else beside
/// both.
pub proof fn lemma_press_decided(center: Vec3, ray: Ray, ground: Option<Vec3>, k: int)
    requires
        ordinary_aim(center, ray, k),
    ensures
        clearly_meets(center, ray, k) ==> pressed_on(center, Some(ray), ground) == DragMode::Ball,
        clearly_misses(center, ray, k) ==> pressed_on(center, Some(ray), ground) == (if ground matches Some(point)
            && over_pool(point) {
            DragMode::Drops
        } else {
            DragMode::Orbit
        }),
{
    lemma_limit_values();
    lemma_one_is_neutral(center.x);
    lemma_one_is_neutral(center.y);
    lemma_one_is_neutral(center.z);
    lemma_hit_decided(center, ray, k);
    lemma_press_on_pool(center, Some(ray), ground, ground);
}

} // verus!
