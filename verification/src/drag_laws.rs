//! How the dragged ball follows the cursor: along all three axes by as much as the point
//! moved where the ray meets the plane that the ball was grabbed in, as far as the pool
//! lets it.

use crate::arithmetic::{difference, product, quotient, size, sum, unit};
use crate::ball_laws::lemma_opposite;
use crate::bounds::{is_finite, lemma_dyadic, lemma_one_is_neutral};
use crate::constants::{CEILING_LIMIT, FLOOR_LIMIT, NEGATIVE_SIDE_LIMIT, PARALLEL, SIDE_LIMIT};
use crate::limits::{lemma_limit_values, lemma_limits_ordered};
use crate::motion_laws::{
    held, lemma_factor_off, lemma_far_from_overflow, lemma_held_closer, lemma_small_ratio,
    lemma_without_factor,
};
use crate::picking_laws::{
    close, exact_inner, exact_side, facing_normal, lemma_ball_distance, lemma_component_off,
    lemma_near_length, lemma_picked_again, lemma_picked_ahead, lemma_picked_on_plane,
    lemma_plane_term, lemma_room, lemma_sides, lemma_small_difference, lemma_small_inner,
    lemma_small_product, lemma_small_quotient, lemma_small_sum, lemma_unit_components,
    lemma_unit_product, lemma_way_term, ordinary_pick, reaches,
};
use crate::plugin::{
    facing_plane, plane_distance, plane_hit, DragMode, InputFrame, Ray, WaterState,
};
use crate::rotation_laws::{
    lemma_direction_is_unit, lemma_near_not_tiny, lemma_nearer, lemma_times_four, lemma_tiny,
    near_unit, pure, UNIT_PARTS,
};
use crate::scalar::{
    absolute, clamped, lemma_absolute, lemma_magnitude_zero, lemma_spread_order, less, value,
    Scalar, ONE,
};
use crate::sphere_laws::{away, clearly_meets, lemma_press_decided, ordinary_aim, outside};
use crate::spin_laws::{is_length, lemma_direction_near};
use crate::vector::{direction, inner, length, vector_difference, vector_scaled, vector_sum, Vec3};
use vstd::arithmetic::power2::{lemma2_to64, lemma_pow2_strictly_increases, pow2};
use vstd::prelude::*;

verus! {

/// Whether the ball is dragged on with the ray of the cursor.
pub open spec fn dragged_on(state: WaterState, input: InputFrame, ray: Ray) -> bool {
    &&& state.drag_mode == DragMode::Ball
    &&& input.left_held
    &&& !input.left_pressed
    &&& input.ray == Some(ray)
}

/// Whether a coordinate of the ball follows that of the cursor, which went from `from` to
/// `to`, but for at most a part in a million of the largest coordinate, and is held at the
/// limit on the side that the cursor went to.
pub open spec fn follows(c: Scalar, from: Scalar, to: Scalar, a: Scalar, low: int, high: int, most: int) -> bool {
    size(4 * value(a) - held(4 * (value(c) + (value(to) - value(from))), low, high)) * 0x10_0000 <= 4 * most
}

/// A coordinate that follows the cursor.
proof fn lemma_follows(c: Scalar, from: Scalar, to: Scalar, low: Scalar, high: Scalar, most: int)
    requires
        is_finite(c) && size(value(c)) <= most,
        is_finite(from) && size(value(from)) <= most,
        is_finite(to) && size(value(to)) <= most,
        is_finite(low) && is_finite(high),
        value(low) <= value(high),
        1000 * most <= pow2(100) * unit(),
    ensures
        ({
            let a = quotient(clamped(sum(product(c, ONE), difference(to, from)), low, high), ONE);
            &&& is_finite(a)
            &&& follows(c, from, to, a, 4 * value(low), 4 * value(high), most)
        }),
{
    lemma_one_is_neutral(c);
    lemma_small_difference(to, from, size(value(to) - value(from)));
    let step = difference(to, from);
    lemma_small_sum(c, step, size(value(c) + value(step)));
    let place = sum(c, step);
    lemma_magnitude_zero(place);
    lemma_one_is_neutral(clamped(place, low, high));
    lemma_held_closer(
        4 * value(place),
        4 * (value(c) + (value(to) - value(from))),
        4 * value(low),
        4 * value(high),
    );
}

/// A dragged ball moves along each of the three axes by as much as the point under the
/// cursor moved, between the walls, the floor and the top of the world; where the ray
/// misses the plane that it was grabbed in, it stays. It has no speed while it moves.
pub proof fn lemma_dragged_ball_follows(state: WaterState, input: InputFrame, ray: Ray, most: int)
    requires
        dragged_on(state, input, ray),
        reaches(state.ball_center, most),
        reaches(state.drag_prev_hit, most),
        1000 * most <= pow2(100) * unit(),
    ensures
        ({
            let after = state.after_input(input);
            let (c, a) = (state.ball_center, after.ball_center);
            let (from, to, u) = (state.drag_prev_hit, after.drag_prev_hit, unit());
            &&& after.drag_mode == DragMode::Ball
            &&& after.drag_plane_normal == state.drag_plane_normal
            &&& to == from && a == c || (reaches(to, most) ==> {
                &&& follows(c.x, from.x, to.x, a.x, -3 * u, 3 * u, most)
                &&& follows(c.y, from.y, to.y, a.y, -3 * u, 4 * u, most)
                &&& follows(c.z, from.z, to.z, a.z, -3 * u, 3 * u, most)
                &&& value(after.ball_velocity.x) == 0
                &&& value(after.ball_velocity.y) == 0
                &&& value(after.ball_velocity.z) == 0
            })
        }),
{
    lemma_limit_values();
    lemma_limits_ordered();
    let after = state.after_input(input);
    let (c, from, to) = (state.ball_center, state.drag_prev_hit, after.drag_prev_hit);
    if plane_hit(ray, from, state.drag_plane_normal) is Some && reaches(to, most) {
        lemma_follows(c.x, from.x, to.x, NEGATIVE_SIDE_LIMIT, SIDE_LIMIT, most);
        lemma_follows(c.y, from.y, to.y, FLOOR_LIMIT, CEILING_LIMIT, most);
        lemma_follows(c.z, from.z, to.z, NEGATIVE_SIDE_LIMIT, SIDE_LIMIT, most);
    }
}

/// Whether a ray and the plane that the ball was grabbed in are of ordinary size: the
/// direction and the normal have about length 1, and the ray does not run nearly along the
/// plane.
pub open spec fn ordinary_drag(state: WaterState, ray: Ray, most: int) -> bool {
    &&& near_unit(pure(ray.direction), 64)
    &&& near_unit(pure(state.drag_plane_normal), 64)
    &&& unit() <= most <= pow2(80) * unit()
    &&& reaches(ray.origin, most)
    &&& reaches(state.drag_prev_hit, most)
    &&& 8 * size(exact_inner(state.drag_plane_normal, ray.direction)) >= unit() * unit()
}

/// Whether a plane crosses a direction, as computed.
spec fn crosses(n: Vec3, d: Vec3) -> bool {
    let e = value(inner(n, d));
    &&& is_finite(n.x) && is_finite(n.y) && is_finite(n.z)
    &&& is_finite(d.x) && is_finite(d.y) && is_finite(d.z)
    &&& 8 * size(value(n.x)) <= 9 * unit() && 8 * size(value(d.x)) <= 9 * unit()
    &&& 8 * size(value(n.y)) <= 9 * unit() && 8 * size(value(d.y)) <= 9 * unit()
    &&& 8 * size(value(n.z)) <= 9 * unit() && 8 * size(value(d.z)) <= 9 * unit()
    &&& is_finite(inner(n, d))
    &&& size(e) <= 8 * unit()
    &&& 16 * size(e) >= unit()
    &&& e > 0 <==> exact_inner(n, d) > 0
    &&& size(e * unit() - exact_inner(n, d)) * 0x100_0000 <= 32 * (unit() * unit())
}

/// A plane that a ray does not run along.
proof fn lemma_crosses(n: Vec3, d: Vec3)
    requires
        near_unit(pure(n), 64),
        near_unit(pure(d), 64),
        8 * size(exact_inner(n, d)) >= unit() * unit(),
    ensures
        crosses(n, d),
{
    lemma_limit_values();
    lemma_far_from_overflow();
    lemma_unit_components(n);
    lemma_unit_components(d);
    let u = unit();
    lemma_unit_product(value(n.x), value(d.x), u);
    lemma_unit_product(value(n.y), value(d.y), u);
    lemma_unit_product(value(n.z), value(d.z), u);
    lemma_small_inner(n, d, 2 * u);
    let (e, s) = (value(inner(n, d)), exact_inner(n, d));
    assert(u * u > 0) by (nonlinear_arith)
        requires
            u > 0,
    ;
    assert(16 * size(e * u) >= u * u);
    assert(size(e * u) == size(e) * u) by (nonlinear_arith)
        requires
            u > 0,
    ;
    assert(16 * size(e) >= u) by (nonlinear_arith)
        requires
            16 * (size(e) * u) >= u * u,
            u > 0,
    ;
    assert(e > 0 <==> e * u > 0) by (nonlinear_arith)
        requires
            u > 0,
    ;
}

/// How far along a ray a plane lies that crosses it, and how that belongs to the side of
/// the plane that the origin lies on.
#[verifier::rlimit(30)]
proof fn lemma_crossing_distance(n: Vec3, ray: Ray, p: Vec3, most: int)
    requires
        crosses(n, ray.direction),
        reaches(ray.origin, most),
        reaches(p, most),
        0x100_0000 <= most,
        1000 * most <= pow2(100) * unit(),
    ensures
        ({
            let t = plane_distance(ray, p, n);
            let (e, s, u) = (value(inner(n, ray.direction)), exact_side(n, p, ray.origin), unit());
            &&& is_finite(t)
            &&& size(value(t)) <= 204 * most
            &&& size(value(t) * e - s) * 0x100_0000 <= 1700 * (most * u)
            &&& size(s) * 0x2000 >= most * u ==> value(t) != 0 && (value(t) > 0 <==> (s > 0 <==> e > 0))
        }),
{
    lemma_limit_values();
    let (o, q) = (ray.origin, 3 * most);
    lemma_plane_term(n.x, p.x, o.x, 2 * most, q);
    lemma_plane_term(n.y, p.y, o.y, 2 * most, q);
    lemma_plane_term(n.z, p.z, o.z, 2 * most, q);
    let way = vector_difference(p, o);
    lemma_small_inner(n, way, q);
    let (a, b) = (inner(n, way), inner(n, ray.direction));
    let (e, u, v, s) = (value(b), unit(), value(a), exact_side(n, p, o));
    assert(q * u == 3 * (most * u)) by (nonlinear_arith)
        requires
            q == 3 * most,
    ;
    assert(most * u > 0) by (nonlinear_arith)
        requires
            most > 0,
            u > 0,
    ;
    assert(size(v * u - s) * 0x100_0000 <= 57 * (most * u));
    assert(size(v) * u <= size(e) * (192 * most)) by (nonlinear_arith)
        requires
            size(v) <= 12 * most,
            16 * size(e) >= u,
            u > 0,
            most > 0,
    {
        assert(size(v) * u <= (12 * most) * u) by (nonlinear_arith)
            requires
                size(v) <= 12 * most,
                u > 0,
        ;
        assert(u * (12 * most) <= (16 * size(e)) * (12 * most)) by (nonlinear_arith)
            requires
                u <= 16 * size(e),
                most > 0,
        ;
        assert((16 * size(e)) * (12 * most) == size(e) * (192 * most)) by (nonlinear_arith);
    }
    if e < 0 {
        lemma_small_quotient(a, b, 192 * most);
    } else {
        lemma_small_ratio(a, b, 192 * most);
    }
    let t = value(quotient(a, b));
    assert(size(e) * (size(t) + 0x80_0000) <= 1640 * (most * u)) by (nonlinear_arith)
        requires
            size(e) <= 8 * u,
            size(t) <= 204 * most,
            0x80_0000 <= most,
            most > 0,
            u > 0,
    {
        assert(size(e) * (size(t) + 0x80_0000) <= (8 * u) * (205 * most)) by (nonlinear_arith)
            requires
                0 <= size(e) <= 8 * u,
                0 <= size(t) + 0x80_0000 <= 205 * most,
        ;
        assert((8 * u) * (205 * most) == 1640 * (most * u)) by (nonlinear_arith);
    }
    lemma_sign_of_distance(t, e, v, s, most, u);
}

/// The sign of a distance, where the origin is not on the plane.
proof fn lemma_sign_of_distance(t: int, e: int, v: int, s: int, most: int, u: int)
    requires
        u > 0,
        most * u > 0,
        e != 0,
        size(v * u - s) * 0x100_0000 <= 57 * (most * u),
        size(t * e - v * u) * 0x100_0000 <= 1640 * (most * u),
    ensures
        size(s) * 0x2000 >= most * u ==> (t > 0 <==> (s > 0 <==> e > 0)),
        size(s) * 0x2000 >= most * u ==> t != 0,
{
    if size(s) * 0x2000 >= most * u {
        assert(t * e > 0 <==> s > 0);
        assert(t * e != 0);
        assert(t > 0 <==> (t * e > 0 <==> e > 0)) by (nonlinear_arith)
            requires
                e != 0,
                t * e != 0,
        ;
    }
}

/// A coordinate of a point along a ray.
proof fn lemma_reached_far(o: Scalar, d: Scalar, t: Scalar, most: int)
    requires
        is_finite(o),
        is_finite(d),
        is_finite(t),
        0x100_0000 <= most,
        1000 * most <= pow2(100) * unit(),
        size(value(o)) <= most,
        8 * size(value(d)) <= 9 * unit(),
        0 <= value(t) <= 204 * most,
    ensures
        ({
            let h = sum(o, product(d, t));
            &&& is_finite(h)
            &&& size(value(h)) <= 277 * most
            &&& size(value(h) * unit() - value(o) * unit() - value(d) * value(t)) * 0x100_0000 <= 737 * (most
                * unit())
        }),
{
    lemma_limit_values();
    let (u, v, w) = (unit(), value(d), value(t));
    assert(size(v * w) <= (230 * most) * u) by (nonlinear_arith)
        requires
            8 * size(v) <= 9 * u,
            0 <= w <= 204 * most,
            most > 0,
            u > 0,
    {
        assert(size(v * w) == size(v) * w) by (nonlinear_arith)
            requires
                w >= 0,
        ;
        assert((8 * size(v)) * w <= (9 * u) * (204 * most)) by (nonlinear_arith)
            requires
                0 <= 8 * size(v) <= 9 * u,
                0 <= w <= 204 * most,
        ;
        assert((9 * u) * (204 * most) == 1836 * (most * u)) by (nonlinear_arith);
        assert((230 * most) * u == 230 * (most * u)) by (nonlinear_arith);
        assert(most * u > 0) by (nonlinear_arith)
            requires
                most > 0,
                u > 0,
        ;
    }
    lemma_small_product(d, t, 230 * most);
    let g = product(d, t);
    lemma_small_sum(o, g, 260 * most);
    let (h, a, b) = (value(sum(o, g)), value(o), value(g));
    let e = h - (a + b);
    assert(h * u - a * u == e * u + b * u) by (nonlinear_arith)
        requires
            e == h - (a + b),
    ;
    assert(size(e * u) * 0x100_0000 <= 277 * (most * u)) by (nonlinear_arith)
        requires
            size(e) * 0x100_0000 <= 277 * most,
            u > 0,
    ;
    assert(2 * ((230 * most) * u) == 460 * (most * u)) by (nonlinear_arith);
}

/// A term of the side that a point along a ray lies on.
proof fn lemma_far_term(n: int, h: int, o: int, d: int, t: int, most: int, u: int)
    requires
        u > 0,
        most > 0,
        8 * size(n) <= 9 * u,
        size(h * u - o * u - d * t) * 0x100_0000 <= 737 * (most * u),
    ensures
        8 * (size(u * (n * (h - o)) - t * (n * d)) * 0x100_0000) <= 6633 * (most * (u * u)),
{
    let (x, y) = (h * u - o * u, d * t);
    assert(most * u > 0) by (nonlinear_arith)
        requires
            most > 0,
            u > 0,
    ;
    lemma_way_term(n, x, y, 737 * (most * u), u);
    assert(n * x == u * (n * (h - o))) by (nonlinear_arith)
        requires
            x == h * u - o * u,
    ;
    assert(n * y == t * (n * d)) by (nonlinear_arith)
        requires
            y == d * t,
    ;
    assert(9 * ((737 * (most * u)) * u) == 6633 * (most * (u * u))) by (nonlinear_arith);
}

/// The side that a point along a ray lies on, from the distance.
#[verifier::rlimit(30)]
proof fn lemma_far_side(n: Vec3, ray: Ray, t: Scalar, most: int)
    requires
        crosses(n, ray.direction),
        reaches(ray.origin, most),
        is_finite(t),
        0x100_0000 <= most,
        1000 * most <= pow2(100) * unit(),
        0 <= value(t) <= 204 * most,
    ensures
        ({
            let h = vector_sum(ray.origin, vector_scaled(ray.direction, t));
            &&& reaches(h, 277 * most)
            &&& size(exact_side(n, h, ray.origin) - value(t) * value(inner(n, ray.direction))) * 0x100_0000 <= 9100
                * (most * unit())
        }),
{
    lemma_limit_values();
    let (o, d) = (ray.origin, ray.direction);
    lemma_reached_far(o.x, d.x, t, most);
    lemma_reached_far(o.y, d.y, t, most);
    lemma_reached_far(o.z, d.z, t, most);
    let h = vector_sum(o, vector_scaled(d, t));
    let (u, w, e) = (unit(), value(t), value(inner(n, d)));
    lemma_far_term(value(n.x), value(h.x), value(o.x), value(d.x), w, most, u);
    lemma_far_term(value(n.y), value(h.y), value(o.y), value(d.y), w, most, u);
    lemma_far_term(value(n.z), value(h.z), value(o.z), value(d.z), w, most, u);
    let (f, s) = (exact_side(n, h, o), exact_inner(n, d));
    let (p, q, r) = (
        value(n.x) * (value(h.x) - value(o.x)),
        value(n.y) * (value(h.y) - value(o.y)),
        value(n.z) * (value(h.z) - value(o.z)),
    );
    lemma_times_four(u, p, q, r, 0);
    lemma_times_four(w, value(n.x) * value(d.x), value(n.y) * value(d.y), value(n.z) * value(d.z), 0);
    assert(u * 0 == 0 && w * 0 == 0);
    let uu = u * u;
    let m = most * uu;
    lemma_factor_off(e * u, s, w, 32 * uu, 204 * most);
    assert((32 * uu) * (204 * most) == 6528 * m) by (nonlinear_arith)
        requires
            m == most * uu,
    ;
    assert((e * u) * w == (w * e) * u && s * w == w * s) by (nonlinear_arith);
    assert(m >= 0) by (nonlinear_arith)
        requires
            m == most * uu,
            uu == u * u,
            most > 0,
    ;
    let off = f - w * e;
    assert(off * u == f * u - (w * e) * u) by (nonlinear_arith)
        requires
            off == f - w * e,
    ;
    assert(9100 * m == (9100 * (most * u)) * u) by (nonlinear_arith)
        requires
            m == most * uu,
            uu == u * u,
    ;
    lemma_without_factor(off, u, 9100 * (most * u));
}

/// Whether a point lies on a ray, at the distance `t` from its origin, but for at most a
/// part in 16384 of the largest coordinate.
pub open spec fn on_ray(ray: Ray, t: int, point: Vec3, most: int) -> bool {
    let (o, d, u) = (ray.origin, ray.direction, unit());
    &&& t >= 0
    &&& size(value(point.x) * u - value(o.x) * u - value(d.x) * t) * 0x4000 <= most * u
    &&& size(value(point.y) * u - value(o.y) * u - value(d.y) * t) * 0x4000 <= most * u
    &&& size(value(point.z) * u - value(o.z) * u - value(d.z) * t) * 0x4000 <= most * u
}

/// Whether a plane with a normal `n` through a point lies clearly ahead of a ray, or
/// clearly behind it.
pub open spec fn clearly_ahead(n: Vec3, p: Vec3, ray: Ray, most: int) -> bool {
    &&& size(exact_side(n, p, ray.origin)) * 0x2000 >= most * unit()
    &&& exact_side(n, p, ray.origin) > 0 <==> exact_inner(n, ray.direction) > 0
}

/// See [`clearly_ahead`].
pub open spec fn clearly_behind(n: Vec3, p: Vec3, ray: Ray, most: int) -> bool {
    &&& size(exact_side(n, p, ray.origin)) * 0x2000 >= most * unit()
    &&& !(exact_side(n, p, ray.origin) > 0 <==> exact_inner(n, ray.direction) > 0)
}

/// Where a ray meets a plane that it does not run along: the point lies on the ray and, but
/// for a part in 1024 of the largest coordinate, on the plane. A plane behind the ray is not
/// met.
#[verifier::rlimit(30)]
pub proof fn lemma_plane_met(n: Vec3, point: Vec3, ray: Ray, most: int)
    requires
        near_unit(pure(ray.direction), 64),
        near_unit(pure(n), 64),
        unit() <= most <= pow2(80) * unit(),
        reaches(ray.origin, most),
        reaches(point, most),
        8 * size(exact_inner(n, ray.direction)) >= unit() * unit(),
    ensures
        clearly_ahead(n, point, ray, most) ==> {
            &&& plane_hit(ray, point, n) matches Some(met)
            &&& reaches(met, 277 * most)
            &&& exists|t: int| on_ray(ray, t, met, most)
            &&& size(exact_side(n, met, point)) * 0x400 <= most * unit()
        },
        clearly_behind(n, point, ray, most) ==> plane_hit(ray, point, n) is None,
{
    lemma_limit_values();
    lemma_room(most);
    let d = ray.direction;
    lemma_crosses(n, d);
    lemma_crossing_distance(n, ray, point, most);
    lemma_not_along(n, d);
    let t = plane_distance(ray, point, n);
    let u = unit();
    lemma_magnitude_zero(t);
    assert(most * u > 0) by (nonlinear_arith)
        requires
            most > 0,
            u > 0,
    ;
    if clearly_ahead(n, point, ray, most) {
        lemma_far_side(n, ray, t, most);
        let met = vector_sum(ray.origin, vector_scaled(d, t));
        lemma_reached_far(ray.origin.x, d.x, t, most);
        lemma_reached_far(ray.origin.y, d.y, t, most);
        lemma_reached_far(ray.origin.z, d.z, t, most);
        assert(on_ray(ray, value(t), met, most));
        lemma_sides(n, met, point, ray.origin);
        assert(plane_hit(ray, point, n) == Some(met));
        assert(reaches(met, 277 * most));
        assert(exists|t: int| on_ray(ray, t, met, most));
        assert(size(exact_side(n, met, point)) * 0x400 <= most * u);
    }
}

/// A plane that crosses a ray does not run along it.
proof fn lemma_not_along(n: Vec3, d: Vec3)
    requires
        crosses(n, d),
    ensures
        !less(absolute(inner(n, d)), PARALLEL),
{
    lemma_limit_values();
    lemma_magnitude_zero(PARALLEL);
    lemma_absolute(inner(n, d));
    lemma2_to64();
    lemma_dyadic(0x80_0000, 122, 27);
    lemma_spread_order(PARALLEL as int, 0x3D80_0000);
}

/// Dragging goes on from the point where the ray meets the plane that the ball was grabbed
/// in: that point lies on the ray and, but for a part in 1024 of the largest coordinate, on
/// the plane. A ray that the plane lies behind moves nothing.
pub proof fn lemma_drag_point(state: WaterState, input: InputFrame, ray: Ray, most: int)
    requires
        dragged_on(state, input, ray),
        ordinary_drag(state, ray, most),
    ensures
        ({
            let (n, from, to) = (
                state.drag_plane_normal,
                state.drag_prev_hit,
                state.after_input(input).drag_prev_hit,
            );
            &&& clearly_ahead(n, from, ray, most) ==> {
                &&& reaches(to, 277 * most)
                &&& exists|t: int| on_ray(ray, t, to, most)
                &&& size(exact_side(n, to, from)) * 0x400 <= most * unit()
            }
            &&& clearly_behind(n, from, ray, most) ==> to == from && state.after_input(input).ball_center
                == state.ball_center
        }),
{
    lemma_plane_met(state.drag_plane_normal, state.drag_prev_hit, ray, most);
}

/// A term of the side that the ball lies on.
proof fn lemma_side_term(n: int, c: int, d: int, k: int, x: int, most: int, u: int)
    requires
        u > 0,
        k > 0,
        most > 0,
        n == -c,
        size(c * k - d * u) * 0x100_0000 <= 2 * (u * k),
        size(x) <= 2 * most,
    ensures
        size(k * (n * x) - u * (d * (-x))) * 0x100_0000 <= 4 * ((u * k) * most),
{
    let g = c * k - d * u;
    assert(k * (n * x) - u * (d * (-x)) == -(g * x)) by (nonlinear_arith)
        requires
            n == -c,
            g == c * k - d * u,
    ;
    lemma_factor_off(c * k, d * u, x, 2 * (u * k), 2 * most);
    assert((c * k) * x - (d * u) * x == g * x) by (nonlinear_arith)
        requires
            g == c * k - d * u,
    ;
    assert((2 * (u * k)) * (2 * most) == 4 * ((u * k) * most)) by (nonlinear_arith);
}

/// A ray that clearly goes towards the ball has the plane through the ball ahead of it.
#[verifier::rlimit(30)]
proof fn lemma_plane_ahead(center: Vec3, ray: Ray, most: int)
    requires
        ordinary_pick(center, ray, most),
        away(center, ray) * 64 <= -(most * unit()),
    ensures
        facing_plane(center, Some(ray)) is Some,
{
    lemma_limit_values();
    lemma_tiny();
    lemma_room(most);
    lemma_ball_distance(center, ray, most);
    lemma_picked_ahead(center, ray, most);
    let (d, o, c, u) = (ray.direction, ray.origin, center, unit());
    lemma_near_length(d);
    let (dir, n, k) = (direction(d), facing_normal(ray), value(length(d)));
    lemma_unit_components(d);
    lemma_nearer(pure(dir), UNIT_PARTS as int, 64);
    lemma_unit_components(dir);
    lemma_component_off(d.x, length(d));
    lemma_component_off(d.y, length(d));
    lemma_component_off(d.z, length(d));
    lemma_opposite(dir.x);
    lemma_opposite(dir.y);
    lemma_opposite(dir.z);
    let (x, y, z) = (value(c.x) - value(o.x), value(c.y) - value(o.y), value(c.z) - value(o.z));
    lemma_side_term(value(n.x), value(dir.x), value(d.x), k, x, most, u);
    lemma_side_term(value(n.y), value(dir.y), value(d.y), k, y, most, u);
    lemma_side_term(value(n.z), value(dir.z), value(d.z), k, z, most, u);
    let (s, a) = (exact_side(n, c, o), away(center, ray));
    lemma_times_four(k, value(n.x) * x, value(n.y) * y, value(n.z) * z, 0);
    lemma_times_four(u, value(d.x) * (-x), value(d.y) * (-y), value(d.z) * (-z), 0);
    assert(k * 0 == 0 && u * 0 == 0);
    assert(size(k * s - u * a) * 0x100_0000 <= 12 * ((u * k) * most));
    let (mu, uk) = (most * u, u * k);
    assert(mu > 0 && uk > 0) by (nonlinear_arith)
        requires
            mu == most * u,
            uk == u * k,
            most > 0,
            u > 0,
            k > 0,
    ;
    assert(uk * most == k * mu && 4 * (k * mu) <= 5 * (u * mu)) by (nonlinear_arith)
        requires
            mu == most * u,
            uk == u * k,
            4 * k <= 5 * u,
            mu > 0,
    ;
    assert((u * a) * 64 <= -(u * mu)) by (nonlinear_arith)
        requires
            a * 64 <= -mu,
            u > 0,
    ;
    assert((k * s) * 128 <= -(k * mu)) by {
        assert((k * s) * 0x100_0000 <= -(0x4_0000 * (u * mu)) + 12 * (k * mu));
    }
    assert(s * 128 <= -mu) by (nonlinear_arith)
        requires
            (k * s) * 128 <= -(k * mu),
            k > 0,
    ;
    let (t, e) = (value(plane_distance(ray, center, n)), value(inner(n, d)));
    assert(t * e < 0);
    assert(t >= 0) by (nonlinear_arith)
        requires
            t * e < 0,
            e < 0,
    ;
}

/// A press on the ball takes hold of it: of the plane that faces the ray, whose normal is
/// the opposite of its direction, through the point of the ray that is on the plane through
/// the middle of the ball.
#[verifier::rlimit(30)]
pub proof fn lemma_press_grabs_ball(state: WaterState, input: InputFrame, ray: Ray, k: int, l: int)
    requires
        input.left_pressed,
        input.left_held,
        input.ray == Some(ray),
        ordinary_aim(state.ball_center, ray, k),
        clearly_meets(state.ball_center, ray, k),
        is_length(ray.direction, l),
    ensures
        ({
            let after = state.after_input(input);
            let (n, d, u) = (after.drag_plane_normal, ray.direction, unit());
            &&& after.drag_mode == DragMode::Ball
            &&& after.pending_drop is None
            &&& size(value(n.x) * l + value(d.x) * u) * 0x4000 <= u * l
            &&& size(value(n.y) * l + value(d.y) * u) * 0x4000 <= u * l
            &&& size(value(n.z) * l + value(d.z) * u) * 0x4000 <= u * l
            &&& size(exact_side(n, after.drag_prev_hit, state.ball_center)) * 0x400 <= (k * u) * u
        }),
{
    lemma_limit_values();
    let (c, u) = (state.ball_center, unit());
    let most = k * u;
    lemma_aim_is_pick(c, ray, k);
    lemma_press_decided(c, ray, input.ground, k);
    lemma_goes_towards(c, ray, k);
    lemma_plane_ahead(c, ray, most);
    lemma_picked_on_plane(c, ray, most);
    lemma_picked_again(c, ray, most);
    lemma_ball_distance(c, ray, most);
    let d = ray.direction;
    lemma_near_length(d);
    lemma_near_not_tiny(pure(d), 64);
    lemma_direction_is_unit(d);
    lemma_direction_near(d, l);
    let dir = direction(d);
    lemma_opposite(dir.x);
    lemma_opposite(dir.y);
    lemma_opposite(dir.z);
    lemma_opposed_component(value(dir.x), value(d.x), l, u);
    lemma_opposed_component(value(dir.y), value(d.y), l, u);
    lemma_opposed_component(value(dir.z), value(d.z), l, u);
    let n = facing_normal(ray);
    if let Some((normal, hit)) = facing_plane(c, Some(ray)) {
        if let Some(again) = plane_hit(ray, hit, normal) {
            assert(state.after_input(input).drag_prev_hit == again);
            lemma_sides(n, again, c, hit);
            lemma_sides(n, c, hit, c);
            lemma_close_side(n, again, hit, most);
            lemma_sides(n, hit, c, hit);
        }
    }
}

/// The opposite of a component.
proof fn lemma_opposed_component(c: int, d: int, l: int, u: int)
    requires
        size(c * l - d * u) * 0x4000 <= u * l,
    ensures
        size((-c) * l + d * u) * 0x4000 <= u * l,
{
    assert((-c) * l + d * u == -(c * l - d * u)) by (nonlinear_arith);
}

/// Points that are close lie on nearly the same side.
proof fn lemma_close_side(n: Vec3, a: Vec3, b: Vec3, most: int)
    requires
        8 * size(value(n.x)) <= 9 * unit(),
        8 * size(value(n.y)) <= 9 * unit(),
        8 * size(value(n.z)) <= 9 * unit(),
        close(a, b, most, 0x1000),
    ensures
        8 * (size(exact_side(n, a, b)) * 0x1000) <= 27 * (most * unit()),
{
    lemma_limit_values();
    lemma_close_term(value(n.x), value(a.x) - value(b.x), most, unit());
    lemma_close_term(value(n.y), value(a.y) - value(b.y), most, unit());
    lemma_close_term(value(n.z), value(a.z) - value(b.z), most, unit());
}

/// A term of that.
proof fn lemma_close_term(n: int, x: int, most: int, u: int)
    requires
        u > 0,
        8 * size(n) <= 9 * u,
        size(x) * 0x1000 <= most,
    ensures
        8 * (size(n * x) * 0x1000) <= 9 * (most * u),
{
    assert(size(n * x) == size(n) * size(x)) by (nonlinear_arith);
    assert((8 * size(n)) * (size(x) * 0x1000) <= (9 * u) * most) by (nonlinear_arith)
        requires
            0 <= 8 * size(n) <= 9 * u,
            0 <= size(x) * 0x1000 <= most,
    ;
    assert((8 * size(n)) * (size(x) * 0x1000) == 8 * ((size(n) * size(x)) * 0x1000)) by (nonlinear_arith);
    assert((9 * u) * most == 9 * (most * u)) by (nonlinear_arith);
}

/// An aim of ordinary size is a pick of ordinary size.
proof fn lemma_aim_is_pick(center: Vec3, ray: Ray, k: int)
    requires
        ordinary_aim(center, ray, k),
    ensures
        ordinary_pick(center, ray, k * unit()),
{
    lemma_limit_values();
    lemma2_to64();
    lemma_pow2_strictly_increases(10, 80);
    let u = unit();
    assert(u <= k * u <= pow2(80) * u) by (nonlinear_arith)
        requires
            1 <= k <= pow2(80),
            u > 0,
    ;
}

/// A ray that clearly meets the ball clearly goes towards it.
proof fn lemma_goes_towards(center: Vec3, ray: Ray, k: int)
    requires
        ordinary_aim(center, ray, k),
        clearly_meets(center, ray, k),
    ensures
        away(center, ray) * 64 <= -((k * unit()) * unit()),
{
    lemma_limit_values();
    lemma_unit_components(ray.direction);
    let (u, a, kk) = (unit(), away(center, ray), k * k);
    let (w, aa, out) = (u * u, exact_inner(ray.direction, ray.direction), outside(center, ray));
    let m = k * w;
    assert(w > 0) by (nonlinear_arith)
        requires
            w == u * u,
            u > 0,
    ;
    assert((k * u) * u == m && kk * (w * w) == m * m && m > 0 && kk * w > 0) by (nonlinear_arith)
        requires
            m == k * w,
            w == u * u,
            kk == k * k,
            k >= 1,
            w > 0,
    {
        assert(k * w > 0) by (nonlinear_arith)
            requires
                k >= 1,
                w > 0,
        ;
        assert(k * k >= 1) by (nonlinear_arith)
            requires
                k >= 1,
        ;
    }
    assert(aa * out >= 0) by (nonlinear_arith)
        requires
            aa >= 0,
            out >= 0,
    ;
    assert((a * a) * 0x1000 >= m * m);
    assert(a * 64 <= -m) by (nonlinear_arith)
        requires
            (a * a) * 0x1000 >= m * m,
            a < 0,
            m > 0,
    ;
}

} // verus!
