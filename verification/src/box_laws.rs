//! What holds of the boxes that the pool and the ball are drawn as, and which faces of
//! the meshes are seen from where.

use crate::boxes::{
    at_high_end, ball_bounds, box_triangles, box_words, pool_bounds, side_corner, Bounds, BOX_SIDES,
    POOL_SIDES,
};
use crate::grid::{index_at, surface_indices, vertex_point, Point};
use crate::grid_laws::{lemma_surface_winding, twice_area};
use crate::limits::{lemma_drawn_pool, lemma_limit_values};
use crate::scalar::{value, Scalar};
use vstd::prelude::*;

verus! {

/// A place in space.
pub struct Place {
    pub x: int,
    pub y: int,
    pub z: int,
}

/// How far the eye lies above the plane of a triangle, scaled by twice its area: above
/// zero where the corners are passed counter-clockwise as seen by the eye.
pub open spec fn facing(a: Place, b: Place, c: Place, eye: Place) -> int {
    ((b.y - a.y) * (c.z - a.z) - (b.z - a.z) * (c.y - a.y)) * (eye.x - a.x) + ((b.z - a.z) * (c.x - a.x)
        - (b.x - a.x) * (c.z - a.z)) * (eye.y - a.y) + ((b.x - a.x) * (c.y - a.y) - (b.y - a.y) * (c.x
        - a.x)) * (eye.z - a.z)
}

/// Corner `i` of the box from `low` to `high`.
pub open spec fn corner(low: Place, high: Place, i: int) -> Place {
    Place {
        x: if at_high_end(i, 0) { high.x } else { low.x },
        y: if at_high_end(i, 1) { high.y } else { low.y },
        z: if at_high_end(i, 2) { high.z } else { low.z },
    }
}

/// How far the eye lies inside of side `k`.
pub open spec fn depth_behind(low: Place, high: Place, k: int, eye: Place) -> int {
    if k == 0 {
        eye.y - low.y
    } else if k == 1 {
        eye.x - low.x
    } else if k == 2 {
        high.x - eye.x
    } else if k == 3 {
        eye.z - low.z
    } else if k == 4 {
        high.z - eye.z
    } else {
        high.y - eye.y
    }
}

/// The area of side `k`.
pub open spec fn side_area(low: Place, high: Place, k: int) -> int {
    if k == 0 || k == 5 {
        (high.x - low.x) * (high.z - low.z)
    } else if k == 1 || k == 2 {
        (high.y - low.y) * (high.z - low.z)
    } else {
        (high.x - low.x) * (high.y - low.y)
    }
}

/// What a triangle of side `k` shows the eye, by the corners that it is made of.
pub open spec fn side_facing(low: Place, high: Place, k: int, a: int, b: int, c: int, eye: Place) -> int {
    facing(
        corner(low, high, side_corner(k, a)),
        corner(low, high, side_corner(k, b)),
        corner(low, high, side_corner(k, c)),
        eye,
    )
}

/// A triangle passed the other way round shows its other side.
pub proof fn lemma_facing_turned(a: Place, b: Place, c: Place, eye: Place)
    ensures
        facing(a, c, b, eye) == -facing(a, b, c, eye),
{
    let (p, q, r) = (b.x - a.x, b.y - a.y, b.z - a.z);
    let (s, t, u) = (c.x - a.x, c.y - a.y, c.z - a.z);
    let (x, y, z) = (eye.x - a.x, eye.y - a.y, eye.z - a.z);
    assert((t * r - u * q) * x + (u * p - s * r) * y + (s * q - t * p) * z == -((q * u - r * t) * x + (r * s
        - p * u) * y + (p * t - q * s) * z)) by (nonlinear_arith);
}

/// The two triangles of a side face inwards, in the measure of the side's area and of how
/// far inside of it the eye is.
proof fn lemma_side_facing(low: Place, high: Place, k: int, eye: Place)
    requires
        0 <= k < BOX_SIDES,
    ensures
        side_facing(low, high, k, 0, 1, 2, eye) == side_area(low, high, k) * depth_behind(low, high, k, eye),
        side_facing(low, high, k, 0, 2, 3, eye) == side_area(low, high, k) * depth_behind(low, high, k, eye),
{
    let (w, h, d) = (high.x - low.x, high.y - low.y, high.z - low.z);
    let (x, y, z) = (eye.x - low.x, eye.y - low.y, eye.z - low.z);
    let (xr, zr, yr) = (eye.x - high.x, eye.z - high.z, eye.y - high.y);
    if k == 0 {
        assert((0 * d - d * 0) * x + (d * w - 0 * d) * y + (0 * 0 - 0 * w) * z == (w * d) * y
            && (0 * 0 - d * 0) * x + (d * w - w * 0) * y + (w * 0 - 0 * w) * z == (w * d) * y)
            by (nonlinear_arith);
    } else if k == 1 {
        assert((h * d - 0 * h) * x + (0 * 0 - 0 * d) * y + (0 * h - h * 0) * z == (h * d) * x && (h * d - d
            * 0) * x + (d * 0 - 0 * d) * y + (0 * 0 - h * 0) * z == (h * d) * x) by (nonlinear_arith);
    } else if k == 2 {
        assert((0 * d - d * h) * xr + (d * 0 - 0 * d) * y + (0 * h - 0 * 0) * z == (h * d) * (-xr) && (h * 0
            - d * h) * xr + (d * 0 - 0 * 0) * y + (0 * h - h * 0) * z == (h * d) * (-xr)) by (nonlinear_arith);
    } else if k == 3 {
        assert((0 * 0 - 0 * h) * x + (0 * w - w * 0) * y + (w * h - 0 * w) * z == (w * h) * z && (h * 0 - 0
            * h) * x + (0 * 0 - w * 0) * y + (w * h - h * 0) * z == (w * h) * z) by (nonlinear_arith);
    } else if k == 4 {
        assert((h * 0 - 0 * h) * x + (0 * w - 0 * 0) * y + (0 * h - h * w) * zr == (w * h) * (-zr) && (h * 0
            - 0 * 0) * x + (0 * w - w * 0) * y + (w * 0 - h * w) * zr == (w * h) * (-zr)) by (nonlinear_arith);
    } else {
        assert((0 * d - 0 * 0) * x + (0 * w - w * d) * yr + (w * 0 - 0 * w) * z == (w * d) * (-yr) && (0 * d
            - d * 0) * x + (d * 0 - w * d) * yr + (w * 0 - 0 * 0) * z == (w * d) * (-yr)) by (nonlinear_arith);
    }
}

/// The ends of a box, in units of the smallest positive number.
pub open spec fn low_end(bounds: Bounds) -> Place {
    Place { x: value(bounds.x.low), y: value(bounds.y.low), z: value(bounds.z.low) }
}

/// The other ends of a box.
pub open spec fn high_end(bounds: Bounds) -> Place {
    Place { x: value(bounds.x.high), y: value(bounds.y.high), z: value(bounds.z.high) }
}

/// Where vertex `i` of the vertex buffer of a box stands.
pub open spec fn vertex_place(words: Seq<Scalar>, i: int) -> Place {
    Place { x: value(words[3 * i]), y: value(words[3 * i + 1]), z: value(words[3 * i + 2]) }
}

/// What triangle `t` of a mesh shows the eye.
pub open spec fn triangle_facing(words: Seq<Scalar>, indices: Seq<u32>, t: int, eye: Place) -> int {
    facing(
        vertex_place(words, indices[3 * t] as int),
        vertex_place(words, indices[3 * t + 1] as int),
        vertex_place(words, indices[3 * t + 2] as int),
        eye,
    )
}

/// Every index of a box names one of its corners.
pub proof fn lemma_box_index_in_range(sides: int, inward: bool, i: int)
    requires
        0 <= sides <= BOX_SIDES,
        0 <= i < 6 * sides,
    ensures
        box_triangles(sides, inward)[i] < 8,
{
}

/// The vertices of a box are its corners.
proof fn lemma_box_vertex(bounds: Bounds, i: int)
    requires
        0 <= i < 8,
    ensures
        vertex_place(box_words(bounds), i) == corner(low_end(bounds), high_end(bounds), i),
{
    assert((3 * i) / 3 == i && (3 * i) % 3 == 0);
    assert((3 * i + 1) / 3 == i && (3 * i + 1) % 3 == 1);
    assert((3 * i + 2) / 3 == i && (3 * i + 2) % 3 == 2);
}

/// A triangle of a box shows the eye its front exactly where the eye is on the side that
/// the box is made for.
proof fn lemma_box_facing(bounds: Bounds, sides: int, inward: bool, t: int, eye: Place)
    requires
        0 <= sides <= BOX_SIDES,
        0 <= t < 2 * sides,
    ensures
        triangle_facing(box_words(bounds), box_triangles(sides, inward), t, eye) == side_area(
            low_end(bounds),
            high_end(bounds),
            t / 2,
        ) * depth_behind(low_end(bounds), high_end(bounds), t / 2, eye) * (if inward {
            1int
        } else {
            -1
        }),
{
    let k = t / 2;
    let (low, high) = (low_end(bounds), high_end(bounds));
    let indices = box_triangles(sides, inward);
    let first = 3 * (t % 2);
    assert((3 * t) / 6 == k && (3 * t) % 6 == first);
    assert((3 * t + 1) / 6 == k && (3 * t + 1) % 6 == first + 1);
    assert((3 * t + 2) / 6 == k && (3 * t + 2) % 6 == first + 2);
    lemma_box_index_in_range(sides, inward, 3 * t);
    lemma_box_index_in_range(sides, inward, 3 * t + 1);
    lemma_box_index_in_range(sides, inward, 3 * t + 2);
    lemma_box_vertex(bounds, indices[3 * t] as int);
    lemma_box_vertex(bounds, indices[3 * t + 1] as int);
    lemma_box_vertex(bounds, indices[3 * t + 2] as int);
    lemma_side_facing(low, high, k, eye);
    let (a, b, c, d) = (
        corner(low, high, side_corner(k, 0)),
        corner(low, high, side_corner(k, 1)),
        corner(low, high, side_corner(k, 2)),
        corner(low, high, side_corner(k, 3)),
    );
    lemma_facing_turned(a, b, c, eye);
    lemma_facing_turned(a, c, d, eye);
    let area = side_area(low, high, k) * depth_behind(low, high, k, eye);
    assert(area * 1 == area && area * (-1) == -area);
}

/// The near walls of the pool are removed: with back faces culled, a side of the pool is
/// drawn exactly where the eye lies inside of it, so that a wall between the eye and the
/// pool is not.
pub proof fn lemma_near_walls_removed(t: int, eye: Place)
    requires
        0 <= t < 2 * POOL_SIDES,
    ensures
        triangle_facing(box_words(pool_bounds()), box_triangles(POOL_SIDES as int, true), t, eye) > 0
            <==> depth_behind(low_end(pool_bounds()), high_end(pool_bounds()), t / 2, eye) > 0,
{
    lemma_drawn_pool();
    lemma_limit_values();
    lemma_box_facing(pool_bounds(), POOL_SIDES as int, true, t, eye);
    let (low, high) = (low_end(pool_bounds()), high_end(pool_bounds()));
    lemma_area_sign(low, high, t / 2, depth_behind(low, high, t / 2, eye));
}

/// The box of the ball is seen from outside: with back faces culled, a side is drawn
/// exactly where the eye lies outside of it.
pub proof fn lemma_ball_seen_from_outside(t: int, eye: Place)
    requires
        0 <= t < 2 * BOX_SIDES,
    ensures
        triangle_facing(box_words(ball_bounds()), box_triangles(BOX_SIDES as int, false), t, eye) > 0
            <==> depth_behind(low_end(ball_bounds()), high_end(ball_bounds()), t / 2, eye) < 0,
{
    lemma_limit_values();
    lemma_box_facing(ball_bounds(), BOX_SIDES as int, false, t, eye);
    let (low, high) = (low_end(ball_bounds()), high_end(ball_bounds()));
    lemma_area_sign(low, high, t / 2, depth_behind(low, high, t / 2, eye));
}

/// The side of a box with room in it has an area.
proof fn lemma_area_sign(low: Place, high: Place, k: int, depth: int)
    requires
        low.x < high.x,
        low.y < high.y,
        low.z < high.z,
    ensures
        side_area(low, high, k) * depth * 1 > 0 <==> depth > 0,
        side_area(low, high, k) * depth * (-1) > 0 <==> depth < 0,
{
    let (w, h, d) = (high.x - low.x, high.y - low.y, high.z - low.z);
    assert(w * d > 0 && h * d > 0 && w * h > 0) by (nonlinear_arith)
        requires
            w > 0,
            h > 0,
            d > 0,
    ;
    let area = side_area(low, high, k);
    assert((area * depth * 1 > 0 <==> depth > 0) && (area * depth * (-1) > 0 <==> depth < 0)) by (nonlinear_arith)
        requires
            area > 0,
    ;
}

/// A lattice point of the resting water.
pub open spec fn on_water(p: Point) -> Place {
    Place { x: p.x, y: 0, z: p.z }
}

/// The triangles of the resting water show their front to an eye above it and their back
/// to an eye under it: drawn once without back faces and once without front faces, the
/// water is seen from everywhere, and never twice.
pub proof fn lemma_surface_faces_up(s: int, t: int, eye: Place)
    requires
        2 <= s,
        0 <= t,
        3 * t < surface_indices(s),
    ensures
        facing(
            on_water(vertex_point(s, index_at(s, 3 * t))),
            on_water(vertex_point(s, index_at(s, 3 * t + 1))),
            on_water(vertex_point(s, index_at(s, 3 * t + 2))),
            eye,
        ) == eye.y,
{
    lemma_surface_winding(s, t);
    let a = vertex_point(s, index_at(s, 3 * t));
    let b = vertex_point(s, index_at(s, 3 * t + 1));
    let c = vertex_point(s, index_at(s, 3 * t + 2));
    let (p, q, r, u) = (b.x - a.x, b.z - a.z, c.x - a.x, c.z - a.z);
    let (x, y, z) = (eye.x - a.x, eye.y, eye.z - a.z);
    assert((0 * u - q * 0) * x + (q * r - p * u) * y + (p * 0 - 0 * r) * z == -((p * u - q * r) * y))
        by (nonlinear_arith);
    assert(twice_area(a, b, c) == p * u - q * r);
    assert((p * u - q * r) * y == -y) by (nonlinear_arith)
        requires
            p * u - q * r == -1,
    ;
}

} // verus!
