//! What holds of the water mesh.

use crate::arithmetic::{
    from_whole, lemma_two_to_32, negative, opposite, product, quotient, unit, TWO_TO_32,
};
use crate::bounds::{
    is_finite, lemma_one, lemma_product_exact, lemma_product_order, lemma_quotient_order,
    lemma_sum_exact, lemma_sum_order,
};
use crate::constants::{MINUS_ONE, TWO};
use crate::grid::{
    coordinate, index_at, index_count, lemma_place, lemma_place_bound, skirt_from, skirt_to,
    surface_indices, surface_vertices, vertex_count, vertex_lowered, vertex_point, Point,
};
use crate::limits::lemma_limit_values;
use crate::rounding::{
    lemma_rounded_exact, lemma_rounded_nearest, lemma_rounded_order, lemma_spread_at, rounded,
};
use crate::scalar::{
    at_most, lemma_magnitude_zero, lemma_spread_order, magnitude, spread, unsigned, value, Scalar,
    ONE, ZERO,
};
use vstd::arithmetic::div_mod::{
    lemma_div_pos_is_pos, lemma_fundamental_div_mod, lemma_multiply_divide_lt,
};
use vstd::arithmetic::power2::{lemma2_to64, lemma_pow2_adds};
use vstd::prelude::*;

verus! {

/// The cell of the surface that the index at place `i` belongs to.
proof fn lemma_cell(s: int, i: int)
    requires
        2 <= s,
        0 <= i < surface_indices(s),
    ensures
        0 <= i / 6 / s < s,
        0 <= i / 6 % s < s,
        i / 6 == i / 6 / s * s + i / 6 % s,
{
    let cell = i / 6;
    assert(cell < s * s);
    lemma_fundamental_div_mod(cell, s);
    lemma_multiply_divide_lt(cell, s, s);
    lemma_div_pos_is_pos(cell, s);
    let z = cell / s;
    assert(s * z == z * s) by (nonlinear_arith);
}

/// Every index names a vertex; those of the surface name vertices of the surface.
pub proof fn lemma_index_in_range(s: int, i: int)
    requires
        2 <= s,
        0 <= i < index_count(s),
    ensures
        0 <= index_at(s, i) < vertex_count(s),
        i < surface_indices(s) ==> index_at(s, i) < surface_vertices(s),
        i >= surface_indices(s) ==> index_at(s, i) >= surface_vertices(s),
{
    assert(surface_vertices(s) >= 0) by (nonlinear_arith)
        requires
            surface_vertices(s) == (s + 1) * (s + 1),
    ;
    if i < surface_indices(s) {
        lemma_cell(s, i);
        let (z, x) = (i / 6 / s, i / 6 % s);
        lemma_place_bound(z, x, s + 1, s + 1);
        lemma_place_bound(z, x + 1, s + 1, s + 1);
        lemma_place_bound(z + 1, x, s + 1, s + 1);
        lemma_place_bound(z + 1, x + 1, s + 1, s + 1);
        assert((z + 1) * (s + 1) == z * (s + 1) + (s + 1)) by (nonlinear_arith);
    }
}

/// Twice the area of a triangle of lattice points, with the sign of its winding.
pub open spec fn twice_area(a: Point, b: Point, c: Point) -> int {
    (b.x - a.x) * (c.z - a.z) - (b.z - a.z) * (c.x - a.x)
}

/// All triangles of the surface are wound the same way and have the same area, half
/// a cell: none is degenerate.
pub proof fn lemma_surface_winding(s: int, t: int)
    requires
        2 <= s,
        0 <= t,
        3 * t < surface_indices(s),
    ensures
        twice_area(
            vertex_point(s, index_at(s, 3 * t)),
            vertex_point(s, index_at(s, 3 * t + 1)),
            vertex_point(s, index_at(s, 3 * t + 2)),
        ) == -1,
{
    let i = 3 * t;
    assert(surface_indices(s) % 6 == 0);
    assert(i + 2 < surface_indices(s)) by {
        let q = s * s;
        assert(surface_indices(s) == 6 * q);
    }
    lemma_cell(s, i);
    let cell = i / 6;
    assert((i + 1) / 6 == cell && (i + 2) / 6 == cell);
    let (z, x) = (cell / s, cell % s);
    lemma_index_in_range(s, i);
    lemma_index_in_range(s, i + 1);
    lemma_index_in_range(s, i + 2);
    lemma_place(z, x, s + 1);
    lemma_place(z, x + 1, s + 1);
    lemma_place(z + 1, x, s + 1);
    lemma_place(z + 1, x + 1, s + 1);
    assert((z + 1) * (s + 1) == z * (s + 1) + (s + 1)) by (nonlinear_arith);
    let near = Point { x, z };
    let right = Point { x: x + 1, z };
    let below = Point { x, z: z + 1 };
    let far = Point { x: x + 1, z: z + 1 };
    assert(twice_area(near, below, right) == -1) by {
        assert((x - x) * (z - z) - (z + 1 - z) * (x + 1 - x) == -1) by (nonlinear_arith);
    }
    assert(twice_area(right, below, far) == -1) by {
        assert((x - (x + 1)) * (z + 1 - z) - (z + 1 - z) * (x + 1 - (x + 1)) == -1) by (nonlinear_arith);
    }
    if i % 6 == 0 {
        assert(vertex_point(s, index_at(s, i)) == near);
        assert(vertex_point(s, index_at(s, i + 1)) == below);
        assert(vertex_point(s, index_at(s, i + 2)) == right);
    } else {
        assert(i % 6 == 3);
        assert(vertex_point(s, index_at(s, i)) == right);
        assert(vertex_point(s, index_at(s, i + 1)) == below);
        assert(vertex_point(s, index_at(s, i + 2)) == far);
    }
}

/// Whether a lattice point lies on the rim of the surface.
pub open spec fn on_rim(s: int, p: Point) -> bool {
    &&& 0 <= p.x <= s && 0 <= p.z <= s
    &&& p.x == 0 || p.x == s || p.z == 0 || p.z == s
}

/// Whether two lattice points are neighbours.
pub open spec fn neighbours(p: Point, q: Point) -> bool {
    ||| p.z == q.z && (p.x == q.x + 1 || q.x == p.x + 1)
    ||| p.x == q.x && (p.z == q.z + 1 || q.z == p.z + 1)
}

/// A quad of the skirt hangs from one edge of the rim: its upper corners are the
/// ends of the edge, its lower corners lie below them, and its two triangles use no
/// other vertices.
pub proof fn lemma_skirt_hangs(s: int, k: int)
    requires
        2 <= s,
        0 <= k < 4 * s,
    ensures
        ({
            let base = surface_vertices(s) + 4 * k;
            let (from, to) = (skirt_from(s, k), skirt_to(s, k));
            &&& on_rim(s, from) && on_rim(s, to) && neighbours(from, to)
            &&& vertex_point(s, base) == from && vertex_point(s, base + 3) == from
            &&& vertex_point(s, base + 1) == to && vertex_point(s, base + 2) == to
            &&& !vertex_lowered(s, base) && !vertex_lowered(s, base + 1)
            &&& vertex_lowered(s, base + 2) && vertex_lowered(s, base + 3)
            &&& forall|c: int|
                0 <= c < 6 ==> base <= #[trigger] index_at(s, surface_indices(s) + 6 * k + c) < base + 4
        }),
{
    let base = surface_vertices(s) + 4 * k;
    assert((4 * k) / 4 == k && (4 * k + 1) / 4 == k && (4 * k + 2) / 4 == k && (4 * k + 3) / 4 == k);
    assert forall|c: int| 0 <= c < 6 implies base <= #[trigger] index_at(
        s,
        surface_indices(s) + 6 * k + c,
    ) < base + 4 by {
        assert((6 * k + c) / 6 == k);
    }
}

/// Seen along the upper edge of any quad of the skirt, the inside of the pool is on
/// the same side.
pub proof fn lemma_skirt_winding(s: int, k: int, inside: Point)
    requires
        2 <= s,
        0 <= k < 4 * s,
        0 < inside.x < s,
        0 < inside.z < s,
    ensures
        twice_area(skirt_from(s, k), skirt_to(s, k), inside) < 0,
{
    let (a, b) = (skirt_from(s, k), skirt_to(s, k));
    let (dx, dz, px, pz) = (b.x - a.x, b.z - a.z, inside.x - a.x, inside.z - a.z);
    assert(dx * pz - dz * px < 0) by (nonlinear_arith)
        requires
            (dx == 1 && dz == 0 && pz < 0) || (dx == -1 && dz == 0 && pz > 0) || (dx == 0 && dz == -1
                && px < 0) || (dx == 0 && dz == 1 && px > 0),
    ;
}

/// Every edge of the rim has a quad of the skirt.
pub proof fn lemma_skirt_covers_rim(s: int, side: int, i: int) -> (k: int)
    requires
        2 <= s,
        0 <= side < 4,
        0 <= i < s,
    ensures
        0 <= k < 4 * s,
        ({
            let (p, q) = if side == 0 {
                (Point { x: i, z: s }, Point { x: i + 1, z: s })
            } else if side == 1 {
                (Point { x: i, z: 0 }, Point { x: i + 1, z: 0 })
            } else if side == 2 {
                (Point { x: s, z: i }, Point { x: s, z: i + 1 })
            } else {
                (Point { x: 0, z: i }, Point { x: 0, z: i + 1 })
            };
            ||| skirt_from(s, k) == p && skirt_to(s, k) == q
            ||| skirt_from(s, k) == q && skirt_to(s, k) == p
        }),
{
    let k = 4 * i + side;
    assert(k / 4 == i && k % 4 == side);
    k
}

/// A whole number that a `u32` holds is finite, not negative, and denotes nothing
/// exactly where it is zero.
pub proof fn lemma_from_whole(n: int)
    requires
        0 <= n <= u32::MAX,
    ensures
        is_finite(from_whole(n)),
        !negative(from_whole(n)),
        n == 0 ==> from_whole(n) == ZERO,
        n > 0 ==> value(from_whole(n)) > 0,
{
    lemma_one();
    let w = from_whole(n);
    lemma_two_to_32(TWO_TO_32);
    let u = rounded(n * unit(), 1);
    let top = 0x1_0000_0000 * unit();
    assert(n * unit() <= top) by (nonlinear_arith)
        requires
            n <= 0x1_0000_0000,
            unit() > 0,
            top == 0x1_0000_0000 * unit(),
    ;
    lemma_whole_top();
    lemma_rounded_exact(top, 1, TWO_TO_32 as int);
    lemma_rounded_order(n * unit(), 1, top, 1);
    lemma_rounded_nearest(n * unit(), 1);
    lemma_magnitude_zero(ZERO);
    lemma_rounded_exact(0, 1, 0);
    lemma_magnitude_zero(w);
    if n > 0 {
        assert(n * unit() >= unit()) by (nonlinear_arith)
            requires
                n >= 1,
                unit() > 0,
        ;
        lemma_rounded_exact(unit(), 1, ONE as int);
        lemma_rounded_order(unit(), 1, n * unit(), 1);
    } else {
        assert(0 * unit() == 0);
    }
}

/// What two to the power 32 denotes.
proof fn lemma_whole_top()
    ensures
        spread(TWO_TO_32 as int) == 0x1_0000_0000 * unit(),
{
    lemma_spread_at(0x80_0000, 158);
    lemma2_to64();
    lemma_pow2_adds(149, 9);
}

/// Larger whole numbers do not denote less.
pub proof fn lemma_from_whole_order(m: int, n: int)
    requires
        0 <= m <= n <= u32::MAX,
    ensures
        value(from_whole(m)) <= value(from_whole(n)),
{
    lemma_one();
    lemma_from_whole(m);
    lemma_from_whole(n);
    assert(m * unit() <= n * unit()) by (nonlinear_arith)
        requires
            m <= n,
            unit() > 0,
    ;
    lemma_rounded_order(m * unit(), 1, n * unit(), 1);
    lemma_rounded_nearest(m * unit(), 1);
    lemma_rounded_nearest(n * unit(), 1);
    let (u, v) = (rounded(m * unit(), 1), rounded(n * unit(), 1));
    if u < v {
        lemma_spread_order(u, v);
    }
}

/// The mesh reaches from one end of the pool to the other.
pub proof fn lemma_grid_ends(s: int)
    requires
        1 <= s <= u32::MAX,
    ensures
        coordinate(s, 0) == MINUS_ONE,
        coordinate(s, s) == ONE,
{
    lemma_limit_values();
    lemma_from_whole(0);
    lemma_from_whole(s);
    let w = from_whole(s);
    let m = magnitude(w);
    lemma_magnitude_zero(ZERO);
    assert(0 * unit() == 0);
    lemma_rounded_exact(0, m, 0);
    assert(quotient(ZERO, w) == ZERO);
    lemma_rounded_exact(0, unit(), 0);
    assert(magnitude(ZERO) * magnitude(TWO) == 0) by (nonlinear_arith)
        requires
            magnitude(ZERO) == 0,
    ;
    assert(product(ZERO, TWO) == ZERO);
    lemma_sum_exact(ZERO, MINUS_ONE, MINUS_ONE);
    lemma_rounded_exact(m * unit(), m, ONE as int);
    assert(quotient(w, w) == ONE);
    assert(value(ONE) * value(TWO) == unit() * value(TWO));
    lemma_product_exact(ONE, TWO, TWO);
    lemma_sum_exact(TWO, MINUS_ONE, ONE);
}

/// Along either axis the lattice points of the mesh follow one another.
pub proof fn lemma_grid_order(s: int, i: int, j: int)
    requires
        1 <= s <= u32::MAX,
        0 <= i <= j <= s,
    ensures
        at_most(coordinate(s, i), coordinate(s, j)),
{
    lemma_limit_values();
    lemma_from_whole(i);
    lemma_from_whole(j);
    lemma_from_whole(s);
    lemma_from_whole_order(i, j);
    lemma_from_whole_order(j, s);
    let w = from_whole(s);
    let (a, b) = (quotient(from_whole(i), w), quotient(from_whole(j), w));
    lemma_quotient_order(from_whole(i), from_whole(j), w);
    lemma_quotient_order(from_whole(j), w, w);
    lemma_rounded_exact(magnitude(w) * unit(), magnitude(w), ONE as int);
    assert(quotient(w, w) == ONE);
    lemma_below_is_finite(b, ONE);
    lemma_below_is_finite(a, ONE);
    lemma_product_order(a, b, TWO);
    lemma_product_order(b, ONE, TWO);
    assert(value(ONE) * value(TWO) == unit() * value(TWO));
    lemma_product_exact(ONE, TWO, TWO);
    lemma_below_is_finite(product(b, TWO), TWO);
    lemma_below_is_finite(product(a, TWO), TWO);
    assert(opposite(ONE) == MINUS_ONE);
    lemma_sum_order(product(a, TWO), product(b, TWO), MINUS_ONE);
}

/// Every vertex of the mesh stands in the pool.
pub proof fn lemma_grid_in_pool(s: int, i: int)
    requires
        1 <= s <= u32::MAX,
        0 <= i <= s,
    ensures
        at_most(MINUS_ONE, coordinate(s, i)),
        at_most(coordinate(s, i), ONE),
{
    lemma_grid_ends(s);
    lemma_grid_order(s, 0, i);
    lemma_grid_order(s, i, s);
}

/// A number not below zero and not above a finite one is finite.
proof fn lemma_below_is_finite(a: Scalar, bound: Scalar)
    requires
        !negative(a),
        at_most(a, bound),
        is_finite(bound),
        !negative(bound),
    ensures
        is_finite(a),
{
    if !is_finite(a) {
        lemma_spread_order(unsigned(bound), unsigned(a));
    }
}

} // verus!
