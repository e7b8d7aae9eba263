//! How the ball turns: in every frame around its slanted axis by the angle of the frame,
//! and then around the axis across its way where it moved over the floor.

use crate::arithmetic::{opposite, product, root, size, sum, unit};
use crate::bounds::{is_finite, lemma_dyadic};
use crate::constants::{SLANT_X, SLANT_Y, SLANT_Z};
use crate::limits::lemma_limit_values;
use crate::picking_laws::{exact_inner, lemma_component_off, lemma_unit_components};
use crate::plugin::{spin_axis, WaterState};
use crate::rotation_laws::{
    computed_squares, is_unit, lemma_close_sums, lemma_direction_is_unit, lemma_four_squares,
    lemma_four_terms, lemma_near_components, lemma_near_not_tiny, lemma_nearer,
    lemma_quaternion_direction_is_unit, lemma_quaternion_squares, lemma_root_error,
    lemma_scaled_square, lemma_signs, lemma_square_nonnegative, lemma_term, lemma_term_square,
    lemma_times_four, lemma_tiny, lemma_turned_term, lemma_vector_squares, near_unit, pure, squares,
    TINY, UNIT_PARTS,
};
use crate::ranges::{lemma_power, lemma_root_within, lemma_within_more, within};
use crate::scalar::{lemma_magnitude_zero, lemma_spread_order, value, Scalar, ONE, SIGN, ZERO};
use crate::vector::{
    direction, inner, length, quaternion_direction, quaternion_product, turn, SineCosine, Vec3,
    Vec4,
};
use vstd::arithmetic::power2::lemma2_to64;
use vstd::prelude::*;

verus! {

/// Two numbers whose squares are close are close.
pub proof fn lemma_roots_close(k: int, l: int, parts: int)
    requires
        k >= 0,
        l > 0,
        parts > 0,
        size(k * k - l * l) * parts <= l * l,
    ensures
        size(k - l) * parts <= l,
{
    let (g, h) = (k - l, k + l);
    assert(k * k - l * l == g * h) by (nonlinear_arith)
        requires
            g == k - l,
            h == k + l,
    ;
    assert(size(g * h) == size(g) * h) by (nonlinear_arith)
        requires
            h > 0,
    ;
    assert((size(g) * l) * parts <= (size(g) * h) * parts) by (nonlinear_arith)
        requires
            l <= h,
            size(g) >= 0,
            parts > 0,
    ;
    assert(l * (size(g) * parts) <= l * l) by (nonlinear_arith)
        requires
            (size(g) * l) * parts <= l * l,
    ;
    assert(size(g) * parts <= l) by (nonlinear_arith)
        requires
            l * (size(g) * parts) <= l * l,
            l > 0,
    ;
}

/// Whether `l` is the length of a vector, but for little.
pub open spec fn is_length(a: Vec3, l: int) -> bool {
    &&& l > 0
    &&& size(l * l - exact_inner(a, a)) * 0x2_0000 <= l * l
}

/// The direction of a vector of length `l`.
pub proof fn lemma_direction_near(a: Vec3, l: int)
    requires
        is_finite(length(a)),
        value(length(a)) >= value(TINY),
        is_unit(pure(direction(a))),
        is_length(a, l),
    ensures
        size(value(direction(a).x) * l - value(a.x) * unit()) * 0x4000 <= unit() * l,
        size(value(direction(a).y) * l - value(a.y) * unit()) * 0x4000 <= unit() * l,
        size(value(direction(a).z) * l - value(a.z) * unit()) * 0x4000 <= unit() * l,
{
    lemma_tiny();
    lemma_limit_values();
    lemma_vector_squares(a);
    let (k, u, n, s) = (value(length(a)), unit(), value(inner(a, a)) * unit(), squares(pure(a)));
    assert(value(ZERO) * value(ZERO) == 0) by (nonlinear_arith)
        requires
            value(ZERO) == 0,
    ;
    assert(l * l > 0) by (nonlinear_arith)
        requires
            l > 0,
    ;
    lemma_square_nonnegative(k);
    assert(size(k * k - l * l) * 0x1_0000 <= l * l);
    lemma_roots_close(k, l, 0x1_0000);
    let c = direction(a);
    lemma_nearer(pure(c), UNIT_PARTS as int, 64);
    lemma_unit_components(c);
    lemma_component_off(a.x, length(a));
    lemma_component_off(a.y, length(a));
    lemma_component_off(a.z, length(a));
    lemma_component_length(value(c.x), k, l, value(a.x), u);
    lemma_component_length(value(c.y), k, l, value(a.y), u);
    lemma_component_length(value(c.z), k, l, value(a.z), u);
}

/// A component divided by nearly the same length.
proof fn lemma_component_length(c: int, k: int, l: int, a: int, u: int)
    requires
        u > 0,
        8 * size(c) <= 9 * u,
        0 < k,
        0 < l,
        size(k - l) * 0x1_0000 <= l,
        size(c * k - a * u) * 0x100_0000 <= 2 * (u * k),
    ensures
        size(c * l - a * u) * 0x4000 <= u * l,
{
    let (g, ul) = (k - l, u * l);
    assert(c * k - c * l == c * g) by (nonlinear_arith)
        requires
            g == k - l,
    ;
    assert(size(c * g) * 0x8_0000 <= 9 * ul) by (nonlinear_arith)
        requires
            8 * size(c) <= 9 * u,
            size(g) * 0x1_0000 <= l,
            ul == u * l,
    {
        assert(size(c * g) == size(c) * size(g)) by (nonlinear_arith);
        assert((8 * size(c)) * (size(g) * 0x1_0000) <= (9 * u) * l) by (nonlinear_arith)
            requires
                0 <= 8 * size(c) <= 9 * u,
                0 <= size(g) * 0x1_0000 <= l,
        ;
        assert((8 * size(c)) * (size(g) * 0x1_0000) == 0x8_0000 * (size(c) * size(g))) by (nonlinear_arith);
    }
    assert(u * k <= 2 * ul && ul > 0) by (nonlinear_arith)
        requires
            0 < l,
            k <= 2 * l,
            ul == u * l,
            u > 0,
    ;
}

/// A unit vector divided by its length stays as good as it is.
pub proof fn lemma_again_near(a: Vec3)
    requires
        is_unit(pure(a)),
    ensures
        is_unit(pure(direction(a))),
        size(value(direction(a).x) - value(a.x)) * 0x4000 <= unit(),
        size(value(direction(a).y) - value(a.y)) * 0x4000 <= unit(),
        size(value(direction(a).z) - value(a.z)) * 0x4000 <= unit(),
{
    lemma_tiny();
    lemma_limit_values();
    lemma_near_not_tiny(pure(a), UNIT_PARTS as int);
    lemma_magnitude_zero(ZERO);
    lemma_direction_is_unit(a);
    let u = unit();
    assert(value(ZERO) * value(ZERO) == 0) by (nonlinear_arith)
        requires
            value(ZERO) == 0,
    ;
    lemma_direction_near(a, u);
    lemma_same_unit(value(direction(a).x), value(a.x), u);
    lemma_same_unit(value(direction(a).y), value(a.y), u);
    lemma_same_unit(value(direction(a).z), value(a.z), u);
}

/// Both sides divided by the unit.
proof fn lemma_same_unit(d: int, a: int, u: int)
    requires
        u > 0,
        size(d * u - a * u) * 0x4000 <= u * u,
    ensures
        size(d - a) * 0x4000 <= u,
{
    let g = d - a;
    assert(d * u - a * u == g * u) by (nonlinear_arith)
        requires
            g == d - a,
    ;
    assert(size(g * u) == size(g) * u) by (nonlinear_arith)
        requires
            u > 0,
    ;
    assert(size(g) * 0x4000 <= u) by (nonlinear_arith)
        requires
            (size(g) * u) * 0x4000 <= u * u,
            u > 0,
    {
        assert(u * (size(g) * 0x4000) <= u * u) by (nonlinear_arith)
            requires
                (size(g) * u) * 0x4000 <= u * u,
        ;
    }
}

/// Whether `l` is the length of (0.3, 1, 0.2), but for little.
pub open spec fn slant_length(l: int) -> bool {
    &&& l > 0
    &&& size(100 * (l * l) - 113 * (unit() * unit())) * 0x10_0000 <= unit() * unit()
}

/// The vector of the slanted axis, and its length.
proof fn lemma_slant(l: int)
    requires
        slant_length(l),
    ensures
        size(10 * value(SLANT_X) - 3 * unit()) * 0x40_0000 <= unit(),
        value(SLANT_Y) == unit(),
        size(10 * value(SLANT_Z) - 2 * unit()) * 0x40_0000 <= unit(),
        is_length(Vec3 { x: SLANT_X, y: SLANT_Y, z: SLANT_Z }, l),
        unit() <= l,
        4 * l <= 5 * unit(),
{
    lemma_limit_values();
    lemma2_to64();
    lemma_dyadic(0x99_999A, 124, 25);
    lemma_dyadic(0xCC_CCCD, 123, 26);
    let (x, z, u) = (value(SLANT_X), value(SLANT_Z), unit());
    let uu = u * u;
    assert(x * 0x200_0000 == 0x99_999A * u);
    assert(z * 0x400_0000 == 0xCC_CCCD * u);
    assert(size(100 * (x * x) - 9 * uu) * 0x10_0000 <= 8 * uu) by (nonlinear_arith)
        requires
            size(10 * x - 3 * u) * 0x40_0000 <= u,
            uu == u * u,
            u > 0,
    {
        let g = 10 * x - 3 * u;
        assert(100 * (x * x) - 9 * uu == g * (g + 6 * u)) by (nonlinear_arith)
            requires
                g == 10 * x - 3 * u,
                uu == u * u,
        ;
        assert(size(g * (g + 6 * u)) <= size(g) * (7 * u)) by (nonlinear_arith)
            requires
                size(g + 6 * u) <= 7 * u,
        ;
        assert((size(g) * (7 * u)) * 0x40_0000 <= u * (7 * u)) by (nonlinear_arith)
            requires
                size(g) * 0x40_0000 <= u,
                u > 0,
        ;
    }
    assert(size(100 * (z * z) - 4 * uu) * 0x10_0000 <= 8 * uu) by (nonlinear_arith)
        requires
            size(10 * z - 2 * u) * 0x40_0000 <= u,
            uu == u * u,
            u > 0,
    {
        let g = 10 * z - 2 * u;
        assert(100 * (z * z) - 4 * uu == g * (g + 4 * u)) by (nonlinear_arith)
            requires
                g == 10 * z - 2 * u,
                uu == u * u,
        ;
        assert(size(g * (g + 4 * u)) <= size(g) * (7 * u)) by (nonlinear_arith)
            requires
                size(g + 4 * u) <= 7 * u,
        ;
        assert((size(g) * (7 * u)) * 0x40_0000 <= u * (7 * u)) by (nonlinear_arith)
            requires
                size(g) * 0x40_0000 <= u,
                u > 0,
        ;
    }
    assert(uu > 0) by (nonlinear_arith)
        requires
            uu == u * u,
            u > 0,
    ;
    assert(u <= l && 4 * l <= 5 * u) by (nonlinear_arith)
        requires
            uu <= l * l,
            16 * (l * l) <= 25 * uu,
            uu == u * u,
            l > 0,
            u > 0,
    ;
}

/// The axis that the ball turns around by itself is the direction of (0.3, 1, 0.2).
proof fn lemma_slanted_axis(l: int)
    requires
        slant_length(l),
    ensures
        ({
            let (d, u) = (direction(spin_axis()), unit());
            &&& is_unit(pure(d))
            &&& size(10 * (value(d.x) * l) - 3 * (u * u)) * 0x200 <= u * u
            &&& size(10 * (value(d.y) * l) - 10 * (u * u)) * 0x200 <= u * u
            &&& size(10 * (value(d.z) * l) - 2 * (u * u)) * 0x200 <= u * u
        }),
{
    lemma_slant(l);
    lemma_tiny();
    lemma_limit_values();
    let slant = Vec3 { x: SLANT_X, y: SLANT_Y, z: SLANT_Z };
    lemma_slant_direction();
    lemma_direction_near(slant, l);
    let (c, d, u) = (spin_axis(), direction(spin_axis()), unit());
    lemma_again_near(c);
    lemma_axis_component(value(d.x), value(c.x), value(SLANT_X), l, 3, u);
    lemma_axis_component(value(d.y), value(c.y), value(SLANT_Y), l, 10, u);
    lemma_axis_component(value(d.z), value(c.z), value(SLANT_Z), l, 2, u);
}

/// The slanted axis itself is the direction of (0.3, 1, 0.2).
pub proof fn lemma_axis_slant(l: int)
    requires
        slant_length(l),
    ensures
        ({
            let (c, u) = (spin_axis(), unit());
            &&& size(10 * (value(c.x) * l) - 3 * (u * u)) * 0x400 <= u * u
            &&& size(10 * (value(c.y) * l) - 10 * (u * u)) * 0x400 <= u * u
            &&& size(10 * (value(c.z) * l) - 2 * (u * u)) * 0x400 <= u * u
        }),
{
    lemma_slant(l);
    lemma_limit_values();
    lemma_slant_direction();
    lemma_direction_near(Vec3 { x: SLANT_X, y: SLANT_Y, z: SLANT_Z }, l);
    let (c, u) = (spin_axis(), unit());
    lemma_slant_component(value(c.x), value(SLANT_X), l, 3, u);
    lemma_slant_component(value(c.y), value(SLANT_Y), l, 10, u);
    lemma_slant_component(value(c.z), value(SLANT_Z), l, 2, u);
}

/// A component of the slanted axis.
proof fn lemma_slant_component(c: int, s: int, l: int, tenths: int, u: int)
    requires
        u > 0,
        4 * l <= 5 * u,
        size(c * l - s * u) * 0x4000 <= u * l,
        size(10 * s - tenths * u) * 0x40_0000 <= u,
    ensures
        size(10 * (c * l) - tenths * (u * u)) * 0x400 <= u * u,
{
    let uu = u * u;
    assert(4 * (u * l) <= 5 * uu) by (nonlinear_arith)
        requires
            4 * l <= 5 * u,
            uu == u * u,
            u > 0,
    ;
    let g = 10 * s - tenths * u;
    assert(10 * (s * u) - tenths * uu == g * u) by (nonlinear_arith)
        requires
            g == 10 * s - tenths * u,
            uu == u * u,
    ;
    assert(size(g * u) * 0x40_0000 <= uu) by (nonlinear_arith)
        requires
            size(g) * 0x40_0000 <= u,
            uu == u * u,
            u > 0,
    {
        assert(size(g * u) == size(g) * u) by (nonlinear_arith)
            requires
                u > 0,
        ;
    }
    assert(uu > 0) by (nonlinear_arith)
        requires
            uu == u * u,
            u > 0,
    ;
}

/// The slanted axis has a length that is not tiny.
proof fn lemma_slant_direction()
    ensures
        ({
            let slant = Vec3 { x: SLANT_X, y: SLANT_Y, z: SLANT_Z };
            &&& is_finite(length(slant))
            &&& value(length(slant)) >= value(TINY)
            &&& is_unit(pure(spin_axis()))
        }),
{
    lemma_tiny();
    lemma_limit_values();
    lemma2_to64();
    let slant = Vec3 { x: SLANT_X, y: SLANT_Y, z: SLANT_Z };
    lemma_spread_order(SLANT_X as int, ONE as int);
    lemma_spread_order(SLANT_Z as int, ONE as int);
    lemma_magnitude_zero(SLANT_X);
    lemma_magnitude_zero(SLANT_Z);
    lemma_power(0);
    lemma_within_more(SLANT_X, 0, 50);
    lemma_within_more(SLANT_Y, 0, 50);
    lemma_within_more(SLANT_Z, 0, 50);
    lemma_direction_is_unit(slant);
}

/// A component of the slanted axis after it was divided by its length twice.
proof fn lemma_axis_component(d: int, c: int, s: int, l: int, tenths: int, u: int)
    requires
        u > 0,
        u <= l,
        4 * l <= 5 * u,
        0 <= tenths <= 10,
        size(d - c) * 0x4000 <= u,
        size(c * l - s * u) * 0x4000 <= u * l,
        size(10 * s - tenths * u) * 0x40_0000 <= u,
    ensures
        size(10 * (d * l) - tenths * (u * u)) * 0x200 <= u * u,
{
    let uu = u * u;
    assert(4 * (size(d * l - c * l) * 0x4000) <= 5 * uu) by (nonlinear_arith)
        requires
            size(d - c) * 0x4000 <= u,
            0 < l,
            4 * l <= 5 * u,
            uu == u * u,
    {
        let g = d - c;
        assert(d * l - c * l == g * l) by (nonlinear_arith)
            requires
                g == d - c,
        ;
        assert(size(g * l) == size(g) * l) by (nonlinear_arith)
            requires
                l > 0,
        ;
        assert((size(g) * 0x4000) * (4 * l) <= u * (5 * u)) by (nonlinear_arith)
            requires
                0 <= size(g) * 0x4000 <= u,
                0 < 4 * l <= 5 * u,
        ;
        assert((size(g) * 0x4000) * (4 * l) == 4 * ((size(g) * l) * 0x4000)) by (nonlinear_arith);
        assert(u * (5 * u) == 5 * uu) by (nonlinear_arith)
            requires
                uu == u * u,
        ;
    }
    assert(4 * (u * l) <= 5 * uu) by (nonlinear_arith)
        requires
            4 * l <= 5 * u,
            uu == u * u,
            u > 0,
    ;
    let g = 10 * s - tenths * u;
    assert(10 * (s * u) - tenths * uu == g * u) by (nonlinear_arith)
        requires
            g == 10 * s - tenths * u,
            uu == u * u,
    ;
    assert(size(g * u) * 0x40_0000 <= uu) by (nonlinear_arith)
        requires
            size(g) * 0x40_0000 <= u,
            uu == u * u,
            u > 0,
    {
        assert(size(g * u) == size(g) * u) by (nonlinear_arith)
            requires
                u > 0,
        ;
    }
    assert(uu > 0) by (nonlinear_arith)
        requires
            uu == u * u,
            u > 0,
    ;
}

/// A quaternion of exact numbers, the real part last.
pub struct Exact {
    pub x: int,
    pub y: int,
    pub z: int,
    pub w: int,
}

/// What the components of a quaternion denote.
pub open spec fn exact(q: Vec4) -> Exact {
    Exact { x: value(q.x), y: value(q.y), z: value(q.z), w: value(q.w) }
}

/// The exact product of two quaternions: first the turn `b`, then the turn `a`.
pub open spec fn after_turn(a: Exact, b: Exact) -> Exact {
    Exact {
        x: a.w * b.x + a.x * b.w + a.y * b.z - a.z * b.y,
        y: a.w * b.y - a.x * b.z + a.y * b.w + a.z * b.x,
        z: a.w * b.z + a.x * b.y - a.y * b.x + a.z * b.w,
        w: a.w * b.w - a.x * b.x - a.y * b.y - a.z * b.z,
    }
}

/// Whether no component of two quaternions differs by more than one part in `parts` of `e`.
pub open spec fn apart(a: Exact, b: Exact, parts: int, e: int) -> bool {
    &&& size(a.x - b.x) * parts <= e
    &&& size(a.y - b.y) * parts <= e
    &&& size(a.z - b.z) * parts <= e
    &&& size(a.w - b.w) * parts <= e
}

/// Whether no component is larger than `most`.
pub open spec fn bounded(a: Exact, most: int) -> bool {
    &&& size(a.x) <= most
    &&& size(a.y) <= most
    &&& size(a.z) <= most
    &&& size(a.w) <= most
}

/// A quaternion times a number.
pub open spec fn scaled(a: Exact, k: int) -> Exact {
    Exact { x: k * a.x, y: k * a.y, z: k * a.z, w: k * a.w }
}

/// A sum of four terms, each with the exact term that it stands for.
proof fn lemma_terms_add(a: Scalar, b: Scalar, c: Scalar, d: Scalar, ea: int, eb: int, ec: int, ed: int)
    requires
        within(a, 2),
        within(b, 2),
        within(c, 2),
        within(d, 2),
        size(value(a) * unit() - ea) * 0x100_0000 <= 5 * (unit() * unit()),
        size(value(b) * unit() - eb) * 0x100_0000 <= 5 * (unit() * unit()),
        size(value(c) * unit() - ec) * 0x100_0000 <= 5 * (unit() * unit()),
        size(value(d) * unit() - ed) * 0x100_0000 <= 5 * (unit() * unit()),
    ensures
        is_finite(sum(sum(sum(a, b), c), d)),
        size(value(sum(sum(sum(a, b), c), d)) * unit() - (ea + eb + ec + ed)) * 0x100_0000 <= 76 * (unit()
            * unit()),
{
    lemma_limit_values();
    lemma_four_terms(a, b, c, d);
    lemma_close_sums(
        unit(),
        value(sum(sum(sum(a, b), c), d)),
        value(a),
        value(b),
        value(c),
        value(d),
        ea,
        eb,
        ec,
        ed,
    );
}

/// Whether a quaternion is the exact product of two, but for 76 units of rounding.
pub open spec fn rounded_product(v: Vec4, a: Vec4, b: Vec4) -> bool {
    let (e, u) = (after_turn(exact(a), exact(b)), unit());
    &&& is_finite(v.x) && is_finite(v.y) && is_finite(v.z) && is_finite(v.w)
    &&& size(value(v.x) * u - e.x) * 0x100_0000 <= 76 * (u * u)
    &&& size(value(v.y) * u - e.y) * 0x100_0000 <= 76 * (u * u)
    &&& size(value(v.z) * u - e.z) * 0x100_0000 <= 76 * (u * u)
    &&& size(value(v.w) * u - e.w) * 0x100_0000 <= 76 * (u * u)
}

/// The components `x` and `y` of a product of quaternions.
proof fn lemma_product_xy(a: Vec4, b: Vec4)
    requires
        near_unit(a, 16),
        near_unit(b, 16),
    ensures
        ({
            let (v, e, u) = (quaternion_product(a, b), after_turn(exact(a), exact(b)), unit());
            &&& is_finite(v.x) && is_finite(v.y)
            &&& size(value(v.x) * u - e.x) * 0x100_0000 <= 76 * (u * u)
            &&& size(value(v.y) * u - e.y) * 0x100_0000 <= 76 * (u * u)
        }),
{
    lemma_near_components(a, 16);
    lemma_near_components(b, 16);
    lemma_term(a.w, b.x);
    lemma_term(a.x, b.w);
    lemma_term(a.y, b.z);
    lemma_term(a.z, b.y);
    lemma_turned_term(product(a.z, b.y), value(a.z) * value(b.y));
    lemma_terms_add(
        product(a.w, b.x),
        product(a.x, b.w),
        product(a.y, b.z),
        opposite(product(a.z, b.y)),
        value(a.w) * value(b.x),
        value(a.x) * value(b.w),
        value(a.y) * value(b.z),
        -(value(a.z) * value(b.y)),
    );
    lemma_term(a.w, b.y);
    lemma_term(a.x, b.z);
    lemma_term(a.y, b.w);
    lemma_term(a.z, b.x);
    lemma_turned_term(product(a.x, b.z), value(a.x) * value(b.z));
    lemma_terms_add(
        product(a.w, b.y),
        opposite(product(a.x, b.z)),
        product(a.y, b.w),
        product(a.z, b.x),
        value(a.w) * value(b.y),
        -(value(a.x) * value(b.z)),
        value(a.y) * value(b.w),
        value(a.z) * value(b.x),
    );
}

/// The components `z` and `w` of a product of quaternions.
proof fn lemma_product_zw(a: Vec4, b: Vec4)
    requires
        near_unit(a, 16),
        near_unit(b, 16),
    ensures
        ({
            let (v, e, u) = (quaternion_product(a, b), after_turn(exact(a), exact(b)), unit());
            &&& is_finite(v.z) && is_finite(v.w)
            &&& size(value(v.z) * u - e.z) * 0x100_0000 <= 76 * (u * u)
            &&& size(value(v.w) * u - e.w) * 0x100_0000 <= 76 * (u * u)
        }),
{
    lemma_near_components(a, 16);
    lemma_near_components(b, 16);
    lemma_term(a.w, b.z);
    lemma_term(a.x, b.y);
    lemma_term(a.y, b.x);
    lemma_term(a.z, b.w);
    lemma_turned_term(product(a.y, b.x), value(a.y) * value(b.x));
    lemma_terms_add(
        product(a.w, b.z),
        product(a.x, b.y),
        opposite(product(a.y, b.x)),
        product(a.z, b.w),
        value(a.w) * value(b.z),
        value(a.x) * value(b.y),
        -(value(a.y) * value(b.x)),
        value(a.z) * value(b.w),
    );
    lemma_term(a.w, b.w);
    lemma_term(a.x, b.x);
    lemma_term(a.y, b.y);
    lemma_term(a.z, b.z);
    lemma_turned_term(product(a.x, b.x), value(a.x) * value(b.x));
    lemma_turned_term(product(a.y, b.y), value(a.y) * value(b.y));
    lemma_turned_term(product(a.z, b.z), value(a.z) * value(b.z));
    lemma_terms_add(
        product(a.w, b.w),
        opposite(product(a.x, b.x)),
        opposite(product(a.y, b.y)),
        opposite(product(a.z, b.z)),
        value(a.w) * value(b.w),
        -(value(a.x) * value(b.x)),
        -(value(a.y) * value(b.y)),
        -(value(a.z) * value(b.z)),
    );
}

/// A square of a component of a product, and the exact one.
proof fn lemma_tight_square(v: int, e: int, u: int)
    requires
        u > 0,
        size(v * u - e) * 0x100_0000 <= 76 * (u * u),
        e * e <= 4 * ((u * u) * (u * u)),
    ensures
        size((v * v) * (u * u) - e * e) * 0x8000 <= (u * u) * (u * u),
{
    let (w, x) = (u * u, v * u);
    assert(w > 0) by (nonlinear_arith)
        requires
            w == u * u,
            u > 0,
    ;
    lemma_scaled_square(v, u);
    assert(size(e) <= 2 * w) by (nonlinear_arith)
        requires
            e * e <= 4 * (w * w),
            w > 0,
    ;
    let (g, s) = (x - e, x + e);
    assert(x * x - e * e == g * s) by (nonlinear_arith)
        requires
            g == x - e,
            s == x + e,
    ;
    assert(size(s) <= 5 * w);
    assert(size(g * s) * 0x8000 <= w * w) by (nonlinear_arith)
        requires
            size(g) * 0x100_0000 <= 76 * w,
            size(s) <= 5 * w,
            w > 0,
    {
        assert(size(g * s) == size(g) * size(s)) by (nonlinear_arith);
        assert((size(g) * 0x100_0000) * size(s) <= (76 * w) * (5 * w)) by (nonlinear_arith)
            requires
                0 <= size(g) * 0x100_0000 <= 76 * w,
                0 <= size(s) <= 5 * w,
        ;
        assert((size(g) * 0x100_0000) * size(s) == (size(g) * size(s)) * 0x100_0000) by (nonlinear_arith);
        assert((76 * w) * (5 * w) == 380 * (w * w)) by (nonlinear_arith);
        assert(w * w > 0) by (nonlinear_arith)
            requires
                w > 0,
        ;
    }
}

/// The squares of a product of two quaternions near unit quaternions.
#[verifier::rlimit(30)]
pub proof fn lemma_tight_squares(a: Vec4, b: Vec4)
    requires
        near_unit(a, 64),
        near_unit(b, 64),
    ensures
        ({
            let (v, w) = (quaternion_product(a, b), unit() * unit());
            &&& rounded_product(v, a, b)
            &&& size(squares(v) * w - squares(a) * squares(b)) * 0x2000 <= w * w
        }),
{
    lemma_limit_values();
    lemma_nearer(a, 64, 16);
    lemma_nearer(b, 64, 16);
    lemma_product_xy(a, b);
    lemma_product_zw(a, b);
    let (v, e, u) = (quaternion_product(a, b), after_turn(exact(a), exact(b)), unit());
    let w = u * u;
    let (p, q) = (squares(a), squares(b));
    lemma_four_squares(
        value(a.x),
        value(a.y),
        value(a.z),
        value(a.w),
        value(b.x),
        value(b.y),
        value(b.z),
        value(b.w),
    );
    assert(e.x * e.x + e.y * e.y + e.z * e.z + e.w * e.w == p * q);
    assert(p * q <= 4 * (w * w)) by (nonlinear_arith)
        requires
            0 <= p <= 2 * w,
            0 <= q <= 2 * w,
    ;
    lemma_square_nonnegative(e.x);
    lemma_square_nonnegative(e.y);
    lemma_square_nonnegative(e.z);
    lemma_square_nonnegative(e.w);
    lemma_tight_square(value(v.x), e.x, u);
    lemma_tight_square(value(v.y), e.y, u);
    lemma_tight_square(value(v.z), e.z, u);
    lemma_tight_square(value(v.w), e.w, u);
    lemma_times_four(
        w,
        value(v.x) * value(v.x),
        value(v.y) * value(v.y),
        value(v.z) * value(v.z),
        value(v.w) * value(v.w),
    );
    lemma_signs(w, value(v.x) * value(v.x));
    lemma_signs(w, value(v.y) * value(v.y));
    lemma_signs(w, value(v.z) * value(v.z));
    lemma_signs(w, value(v.w) * value(v.w));
}

/// How near a product of two numbers is to 1 where both are.
pub proof fn lemma_tight_multiply(w: int, s: int, p: int, q: int)
    requires
        w > 0,
        size(p - w) * 0x4000 <= w,
        size(q - w) * 0x1000 <= w,
        size(s * w - p * q) * 0x2000 <= w * w,
    ensures
        size(s - w) * 0x800 <= w,
        size(q - w) * 0x2_0000 <= w ==> size(s - w) * 0x1000 <= w,
{
    let (f, g) = (p - w, q - w);
    assert(p * q == w * w + w * f + w * g + f * g) by (nonlinear_arith)
        requires
            f == p - w,
            g == q - w,
    ;
    assert(size(w * f) == w * size(f) && size(w * g) == w * size(g)) by (nonlinear_arith)
        requires
            w > 0,
    ;
    assert((w * size(f)) * 0x4000 <= w * w) by (nonlinear_arith)
        requires
            size(f) * 0x4000 <= w,
            w > 0,
    ;
    assert((w * size(g)) * 0x1000 <= w * w) by (nonlinear_arith)
        requires
            size(g) * 0x1000 <= w,
            w > 0,
    ;
    assert(size(f * g) * 0x400_0000 <= w * w) by (nonlinear_arith)
        requires
            size(f) * 0x4000 <= w,
            size(g) * 0x1000 <= w,
    {
        assert(size(f * g) == size(f) * size(g)) by (nonlinear_arith);
        assert((size(f) * 0x4000) * (size(g) * 0x1000) <= w * w) by (nonlinear_arith)
            requires
                0 <= size(f) * 0x4000 <= w,
                0 <= size(g) * 0x1000 <= w,
        ;
        assert((size(f) * 0x4000) * (size(g) * 0x1000) == (size(f) * size(g)) * 0x400_0000) by (nonlinear_arith);
    }
    let h = s - w;
    assert(s * w - w * w == h * w) by (nonlinear_arith)
        requires
            h == s - w,
    ;
    assert(size(h * w) == size(h) * w) by (nonlinear_arith)
        requires
            w > 0,
    ;
    assert((size(h) * w) * 0x800 <= w * w);
    assert(size(h) * 0x800 <= w) by (nonlinear_arith)
        requires
            (size(h) * w) * 0x800 <= w * w,
            w > 0,
    ;
    if size(g) * 0x2_0000 <= w {
        assert((w * size(g)) * 0x2_0000 <= w * w) by (nonlinear_arith)
            requires
                size(g) * 0x2_0000 <= w,
                w > 0,
        ;
        assert((size(h) * w) * 0x1000 <= w * w);
        assert(size(h) * 0x1000 <= w) by (nonlinear_arith)
            requires
                (size(h) * w) * 0x1000 <= w * w,
                w > 0,
        ;
    }
}

/// Whether two numbers are the sine and the cosine of some angle, to a millionth.
pub open spec fn tight_circle(half: SineCosine) -> bool {
    &&& is_finite(half.sine) && is_finite(half.cosine)
    &&& size(value(half.sine) * value(half.sine) + value(half.cosine) * value(half.cosine) - unit() * unit())
        * 0x10_0000 <= unit() * unit()
}

/// A turn around an axis of length 1.
#[verifier::rlimit(30)]
pub proof fn lemma_tight_turn(axis: Vec3, half: SineCosine)
    requires
        is_unit(pure(direction(axis))),
        tight_circle(half),
    ensures
        near_unit(turn(axis, half), 0x4000),
        size(value(half.sine)) <= 2 * unit(),
        size(value(half.cosine)) <= 2 * unit(),
        16 * size(value(half.sine)) <= 17 * unit(),
        16 * size(value(half.cosine)) <= 17 * unit(),
{
    lemma_limit_values();
    let d = direction(axis);
    let (u, w) = (unit(), unit() * unit());
    let (s, c) = (value(half.sine) * value(half.sine), value(half.cosine) * value(half.cosine));
    lemma_near_components(pure(d), UNIT_PARTS as int);
    lemma_square_nonnegative(value(half.sine));
    lemma_square_nonnegative(value(half.cosine));
    lemma_square_nonnegative(u);
    lemma_seventeen(value(half.sine), u);
    lemma_seventeen(value(half.cosine), u);
    lemma_term_square(d.x, half.sine);
    lemma_term_square(d.y, half.sine);
    lemma_term_square(d.z, half.sine);
    let q = turn(axis, half);
    let (x, y, z) = (value(q.x) * value(q.x), value(q.y) * value(q.y), value(q.z) * value(q.z));
    let (dx, dy, dz) = (value(d.x) * value(d.x), value(d.y) * value(d.y), value(d.z) * value(d.z));
    lemma_times_four(w, x, y, z, c);
    lemma_signs(w, x);
    lemma_signs(w, y);
    lemma_signs(w, z);
    lemma_signs(w, c);
    assert(squares(pure(d)) == dx + dy + dz) by {
        assert(value(ZERO) * value(ZERO) == 0) by (nonlinear_arith)
            requires
                value(ZERO) == 0,
        ;
    }
    let total = dx + dy + dz;
    lemma_times_four(s, dx, dy, dz, 0);
    lemma_signs(s, dx);
    lemma_signs(s, dy);
    lemma_signs(s, dz);
    assert(s * 0 == 0);
    assert(w > 0) by (nonlinear_arith)
        requires
            w == u * u,
            u > 0,
    ;
    assert(size(s * total - s * w) * 0x1_0000 <= w * w) by (nonlinear_arith)
        requires
            size(total - w) * 0x4_0000 <= w,
            0 <= s <= 2 * w,
            w > 0,
    ;
    assert(size((s + c) * w - w * w) * 0x10_0000 <= w * w) by (nonlinear_arith)
        requires
            size(s + c - w) * 0x10_0000 <= w,
            w > 0,
    ;
    assert((s + c) * w == s * w + c * w) by (nonlinear_arith);
    let r = squares(q);
    assert(size(r * w - w * w) * 0x4000 <= w * w);
    assert(size(r - w) * 0x4000 <= w) by (nonlinear_arith)
        requires
            size(r * w - w * w) * 0x4000 <= w * w,
            w > 0,
    ;
}

/// A number whose square is hardly above 1.
proof fn lemma_seventeen(v: int, u: int)
    requires
        u > 0,
        256 * (v * v) <= 289 * (u * u),
    ensures
        16 * size(v) <= 17 * u,
{
    assert(16 * size(v) <= 17 * u) by (nonlinear_arith)
        requires
            u > 0,
            256 * (v * v) <= 289 * (u * u),
    ;
}

/// The components of what is near a unit quaternion are hardly above 1.
pub proof fn lemma_quaternion_components(q: Vec4, parts: int)
    requires
        near_unit(q, parts),
        parts >= 64,
    ensures
        16 * size(value(q.x)) <= 17 * unit(),
        16 * size(value(q.y)) <= 17 * unit(),
        16 * size(value(q.z)) <= 17 * unit(),
        16 * size(value(q.w)) <= 17 * unit(),
{
    lemma_limit_values();
    lemma_nearer(q, parts, 64);
    lemma_square_nonnegative(value(q.x));
    lemma_square_nonnegative(value(q.y));
    lemma_square_nonnegative(value(q.z));
    lemma_square_nonnegative(value(q.w));
    lemma_square_nonnegative(unit());
    lemma_seventeen(value(q.x), unit());
    lemma_seventeen(value(q.y), unit());
    lemma_seventeen(value(q.z), unit());
    lemma_seventeen(value(q.w), unit());
}

/// A quaternion near a unit quaternion, divided by its length.
#[verifier::rlimit(30)]
pub proof fn lemma_normalised_near(v: Vec4)
    requires
        near_unit(v, 0x800),
    ensures
        ({
            let (r, u) = (quaternion_direction(v), unit());
            &&& is_unit(r)
            &&& size(value(r.x) - value(v.x)) * 0x600 <= u
            &&& size(value(r.y) - value(v.y)) * 0x600 <= u
            &&& size(value(r.z) - value(v.z)) * 0x600 <= u
            &&& size(value(r.w) - value(v.w)) * 0x600 <= u
        }),
{
    lemma_tiny();
    lemma_limit_values();
    lemma_near_not_tiny(v, 0x800);
    lemma_quaternion_direction_is_unit(v);
    let (r, u) = (quaternion_direction(v), unit());
    let n = computed_squares(v);
    lemma_length_near(v);
    let k = root(n);
    lemma_quaternion_components(r, UNIT_PARTS as int);
    lemma_component_off(v.x, k);
    lemma_component_off(v.y, k);
    lemma_component_off(v.z, k);
    lemma_component_off(v.w, k);
    lemma_component_same(value(r.x), value(k), value(v.x), u);
    lemma_component_same(value(r.y), value(k), value(v.y), u);
    lemma_component_same(value(r.z), value(k), value(v.z), u);
    lemma_component_same(value(r.w), value(k), value(v.w), u);
}

/// The length of a quaternion near a unit quaternion.
proof fn lemma_length_near(v: Vec4)
    requires
        near_unit(v, 0x800),
    ensures
        ({
            let k = root(computed_squares(v));
            &&& is_finite(k)
            &&& value(k) > 0
            &&& size(value(k) - unit()) * 0x780 <= unit()
        }),
{
    lemma_tiny();
    lemma_limit_values();
    lemma_near_not_tiny(v, 0x800);
    let (n, u, s) = (computed_squares(v), unit(), squares(v));
    let w = u * u;
    assert(w > 0) by (nonlinear_arith)
        requires
            w == u * u,
            u > 0,
    ;
    lemma_squares_not_tiny(v);
    lemma_quaternion_squares(v);
    let x = value(n) * u;
    lemma_magnitude_zero(n);
    assert(2 * x >= w && x <= 2 * w);
    let t = value(TINY);
    assert(t * t <= x) by (nonlinear_arith)
        requires
            4 * t <= u,
            0 < t,
            2 * x >= w,
            w == u * u,
    ;
    lemma_root_within(n, TINY, 51);
    lemma_root_error(n);
    let k = value(root(n));
    lemma_square_nonnegative(k);
    assert(size(k * k - w) * 0x780 <= w);
    lemma_roots_close(k, u, 0x780);
}

/// The computed square of the length of what is near a unit quaternion is not tiny.
proof fn lemma_squares_not_tiny(v: Vec4)
    requires
        near_unit(v, 0x800),
    ensures
        value(computed_squares(v)) >= 0x200_0000,
        computed_squares(v) < SIGN,
{
    lemma_tiny();
    lemma_limit_values();
    lemma_near_not_tiny(v, 0x800);
    lemma_quaternion_direction_is_unit(v);
    lemma_magnitude_zero(computed_squares(v));
}

/// A component divided by a length near 1.
proof fn lemma_component_same(r: int, k: int, v: int, u: int)
    requires
        u > 0,
        16 * size(r) <= 17 * u,
        k > 0,
        size(k - u) * 0x780 <= u,
        size(r * k - v * u) * 0x100_0000 <= 2 * (u * k),
    ensures
        size(r - v) * 0x600 <= u,
{
    let (g, w) = (k - u, u * u);
    assert(r * k - r * u == r * g) by (nonlinear_arith)
        requires
            g == k - u,
    ;
    assert(size(r * g) * 0x7800 <= 17 * w) by (nonlinear_arith)
        requires
            16 * size(r) <= 17 * u,
            size(g) * 0x780 <= u,
            w == u * u,
    {
        assert(size(r * g) == size(r) * size(g)) by (nonlinear_arith);
        assert((16 * size(r)) * (size(g) * 0x780) <= (17 * u) * u) by (nonlinear_arith)
            requires
                0 <= 16 * size(r) <= 17 * u,
                0 <= size(g) * 0x780 <= u,
        ;
        assert((16 * size(r)) * (size(g) * 0x780) == 0x7800 * (size(r) * size(g))) by (nonlinear_arith);
    }
    assert(u * k <= 2 * w && w > 0) by (nonlinear_arith)
        requires
            k <= 2 * u,
            w == u * u,
            u > 0,
    ;
    let h = r - v;
    assert(r * u - v * u == h * u) by (nonlinear_arith)
        requires
            h == r - v,
    ;
    assert(size(h * u) * 0x600 <= w);
    assert(size(h * u) == size(h) * u) by (nonlinear_arith)
        requires
            u > 0,
    ;
    assert(size(h) * 0x600 <= u) by (nonlinear_arith)
        requires
            (size(h) * u) * 0x600 <= w,
            w == u * u,
            u > 0,
    {
        assert(u * (size(h) * 0x600) <= u * u) by (nonlinear_arith)
            requires
                (size(h) * u) * 0x600 <= w,
                w == u * u,
        ;
    }
}

/// A product of numbers, one of which is off by little.
proof fn lemma_term_apart(a: int, b: int, c: int, parts: int, e: int, most: int)
    requires
        parts > 0,
        size(a - b) * parts <= e,
        size(c) <= most,
    ensures
        size(a * c - b * c) * parts <= e * most,
        size(c * a - c * b) * parts <= e * most,
{
    let g = a - b;
    assert(a * c - b * c == g * c && c * a - c * b == g * c) by (nonlinear_arith)
        requires
            g == a - b,
    ;
    assert(size(g * c) == size(g) * size(c)) by (nonlinear_arith);
    assert((size(g) * parts) * size(c) <= e * most) by (nonlinear_arith)
        requires
            0 <= size(g) * parts <= e,
            0 <= size(c) <= most,
    ;
    assert((size(g) * parts) * size(c) == (size(g) * size(c)) * parts) by (nonlinear_arith);
}

/// Four differences add up.
proof fn lemma_four_apart(p: int, q: int, r: int, s: int, parts: int, e: int)
    requires
        parts > 0,
        size(p) * parts <= e,
        size(q) * parts <= e,
        size(r) * parts <= e,
        size(s) * parts <= e,
    ensures
        size(p + q + r - s) * parts <= 4 * e,
        size(p - q + r + s) * parts <= 4 * e,
        size(p + q - r + s) * parts <= 4 * e,
        size(p - q - r - s) * parts <= 4 * e,
{
    let t = size(p) + size(q) + size(r) + size(s);
    assert(t * parts <= 4 * e) by (nonlinear_arith)
        requires
            t == size(p) + size(q) + size(r) + size(s),
            size(p) * parts <= e,
            size(q) * parts <= e,
            size(r) * parts <= e,
            size(s) * parts <= e,
    ;
    assert(forall|x: int| size(x) <= t ==> #[trigger] size(x) * parts <= 4 * e) by {
        assert forall|x: int| size(x) <= t implies #[trigger] size(x) * parts <= 4 * e by {
            assert(size(x) * parts <= t * parts) by (nonlinear_arith)
                requires
                    size(x) <= t,
                    parts > 0,
            ;
        }
    }
}

/// Turns that are close, after the same turn.
pub proof fn lemma_left_apart(a: Exact, b: Exact, c: Exact, parts: int, e: int, most: int)
    requires
        parts > 0,
        apart(a, b, parts, e),
        bounded(c, most),
    ensures
        apart(after_turn(a, c), after_turn(b, c), parts, 4 * (e * most)),
{
    let m = e * most;
    lemma_term_apart(a.w, b.w, c.x, parts, e, most);
    lemma_term_apart(a.x, b.x, c.w, parts, e, most);
    lemma_term_apart(a.y, b.y, c.z, parts, e, most);
    lemma_term_apart(a.z, b.z, c.y, parts, e, most);
    lemma_four_apart(
        a.w * c.x - b.w * c.x,
        a.x * c.w - b.x * c.w,
        a.y * c.z - b.y * c.z,
        a.z * c.y - b.z * c.y,
        parts,
        m,
    );
    lemma_term_apart(a.w, b.w, c.y, parts, e, most);
    lemma_term_apart(a.x, b.x, c.z, parts, e, most);
    lemma_term_apart(a.y, b.y, c.w, parts, e, most);
    lemma_term_apart(a.z, b.z, c.x, parts, e, most);
    lemma_four_apart(
        a.w * c.y - b.w * c.y,
        a.x * c.z - b.x * c.z,
        a.y * c.w - b.y * c.w,
        a.z * c.x - b.z * c.x,
        parts,
        m,
    );
    lemma_term_apart(a.w, b.w, c.z, parts, e, most);
    lemma_term_apart(a.x, b.x, c.y, parts, e, most);
    lemma_term_apart(a.y, b.y, c.x, parts, e, most);
    lemma_term_apart(a.z, b.z, c.w, parts, e, most);
    lemma_four_apart(
        a.w * c.z - b.w * c.z,
        a.x * c.y - b.x * c.y,
        a.y * c.x - b.y * c.x,
        a.z * c.w - b.z * c.w,
        parts,
        m,
    );
    lemma_term_apart(a.w, b.w, c.w, parts, e, most);
    lemma_term_apart(a.x, b.x, c.x, parts, e, most);
    lemma_term_apart(a.y, b.y, c.y, parts, e, most);
    lemma_term_apart(a.z, b.z, c.z, parts, e, most);
    lemma_four_apart(
        a.w * c.w - b.w * c.w,
        a.x * c.x - b.x * c.x,
        a.y * c.y - b.y * c.y,
        a.z * c.z - b.z * c.z,
        parts,
        m,
    );
}

/// The same turn after turns that are close.
pub proof fn lemma_right_apart(c: Exact, a: Exact, b: Exact, parts: int, e: int, most: int)
    requires
        parts > 0,
        apart(a, b, parts, e),
        bounded(c, most),
    ensures
        apart(after_turn(c, a), after_turn(c, b), parts, 4 * (e * most)),
{
    let m = e * most;
    lemma_term_apart(a.x, b.x, c.w, parts, e, most);
    lemma_term_apart(a.w, b.w, c.x, parts, e, most);
    lemma_term_apart(a.z, b.z, c.y, parts, e, most);
    lemma_term_apart(a.y, b.y, c.z, parts, e, most);
    lemma_four_apart(
        c.w * a.x - c.w * b.x,
        c.x * a.w - c.x * b.w,
        c.y * a.z - c.y * b.z,
        c.z * a.y - c.z * b.y,
        parts,
        m,
    );
    lemma_term_apart(a.y, b.y, c.w, parts, e, most);
    lemma_term_apart(a.z, b.z, c.x, parts, e, most);
    lemma_term_apart(a.w, b.w, c.y, parts, e, most);
    lemma_term_apart(a.x, b.x, c.z, parts, e, most);
    lemma_four_apart(
        c.w * a.y - c.w * b.y,
        c.x * a.z - c.x * b.z,
        c.y * a.w - c.y * b.w,
        c.z * a.x - c.z * b.x,
        parts,
        m,
    );
    lemma_term_apart(a.z, b.z, c.w, parts, e, most);
    lemma_term_apart(a.y, b.y, c.x, parts, e, most);
    lemma_term_apart(a.x, b.x, c.y, parts, e, most);
    lemma_term_apart(a.w, b.w, c.z, parts, e, most);
    lemma_four_apart(
        c.w * a.z - c.w * b.z,
        c.x * a.y - c.x * b.y,
        c.y * a.x - c.y * b.x,
        c.z * a.w - c.z * b.w,
        parts,
        m,
    );
    lemma_term_apart(a.w, b.w, c.w, parts, e, most);
    lemma_term_apart(a.x, b.x, c.x, parts, e, most);
    lemma_term_apart(a.y, b.y, c.y, parts, e, most);
    lemma_term_apart(a.z, b.z, c.z, parts, e, most);
    lemma_four_apart(
        c.w * a.w - c.w * b.w,
        c.x * a.x - c.x * b.x,
        c.y * a.y - c.y * b.y,
        c.z * a.z - c.z * b.z,
        parts,
        m,
    );
}

/// A factor of three numbers moves to the front.
proof fn lemma_front(k: int, a: int, b: int)
    ensures
        (k * a) * b == k * (a * b),
        a * (k * b) == k * (a * b),
{
    assert((k * a) * b == k * (a * b) && a * (k * b) == k * (a * b)) by (nonlinear_arith);
}

/// A factor taken out of a sum of four with signs.
proof fn lemma_factor_out(k: int, p: int, q: int, r: int, s: int)
    ensures
        k * p + k * q + k * r - k * s == k * (p + q + r - s),
        k * p - k * q + k * r + k * s == k * (p - q + r + s),
        k * p + k * q - k * r + k * s == k * (p + q - r + s),
        k * p - k * q - k * r - k * s == k * (p - q - r - s),
{
    lemma_times_four(k, p, q, r, -s);
    lemma_times_four(k, p, -q, r, s);
    lemma_times_four(k, p, q, -r, s);
    lemma_times_four(k, p, -q, -r, -s);
    lemma_signs(k, q);
    lemma_signs(k, r);
    lemma_signs(k, s);
}

/// A turn times a number.
pub proof fn lemma_scaled_turn(a: Exact, b: Exact, k: int)
    ensures
        after_turn(scaled(a, k), b) == scaled(after_turn(a, b), k),
        after_turn(a, scaled(b, k)) == scaled(after_turn(a, b), k),
{
    lemma_front(k, a.w, b.x);
    lemma_front(k, a.x, b.w);
    lemma_front(k, a.y, b.z);
    lemma_front(k, a.z, b.y);
    lemma_factor_out(k, a.w * b.x, a.x * b.w, a.y * b.z, a.z * b.y);
    lemma_front(k, a.w, b.y);
    lemma_front(k, a.x, b.z);
    lemma_front(k, a.y, b.w);
    lemma_front(k, a.z, b.x);
    lemma_factor_out(k, a.w * b.y, a.x * b.z, a.y * b.w, a.z * b.x);
    lemma_front(k, a.w, b.z);
    lemma_front(k, a.x, b.y);
    lemma_front(k, a.y, b.x);
    lemma_front(k, a.z, b.w);
    lemma_factor_out(k, a.w * b.z, a.x * b.y, a.y * b.x, a.z * b.w);
    lemma_front(k, a.w, b.w);
    lemma_front(k, a.x, b.x);
    lemma_front(k, a.y, b.y);
    lemma_front(k, a.z, b.z);
    lemma_factor_out(k, a.w * b.w, a.x * b.x, a.y * b.y, a.z * b.z);
}

/// The turn around the direction of (0.3, 1, 0.2), which has the length `l`, times ten
/// lengths.
pub open spec fn slanted_turn(half: SineCosine, l: int) -> Exact {
    let us = unit() * value(half.sine);
    Exact { x: 3 * us, y: 10 * us, z: 2 * us, w: (10 * l) * value(half.cosine) }
}

/// A component of the turn around the slanted axis.
proof fn lemma_slanted_component(p: int, d: int, s: int, l: int, tenths: int, u: int)
    requires
        u > 0,
        u <= l,
        4 * l <= 5 * u,
        16 * size(s) <= 17 * u,
        size(p * u - d * s) * 0x100_0000 <= 5 * (u * u),
        size(10 * (d * l) - tenths * (u * u)) * 0x200 <= u * u,
    ensures
        size((10 * l) * p - tenths * (u * s)) * 400 <= u * u,
{
    let uu = u * u;
    let (g, h) = (p * u - d * s, 10 * (d * l) - tenths * uu);
    let x = (10 * l) * p - tenths * (u * s);
    let (lp, us) = ((10 * l) * p, tenths * (u * s));
    assert((lp - us) * u == lp * u - us * u) by (nonlinear_arith);
    assert(lp * u == (10 * l) * (p * u)) by (nonlinear_arith)
        requires
            lp == (10 * l) * p,
    ;
    assert(us * u == s * (tenths * uu)) by (nonlinear_arith)
        requires
            us == tenths * (u * s),
            uu == u * u,
    ;
    assert((10 * l) * (d * s) == s * (10 * (d * l))) by (nonlinear_arith);
    assert((10 * l) * g == (10 * l) * (p * u) - (10 * l) * (d * s)) by (nonlinear_arith)
        requires
            g == p * u - d * s,
    ;
    assert(s * h == s * (10 * (d * l)) - s * (tenths * uu)) by (nonlinear_arith)
        requires
            h == 10 * (d * l) - tenths * uu,
    ;
    assert(x * u == (10 * l) * g + s * h);
    assert(uu > 0) by (nonlinear_arith)
        requires
            uu == u * u,
            u > 0,
    ;
    let uuu = uu * u;
    assert(uuu > 0) by (nonlinear_arith)
        requires
            uuu == uu * u,
            uu == u * u,
            u > 0,
    ;
    assert(size((10 * l) * g) * 0x100_0000 <= 63 * uuu) by (nonlinear_arith)
        requires
            size(g) * 0x100_0000 <= 5 * uu,
            0 < 4 * l <= 5 * u,
            uuu == uu * u,
            uu > 0,
    {
        assert(size((10 * l) * g) == (10 * l) * size(g)) by (nonlinear_arith)
            requires
                l > 0,
        ;
        assert((4 * l) * (size(g) * 0x100_0000) <= (5 * u) * (5 * uu)) by (nonlinear_arith)
            requires
                0 < 4 * l <= 5 * u,
                0 <= size(g) * 0x100_0000 <= 5 * uu,
        ;
        assert(2 * (((10 * l) * size(g)) * 0x100_0000) == 5 * ((4 * l) * (size(g) * 0x100_0000))) by (nonlinear_arith);
        assert((5 * u) * (5 * uu) == 25 * (uu * u)) by (nonlinear_arith);
    }
    assert(size(s * h) * 0x2000 <= 17 * uuu) by (nonlinear_arith)
        requires
            16 * size(s) <= 17 * u,
            size(h) * 0x200 <= uu,
            uuu == uu * u,
    {
        assert(size(s * h) == size(s) * size(h)) by (nonlinear_arith);
        assert((16 * size(s)) * (size(h) * 0x200) <= (17 * u) * uu) by (nonlinear_arith)
            requires
                0 <= 16 * size(s) <= 17 * u,
                0 <= size(h) * 0x200 <= uu,
        ;
        assert((16 * size(s)) * (size(h) * 0x200) == 0x2000 * (size(s) * size(h))) by (nonlinear_arith);
        assert((17 * u) * uu == 17 * (uu * u)) by (nonlinear_arith);
    }
    assert(size(x * u) * 400 <= uuu);
    assert(size(x * u) == size(x) * u) by (nonlinear_arith)
        requires
            u > 0,
    ;
    assert(size(x) * 400 <= uu) by (nonlinear_arith)
        requires
            (size(x) * u) * 400 <= uuu,
            uuu == uu * u,
            u > 0,
    {
        assert((size(x) * 400) * u <= uu * u) by (nonlinear_arith)
            requires
                (size(x) * u) * 400 <= uuu,
                uuu == uu * u,
        ;
    }
}

/// Whether a quaternion is an exact one divided by `scale`, but for one part in `parts`
/// of 1.
pub open spec fn turned_to(r: Vec4, scale: int, e: Exact, parts: int) -> bool {
    &&& is_finite(r.x) && is_finite(r.y) && is_finite(r.z) && is_finite(r.w)
    &&& apart(scaled(exact(r), scale), e, parts, unit() * scale)
}

/// The turn around the slanted axis, as computed.
pub proof fn lemma_slanted_near(half: SineCosine, l: int)
    requires
        tight_circle(half),
        slant_length(l),
    ensures
        near_unit(turn(spin_axis(), half), 0x4000),
        apart(scaled(exact(turn(spin_axis(), half)), 10 * l), slanted_turn(half, l), 400, unit() * unit()),
        unit() <= l,
        4 * l <= 5 * unit(),
{
    lemma_limit_values();
    lemma_slant(l);
    lemma_slanted_axis(l);
    lemma_tight_turn(spin_axis(), half);
    let (p, d, u) = (turn(spin_axis(), half), direction(spin_axis()), unit());
    let s = value(half.sine);
    lemma_near_components(pure(d), UNIT_PARTS as int);
    lemma_term(d.x, half.sine);
    lemma_term(d.y, half.sine);
    lemma_term(d.z, half.sine);
    lemma_slanted_component(value(p.x), value(d.x), s, l, 3, u);
    lemma_slanted_component(value(p.y), value(d.y), s, l, 10, u);
    lemma_slanted_component(value(p.z), value(d.z), s, l, 2, u);
    lemma_square_nonnegative(u);
}

/// The components of a quaternion near a unit quaternion, as exact numbers.
pub proof fn lemma_exact_bounded(q: Vec4, parts: int)
    requires
        near_unit(q, parts),
        parts >= 64,
    ensures
        bounded(scaled(exact(q), 16), 17 * unit()),
{
    lemma_quaternion_components(q, parts);
}

/// A component of the rotation after a turn: `r` is the result, `v` the product as
/// computed, `e` the exact product of what was computed, and `x` the exact one.
proof fn lemma_spun_component(r: int, v: int, e: int, x: int, l: int, u: int)
    requires
        u > 0,
        u <= l,
        size(r - v) * 0x600 <= u,
        size(v * u - e) * 0x100_0000 <= 76 * (u * u),
        16 * (size((10 * l) * e - x) * 400) <= 68 * ((u * u) * u),
    ensures
        size((10 * (l * u)) * r - x) * 0x200 <= u * (10 * (l * u)),
{
    let uu = u * u;
    let (g, h, k) = (r - v, v * u - e, (10 * l) * e - x);
    let scale = 10 * (l * u);
    let m = u * scale;
    assert(scale * r - scale * v == scale * g && scale > 0) by (nonlinear_arith)
        requires
            g == r - v,
            scale == 10 * (l * u),
            l > 0,
            u > 0,
    ;
    assert(scale * v == (10 * l) * (v * u)) by (nonlinear_arith)
        requires
            scale == 10 * (l * u),
    ;
    assert((10 * l) * (v * u) - (10 * l) * e == (10 * l) * h) by (nonlinear_arith)
        requires
            h == v * u - e,
    ;
    assert(size(scale * g) * 0x600 <= m) by (nonlinear_arith)
        requires
            size(g) * 0x600 <= u,
            scale > 0,
            m == u * scale,
    {
        assert(size(scale * g) == scale * size(g)) by (nonlinear_arith)
            requires
                scale > 0,
        ;
        assert(scale * (size(g) * 0x600) <= scale * u) by (nonlinear_arith)
            requires
                size(g) * 0x600 <= u,
                scale > 0,
        ;
    }
    assert(size((10 * l) * h) * 0x100_0000 <= 76 * m) by (nonlinear_arith)
        requires
            size(h) * 0x100_0000 <= 76 * uu,
            m == u * scale,
            scale == 10 * (l * u),
            uu == u * u,
            l > 0,
    {
        assert(size((10 * l) * h) == (10 * l) * size(h)) by (nonlinear_arith)
            requires
                l > 0,
        ;
        assert((10 * l) * (size(h) * 0x100_0000) <= (10 * l) * (76 * uu)) by (nonlinear_arith)
            requires
                size(h) * 0x100_0000 <= 76 * uu,
                l > 0,
        ;
        assert((10 * l) * (76 * uu) == 76 * (u * (10 * (l * u)))) by (nonlinear_arith)
            requires
                uu == u * u,
        ;
    }
    assert(10 * (uu * u) <= m) by (nonlinear_arith)
        requires
            m == u * scale,
            scale == 10 * (l * u),
            uu == u * u,
            u <= l,
            u > 0,
    {
        assert(u * (10 * (l * u)) == 10 * (uu * l)) by (nonlinear_arith)
            requires
                uu == u * u,
        ;
        assert(uu * u <= uu * l) by (nonlinear_arith)
            requires
                u <= l,
                uu >= 0,
        ;
        assert(uu >= 0) by (nonlinear_arith)
            requires
                uu == u * u,
        ;
    }
    assert(m > 0) by (nonlinear_arith)
        requires
            m == u * scale,
            u > 0,
            scale > 0,
    ;
}

/// A ball that does not roll turns around its slanted axis: its rotation becomes the turn
/// by the given half angle around the direction of (0.3, 1, 0.2), after the rotation that
/// it had.
#[verifier::rlimit(30)]
pub proof fn lemma_ball_spins(state: WaterState, spin: SineCosine, roll: SineCosine, l: int)
    requires
        is_unit(state.ball_rotation),
        tight_circle(spin),
        slant_length(l),
        state.rolling_turn() is None,
    ensures
        turned_to(
            state.turned(spin, roll),
            10 * (l * unit()),
            after_turn(slanted_turn(spin, l), exact(state.ball_rotation)),
            0x200,
        ),
{
    lemma_limit_values();
    let (p, q, u) = (turn(spin_axis(), spin), state.ball_rotation, unit());
    lemma_slanted_near(spin, l);
    let v = lemma_spun(spin, l, q);
    lemma_normalised_near(v);
    let r = quaternion_direction(v);
    assert(r == state.turned(spin, roll));
    let (e, x) = (after_turn(exact(p), exact(q)), after_turn(slanted_turn(spin, l), exact(q)));
    lemma_spun_component(value(r.x), value(v.x), e.x, x.x, l, u);
    lemma_spun_component(value(r.y), value(v.y), e.y, x.y, l, u);
    lemma_spun_component(value(r.z), value(v.z), e.z, x.z, l, u);
    lemma_spun_component(value(r.w), value(v.w), e.w, x.w, l, u);
}

/// The rotation after the ball turned by itself, before it is divided by its length.
pub proof fn lemma_spun(spin: SineCosine, l: int, q: Vec4) -> (v: Vec4)
    requires
        is_unit(q),
        tight_circle(spin),
        slant_length(l),
    ensures
        ({
            let p = turn(spin_axis(), spin);
            let (e, x) = (after_turn(exact(p), exact(q)), after_turn(slanted_turn(spin, l), exact(q)));
            let cube = (unit() * unit()) * unit();
            &&& v == quaternion_product(p, q)
            &&& rounded_product(v, p, q)
            &&& near_unit(v, 0x1000)
            &&& near_unit(v, 0x800)
            &&& 16 * (size((10 * l) * e.x - x.x) * 400) <= 68 * cube
            &&& 16 * (size((10 * l) * e.y - x.y) * 400) <= 68 * cube
            &&& 16 * (size((10 * l) * e.z - x.z) * 400) <= 68 * cube
            &&& 16 * (size((10 * l) * e.w - x.w) * 400) <= 68 * cube
        }),
{
    lemma_limit_values();
    let (p, u) = (turn(spin_axis(), spin), unit());
    let w = u * u;
    lemma_slanted_near(spin, l);
    lemma_nearer(p, 0x4000, 64);
    lemma_nearer(q, UNIT_PARTS as int, 64);
    lemma_tight_squares(p, q);
    let v = quaternion_product(p, q);
    assert(w > 0) by (nonlinear_arith)
        requires
            w == u * u,
            u > 0,
    ;
    lemma_tight_multiply(w, squares(v), squares(p), squares(q));
    lemma_exact_bounded(q, UNIT_PARTS as int);
    let (a, b) = (scaled(exact(p), 10 * l), slanted_turn(spin, l));
    let c = scaled(exact(q), 16);
    lemma_left_apart(a, b, c, 400, w, 17 * u);
    lemma_scaled_turn(exact(p), exact(q), 10 * l);
    lemma_scaled_turn(a, exact(q), 16);
    lemma_scaled_turn(b, exact(q), 16);
    assert(4 * (w * (17 * u)) == 68 * (w * u)) by (nonlinear_arith);
    v
}

} // verus!
