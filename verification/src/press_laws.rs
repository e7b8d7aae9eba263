//! What the button does: what a press takes hold of, and where the drops fall that a click
//! or a drag over the pool makes.

use crate::arithmetic::{opposite, product, quotient, root, size, sum, unit};
use crate::ball_laws::lemma_opposite;
use crate::bounds::{is_finite, lemma_dyadic, lemma_gap, lemma_one_is_neutral, lemma_sum_commutes};
use crate::constants::{CURSOR_TOLERANCE, HALF};
use crate::limits::lemma_limit_values;
use crate::picking_laws::{lemma_small_product, lemma_small_sum};
use crate::plugin::{facing_plane, pressed_on, DragMode, InputFrame, Ray, WaterState};
use crate::ranges::lemma_power;
use crate::rotation_laws::{
    lemma_finite_square, lemma_finite_sum, lemma_square_nonnegative, lemma_tiny,
};
use crate::rounding::{
    lemma_rounded_nearest, lemma_rounded_root_between, lemma_spread_at, rounded_root,
};
use crate::scalar::{
    is_nan, lemma_absolute, lemma_magnitude_zero, lemma_spread_order, less, magnitude, spread,
    unsigned, value, Scalar, INFINITY, ONE, SIGN,
};
use crate::vector::{plane_length, Vec2, Vec3};
use vstd::arithmetic::power2::{lemma2_to64, lemma_pow2_strictly_increases, pow2};
use vstd::prelude::*;

verus! {

/// Whether a point of the water level lies over the pool, which spans [-1, 1] along both
/// sides.
pub open spec fn over_pool(point: Vec3) -> bool {
    &&& !is_nan(point.x) && size(value(point.x)) <= unit()
    &&& !is_nan(point.z) && size(value(point.z)) <= unit()
}

/// A press takes hold of the ball or the water wherever the cursor is over the pool; it
/// takes hold of the water nowhere else, and of the ball only where there is a ray. What is
/// under the ball does not matter.
pub proof fn lemma_press_on_pool(center: Vec3, ray: Option<Ray>, ground: Option<Vec3>, other: Option<Vec3>)
    ensures
        ({
            let over = ground matches Some(point) && over_pool(point);
            let mode = pressed_on(center, ray, ground);
            &&& over ==> mode == DragMode::Ball || mode == DragMode::Drops
            &&& !over ==> mode == DragMode::Ball || mode == DragMode::Orbit
            &&& ray is None ==> mode != DragMode::Ball
            &&& mode == DragMode::Ball <==> pressed_on(center, ray, other) == DragMode::Ball
        }),
{
    lemma_limit_values();
    if let Some(point) = ground {
        lemma_absolute(point.x);
        lemma_absolute(point.z);
    }
}

/// Whether a place on the height field is the one below a point of the water level: both
/// sides of [-1, 1] are mapped to [0, 1], but for one part in two million.
pub open spec fn below(place: Vec2, point: Vec3) -> bool {
    &&& is_finite(place.x) && is_finite(place.y)
    &&& size(2 * value(place.x) - (value(point.x) + unit())) * 0x20_0000 <= unit()
    &&& size(2 * value(place.y) - (value(point.z) + unit())) * 0x20_0000 <= unit()
}

/// A coordinate over the pool, mapped to the height field.
proof fn lemma_field_coordinate_near(x: Scalar)
    requires
        !is_nan(x),
        size(value(x)) <= unit(),
    ensures
        ({
            let place = sum(product(quotient(x, ONE), HALF), HALF);
            &&& is_finite(place)
            &&& size(2 * value(place) - (value(x) + unit())) * 0x20_0000 <= unit()
        }),
{
    lemma_limit_values();
    lemma_tiny();
    lemma_power(100);
    lemma2_to64();
    lemma_pow2_strictly_increases(2, 100);
    lemma_one_is_neutral(x);
    lemma_magnitude_zero(x);
    if !is_finite(x) {
        lemma_spread_order(ONE as int, unsigned(x));
    }
    let (v, h, u) = (value(x), value(HALF), unit());
    assert(4 * u <= pow2(100) * u) by (nonlinear_arith)
        requires
            pow2(100) >= 4,
            u > 0,
    ;
    assert(size(v * h) <= u * u) by (nonlinear_arith)
        requires
            size(v) <= u,
            2 * h == u,
            u > 0,
    ;
    lemma_small_product(x, HALF, u);
    let p = product(x, HALF);
    assert(size(2 * value(p) - v) * 0x100_0000 <= 4 * u) by (nonlinear_arith)
        requires
            size(value(p) * u - v * h) * 0x100_0000 <= 2 * (u * u),
            2 * h == u,
            u > 0,
    {
        let g = 2 * value(p) - v;
        assert(2 * (value(p) * u - v * h) == g * u) by (nonlinear_arith)
            requires
                g == 2 * value(p) - v,
                2 * h == u,
        ;
        assert(size(g * u) == size(g) * u) by (nonlinear_arith)
            requires
                u > 0,
        ;
        assert(u * (size(g) * 0x100_0000) <= u * (4 * u)) by (nonlinear_arith)
            requires
                (size(g) * u) * 0x100_0000 <= 4 * (u * u),
        ;
        assert(size(g) * 0x100_0000 <= 4 * u) by (nonlinear_arith)
            requires
                u * (size(g) * 0x100_0000) <= u * (4 * u),
                u > 0,
        ;
    }
    lemma_small_sum(p, HALF, size(value(p) + h));
}

/// A press over open water makes a drop right below the cursor, whichever way the cursor
/// moved, and keeps the camera still.
pub proof fn lemma_press_makes_drop(state: WaterState, input: InputFrame, point: Vec3)
    requires
        input.left_pressed,
        input.left_held,
        input.ground == Some(point),
        over_pool(point),
        pressed_on(state.ball_center, input.ray, input.ground) != DragMode::Ball,
    ensures
        state.after_input(input).drag_mode == DragMode::Drops,
        state.after_input(input).pending_drop matches Some(place) && below(place, point),
{
    lemma_limit_values();
    lemma_absolute(point.x);
    lemma_absolute(point.z);
    lemma_field_coordinate_near(point.x);
    lemma_field_coordinate_near(point.z);
}

/// A press that the ball is in the way of takes hold of the ball, or of the camera where no
/// plane through the ball faces the ray; one beside the ball and the pool takes hold of the
/// camera. Neither makes a drop.
pub proof fn lemma_press_makes_no_drop(state: WaterState, input: InputFrame)
    requires
        input.left_pressed,
        input.left_held,
        pressed_on(state.ball_center, input.ray, input.ground) == DragMode::Ball || !(input.ground matches Some(
            point,
        ) && over_pool(point)),
    ensures
        state.after_input(input).pending_drop is None,
        state.after_input(input).drag_mode == DragMode::Ball || state.after_input(input).drag_mode == DragMode::Orbit,
        state.after_input(input).drag_mode == DragMode::Ball <==> pressed_on(
            state.ball_center,
            input.ray,
            input.ground,
        ) == DragMode::Ball && facing_plane(state.ball_center, input.ray) is Some,
{
    lemma_limit_values();
    if let Some(point) = input.ground {
        lemma_absolute(point.x);
        lemma_absolute(point.z);
    }
}

/// The exact sum of the squares of a movement of the cursor.
pub open spec fn exact_squares(a: Vec2) -> int {
    value(a.x) * value(a.x) + value(a.y) * value(a.y)
}

/// What the pattern of the tolerance denotes.
proof fn lemma_tolerance()
    ensures
        2 * value(CURSOR_TOLERANCE) == 3 * unit(),
        unit() > 0,
{
    lemma_limit_values();
    lemma2_to64();
    lemma_dyadic(0xC0_0000, 126, 23);
}

/// A square of a finite number is a number that is not negative.
proof fn lemma_square_is_number(a: Scalar)
    requires
        is_finite(a),
    ensures
        !is_nan(product(a, a)),
        product(a, a) < SIGN,
        value(product(a, a)) >= 0,
{
    lemma_limit_values();
    let m = magnitude(a);
    lemma_magnitude_zero(a);
    assert(m * m >= 0) by (nonlinear_arith);
    lemma_rounded_nearest(m * m, unit());
    lemma_magnitude_zero(product(a, a));
}

/// The square of the length of a movement, where it is not too large.
proof fn lemma_squares_near(a: Vec2)
    requires
        is_finite(a.x),
        is_finite(a.y),
        is_finite(sum(product(a.x, a.x), product(a.y, a.y))),
    ensures
        ({
            let n = value(sum(product(a.x, a.x), product(a.y, a.y)));
            &&& n >= 0
            &&& size(n * unit() - exact_squares(a)) * 0x100_0000 <= 3 * (n * unit()) + 0x100_0000 * unit()
        }),
{
    lemma_limit_values();
    let (p, q) = (product(a.x, a.x), product(a.y, a.y));
    lemma_finite_square(a.x);
    lemma_finite_square(a.y);
    lemma_finite_sum(p, q);
    let (n, x, y, u) = (value(sum(p, q)), value(p), value(q), unit());
    let g = n - (x + y);
    assert(n * u == g * u + x * u + y * u) by (nonlinear_arith)
        requires
            g == n - (x + y),
    ;
    assert(size(g * u) * 0x100_0000 <= n * u) by (nonlinear_arith)
        requires
            size(g) * 0x100_0000 <= n,
            u > 0,
    ;
    assert(u * (x + 0x80_0000) + u * (y + 0x80_0000) <= 2 * (n * u) + 0x100_0000 * u) by (nonlinear_arith)
        requires
            x + y <= 2 * n,
            u > 0,
    ;
}

/// The exact sum of squares bounds the computed one.
proof fn lemma_compare_squares(x: int, s: int, w: int, u: int)
    requires
        u > 0,
        w >= 0x8000_0000_0000_0000 * u,
        x >= 0,
        size(x - s) * 0x100_0000 <= 3 * x + 0x100_0000 * u,
    ensures
        4 * s * 0x10_0000 >= 9 * w * 0x10_0001 ==> 4 * x * 0x20_0000 >= 9 * w * 0x20_0001,
        4 * s * 0x10_0000 <= 9 * w * 0xF_FFFF ==> 4 * x <= 9 * w,
{
}

/// The root of a number above or below one and a half squared.
proof fn lemma_root_compared(n: Scalar)
    requires
        is_finite(n),
        n < SIGN,
    ensures
        4 * (value(n) * unit()) * 0x20_0000 >= 9 * (unit() * unit()) * 0x20_0001 ==> less(CURSOR_TOLERANCE, root(n)),
        4 * (value(n) * unit()) <= 9 * (unit() * unit()) ==> !less(CURSOR_TOLERANCE, root(n)),
{
    lemma_tolerance();
    lemma_tiny();
    lemma_limit_values();
    lemma_magnitude_zero(n);
    lemma_magnitude_zero(CURSOR_TOLERANCE);
    lemma_magnitude_zero(root(n));
    let (t, u, x) = (CURSOR_TOLERANCE as int, unit(), value(n) * unit());
    let (k, next, top) = (spread(t), spread(t + 1), spread(INFINITY as int));
    lemma_gap(t);
    lemma_square_nonnegative(u);
    assert(4 * (k * k) == 9 * (u * u)) by (nonlinear_arith)
        requires
            2 * k == 3 * u,
    ;
    if value(n) > 0 {
        lemma_spread_order(n as int, INFINITY as int);
        lemma_spread_order(ONE as int, INFINITY as int);
        assert(0 <= x <= top * top) by (nonlinear_arith)
            requires
                x == value(n) * u,
                0 <= value(n) <= top,
                0 < u <= top,
        ;
        lemma_spread_order(t + 1, INFINITY as int);
        if 4 * x * 0x20_0000 >= 9 * (u * u) * 0x20_0001 {
            assert(next * next <= x) by (nonlinear_arith)
                requires
                    4 * x * 0x20_0000 >= 9 * (u * u) * 0x20_0001,
                    4 * (k * k) == 9 * (u * u),
                    next == k + (next - k),
                    (next - k) * 0x80_0000 <= k,
                    next > k,
                    k > 0,
            {
                let g = next - k;
                assert(next * next == k * k + 2 * (k * g) + g * g) by (nonlinear_arith)
                    requires
                        g == next - k,
                ;
                assert((k * g) * 0x80_0000 <= k * k) by (nonlinear_arith)
                    requires
                        g * 0x80_0000 <= k,
                        k > 0,
                ;
                assert(g * g <= k * g) by (nonlinear_arith)
                    requires
                        0 < g,
                        g * 0x80_0000 <= k,
                ;
            }
            lemma_rounded_root_between(x, t + 1, INFINITY as int);
            let r = rounded_root(x);
            assert(unsigned(root(n)) == r);
            lemma_spread_order(t, r);
        }
        if 4 * x <= 9 * (u * u) {
            lemma_spread_at(0, 0);
            lemma2_to64();
            assert(spread(0) * spread(0) == 0) by (nonlinear_arith)
                requires
                    spread(0) == 0,
            ;
            lemma_rounded_root_between(x, 0, t);
            let r = rounded_root(x);
            assert(unsigned(root(n)) == r);
            if r < t {
                lemma_spread_order(r, t);
            }
        }
    } else {
        assert(x == 0) by (nonlinear_arith)
            requires
                x == value(n) * u,
                value(n) == 0,
        ;
        assert(u * u > 0) by (nonlinear_arith)
            requires
                u > 0,
        ;
    }
}

/// A sum of numbers that are not negative is one.
proof fn lemma_number_sum(a: Scalar, b: Scalar)
    requires
        !is_nan(a),
        !is_nan(b),
        a < SIGN,
        b < SIGN,
    ensures
        !is_nan(sum(a, b)),
        sum(a, b) < SIGN,
{
    lemma_magnitude_zero(a);
    lemma_magnitude_zero(b);
    lemma_rounded_nearest(value(a) + value(b), 1);
}

/// The squares of a short movement do not overflow.
proof fn lemma_short_is_finite(a: Vec2)
    requires
        is_finite(a.x),
        is_finite(a.y),
        exact_squares(a) <= 4 * (unit() * unit()),
    ensures
        is_finite(sum(product(a.x, a.x), product(a.y, a.y))),
{
    lemma_limit_values();
    lemma_tiny();
    lemma_power(100);
    lemma2_to64();
    lemma_pow2_strictly_increases(6, 100);
    lemma_square_nonnegative(value(a.x));
    lemma_square_nonnegative(value(a.y));
    let u = unit();
    assert(32 * u <= pow2(100) * u) by (nonlinear_arith)
        requires
            pow2(100) >= 32,
            u > 0,
    ;
    assert((4 * u) * u == 4 * (u * u)) by (nonlinear_arith);
    lemma_small_product(a.x, a.x, 4 * u);
    lemma_small_product(a.y, a.y, 4 * u);
    let (p, q) = (product(a.x, a.x), product(a.y, a.y));
    lemma_small_sum(p, q, size(value(p) + value(q)));
}

/// A movement that is clearly longer than one and a half counts as one, a clearly shorter
/// one does not.
proof fn lemma_movement_counts(a: Vec2)
    requires
        is_finite(a.x),
        is_finite(a.y),
    ensures
        4 * exact_squares(a) * 0x10_0000 >= 9 * (unit() * unit()) * 0x10_0001 ==> less(
            CURSOR_TOLERANCE,
            plane_length(a),
        ),
        4 * exact_squares(a) * 0x10_0000 <= 9 * (unit() * unit()) * 0xF_FFFF ==> !less(
            CURSOR_TOLERANCE,
            plane_length(a),
        ),
{
    lemma_tolerance();
    lemma_tiny();
    lemma_square_is_number(a.x);
    lemma_square_is_number(a.y);
    let (p, q) = (product(a.x, a.x), product(a.y, a.y));
    lemma_number_sum(p, q);
    let n = sum(p, q);
    let (u, w, s) = (unit(), unit() * unit(), exact_squares(a));
    assert(w >= 0x8000_0000_0000_0000 * u) by (nonlinear_arith)
        requires
            w == u * u,
            u > 0x8000_0000_0000_0000,
    ;
    if is_finite(n) {
        lemma_squares_near(a);
        assert(value(n) * u >= 0) by (nonlinear_arith)
            requires
                value(n) >= 0,
                u > 0,
        ;
        lemma_compare_squares(value(n) * u, s, w, u);
        lemma_root_compared(n);
    } else {
        assert(n == INFINITY);
        lemma_magnitude_zero(INFINITY);
        lemma_spread_order(CURSOR_TOLERANCE as int, INFINITY as int);
        if 4 * s * 0x10_0000 <= 9 * w * 0xF_FFFF {
            lemma_short_is_finite(a);
        }
    }
}

/// While the water is dragged over the pool, a drop falls right below the cursor where the
/// cursor moved by clearly more than one and a half, in whatever direction, and none where
/// it moved by clearly less.
pub proof fn lemma_dragging_makes_drops(state: WaterState, input: InputFrame, point: Vec3)
    requires
        state.drag_mode == DragMode::Drops,
        input.left_held,
        !input.left_pressed,
        input.ground == Some(point),
        over_pool(point),
        is_finite(input.cursor_delta.x),
        is_finite(input.cursor_delta.y),
    ensures
        4 * exact_squares(input.cursor_delta) * 0x10_0000 >= 9 * (unit() * unit()) * 0x10_0001 ==> (
        state.after_input(input).pending_drop matches Some(place) && below(place, point)),
        4 * exact_squares(input.cursor_delta) * 0x10_0000 <= 9 * (unit() * unit()) * 0xF_FFFF
            ==> state.after_input(input).pending_drop is None,
        state.after_input(input).pending_drop matches Some(place) ==> below(place, point),
        state.after_input(input).drag_mode == DragMode::Drops,
{
    lemma_limit_values();
    lemma_absolute(point.x);
    lemma_absolute(point.z);
    lemma_field_coordinate_near(point.x);
    lemma_field_coordinate_near(point.z);
    lemma_movement_counts(input.cursor_delta);
}

/// Nothing but a cursor over the pool makes a drop.
pub proof fn lemma_no_drop_beside_pool(state: WaterState, input: InputFrame)
    requires
        !(input.ground matches Some(point) && over_pool(point)),
    ensures
        state.after_input(input).pending_drop is None,
{
    lemma_limit_values();
    if let Some(point) = input.ground {
        lemma_absolute(point.x);
        lemma_absolute(point.z);
    }
}

/// It does not matter for a drop in which direction the cursor moved: the opposite
/// movement and the one across leave the same drop.
pub proof fn lemma_drops_in_every_direction(state: WaterState, input: InputFrame)
    ensures
        ({
            let moved = input.cursor_delta;
            let back = InputFrame {
                cursor_delta: Vec2 { x: opposite(moved.x), y: opposite(moved.y) },
                ..input
            };
            let across = InputFrame { cursor_delta: Vec2 { x: moved.y, y: moved.x }, ..input };
            &&& state.after_input(back) == state.after_input(input)
            &&& state.after_input(across) == state.after_input(input)
        }),
{
    let moved = input.cursor_delta;
    lemma_opposite_square(moved.x);
    lemma_opposite_square(moved.y);
    let (p, q) = (product(moved.x, moved.x), product(moved.y, moved.y));
    lemma_sum_commutes(p, q);
}

/// A number and its opposite have the same square.
proof fn lemma_opposite_square(a: Scalar)
    ensures
        product(opposite(a), opposite(a)) == product(a, a),
{
    lemma_opposite(a);
    lemma_magnitude_zero(a);
}

} // verus!
