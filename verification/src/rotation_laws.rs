//! The rotation of the ball keeps its length: it is a unit quaternion up to rounding,
//! however often the ball turns.

use crate::arithmetic::{
    difference, is_infinite, opposite, product, quotient, root, size, sum, unit, NAN,
};
use crate::ball_laws::lemma_opposite;
use crate::bounds::{
    is_finite, lemma_gap, lemma_one, lemma_one_is_neutral, lemma_product_between,
    lemma_product_error, lemma_quotient_between, lemma_quotient_error, lemma_sum_between,
    lemma_sum_error,
};
use crate::constants::{SHORT, SLANT_X, SLANT_Y, SLANT_Z, TWO};
use crate::limits::lemma_limit_values;
use crate::plugin::{spin_axis, WaterState};
use crate::ranges::{
    lemma_difference_within, lemma_inner_within, lemma_opposite_within, lemma_power,
    lemma_product_within, lemma_root_within, lemma_sum_within, lemma_within_more, power,
    vector_within, within,
};
use crate::rounding::{
    lemma_rounded_exact, lemma_rounded_nearest, lemma_rounded_order, lemma_rounded_root_between,
    lemma_rounded_root_nearest, lemma_spread_at, rounded_root, twice_midpoint,
};
use crate::scalar::{
    is_nan, lemma_magnitude_zero, lemma_spread_order, less, magnitude, spread, unsigned, value,
    Scalar, FRACTION_LIMIT, ONE, SIGN, ZERO,
};
use crate::vector::{
    direction, inner, length, quaternion_direction, quaternion_product, turn, vector_unscaled,
    SineCosine, Vec3, Vec4,
};
use vstd::arithmetic::mul::{lemma_mul_is_commutative, lemma_mul_is_distributive_add};
use vstd::arithmetic::power2::{
    lemma2_to64, lemma2_to64_rest, lemma_pow2_adds, lemma_pow2_strictly_increases,
    lemma_pow2_unfold, pow2,
};
use vstd::prelude::*;

verus! {

/// The square of the length of a unit quaternion may be off 1 by one part in this many,
/// which is 64 units of rounding.
pub const UNIT_PARTS: u32 = 0x4_0000;

/// The pattern of one by two to the power 50: a length that is not tiny.
pub const TINY: Scalar = 0x2680_0000;

/// The sum of the squares of the components, in squared units of the smallest positive
/// number.
pub open spec fn squares(q: Vec4) -> int {
    value(q.x) * value(q.x) + value(q.y) * value(q.y) + value(q.z) * value(q.z) + value(q.w) * value(q.w)
}

/// Whether the components are numbers whose squares add up to 1, but for one part in
/// `parts`.
pub open spec fn near_unit(q: Vec4, parts: int) -> bool {
    &&& is_finite(q.x) && is_finite(q.y) && is_finite(q.z) && is_finite(q.w)
    &&& size(squares(q) - unit() * unit()) * parts <= unit() * unit()
}

/// Whether a quaternion is a unit quaternion up to rounding.
pub open spec fn is_unit(q: Vec4) -> bool {
    near_unit(q, UNIT_PARTS as int)
}

/// Whether two numbers are the sine and the cosine of some angle, to a thousandth.
pub open spec fn on_circle(half: SineCosine) -> bool {
    &&& is_finite(half.sine) && is_finite(half.cosine)
    &&& size(value(half.sine) * value(half.sine) + value(half.cosine) * value(half.cosine) - unit() * unit())
        * 0x400 <= unit() * unit()
}

/// Whether the components of a quaternion are numbers of a size up to two to the power `k`.
pub open spec fn quaternion_within(q: Vec4, k: nat) -> bool {
    within(q.x, k) && within(q.y, k) && within(q.z, k) && within(q.w, k)
}

/// Whether some component is not tiny.
pub open spec fn not_tiny(q: Vec4) -> bool {
    ||| size(value(q.x)) >= value(TINY)
    ||| size(value(q.y)) >= value(TINY)
    ||| size(value(q.z)) >= value(TINY)
    ||| size(value(q.w)) >= value(TINY)
}

/// A vector as a quaternion without a real part.
pub open spec fn pure(a: Vec3) -> Vec4 {
    Vec4 { x: a.x, y: a.y, z: a.z, w: ZERO }
}

/// What the pattern of a length that is not tiny denotes.
pub proof fn lemma_tiny()
    ensures
        value(TINY) * value(TINY) == pow2(49) * unit(),
        value(TINY) == pow2(99),
        pow2(49) == 0x2_0000_0000_0000,
        value(TINY) >= 0x1_0000_0000_0000,
        4 * value(TINY) <= unit(),
        unit() > 0x8000_0000_0000_0000,
        TINY < SIGN,
        is_finite(TINY),
        unsigned(TINY) == TINY,
{
    lemma2_to64();
    lemma2_to64_rest();
    lemma_one();
    lemma_spread_at(0x80_0000, 76);
    lemma_pow2_adds(23, 76);
    lemma_pow2_adds(99, 99);
    lemma_pow2_adds(49, 149);
    lemma_pow2_adds(99, 50);
    lemma_pow2_strictly_increases(48, 99);
    lemma_pow2_strictly_increases(63, 149);
}

/// A square is not negative.
pub proof fn lemma_square_nonnegative(v: int)
    ensures
        v * v >= 0,
{
    assert(v * v >= 0) by (nonlinear_arith);
}

/// How far the square of a root is off.
pub proof fn lemma_root_error(a: Scalar)
    requires
        is_finite(a),
        a < SIGN,
        value(a) > 0,
        is_finite(root(a)),
        value(root(a)) >= FRACTION_LIMIT,
    ensures
        size(value(a) * unit() - value(root(a)) * value(root(a))) * 0x100_0000 <= 3 * (value(root(a))
            * value(root(a))),
{
    lemma_one();
    lemma_magnitude_zero(a);
    let x = value(a) * unit();
    lemma_rounded_root_nearest(x);
    let r = rounded_root(x);
    assert(unsigned(root(a)) == r);
    lemma_magnitude_zero(root(a));
    let (k, g, limit) = (spread(r), spread(r + 1) - spread(r), FRACTION_LIMIT as int);
    lemma_gap(r);
    assert(g * limit <= k);
    let (low, high) = (twice_midpoint(r - 1), twice_midpoint(r));
    assert(high == 2 * k + g && 2 * k - g <= low);
    assert(0 < 2 * k - g) by (nonlinear_arith)
        requires
            g * limit <= k,
            limit == 0x80_0000,
            k > 0,
    ;
    assert(4 * x <= 4 * (k * k) + 5 * (k * g)) by (nonlinear_arith)
        requires
            4 * x <= high * high,
            high == 2 * k + g,
            g * limit <= k,
            limit == 0x80_0000,
            g > 0,
    ;
    assert(4 * x >= 4 * (k * k) - 5 * (k * g)) by (nonlinear_arith)
        requires
            low * low <= 4 * x,
            0 < 2 * k - g <= low,
            k > 0,
            g > 0,
    ;
    assert((k * g) * limit <= k * k) by (nonlinear_arith)
        requires
            g * limit <= k,
            k > 0,
    ;
    let off = x - k * k;
    assert(4 * size(off) <= 5 * (k * g));
    assert((k * g) * 0x80_0000 <= k * k) by (nonlinear_arith)
        requires
            (k * g) * limit <= k * k,
            limit == 0x80_0000,
    ;
}

/// The squares of a component before and after it was divided by the length.
proof fn lemma_square_gap(x: int, y: int, m: int, parts: int)
    requires
        parts > 0,
        m > 0,
        size(x - y) * parts <= 3 * m,
        -2 * m <= x <= 2 * m,
        -2 * m <= y <= 2 * m,
    ensures
        size(x * x - y * y) * parts <= 12 * (m * m),
{
    let (e, s) = (x - y, x + y);
    assert(x * x - y * y == e * s) by (nonlinear_arith)
        requires
            e == x - y,
            s == x + y,
    ;
    assert(size(e * s) * parts <= 12 * (m * m)) by (nonlinear_arith)
        requires
            size(e) * parts <= 3 * m,
            -4 * m <= s <= 4 * m,
            parts > 0,
            m > 0,
    ;
}

/// A component divided by the length.
proof fn lemma_component(a: Scalar, k: Scalar)
    requires
        is_finite(a),
        is_finite(k),
        value(k) >= FRACTION_LIMIT,
        unit() >= FRACTION_LIMIT,
        size(value(a)) <= 2 * value(k),
    ensures
        ({
            let r = quotient(a, k);
            &&& is_finite(r)
            &&& size((value(r) * value(k)) * (value(r) * value(k)) - (value(a) * unit()) * (value(a) * unit()))
                * 0x100_0000 <= 12 * ((unit() * value(k)) * (unit() * value(k)))
        }),
{
    lemma_limit_values();
    lemma_opposite(TWO);
    let (v, d, u, limit) = (value(a), value(k), unit(), FRACTION_LIMIT as int);
    assert(d * (-2 * u) <= v * u <= d * (2 * u)) by (nonlinear_arith)
        requires
            size(v) <= 2 * d,
            u > 0,
    ;
    lemma_quotient_between(a, k, opposite(TWO), TWO);
    let r = quotient(a, k);
    lemma_magnitude_zero(r);
    if !is_finite(r) {
        lemma_spread_order(TWO as int, unsigned(r));
    }
    lemma_quotient_error(a, k);
    let c = value(r);
    let m = u * d;
    assert(size(c * d - v * u) * (2 * limit) <= 3 * m) by (nonlinear_arith)
        requires
            size(c * d - v * u) * (2 * limit) <= d * (size(c) + limit),
            size(c) <= 2 * u,
            limit <= u,
            d > 0,
            m == u * d,
    ;
    assert(-2 * m <= c * d <= 2 * m && -2 * m <= v * u <= 2 * m && m > 0) by (nonlinear_arith)
        requires
            -2 * u <= c <= 2 * u,
            size(v) <= 2 * d,
            m == u * d,
            u > 0,
            d > 0,
    ;
    assert(2 * limit == 0x100_0000);
    lemma_square_gap(c * d, v * u, m, 2 * limit);
}

/// What is divided by its length has length 1, up to rounding; `n` is the square of the
/// length as computed.
#[verifier::rlimit(30)]
proof fn lemma_normalized(v: Vec4, n: Scalar)
    requires
        is_finite(v.x) && is_finite(v.y) && is_finite(v.z) && is_finite(v.w),
        is_finite(n),
        n < SIGN,
        is_finite(root(n)),
        value(root(n)) >= value(TINY),
        value(n) > 0,
        size(value(n) * unit() - squares(v)) * 0x100_0000 <= 6 * (value(n) * unit()),
    ensures
        is_unit(
            Vec4 {
                x: quotient(v.x, root(n)),
                y: quotient(v.y, root(n)),
                z: quotient(v.z, root(n)),
                w: quotient(v.w, root(n)),
            },
        ),
{
    lemma_tiny();
    let k = root(n);
    lemma_root_error(n);
    let (d, u) = (value(k), unit());
    let (z, w, total, x) = (d * d, u * u, squares(v), value(n) * u);
    assert(z > 0) by (nonlinear_arith)
        requires
            z == d * d,
            d > 0,
    ;
    assert(size(total - z) * 0x100_0000 <= 15 * z);
    lemma_square_nonnegative(value(v.x));
    lemma_square_nonnegative(value(v.y));
    lemma_square_nonnegative(value(v.z));
    lemma_square_nonnegative(value(v.w));
    lemma_bounded(value(v.x), d);
    lemma_bounded(value(v.y), d);
    lemma_bounded(value(v.z), d);
    lemma_bounded(value(v.w), d);
    lemma_component(v.x, k);
    lemma_component(v.y, k);
    lemma_component(v.z, k);
    lemma_component(v.w, k);
    let r = Vec4 { x: quotient(v.x, k), y: quotient(v.y, k), z: quotient(v.z, k), w: quotient(v.w, k) };
    lemma_scaled_square(value(r.x), d);
    lemma_scaled_square(value(r.y), d);
    lemma_scaled_square(value(r.z), d);
    lemma_scaled_square(value(r.w), d);
    lemma_scaled_square(value(v.x), u);
    lemma_scaled_square(value(v.y), u);
    lemma_scaled_square(value(v.z), u);
    lemma_scaled_square(value(v.w), u);
    lemma_scaled_square(u, d);
    let s = squares(r);
    assert(s * z == (value(r.x) * value(r.x)) * z + (value(r.y) * value(r.y)) * z + (value(r.z) * value(r.z)) * z
        + (value(r.w) * value(r.w)) * z) by (nonlinear_arith)
        requires
            s == value(r.x) * value(r.x) + value(r.y) * value(r.y) + value(r.z) * value(r.z) + value(r.w)
                * value(r.w),
    ;
    assert(total * w == (value(v.x) * value(v.x)) * w + (value(v.y) * value(v.y)) * w + (value(v.z) * value(v.z))
        * w + (value(v.w) * value(v.w)) * w) by (nonlinear_arith)
        requires
            total == value(v.x) * value(v.x) + value(v.y) * value(v.y) + value(v.z) * value(v.z) + value(v.w)
                * value(v.w),
    ;
    let (a, b, c) = (s * z, total * w, w * z);
    assert(size(a - b) * 0x100_0000 <= 48 * c);
    assert(size(s - w) * 0x100_0000 <= 63 * w) by (nonlinear_arith)
        requires
            a == s * z,
            b == total * w,
            c == w * z,
            size(a - b) * 0x100_0000 <= 48 * c,
            size(total - z) * 0x100_0000 <= 15 * z,
            z > 0,
            w >= 0,
    {
        assert(size(b - c) * 0x100_0000 <= 15 * c) by (nonlinear_arith)
            requires
                b == total * w,
                c == w * z,
                size(total - z) * 0x100_0000 <= 15 * z,
                w >= 0,
            ;
        assert(size(a - c) * 0x100_0000 <= 63 * c) by (nonlinear_arith)
            requires
                size(a - b) * 0x100_0000 <= 48 * c,
                size(b - c) * 0x100_0000 <= 15 * c,
            ;
        assert(size(s - w) * 0x100_0000 <= 63 * w) by (nonlinear_arith)
            requires
                a == s * z,
                c == w * z,
                size(a - c) * 0x100_0000 <= 63 * c,
                z > 0,
            ;
    }
}

/// The square of a product.
pub proof fn lemma_scaled_square(v: int, k: int)
    ensures
        (v * k) * (v * k) == (v * v) * (k * k),
{
    assert((v * k) * (v * k) == (v * v) * (k * k)) by (nonlinear_arith);
}

/// A component is no larger than twice a number whose square is not far below.
pub proof fn lemma_bounded(v: int, d: int)
    requires
        d > 0,
        v * v <= 4 * (d * d),
    ensures
        size(v) <= 2 * d,
{
    assert(size(v) <= 2 * d) by (nonlinear_arith)
        requires
            d > 0,
            v * v <= 4 * (d * d),
    ;
}

/// The square of a component as computed, where it is not too large.
pub proof fn lemma_finite_square(a: Scalar)
    requires
        is_finite(product(a, a)),
    ensures
        is_finite(a),
        0 <= value(product(a, a)),
        size(value(product(a, a)) * unit() - value(a) * value(a)) * 0x100_0000 <= unit() * (value(product(a, a))
            + 0x80_0000),
{
    lemma_one();
    lemma_magnitude_zero(product(a, a));
    lemma_rounded_nearest(magnitude(a) * magnitude(a), unit());
    assert(product(a, a) < SIGN);
    lemma_product_error(a, a);
}

/// The square of a component as computed.
proof fn lemma_squared(a: Scalar, k: nat)
    requires
        within(a, k),
        k + k < 128,
    ensures
        within(product(a, a), k + k),
        0 <= value(product(a, a)),
        size(value(product(a, a)) * unit() - value(a) * value(a)) * 0x100_0000 <= unit() * (value(product(a, a))
            + 0x80_0000),
{
    lemma_product_within(a, a, k, k);
    lemma_finite_square(a);
}

/// The square of the length of a quaternion as computed.
pub open spec fn computed_squares(q: Vec4) -> Scalar {
    sum(sum(product(q.x, q.x), product(q.z, q.z)), sum(product(q.y, q.y), product(q.w, q.w)))
}

/// Four rounded squares that add up, in two sums of two, to a number that is not tiny.
proof fn lemma_squares_add_up(
    u: int,
    a: int,
    b: int,
    c: int,
    d: int,
    va: int,
    vb: int,
    vc: int,
    vd: int,
    n: int,
)
    requires
        u > 0,
        a >= 0,
        b >= 0,
        c >= 0,
        d >= 0,
        size(a * u - va) * 0x100_0000 <= u * (a + 0x80_0000),
        size(b * u - vb) * 0x100_0000 <= u * (b + 0x80_0000),
        size(c * u - vc) * 0x100_0000 <= u * (c + 0x80_0000),
        size(d * u - vd) * 0x100_0000 <= u * (d + 0x80_0000),
        size(n - (a + b + c + d)) * 0x100_0000 <= 3 * n,
        n >= 0x200_0000,
    ensures
        size(n * u - (va + vb + vc + vd)) * 0x100_0000 <= 6 * (n * u),
{
    let total = a + b + c + d;
    let t = total * u;
    assert(t == a * u + b * u + c * u + d * u) by (nonlinear_arith)
        requires
            t == total * u,
            total == a + b + c + d,
    ;
    assert(u * (a + 0x80_0000) + u * (b + 0x80_0000) + u * (c + 0x80_0000) + u * (d + 0x80_0000) == u * (total
        + 0x200_0000)) by (nonlinear_arith)
        requires
            total == a + b + c + d,
    ;
    assert(u * (total + 0x200_0000) <= 3 * (n * u)) by (nonlinear_arith)
        requires
            total + 0x200_0000 <= 3 * n,
            u > 0,
    ;
    assert(size(n * u - t) * 0x100_0000 <= 3 * (n * u)) by (nonlinear_arith)
        requires
            t == total * u,
            size(n - total) * 0x100_0000 <= 3 * n,
            u > 0,
    ;
}

/// The length of a quaternion whose components are not too large.
pub proof fn lemma_quaternion_squares(q: Vec4)
    requires
        quaternion_within(q, 50),
        value(computed_squares(q)) >= 0x200_0000,
    ensures
        within(computed_squares(q), 102),
        size(value(computed_squares(q)) * unit() - squares(q)) * 0x100_0000 <= 6 * (value(computed_squares(q))
            * unit()),
{
    lemma_one();
    lemma_squared(q.x, 50);
    lemma_squared(q.y, 50);
    lemma_squared(q.z, 50);
    lemma_squared(q.w, 50);
    let (a, b, c, d) = (product(q.x, q.x), product(q.y, q.y), product(q.z, q.z), product(q.w, q.w));
    lemma_sum_off(a, c, 100);
    lemma_sum_off(b, d, 100);
    lemma_sum_off(sum(a, c), sum(b, d), 101);
    lemma_squares_add_up(
        unit(),
        value(a),
        value(b),
        value(c),
        value(d),
        value(q.x) * value(q.x),
        value(q.y) * value(q.y),
        value(q.z) * value(q.z),
        value(q.w) * value(q.w),
        value(computed_squares(q)),
    );
}

/// How far a sum of numbers that are not negative is off, where it is not too large.
pub proof fn lemma_finite_sum(a: Scalar, b: Scalar)
    requires
        is_finite(sum(a, b)),
        value(a) >= 0,
        value(b) >= 0,
    ensures
        value(sum(a, b)) >= value(a),
        value(sum(a, b)) >= value(b),
        size(value(sum(a, b)) - (value(a) + value(b))) * 0x100_0000 <= value(sum(a, b)),
{
    lemma_sum_error(a, b);
    lemma_magnitude_zero(a);
    lemma_magnitude_zero(b);
    lemma_magnitude_zero(sum(a, b));
    let t = value(a) + value(b);
    lemma_rounded_nearest(t, 1);
    if t > 0 {
        lemma_rounded_exact(value(a), 1, unsigned(a));
        lemma_rounded_exact(value(b), 1, unsigned(b));
        lemma_rounded_order(value(a), 1, t, 1);
        lemma_rounded_order(value(b), 1, t, 1);
        if unsigned(a) < unsigned(sum(a, b)) {
            lemma_spread_order(unsigned(a), unsigned(sum(a, b)));
        }
        if unsigned(b) < unsigned(sum(a, b)) {
            lemma_spread_order(unsigned(b), unsigned(sum(a, b)));
        }
    }
}

/// How far a sum of numbers that are not negative is off.
proof fn lemma_sum_off(a: Scalar, b: Scalar, k: nat)
    requires
        within(a, k),
        within(b, k),
        k < 127,
        value(a) >= 0,
        value(b) >= 0,
    ensures
        within(sum(a, b), k + 1),
        value(sum(a, b)) >= value(a),
        value(sum(a, b)) >= value(b),
        size(value(sum(a, b)) - (value(a) + value(b))) * 0x100_0000 <= value(sum(a, b)),
{
    lemma_sum_within(a, b, k);
    lemma_sum_error(a, b);
    lemma_power(k + 1);
    lemma_pow2_unfold(k + 1);
    assert(pow2(k + 1) * unit() == 2 * (pow2(k) * unit())) by (nonlinear_arith)
        requires
            pow2(k + 1) == 2 * pow2(k),
    ;
    lemma_sum_between(a, b, a, power(k + 1));
    lemma_sum_between(a, b, b, power(k + 1));
}

/// A quaternion divided by its length is a unit quaternion, where the length came out as
/// not tiny.
proof fn lemma_long_quaternion(q: Vec4)
    requires
        quaternion_within(q, 50),
        value(computed_squares(q)) >= pow2(49),
    ensures
        is_unit(quaternion_direction(q)),
{
    lemma_tiny();
    lemma_quaternion_squares(q);
    let n = computed_squares(q);
    let (u, t) = (unit(), value(TINY));
    assert(t * t <= value(n) * u) by (nonlinear_arith)
        requires
            t * t == pow2(49) * u,
            value(n) >= pow2(49),
            u > 0,
    ;
    lemma_magnitude_zero(n);
    lemma_root_within(n, TINY, 51);
    lemma_normalized(q, n);
}

/// The square of a component that is not tiny.
proof fn lemma_square_not_tiny(a: Scalar)
    requires
        within(a, 50),
        size(value(a)) >= value(TINY),
    ensures
        value(product(a, a)) >= pow2(49),
{
    lemma_tiny();
    lemma2_to64();
    lemma_squared(a, 50);
    lemma_power(100);
    let low: Scalar = 0x0D80_0000;
    lemma_spread_at(0x80_0000, 26);
    lemma_pow2_adds(23, 26);
    assert(value(low) == pow2(49));
    let (v, t, u, p) = (value(a), value(TINY), unit(), pow2(49) as int);
    assert(u * p <= v * v) by (nonlinear_arith)
        requires
            size(v) >= t,
            t > 0,
            t * t == p * u,
    ;
    lemma_power(50);
    lemma_pow2_adds(50, 50);
    let b = pow2(50) as int;
    assert(v * v <= u * (pow2(100) * u)) by (nonlinear_arith)
        requires
            -(b * u) <= v <= b * u,
            pow2(100) == b * b,
    ;
    lemma_product_between(a, a, low, power(100));
}

/// A quaternion divided by its length is a unit quaternion, up to rounding: unless all its
/// components are tiny, or one is huge.
pub proof fn lemma_quaternion_direction_is_unit(q: Vec4)
    requires
        quaternion_within(q, 50),
        not_tiny(q),
    ensures
        is_unit(quaternion_direction(q)),
        value(computed_squares(q)) >= pow2(49),
{
    lemma_squared(q.x, 50);
    lemma_squared(q.y, 50);
    lemma_squared(q.z, 50);
    lemma_squared(q.w, 50);
    let (a, b, c, d) = (product(q.x, q.x), product(q.y, q.y), product(q.z, q.z), product(q.w, q.w));
    lemma_sum_off(a, c, 100);
    lemma_sum_off(b, d, 100);
    lemma_sum_off(sum(a, c), sum(b, d), 101);
    if size(value(q.x)) >= value(TINY) {
        lemma_square_not_tiny(q.x);
    } else if size(value(q.y)) >= value(TINY) {
        lemma_square_not_tiny(q.y);
    } else if size(value(q.z)) >= value(TINY) {
        lemma_square_not_tiny(q.z);
    } else {
        lemma_square_not_tiny(q.w);
    }
    lemma_long_quaternion(q);
}

/// The square of the length of a vector as computed, where the length came out as not
/// tiny.
#[verifier::rlimit(30)]
pub proof fn lemma_vector_squares(a: Vec3)
    requires
        value(length(a)) >= value(TINY),
        is_finite(length(a)),
    ensures
        is_finite(a.x) && is_finite(a.y) && is_finite(a.z),
        is_finite(inner(a, a)),
        inner(a, a) < SIGN,
        value(inner(a, a)) > 0,
        size(value(inner(a, a)) * unit() - squares(pure(a))) * 0x100_0000 <= 6 * (value(inner(a, a)) * unit()),
        size(value(inner(a, a)) * unit() - value(length(a)) * value(length(a))) * 0x100_0000 <= 3 * (value(length(a))
            * value(length(a))),
{
    lemma_tiny();
    lemma_limit_values();
    let (p, q, r) = (product(a.x, a.x), product(a.y, a.y), product(a.z, a.z));
    let n = inner(a, a);
    assert(is_finite(n));
    lemma_finite_square(a.x);
    lemma_finite_square(a.y);
    lemma_finite_square(a.z);
    lemma_finite_sum(p, q);
    lemma_finite_sum(sum(p, q), r);
    lemma_magnitude_zero(n);
    lemma_magnitude_zero(root(n));
    assert(value(n) > 0);
    lemma_root_error(n);
    let (k, u) = (value(root(n)), unit());
    assert(value(n) >= 0x200_0000) by {
        let (x, z, t) = (value(n) * u, k * k, value(TINY));
        assert(t * t <= z) by (nonlinear_arith)
            requires
                t <= k,
                0 < t,
                z == k * k,
        ;
        assert(0x400_0000 * u <= pow2(49) * u) by (nonlinear_arith)
            requires
                pow2(49) == 0x2_0000_0000_0000,
                u > 0,
        ;
        assert(0x200_0000 * u <= x);
        assert(0x200_0000 <= value(n)) by (nonlinear_arith)
            requires
                0x200_0000 * u <= x,
                x == value(n) * u,
                u > 0,
        ;
    }
    assert(0 * u == 0 && size(0) == 0);
    lemma_squares_add_up(
        u,
        value(p),
        value(q),
        value(r),
        0,
        value(a.x) * value(a.x),
        value(a.y) * value(a.y),
        value(a.z) * value(a.z),
        0,
        value(n),
    );
    lemma_magnitude_zero(ZERO);
}

/// A vector divided by its length has length 1, where the length came out as not tiny.
pub proof fn lemma_long_vector(a: Vec3)
    requires
        value(length(a)) >= value(TINY),
        is_finite(length(a)),
    ensures
        is_unit(pure(direction(a))),
{
    lemma_tiny();
    lemma_vector_squares(a);
    lemma_magnitude_zero(ZERO);
    lemma_normalized(pure(a), inner(a, a));
    lemma_zero_over(length(a));
}

/// Zero divided by a positive number is zero.
pub proof fn lemma_zero_over(k: Scalar)
    requires
        is_finite(k),
        value(k) > 0,
    ensures
        value(quotient(ZERO, k)) == 0,
        is_finite(quotient(ZERO, k)),
{
    lemma_limit_values();
    lemma_magnitude_zero(ZERO);
    lemma_magnitude_zero(k);
    lemma_rounded_exact(0, magnitude(k), 0);
    assert(0 * unit() == 0);
    lemma_magnitude_zero(quotient(ZERO, k));
}

/// A vector divided by its length has length 1, up to rounding, where some component is
/// not tiny.
pub proof fn lemma_direction_is_unit(a: Vec3)
    requires
        vector_within(a, 50),
        not_tiny(pure(a)),
    ensures
        is_unit(pure(direction(a))),
        is_finite(length(a)),
        value(length(a)) >= value(TINY),
{
    lemma_tiny();
    lemma_limit_values();
    lemma_squared(a.x, 50);
    lemma_squared(a.y, 50);
    lemma_squared(a.z, 50);
    let (p, q, r) = (product(a.x, a.x), product(a.y, a.y), product(a.z, a.z));
    lemma_sum_off(p, q, 100);
    lemma_within_more(r, 100, 101);
    lemma_sum_off(sum(p, q), r, 101);
    if size(value(a.x)) >= value(TINY) {
        lemma_square_not_tiny(a.x);
    } else if size(value(a.y)) >= value(TINY) {
        lemma_square_not_tiny(a.y);
    } else {
        lemma_square_not_tiny(a.z);
    }
    let n = inner(a, a);
    let (u, t) = (unit(), value(TINY));
    assert(t * t <= value(n) * u) by (nonlinear_arith)
        requires
            t * t == pow2(49) * u,
            value(n) >= pow2(49),
            u > 0,
    ;
    lemma_root_within(n, TINY, 51);
    lemma_long_vector(a);
}

/// The components of what is near a unit quaternion are no larger than 2.
pub proof fn lemma_near_components(q: Vec4, parts: int)
    requires
        near_unit(q, parts),
        parts >= 4,
    ensures
        size(value(q.x)) <= 2 * unit(),
        size(value(q.y)) <= 2 * unit(),
        size(value(q.z)) <= 2 * unit(),
        size(value(q.w)) <= 2 * unit(),
        quaternion_within(q, 1),
        4 * size(squares(q) - unit() * unit()) <= unit() * unit(),
{
    lemma_one();
    let (u, w, s) = (unit(), unit() * unit(), squares(q));
    assert(4 * size(s - w) <= w) by (nonlinear_arith)
        requires
            size(s - w) * parts <= w,
            parts >= 4,
    ;
    lemma_square_nonnegative(value(q.x));
    lemma_square_nonnegative(value(q.y));
    lemma_square_nonnegative(value(q.z));
    lemma_square_nonnegative(value(q.w));
    lemma_square_nonnegative(u);
    lemma_bounded(value(q.x), u);
    lemma_bounded(value(q.y), u);
    lemma_bounded(value(q.z), u);
    lemma_bounded(value(q.w), u);
    lemma2_to64();
    assert(pow2(1) * u == 2 * u) by (nonlinear_arith)
        requires
            pow2(1) == 2,
    ;
}

/// What is near a unit quaternion is not tiny.
pub proof fn lemma_near_not_tiny(q: Vec4, parts: int)
    requires
        near_unit(q, parts),
        parts >= 4,
    ensures
        not_tiny(q),
        quaternion_within(q, 50),
{
    lemma_tiny();
    lemma_near_components(q, parts);
    lemma_within_more(q.x, 1, 50);
    lemma_within_more(q.y, 1, 50);
    lemma_within_more(q.z, 1, 50);
    lemma_within_more(q.w, 1, 50);
    let (u, t) = (unit(), value(TINY));
    if !not_tiny(q) {
        lemma_small_square(value(q.x), u);
        lemma_small_square(value(q.y), u);
        lemma_small_square(value(q.z), u);
        lemma_small_square(value(q.w), u);
        assert(u * u > 0) by (nonlinear_arith)
            requires
                u > 0,
        ;
    }
}

/// The square of a number below a quarter of `u`.
proof fn lemma_small_square(v: int, u: int)
    requires
        4 * size(v) <= u,
    ensures
        16 * (v * v) <= u * u,
{
    assert(16 * (v * v) <= u * u) by (nonlinear_arith)
        requires
            4 * size(v) <= u,
    ;
}

/// A product of two components that are no larger than 2.
pub proof fn lemma_term(a: Scalar, b: Scalar)
    requires
        is_finite(a),
        is_finite(b),
        size(value(a)) <= 2 * unit(),
        size(value(b)) <= 2 * unit(),
    ensures
        within(product(a, b), 2),
        size(value(product(a, b))) <= 4 * unit(),
        size(value(product(a, b)) * unit() - value(a) * value(b)) * 0x100_0000 <= 5 * (unit() * unit()),
        size(value(a) * value(b)) <= 4 * (unit() * unit()),
{
    lemma_tiny();
    lemma2_to64();
    let (u, v, w) = (unit(), value(a), value(b));
    assert(pow2(1) * u == 2 * u && pow2(2) * u == 4 * u) by (nonlinear_arith)
        requires
            pow2(1) == 2,
            pow2(2) == 4,
    ;
    lemma_product_within(a, b, 1, 1);
    lemma_product_error(a, b);
    let t = value(product(a, b));
    assert(u * (size(t) + 0x80_0000) <= 5 * (u * u)) by (nonlinear_arith)
        requires
            size(t) <= 4 * u,
            0x80_0000 <= u,
    ;
    assert(size(v * w) <= 4 * (u * u)) by (nonlinear_arith)
        requires
            size(v) <= 2 * u,
            size(w) <= 2 * u,
    ;
}

/// Four terms added from first to last.
pub proof fn lemma_four_terms(a: Scalar, b: Scalar, c: Scalar, d: Scalar)
    requires
        within(a, 2),
        within(b, 2),
        within(c, 2),
        within(d, 2),
    ensures
        ({
            let t = sum(sum(sum(a, b), c), d);
            &&& within(t, 5)
            &&& size(value(t) - (value(a) + value(b) + value(c) + value(d))) * 0x100_0000 <= 56 * unit()
        }),
{
    lemma_one();
    lemma2_to64();
    let u = unit();
    assert(pow2(3) * u == 8 * u && pow2(4) * u == 16 * u && pow2(5) * u == 32 * u) by (nonlinear_arith)
        requires
            pow2(3) == 8,
            pow2(4) == 16,
            pow2(5) == 32,
    ;
    lemma_sum_within(a, b, 2);
    lemma_within_more(c, 2, 3);
    lemma_sum_within(sum(a, b), c, 3);
    lemma_within_more(d, 2, 4);
    lemma_sum_within(sum(sum(a, b), c), d, 4);
    lemma_sum_error(a, b);
    lemma_sum_error(sum(a, b), c);
    lemma_sum_error(sum(sum(a, b), c), d);
}

/// The squares of two numbers that are close to each other and not large.
proof fn lemma_close_squares(x: int, e: int, w: int)
    requires
        w > 0,
        size(x - e) * 0x100_0000 <= 76 * w,
        size(e) <= 16 * w,
    ensures
        size(x * x - e * e) * 0x800 <= w * w,
{
    let (g, s) = (x - e, x + e);
    assert(x * x - e * e == g * s) by (nonlinear_arith)
        requires
            g == x - e,
            s == x + e,
    ;
    assert(size(s) <= 33 * w);
    assert(size(g * s) * 0x800 <= w * w) by (nonlinear_arith)
        requires
            size(g) * 0x100_0000 <= 76 * w,
            size(s) <= 33 * w,
            w > 0,
    ;
}

/// Four terms and their sum, and the exact ones.
pub proof fn lemma_close_sums(u: int, t: int, a: int, b: int, c: int, d: int, ea: int, eb: int, ec: int, ed: int)
    requires
        u > 0,
        size(t - (a + b + c + d)) * 0x100_0000 <= 56 * u,
        size(a * u - ea) * 0x100_0000 <= 5 * (u * u),
        size(b * u - eb) * 0x100_0000 <= 5 * (u * u),
        size(c * u - ec) * 0x100_0000 <= 5 * (u * u),
        size(d * u - ed) * 0x100_0000 <= 5 * (u * u),
    ensures
        size(t * u - (ea + eb + ec + ed)) * 0x100_0000 <= 76 * (u * u),
{
    let total = a + b + c + d;
    lemma_times_four(u, a, b, c, d);
    lemma_signs(u, a);
    lemma_signs(u, b);
    lemma_signs(u, c);
    lemma_signs(u, d);
    assert(size(t * u - total * u) * 0x100_0000 <= 56 * (u * u)) by (nonlinear_arith)
        requires
            size(t - total) * 0x100_0000 <= 56 * u,
            u > 0,
    ;
}

/// A component of a product of quaternions, and the exact one.
proof fn lemma_product_component(
    a: Scalar,
    b: Scalar,
    c: Scalar,
    d: Scalar,
    ea: int,
    eb: int,
    ec: int,
    ed: int,
)
    requires
        within(a, 2),
        within(b, 2),
        within(c, 2),
        within(d, 2),
        size(value(a) * unit() - ea) * 0x100_0000 <= 5 * (unit() * unit()),
        size(value(b) * unit() - eb) * 0x100_0000 <= 5 * (unit() * unit()),
        size(value(c) * unit() - ec) * 0x100_0000 <= 5 * (unit() * unit()),
        size(value(d) * unit() - ed) * 0x100_0000 <= 5 * (unit() * unit()),
        size(ea) <= 4 * (unit() * unit()),
        size(eb) <= 4 * (unit() * unit()),
        size(ec) <= 4 * (unit() * unit()),
        size(ed) <= 4 * (unit() * unit()),
    ensures
        ({
            let (t, e, w) = (value(sum(sum(sum(a, b), c), d)), ea + eb + ec + ed, unit() * unit());
            &&& is_finite(sum(sum(sum(a, b), c), d))
            &&& size((t * unit()) * (t * unit()) - e * e) * 0x800 <= w * w
        }),
{
    lemma_one();
    lemma_four_terms(a, b, c, d);
    let (u, w) = (unit(), unit() * unit());
    assert(w > 0) by (nonlinear_arith)
        requires
            w == u * u,
            u > 0,
    ;
    let t = value(sum(sum(sum(a, b), c), d));
    lemma_close_sums(u, t, value(a), value(b), value(c), value(d), ea, eb, ec, ed);
    lemma_close_squares(t * u, ea + eb + ec + ed, w);
}

/// Factors of two products that change places.
proof fn lemma_swap(a: int, b: int, c: int, d: int)
    ensures
        (a * b) * (c * d) == (a * d) * (c * b),
{
    assert((a * b) * (c * d) == (a * d) * (c * b)) by (nonlinear_arith);
}

/// A factor of a sum of four.
pub proof fn lemma_times_four(t: int, e: int, f: int, g: int, h: int)
    ensures
        t * (e + f + g + h) == t * e + t * f + t * g + t * h,
        (e + f + g + h) * t == t * e + t * f + t * g + t * h,
{
    lemma_mul_is_distributive_add(t, e + f + g, h);
    lemma_mul_is_distributive_add(t, e + f, g);
    lemma_mul_is_distributive_add(t, e, f);
    lemma_mul_is_commutative(t, e + f + g + h);
}

/// Signs of factors.
pub proof fn lemma_signs(x: int, y: int)
    ensures
        x * (-y) == -(x * y),
        (-x) * y == -(x * y),
        (-x) * (-y) == x * y,
        x * y == y * x,
{
    assert(x * (-y) == -(x * y) && (-x) * y == -(x * y) && (-x) * (-y) == x * y && x * y == y * x)
        by (nonlinear_arith);
}

/// The square of a sum of four.
proof fn lemma_square_of_four(p: int, q: int, r: int, s: int)
    ensures
        (p + q + r + s) * (p + q + r + s) == p * p + q * q + r * r + s * s + 2 * (p * q) + 2 * (p * r) + 2 * (p * s)
            + 2 * (q * r) + 2 * (q * s) + 2 * (r * s),
{
    lemma_times_four(p + q + r + s, p, q, r, s);
    lemma_times_four(p, p, q, r, s);
    lemma_times_four(q, p, q, r, s);
    lemma_times_four(r, p, q, r, s);
    lemma_times_four(s, p, q, r, s);
    lemma_signs(p, q);
    lemma_signs(p, r);
    lemma_signs(p, s);
    lemma_signs(q, r);
    lemma_signs(q, s);
    lemma_signs(r, s);
}

/// The same, with signs.
proof fn lemma_square_of_four_signed(p: int, q: int, r: int, s: int)
    ensures
        (p + q + r - s) * (p + q + r - s) == p * p + q * q + r * r + s * s + 2 * (p * q) + 2 * (p * r) - 2 * (p * s)
            + 2 * (q * r) - 2 * (q * s) - 2 * (r * s),
        (p - q - r - s) * (p - q - r - s) == p * p + q * q + r * r + s * s - 2 * (p * q) - 2 * (p * r) - 2 * (p * s)
            + 2 * (q * r) + 2 * (q * s) + 2 * (r * s),
{
    lemma_square_of_four(p, q, r, -s);
    lemma_square_of_four(p, -q, -r, -s);
    lemma_signs(p, q);
    lemma_signs(p, r);
    lemma_signs(p, s);
    lemma_signs(q, r);
    lemma_signs(q, s);
    lemma_signs(r, s);
    lemma_signs(q, q);
    lemma_signs(r, r);
    lemma_signs(s, s);
}

/// Sums of four multiply: the sixteen products.
proof fn lemma_sums_multiply(a: int, b: int, c: int, d: int, e: int, f: int, g: int, h: int)
    ensures
        (a + b + c + d) * (e + f + g + h) == a * e + a * f + a * g + a * h + b * e + b * f + b * g + b * h + c * e + c
            * f + c * g + c * h + d * e + d * f + d * g + d * h,
{
    lemma_times_four(e + f + g + h, a, b, c, d);
    lemma_times_four(a, e, f, g, h);
    lemma_times_four(b, e, f, g, h);
    lemma_times_four(c, e, f, g, h);
    lemma_times_four(d, e, f, g, h);
}

/// The squares of the components of an exact product of quaternions add up to the product
/// of the sums of squares.
#[verifier::rlimit(30)]
pub proof fn lemma_four_squares(a: int, b: int, c: int, d: int, e: int, f: int, g: int, h: int)
    ensures
        ({
            let x = d * e + a * h + b * g - c * f;
            let y = d * f - a * g + b * h + c * e;
            let z = d * g + a * f - b * e + c * h;
            let w = d * h - a * e - b * f - c * g;
            x * x + y * y + z * z + w * w == (a * a + b * b + c * c + d * d) * (e * e + f * f + g * g + h * h)
        }),
{
    let de = d * e;
    let ah = a * h;
    let bg = b * g;
    let cf = c * f;
    let df = d * f;
    let ag = a * g;
    let bh = b * h;
    let ce = c * e;
    let dg = d * g;
    let af = a * f;
    let be = b * e;
    let ch = c * h;
    let dh = d * h;
    let ae = a * e;
    let bf = b * f;
    let cg = c * g;
    lemma_square_of_four_signed(de, ah, bg, cf);
    lemma_square_of_four_signed(df, bh, ce, ag);
    lemma_square_of_four_signed(dg, af, ch, be);
    lemma_square_of_four_signed(dh, ae, bf, cg);
    lemma_signs(bh, ag);
    lemma_signs(ce, ag);
    lemma_signs(ch, be);
    lemma_signs(af, be);
    lemma_scaled_square(d, e);
    lemma_scaled_square(a, h);
    lemma_scaled_square(b, g);
    lemma_scaled_square(c, f);
    lemma_scaled_square(d, f);
    lemma_scaled_square(a, g);
    lemma_scaled_square(b, h);
    lemma_scaled_square(c, e);
    lemma_scaled_square(d, g);
    lemma_scaled_square(a, f);
    lemma_scaled_square(b, e);
    lemma_scaled_square(c, h);
    lemma_scaled_square(d, h);
    lemma_scaled_square(a, e);
    lemma_scaled_square(b, f);
    lemma_scaled_square(c, g);
    lemma_swap(d, e, a, h);
    lemma_swap(d, e, b, g);
    lemma_swap(d, e, c, f);
    lemma_swap(a, h, b, g);
    lemma_swap(a, h, c, f);
    lemma_swap(b, g, c, f);
    lemma_swap(d, f, a, g);
    lemma_swap(d, f, b, h);
    lemma_swap(a, g, c, e);
    lemma_swap(b, h, c, e);
    lemma_swap(d, g, c, h);
    lemma_swap(a, f, b, e);
    lemma_sums_multiply(a * a, b * b, c * c, d * d, e * e, f * f, g * g, h * h);
}

/// A term with its sign turned.
pub proof fn lemma_turned_term(t: Scalar, e: int)
    requires
        within(t, 2),
        size(value(t) * unit() - e) * 0x100_0000 <= 5 * (unit() * unit()),
    ensures
        within(opposite(t), 2),
        size(value(opposite(t)) * unit() - (-e)) * 0x100_0000 <= 5 * (unit() * unit()),
{
    lemma_opposite(t);
    lemma_opposite_within(t, 2);
    lemma_signs(value(t), unit());
}

/// The sum of the squares of a computed product of quaternions is off the product of the
/// sums of squares by little.
#[verifier::rlimit(30)]
proof fn lemma_product_squares(a: Vec4, b: Vec4)
    requires
        near_unit(a, 16),
        near_unit(b, 16),
    ensures
        ({
            let q = quaternion_product(a, b);
            let w = unit() * unit();
            &&& is_finite(q.x) && is_finite(q.y) && is_finite(q.z) && is_finite(q.w)
            &&& size(squares(q) * w - squares(a) * squares(b)) * 0x200 <= w * w
        }),
{
    lemma_near_components(a, 16);
    lemma_near_components(b, 16);
    lemma_product_x(a, b);
    lemma_product_y(a, b);
    lemma_product_z(a, b);
    lemma_product_w(a, b);
    let q = quaternion_product(a, b);
    let (u, w) = (unit(), unit() * unit());
    let (ax, ay, az, aw) = (value(a.x), value(a.y), value(a.z), value(a.w));
    let (bx, by, bz, bw) = (value(b.x), value(b.y), value(b.z), value(b.w));
    lemma_four_squares(ax, ay, az, aw, bx, by, bz, bw);
    lemma_scaled_square(value(q.x), u);
    lemma_scaled_square(value(q.y), u);
    lemma_scaled_square(value(q.z), u);
    lemma_scaled_square(value(q.w), u);
    lemma_times_four(
        w,
        value(q.x) * value(q.x),
        value(q.y) * value(q.y),
        value(q.z) * value(q.z),
        value(q.w) * value(q.w),
    );
    lemma_signs(w, value(q.x) * value(q.x));
    lemma_signs(w, value(q.y) * value(q.y));
    lemma_signs(w, value(q.z) * value(q.z));
    lemma_signs(w, value(q.w) * value(q.w));
}

/// The component `x` of a product of quaternions.
proof fn lemma_product_x(a: Vec4, b: Vec4)
    requires
        near_unit(a, 16),
        near_unit(b, 16),
    ensures
        ({
            let (t, w) = (quaternion_product(a, b).x, unit() * unit());
            let e = value(a.w) * value(b.x) + value(a.x) * value(b.w) + value(a.y) * value(b.z) - value(a.z) * value(b.y);
            &&& is_finite(t)
            &&& size((value(t) * unit()) * (value(t) * unit()) - e * e) * 0x800 <= w * w
        }),
{
    lemma_near_components(a, 16);
    lemma_near_components(b, 16);
    lemma_term(a.w, b.x);
    lemma_term(a.x, b.w);
    lemma_term(a.y, b.z);
    lemma_term(a.z, b.y);
    lemma_turned_term(product(a.z, b.y), value(a.z) * value(b.y));
    lemma_product_component(
        product(a.w, b.x),
        product(a.x, b.w),
        product(a.y, b.z),
        opposite(product(a.z, b.y)),
        value(a.w) * value(b.x),
        value(a.x) * value(b.w),
        value(a.y) * value(b.z),
        -(value(a.z) * value(b.y)),
    );
}

/// The component `y` of a product of quaternions.
proof fn lemma_product_y(a: Vec4, b: Vec4)
    requires
        near_unit(a, 16),
        near_unit(b, 16),
    ensures
        ({
            let (t, w) = (quaternion_product(a, b).y, unit() * unit());
            let e = value(a.w) * value(b.y) - value(a.x) * value(b.z) + value(a.y) * value(b.w) + value(a.z) * value(b.x);
            &&& is_finite(t)
            &&& size((value(t) * unit()) * (value(t) * unit()) - e * e) * 0x800 <= w * w
        }),
{
    lemma_near_components(a, 16);
    lemma_near_components(b, 16);
    lemma_term(a.w, b.y);
    lemma_term(a.x, b.z);
    lemma_term(a.y, b.w);
    lemma_term(a.z, b.x);
    lemma_turned_term(product(a.x, b.z), value(a.x) * value(b.z));
    lemma_product_component(
        product(a.w, b.y),
        opposite(product(a.x, b.z)),
        product(a.y, b.w),
        product(a.z, b.x),
        value(a.w) * value(b.y),
        -(value(a.x) * value(b.z)),
        value(a.y) * value(b.w),
        value(a.z) * value(b.x),
    );
}

/// The component `z` of a product of quaternions.
proof fn lemma_product_z(a: Vec4, b: Vec4)
    requires
        near_unit(a, 16),
        near_unit(b, 16),
    ensures
        ({
            let (t, w) = (quaternion_product(a, b).z, unit() * unit());
            let e = value(a.w) * value(b.z) + value(a.x) * value(b.y) - value(a.y) * value(b.x) + value(a.z) * value(b.w);
            &&& is_finite(t)
            &&& size((value(t) * unit()) * (value(t) * unit()) - e * e) * 0x800 <= w * w
        }),
{
    lemma_near_components(a, 16);
    lemma_near_components(b, 16);
    lemma_term(a.w, b.z);
    lemma_term(a.x, b.y);
    lemma_term(a.y, b.x);
    lemma_term(a.z, b.w);
    lemma_turned_term(product(a.y, b.x), value(a.y) * value(b.x));
    lemma_product_component(
        product(a.w, b.z),
        product(a.x, b.y),
        opposite(product(a.y, b.x)),
        product(a.z, b.w),
        value(a.w) * value(b.z),
        value(a.x) * value(b.y),
        -(value(a.y) * value(b.x)),
        value(a.z) * value(b.w),
    );
}

/// The component `w` of a product of quaternions.
proof fn lemma_product_w(a: Vec4, b: Vec4)
    requires
        near_unit(a, 16),
        near_unit(b, 16),
    ensures
        ({
            let (t, w) = (quaternion_product(a, b).w, unit() * unit());
            let e = value(a.w) * value(b.w) - value(a.x) * value(b.x) - value(a.y) * value(b.y) - value(a.z) * value(b.z);
            &&& is_finite(t)
            &&& size((value(t) * unit()) * (value(t) * unit()) - e * e) * 0x800 <= w * w
        }),
{
    lemma_near_components(a, 16);
    lemma_near_components(b, 16);
    lemma_term(a.w, b.w);
    lemma_term(a.x, b.x);
    lemma_term(a.y, b.y);
    lemma_term(a.z, b.z);
    lemma_turned_term(product(a.x, b.x), value(a.x) * value(b.x));
    lemma_turned_term(product(a.y, b.y), value(a.y) * value(b.y));
    lemma_turned_term(product(a.z, b.z), value(a.z) * value(b.z));
    lemma_product_component(
        product(a.w, b.w),
        opposite(product(a.x, b.x)),
        opposite(product(a.y, b.y)),
        opposite(product(a.z, b.z)),
        value(a.w) * value(b.w),
        -(value(a.x) * value(b.x)),
        -(value(a.y) * value(b.y)),
        -(value(a.z) * value(b.z)),
    );
}

/// A product of two quaternions near unit quaternions is near one.
proof fn lemma_product_near(a: Vec4, b: Vec4)
    requires
        near_unit(a, 16),
        near_unit(b, 16),
    ensures
        near_unit(quaternion_product(a, b), 4),
        near_unit(a, 64) && near_unit(b, 64) ==> near_unit(quaternion_product(a, b), 16),
{
    lemma_one();
    lemma_product_squares(a, b);
    let (w, s, p, q) = (unit() * unit(), squares(quaternion_product(a, b)), squares(a), squares(b));
    assert(w > 0) by (nonlinear_arith)
        requires
            w == unit() * unit(),
            unit() > 0,
    ;
    lemma_near_multiply(w, s, p, q);
}

/// How near a product of two numbers is to 1 where both are.
proof fn lemma_near_multiply(w: int, s: int, p: int, q: int)
    requires
        w > 0,
        size(p - w) * 16 <= w,
        size(q - w) * 16 <= w,
        size(s * w - p * q) * 0x200 <= w * w,
    ensures
        size(s - w) * 4 <= w,
        size(p - w) * 64 <= w && size(q - w) * 64 <= w ==> size(s - w) * 16 <= w,
{
    assert(225 * (w * w) <= 256 * (p * q) <= 289 * (w * w)) by (nonlinear_arith)
        requires
            15 * w <= 16 * p <= 17 * w,
            15 * w <= 16 * q <= 17 * w,
            w > 0,
    ;
    assert(size(s - w) * 4 <= w) by (nonlinear_arith)
        requires
            225 * (w * w) <= 256 * (p * q) <= 289 * (w * w),
            size(s * w - p * q) * 0x200 <= w * w,
            w > 0,
    ;
    if size(p - w) * 64 <= w && size(q - w) * 64 <= w {
        assert(3969 * (w * w) <= 4096 * (p * q) <= 4225 * (w * w)) by (nonlinear_arith)
            requires
                63 * w <= 64 * p <= 65 * w,
                63 * w <= 64 * q <= 65 * w,
                w > 0,
        ;
        assert(size(s - w) * 16 <= w) by (nonlinear_arith)
            requires
                3969 * (w * w) <= 4096 * (p * q) <= 4225 * (w * w),
                size(s * w - p * q) * 0x200 <= w * w,
                w > 0,
        ;
    }
}

/// The square of a rounded product of two components that are no larger than 2.
pub proof fn lemma_term_square(a: Scalar, b: Scalar)
    requires
        is_finite(a),
        is_finite(b),
        size(value(a)) <= 2 * unit(),
        size(value(b)) <= 2 * unit(),
    ensures
        is_finite(product(a, b)),
        ({
            let (t, w) = (value(product(a, b)), unit() * unit());
            size((t * t) * w - (value(a) * value(a)) * (value(b) * value(b))) * 0x4_0000 <= w * w
        }),
{
    lemma_one();
    lemma_term(a, b);
    let (u, w, t) = (unit(), unit() * unit(), value(product(a, b)));
    let (x, e) = (t * u, value(a) * value(b));
    lemma_scaled_square(t, u);
    lemma_scaled_square(value(a), value(b));
    assert(w > 0) by (nonlinear_arith)
        requires
            w == u * u,
            u > 0,
    ;
    assert(size(x * x - e * e) * 0x4_0000 <= w * w) by {
        let (g, s) = (x - e, x + e);
        assert(x * x - e * e == g * s) by (nonlinear_arith)
            requires
                g == x - e,
                s == x + e,
        ;
        assert(size(s) <= 9 * w);
        assert(size(g * s) * 0x4_0000 <= w * w) by (nonlinear_arith)
            requires
                size(g) * 0x100_0000 <= 5 * w,
                size(s) <= 9 * w,
                w > 0,
        ;
    }
}

/// A turn around an axis of length 1 is near a unit quaternion.
#[verifier::rlimit(30)]
proof fn lemma_turn_near(axis: Vec3, half: SineCosine)
    requires
        is_unit(pure(direction(axis))),
        on_circle(half),
    ensures
        near_unit(turn(axis, half), 64),
{
    lemma_one();
    let d = direction(axis);
    let (u, w) = (unit(), unit() * unit());
    let (s, c) = (value(half.sine) * value(half.sine), value(half.cosine) * value(half.cosine));
    lemma_near_components(pure(d), UNIT_PARTS as int);
    lemma_square_nonnegative(value(half.sine));
    lemma_square_nonnegative(value(half.cosine));
    lemma_square_nonnegative(u);
    lemma_bounded(value(half.sine), u);
    lemma_bounded(value(half.cosine), u);
    lemma_term_square(d.x, half.sine);
    lemma_term_square(d.y, half.sine);
    lemma_term_square(d.z, half.sine);
    let q = turn(axis, half);
    let (x, y, z) = (value(q.x) * value(q.x), value(q.y) * value(q.y), value(q.z) * value(q.z));
    let (dx, dy, dz) = (value(d.x) * value(d.x), value(d.y) * value(d.y), value(d.z) * value(d.z));
    lemma_times_four(w, x, y, z, c);
    lemma_signs(w, x);
    lemma_signs(w, y);
    lemma_signs(w, z);
    lemma_signs(w, c);
    lemma_magnitude_zero(ZERO);
    assert(squares(pure(d)) == dx + dy + dz) by {
        assert(value(ZERO) * value(ZERO) == 0) by (nonlinear_arith)
            requires
                value(ZERO) == 0,
        ;
    }
    let total = dx + dy + dz;
    lemma_times_four(s, dx, dy, dz, 0);
    lemma_signs(s, dx);
    lemma_signs(s, dy);
    lemma_signs(s, dz);
    assert(s * 0 == 0);
    assert(w > 0) by (nonlinear_arith)
        requires
            w == u * u,
            u > 0,
    ;
    assert(size(s * total - s * w) * 0x1_0000 <= w * w) by (nonlinear_arith)
        requires
            size(total - w) * 0x4_0000 <= w,
            0 <= s <= 2 * w,
            w > 0,
    ;
    assert(size((s + c) * w - w * w) * 0x400 <= w * w) by (nonlinear_arith)
        requires
            size(s + c - w) * 0x400 <= w,
            w > 0,
    ;
    assert((s + c) * w == s * w + c * w) by (nonlinear_arith);
    let r = squares(q);
    assert(size(r * w - w * w) * 64 <= w * w);
    assert(size(r - w) * 64 <= w) by (nonlinear_arith)
        requires
            size(r * w - w * w) * 64 <= w * w,
            w > 0,
    ;
}

/// The axis that the ball turns around by itself, which is also where the sun stands, has
/// length 1 up to rounding.
pub proof fn lemma_spin_axis()
    ensures
        is_unit(pure(spin_axis())),
        is_unit(pure(direction(spin_axis()))),
{
    lemma_tiny();
    lemma_limit_values();
    lemma2_to64();
    let slant = Vec3 { x: SLANT_X, y: SLANT_Y, z: SLANT_Z };
    lemma_spread_order(SLANT_X as int, ONE as int);
    lemma_spread_order(SLANT_Z as int, ONE as int);
    lemma_magnitude_zero(SLANT_X);
    lemma_magnitude_zero(SLANT_Z);
    lemma_power(0);
    lemma_within_more(SLANT_X, 0, 50);
    lemma_within_more(SLANT_Y, 0, 50);
    lemma_within_more(SLANT_Z, 0, 50);
    lemma_direction_is_unit(slant);
    lemma_unit_again(spin_axis());
}

/// A vector of length 1 divided by its length still has length 1.
pub proof fn lemma_unit_again(a: Vec3)
    requires
        is_unit(pure(a)),
    ensures
        is_unit(pure(direction(a))),
{
    lemma_near_not_tiny(pure(a), UNIT_PARTS as int);
    lemma_tiny();
    lemma_magnitude_zero(ZERO);
    lemma_direction_is_unit(a);
}

/// A product with zero is zero.
proof fn lemma_product_zero(a: Scalar, b: Scalar)
    requires
        is_finite(a),
        is_finite(b),
        value(a) == 0 || value(b) == 0,
    ensures
        is_finite(product(a, b)),
        value(product(a, b)) == 0,
{
    lemma_limit_values();
    assert(value(a) * value(b) == 0) by (nonlinear_arith)
        requires
            value(a) == 0 || value(b) == 0,
    ;
    assert(unit() * 0 == 0);
    lemma_product_between(a, b, ZERO, ZERO);
    lemma_magnitude_zero(product(a, b));
}

/// A sum and a difference of zeros are zero.
proof fn lemma_sum_zero(a: Scalar, b: Scalar)
    requires
        is_finite(a),
        is_finite(b),
        value(a) == 0,
        value(b) == 0,
    ensures
        is_finite(sum(a, b)),
        value(sum(a, b)) == 0,
        is_finite(difference(a, b)),
        value(difference(a, b)) == 0,
{
    lemma_limit_values();
    lemma_opposite(b);
    lemma_sum_between(a, b, ZERO, ZERO);
    lemma_sum_between(a, opposite(b), ZERO, ZERO);
    lemma_magnitude_zero(sum(a, b));
    lemma_magnitude_zero(difference(a, b));
}

/// A vector of zeros has no length.
proof fn lemma_zero_length(a: Vec3)
    requires
        is_finite(a.x),
        is_finite(a.y),
        is_finite(a.z),
        value(a.x) == 0,
        value(a.y) == 0,
        value(a.z) == 0,
    ensures
        value(length(a)) == 0,
{
    lemma_product_zero(a.x, a.x);
    lemma_product_zero(a.y, a.y);
    lemma_product_zero(a.z, a.z);
    lemma_sum_zero(product(a.x, a.x), product(a.y, a.y));
    lemma_sum_zero(sum(product(a.x, a.x), product(a.y, a.y)), product(a.z, a.z));
}

/// A component divided by a length that overflowed.
proof fn lemma_over_infinity(a: Scalar, k: Scalar)
    requires
        !is_nan(a),
        is_infinite(k),
    ensures
        is_nan(quotient(a, k)) || is_finite(quotient(a, k)) && value(quotient(a, k)) == 0,
{
    lemma_magnitude_zero(quotient(a, k));
    lemma_magnitude_zero(ZERO);
}

/// A movement between finite places is a number, if perhaps not a finite one.
proof fn lemma_movement_is_number(now: Scalar, before: Scalar)
    requires
        is_finite(now),
        is_finite(before),
    ensures
        !is_nan(difference(now, before)),
{
    lemma_opposite(before);
    let t = value(now) + value(opposite(before));
    lemma_rounded_nearest(size(t), 1);
}

/// A movement that overflows does not roll the ball.
#[verifier::rlimit(30)]
pub proof fn lemma_overflow_does_not_roll(state: WaterState)
    requires
        is_finite(state.ball_center.x),
        is_finite(state.ball_center.z),
        is_finite(state.ball_previous_center.x),
        is_finite(state.ball_previous_center.z),
        is_infinite(length(state.floor_movement())),
    ensures
        !state.rolls(),
{
    lemma_limit_values();
    let (now, before) = (state.ball_center, state.ball_previous_center);
    lemma_one_is_neutral(now.x);
    lemma_one_is_neutral(now.z);
    lemma_one_is_neutral(before.x);
    lemma_one_is_neutral(before.z);
    lemma_movement_is_number(now.x, before.x);
    lemma_movement_is_number(now.z, before.z);
    let movement = state.floor_movement();
    let distance = length(movement);
    lemma_over_infinity(movement.x, distance);
    lemma_over_infinity(movement.y, distance);
    lemma_over_infinity(movement.z, distance);
    let way = vector_unscaled(movement, distance);
    let axis = state.roll_axis();
    if is_nan(way.x) {
        assert(axis.y == NAN);
        assert(inner(axis, axis) == NAN);
    } else if is_nan(way.z) {
        assert(axis.x == NAN);
        assert(inner(axis, axis) == NAN);
    } else {
        lemma_product_zero(ONE, way.z);
        lemma_product_zero(ZERO, way.y);
        lemma_product_zero(ZERO, way.x);
        lemma_product_zero(ZERO, way.z);
        lemma_product_zero(ONE, way.x);
        lemma_sum_zero(product(ONE, way.z), product(ZERO, way.y));
        lemma_sum_zero(product(ZERO, way.x), product(ZERO, way.z));
        lemma_sum_zero(product(ZERO, way.y), product(ONE, way.x));
        lemma_zero_length(axis);
        lemma_magnitude_zero(SHORT);
    }
}

/// The axis that the ball rolls around has length 1.
#[verifier::rlimit(30)]
pub proof fn lemma_rolling_axis(state: WaterState)
    requires
        is_finite(state.ball_center.x),
        is_finite(state.ball_center.z),
        is_finite(state.ball_previous_center.x),
        is_finite(state.ball_previous_center.z),
        state.rolls(),
    ensures
        is_unit(pure(direction(state.roll_axis()))),
{
    lemma_tiny();
    lemma_limit_values();
    lemma2_to64();
    let movement = state.floor_movement();
    let distance = length(movement);
    if is_infinite(distance) {
        lemma_overflow_does_not_roll(state);
    }
    lemma_magnitude_zero(SHORT);
    lemma_spread_order(TINY as int, SHORT as int);
    lemma_long_vector(movement);
    let way = vector_unscaled(movement, distance);
    lemma_near_components(pure(way), UNIT_PARTS as int);
    let up = Vec3 { x: ZERO, y: ONE, z: ZERO };
    lemma_power(0);
    lemma_product_within(up.y, way.z, 0, 1);
    lemma_product_within(up.z, way.y, 0, 1);
    lemma_product_within(up.z, way.x, 0, 1);
    lemma_product_within(up.x, way.z, 0, 1);
    lemma_product_within(up.x, way.y, 0, 1);
    lemma_product_within(up.y, way.x, 0, 1);
    lemma_difference_within(product(up.y, way.z), product(up.z, way.y), 1);
    lemma_difference_within(product(up.z, way.x), product(up.x, way.z), 1);
    lemma_difference_within(product(up.x, way.y), product(up.y, way.x), 1);
    let axis = state.roll_axis();
    lemma_inner_within(axis, axis, 2, 2);
    lemma_within_more(inner(axis, axis), 6, 60);
    lemma_root_finite(inner(axis, axis), length(axis));
    lemma_long_vector(axis);
}

/// The root of a finite number is finite where it is above zero.
proof fn lemma_root_finite(a: Scalar, r: Scalar)
    requires
        within(a, 60),
        r == root(a),
        less(SHORT, r),
    ensures
        is_finite(r),
{
    lemma_limit_values();
    lemma_magnitude_zero(a);
    lemma_magnitude_zero(r);
    lemma_magnitude_zero(SHORT);
    lemma_power(60);
    lemma_power(30);
    lemma_pow2_adds(30, 30);
    let (x, u, p) = (value(a) * unit(), unit(), pow2(30) as int);
    if value(a) > 0 {
        assert(x >= 0 && x <= (p * u) * (p * u)) by (nonlinear_arith)
            requires
                x == value(a) * u,
                0 < value(a) <= pow2(60) * u,
                pow2(60) == p * p,
                u > 0,
        ;
        lemma_spread_at(0, 0);
        lemma2_to64();
        assert(spread(0) * spread(0) == 0) by (nonlinear_arith)
            requires
                spread(0) == 0,
        ;
        lemma_rounded_root_between(x, 0, power(30) as int);
    }
}

/// The first rotation of the ball is a unit quaternion.
pub proof fn lemma_first_rotation()
    ensures
        is_unit(Vec4 { x: ZERO, y: ZERO, z: ZERO, w: ONE }),
{
    lemma_limit_values();
    assert(value(ZERO) * value(ZERO) == 0) by (nonlinear_arith)
        requires
            value(ZERO) == 0,
    ;
    lemma_square_nonnegative(unit());
}

/// Turning the ball keeps its rotation a unit quaternion, up to the same 64 units of
/// rounding however often it is turned, wherever the ball is and was: the numbers that it
/// is turned by are the sine and the cosine of some angle. A movement that overflows turns
/// the ball no further.
pub proof fn lemma_rotation_stays_unit(state: WaterState, spin: SineCosine, roll: SineCosine)
    requires
        is_unit(state.ball_rotation),
        is_finite(state.ball_center.x),
        is_finite(state.ball_center.z),
        is_finite(state.ball_previous_center.x),
        is_finite(state.ball_previous_center.z),
        on_circle(spin),
        state.rolls() ==> on_circle(roll),
    ensures
        is_unit(state.turned(spin, roll)),
{
    lemma_spin_axis();
    lemma_turn_near(spin_axis(), spin);
    let first = turn(spin_axis(), spin);
    lemma_nearer(first, 64, 16);
    lemma_nearer(state.ball_rotation, UNIT_PARTS as int, 64);
    lemma_nearer(state.ball_rotation, UNIT_PARTS as int, 16);
    lemma_product_near(first, state.ball_rotation);
    let spun = quaternion_product(first, state.ball_rotation);
    if state.rolls() {
        let axis = vector_unscaled(state.roll_axis(), length(state.roll_axis()));
        lemma_rolling_axis(state);
        assert(axis == direction(state.roll_axis()));
        lemma_unit_again(axis);
        lemma_turn_near(axis, roll);
        lemma_nearer(turn(axis, roll), 64, 16);
        lemma_product_near(turn(axis, roll), spun);
        let rolled = quaternion_product(turn(axis, roll), spun);
        lemma_near_not_tiny(rolled, 4);
        lemma_quaternion_direction_is_unit(rolled);
    } else {
        lemma_nearer(spun, 16, 4);
        lemma_near_not_tiny(spun, 4);
        lemma_quaternion_direction_is_unit(spun);
    }
}

/// What is near is nearer than what is less near.
pub proof fn lemma_nearer(q: Vec4, parts: int, fewer: int)
    requires
        near_unit(q, parts),
        0 < fewer <= parts,
    ensures
        near_unit(q, fewer),
{
    let (e, w) = (size(squares(q) - unit() * unit()), unit() * unit());
    assert(e * fewer <= w) by (nonlinear_arith)
        requires
            e * parts <= w,
            0 < fewer <= parts,
            e >= 0,
    ;
}

} // verus!
