//! Laws of the arithmetic: what the results of the operations lie between, and
//! where they are exact.

use crate::arithmetic::{
    is_infinite, negative, product, quotient, signed, size, sum, unit, UNIT_EXPONENT,
};
use crate::rounding::{
    lemma_rounded_exact, lemma_rounded_nearest, lemma_rounded_order, lemma_spread_at, rounded,
    twice_midpoint,
};
use crate::scalar::{
    at_most, is_nan, lemma_magnitude_zero, lemma_spread_order, magnitude, spread, unsigned, value,
    Scalar, FRACTION_LIMIT, INFINITY, ONE,
};
use vstd::arithmetic::power2::{
    lemma2_to64, lemma_pow2_adds, lemma_pow2_pos, lemma_pow2_unfold, pow2,
};
use vstd::prelude::*;

verus! {

/// Whether a pattern denotes a finite number.
pub open spec fn is_finite(s: Scalar) -> bool {
    unsigned(s) < INFINITY
}

/// A larger unsigned pattern does not denote less.
proof fn lemma_spread_at_most(u: int, v: int)
    requires
        0 <= u <= v,
    ensures
        0 <= spread(u) <= spread(v),
{
    lemma_spread_order(u, v + 1);
    if u < v {
        lemma_spread_order(u, v);
    }
}

/// A rounded magnitude is at most the scalar that the exact one is at most.
proof fn lemma_rounded_at_most(num: int, den: int, bound: Scalar)
    requires
        den > 0,
        0 <= num <= den * magnitude(bound),
        !is_nan(bound),
    ensures
        0 <= rounded(num, den) <= unsigned(bound),
        0 <= spread(rounded(num, den)) <= magnitude(bound),
{
    let (m, u) = (magnitude(bound), unsigned(bound));
    assert(u <= INFINITY);
    lemma_rounded_exact(den * m, den, u);
    assert(num * den <= (den * m) * den) by (nonlinear_arith)
        requires
            den > 0,
            num <= den * m,
    ;
    lemma_rounded_order(num, den, den * m, den);
    lemma_rounded_nearest(num, den);
    lemma_spread_at_most(rounded(num, den), u);
}

/// A rounded magnitude is at least the scalar that the exact one is at least.
proof fn lemma_rounded_at_least(num: int, den: int, bound: Scalar)
    requires
        den > 0,
        den * magnitude(bound) <= num,
        !is_nan(bound),
    ensures
        unsigned(bound) <= rounded(num, den) <= INFINITY,
        magnitude(bound) <= spread(rounded(num, den)),
{
    let (m, u) = (magnitude(bound), unsigned(bound));
    assert(u <= INFINITY);
    lemma_rounded_exact(den * m, den, u);
    assert((den * m) * den <= num * den) by (nonlinear_arith)
        requires
            den > 0,
            den * m <= num,
    ;
    lemma_rounded_order(den * m, den, num, den);
    lemma_rounded_nearest(num, den);
    lemma_spread_at_most(u, rounded(num, den));
}

/// A scalar rounded from an exact result lies between the scalars that the exact
/// result lies between.
pub proof fn lemma_rounded_between(minus: bool, num: int, den: int, low: Scalar, high: Scalar)
    requires
        den > 0,
        num >= 0,
        !is_nan(low),
        !is_nan(high),
        den * value(low) <= (if minus { -num } else { num }) <= den * value(high),
    ensures
        !is_nan(signed(minus, rounded(num, den))),
        value(low) <= value(signed(minus, rounded(num, den))) <= value(high),
{
    let r = signed(minus, rounded(num, den));
    lemma_rounded_nearest(num, den);
    assert(unsigned(r) == rounded(num, den));
    lemma_magnitude_zero(low);
    lemma_magnitude_zero(high);
    lemma_magnitude_zero(r);
    let (l, h) = (value(low), value(high));
    if minus {
        assert(l <= 0) by (nonlinear_arith)
            requires
                den > 0,
                num >= 0,
                den * l <= -num,
        ;
        assert(den * (-l) == -(den * l)) by (nonlinear_arith);
        lemma_rounded_at_most(num, den, low);
        if h < 0 {
            assert(den * (-h) == -(den * h)) by (nonlinear_arith);
            lemma_rounded_at_least(num, den, high);
        }
    } else {
        assert(h >= 0) by (nonlinear_arith)
            requires
                den > 0,
                num >= 0,
                num <= den * h,
        ;
        lemma_rounded_at_most(num, den, high);
        if l > 0 {
            lemma_rounded_at_least(num, den, low);
        }
    }
}

/// A sum lies between the scalars that the exact sum lies between.
pub proof fn lemma_sum_between(a: Scalar, b: Scalar, low: Scalar, high: Scalar)
    requires
        is_finite(a),
        is_finite(b),
        !is_nan(low),
        !is_nan(high),
        value(low) <= value(a) + value(b) <= value(high),
    ensures
        at_most(low, sum(a, b)),
        at_most(sum(a, b), high),
{
    let t = value(a) + value(b);
    if t == 0 {
        lemma_magnitude_zero(sum(a, b));
    } else {
        lemma_rounded_between(t < 0, size(t), 1, low, high);
    }
}

/// A product lies between the scalars that the exact product lies between.
pub proof fn lemma_product_between(a: Scalar, b: Scalar, low: Scalar, high: Scalar)
    requires
        is_finite(a),
        is_finite(b),
        !is_nan(low),
        !is_nan(high),
        unit() * value(low) <= value(a) * value(b) <= unit() * value(high),
    ensures
        at_most(low, product(a, b)),
        at_most(product(a, b), high),
{
    lemma_magnitude_zero(a);
    lemma_magnitude_zero(b);
    lemma_pow2_pos(UNIT_EXPONENT as nat);
    let (x, y) = (magnitude(a), magnitude(b));
    assert(x * y >= 0) by (nonlinear_arith)
        requires
            x >= 0,
            y >= 0,
    ;
    assert((-x) * y == -(x * y)) by (nonlinear_arith);
    assert(x * (-y) == -(x * y)) by (nonlinear_arith);
    assert((-x) * (-y) == x * y) by (nonlinear_arith);
    lemma_rounded_between(negative(a) != negative(b), x * y, unit(), low, high);
}

/// A quotient lies between the scalars that the exact quotient lies between.
pub proof fn lemma_quotient_between(a: Scalar, b: Scalar, low: Scalar, high: Scalar)
    requires
        is_finite(a),
        is_finite(b),
        !is_nan(low),
        !is_nan(high),
        value(b) > 0,
        value(b) * value(low) <= value(a) * unit() <= value(b) * value(high),
    ensures
        at_most(low, quotient(a, b)),
        at_most(quotient(a, b), high),
{
    lemma_magnitude_zero(a);
    lemma_magnitude_zero(b);
    lemma_pow2_pos(UNIT_EXPONENT as nat);
    let x = magnitude(a);
    assert(x * unit() >= 0) by (nonlinear_arith)
        requires
            x >= 0,
            unit() > 0,
    ;
    assert((-x) * unit() == -(x * unit())) by (nonlinear_arith);
    lemma_rounded_between(negative(a) != negative(b), x * unit(), magnitude(b), low, high);
}

/// A quotient of positive numbers is at least the scalar that the exact one is at least.
pub proof fn lemma_quotient_at_least(a: Scalar, b: Scalar, low: Scalar)
    requires
        is_finite(a),
        is_finite(b),
        !is_nan(low),
        value(a) > 0,
        value(b) > 0,
        value(low) >= 0,
        value(b) * value(low) <= value(a) * unit(),
    ensures
        at_most(low, quotient(a, b)),
{
    lemma_magnitude_zero(a);
    lemma_magnitude_zero(b);
    lemma_magnitude_zero(low);
    lemma_rounded_at_least(magnitude(a) * unit(), magnitude(b), low);
}

/// The value of a rounded magnitude under a sign.
proof fn lemma_signed_value(minus: bool, num: int, den: int)
    requires
        den > 0,
    ensures
        !is_nan(signed(minus, rounded(num, den))),
        value(signed(minus, rounded(num, den))) == (if minus {
            -spread(rounded(num, den))
        } else {
            spread(rounded(num, den))
        }),
        spread(rounded(num, den)) >= 0,
{
    lemma_rounded_nearest(num, den);
    let r = signed(minus, rounded(num, den));
    assert(unsigned(r) == rounded(num, den));
    lemma_magnitude_zero(r);
}

/// Adding the same number keeps the order.
pub proof fn lemma_sum_order(a: Scalar, b: Scalar, c: Scalar)
    requires
        is_finite(a),
        is_finite(b),
        is_finite(c),
        value(a) <= value(b),
    ensures
        at_most(sum(a, c), sum(b, c)),
{
    let (s, t) = (value(a) + value(c), value(b) + value(c));
    lemma_magnitude_zero(sum(a, c));
    lemma_magnitude_zero(sum(b, c));
    lemma_signed_value(s < 0, size(s), 1);
    lemma_signed_value(t < 0, size(t), 1);
    lemma_rounded_nearest(size(s), 1);
    lemma_rounded_nearest(size(t), 1);
    if s > 0 {
        lemma_rounded_order(size(s), 1, size(t), 1);
        lemma_spread_at_most(rounded(size(s), 1), rounded(size(t), 1));
    } else if t < 0 {
        lemma_rounded_order(size(t), 1, size(s), 1);
        lemma_spread_at_most(rounded(size(t), 1), rounded(size(s), 1));
    }
}

/// Multiplying by the same number, not below zero, keeps the order of such numbers.
pub proof fn lemma_product_order(a: Scalar, b: Scalar, c: Scalar)
    requires
        is_finite(a),
        is_finite(b),
        is_finite(c),
        !negative(a),
        !negative(b),
        !negative(c),
        value(a) <= value(b),
    ensures
        at_most(product(a, c), product(b, c)),
        !negative(product(a, c)),
{
    lemma_one();
    let (x, y, z) = (magnitude(a), magnitude(b), magnitude(c));
    lemma_magnitude_zero(c);
    assert(x * z <= y * z) by (nonlinear_arith)
        requires
            x <= y,
            z >= 0,
    ;
    assert((x * z) * unit() <= (y * z) * unit()) by (nonlinear_arith)
        requires
            x * z <= y * z,
            unit() > 0,
    ;
    lemma_signed_value(false, x * z, unit());
    lemma_signed_value(false, y * z, unit());
    lemma_rounded_order(x * z, unit(), y * z, unit());
    lemma_rounded_nearest(x * z, unit());
    lemma_spread_at_most(rounded(x * z, unit()), rounded(y * z, unit()));
}

/// Dividing by the same number, above zero, keeps the order of numbers not below zero.
pub proof fn lemma_quotient_order(a: Scalar, b: Scalar, c: Scalar)
    requires
        is_finite(a),
        is_finite(b),
        is_finite(c),
        !negative(a),
        !negative(b),
        value(c) > 0,
        value(a) <= value(b),
    ensures
        at_most(quotient(a, c), quotient(b, c)),
        !negative(quotient(a, c)),
{
    lemma_one();
    let (x, y, z) = (magnitude(a), magnitude(b), magnitude(c));
    lemma_magnitude_zero(c);
    assert((x * unit()) * z <= (y * unit()) * z) by (nonlinear_arith)
        requires
            x <= y,
            z >= 0,
            unit() > 0,
    ;
    lemma_signed_value(false, x * unit(), z);
    lemma_signed_value(false, y * unit(), z);
    lemma_rounded_order(x * unit(), z, y * unit(), z);
    lemma_rounded_nearest(x * unit(), z);
    lemma_spread_at_most(rounded(x * unit(), z), rounded(y * unit(), z));
}

/// A significand `m` at the scale `e`, written over the unit.
pub proof fn lemma_dyadic(m: int, e: nat, shift: nat)
    requires
        FRACTION_LIMIT <= m < 2 * FRACTION_LIMIT,
        0 < e,
        e + shift == 149,
    ensures
        spread(e * FRACTION_LIMIT + m) * pow2(shift) == m * unit(),
        unit() > 0,
{
    lemma_spread_at(m, e as int);
    lemma_pow2_adds(e, shift);
    lemma_pow2_pos(149);
    let (p, q) = (pow2(e) as int, pow2(shift) as int);
    assert((m * p) * q == m * (p * q)) by (nonlinear_arith);
}

/// 1.0 denotes the unit.
pub proof fn lemma_one()
    ensures
        value(ONE) == unit(),
        unit() > 0,
{
    lemma2_to64();
    lemma_dyadic(0x80_0000, 126, 23);
}

/// A sum that a finite number other than zero denotes is that number.
pub proof fn lemma_sum_exact(a: Scalar, b: Scalar, c: Scalar)
    requires
        is_finite(a),
        is_finite(b),
        is_finite(c),
        value(a) + value(b) == value(c),
        value(c) != 0,
    ensures
        sum(a, b) == c,
{
    lemma_magnitude_zero(c);
    lemma_rounded_exact(magnitude(c), 1, unsigned(c));
}

/// A product that a finite number other than zero denotes is that number.
pub proof fn lemma_product_exact(a: Scalar, b: Scalar, c: Scalar)
    requires
        is_finite(a),
        is_finite(b),
        is_finite(c),
        value(a) * value(b) == unit() * value(c),
        value(c) != 0,
    ensures
        product(a, b) == c,
{
    lemma_one();
    lemma_magnitude_zero(a);
    lemma_magnitude_zero(b);
    lemma_magnitude_zero(c);
    let (x, y, z) = (magnitude(a), magnitude(b), magnitude(c));
    assert((-x) * y == -(x * y)) by (nonlinear_arith);
    assert(x * (-y) == -(x * y)) by (nonlinear_arith);
    assert((-x) * (-y) == x * y) by (nonlinear_arith);
    assert(unit() * (-z) == -(unit() * z)) by (nonlinear_arith);
    assert(x * y >= 0 && unit() * z > 0) by (nonlinear_arith)
        requires
            x >= 0,
            y >= 0,
            z > 0,
            unit() > 0,
    ;
    lemma_rounded_exact(x * y, unit(), unsigned(c));
}

/// The step from a pattern to the next is one unit, or at most a part in
/// `FRACTION_LIMIT` of what the pattern denotes; the step before is no larger.
pub proof fn lemma_gap(u: int)
    requires
        u >= 0,
    ensures
        spread(u) < spread(u + 1),
        spread(u + 1) - spread(u) == 1 || (spread(u + 1) - spread(u)) * FRACTION_LIMIT <= spread(u),
        u > 0 ==> spread(u) - spread(u - 1) <= spread(u + 1) - spread(u),
{
    let limit = FRACTION_LIMIT as int;
    lemma_spread_order(u, u + 1);
    lemma2_to64();
    if u < limit {
        let p = pow2(0) as int;
        lemma_spread_at(u, 0);
        lemma_spread_at(u + 1, 0);
        assert(u * p == u && (u + 1) * p == u + 1 && (u - 1) * p == u - 1) by (nonlinear_arith)
            requires
                p == 1,
        ;
        if u > 0 {
            lemma_spread_at(u - 1, 0);
        }
    } else {
        let e = u / limit - 1;
        let m = limit + u % limit;
        let p = pow2(e as nat) as int;
        lemma_pow2_pos(e as nat);
        assert(u == e * limit + m);
        lemma_spread_at(m, e);
        lemma_spread_at(m + 1, e);
        assert((m + 1) * p == m * p + p) by (nonlinear_arith);
        assert(p * limit <= m * p) by (nonlinear_arith)
            requires
                limit <= m,
                p > 0,
        ;
        if m > limit || e == 0 {
            lemma_spread_at(m - 1, e);
            assert((m - 1) * p == m * p - p) by (nonlinear_arith);
        } else {
            let h = pow2((e - 1) as nat) as int;
            lemma_pow2_unfold(e as nat);
            lemma_pow2_pos((e - 1) as nat);
            lemma_spread_at(2 * limit - 1, e - 1);
            assert(u - 1 == (e - 1) * limit + (2 * limit - 1)) by (nonlinear_arith)
                requires
                    u == e * limit + limit,
            ;
            assert((2 * limit - 1) * h == limit * p - h) by (nonlinear_arith)
                requires
                    p == 2 * h,
            ;
        }
    }
}

/// Rounding a ratio moves it by at most a part in `2 * FRACTION_LIMIT`, or by half a unit
/// where the result is too small for that.
pub proof fn lemma_ratio_error(num: int, den: int)
    requires
        num >= 0,
        den > 0,
        rounded(num, den) < INFINITY,
    ensures
        size(spread(rounded(num, den)) * den - num) * (2 * FRACTION_LIMIT) <= den * (spread(rounded(num, den))
            + FRACTION_LIMIT),
        spread(rounded(num, den)) >= 0,
{
    lemma_rounded_nearest(num, den);
    let u = rounded(num, den);
    let (s, gap, limit) = (spread(u), spread(u + 1) - spread(u), FRACTION_LIMIT as int);
    lemma_gap(u);
    lemma_spread_at_most(0, u);
    if u == 0 {
        lemma_spread_at(0, 0);
        lemma2_to64();
    }
    assert(2 * num <= den * (2 * s + gap));
    assert(2 * num >= den * (2 * s - gap)) by (nonlinear_arith)
        requires
            num >= 0,
            den > 0,
            u == 0 ==> s == 0 && gap >= 0,
            u > 0 ==> den * twice_midpoint(u - 1) <= 2 * num && 2 * s - gap <= twice_midpoint(u - 1),
            u >= 0,
    ;
    let off = s * den - num;
    assert(2 * size(off) <= den * gap) by (nonlinear_arith)
        requires
            off == s * den - num,
            2 * num <= den * (2 * s + gap),
            2 * num >= den * (2 * s - gap),
    ;
    assert(gap * limit <= s + limit);
    assert(size(off) * (2 * limit) <= den * (s + limit)) by (nonlinear_arith)
        requires
            2 * size(off) <= den * gap,
            gap * limit <= s + limit,
            den > 0,
            limit > 0,
    ;
}

/// How far a finite product is off the exact one.
pub proof fn lemma_product_error(a: Scalar, b: Scalar)
    requires
        is_finite(a),
        is_finite(b),
        is_finite(product(a, b)),
    ensures
        size(value(product(a, b)) * unit() - value(a) * value(b)) * (2 * FRACTION_LIMIT) <= unit() * (size(
            value(product(a, b)),
        ) + FRACTION_LIMIT),
{
    lemma_one();
    lemma_magnitude_zero(a);
    lemma_magnitude_zero(b);
    let (x, y) = (magnitude(a), magnitude(b));
    assert(x * y >= 0) by (nonlinear_arith)
        requires
            x >= 0,
            y >= 0,
    ;
    let minus = negative(a) != negative(b);
    lemma_rounded_nearest(x * y, unit());
    assert(unsigned(product(a, b)) == rounded(x * y, unit()));
    lemma_ratio_error(x * y, unit());
    lemma_signed_value(minus, x * y, unit());
    let s = spread(rounded(x * y, unit()));
    assert((-x) * y == -(x * y)) by (nonlinear_arith);
    assert(x * (-y) == -(x * y)) by (nonlinear_arith);
    assert((-x) * (-y) == x * y) by (nonlinear_arith);
    assert((-s) * unit() == -(s * unit())) by (nonlinear_arith);
}

/// How far a finite quotient by a positive number is off the exact one.
pub proof fn lemma_quotient_error(a: Scalar, b: Scalar)
    requires
        is_finite(a),
        is_finite(b),
        value(b) > 0,
        is_finite(quotient(a, b)),
    ensures
        size(value(quotient(a, b)) * value(b) - value(a) * unit()) * (2 * FRACTION_LIMIT) <= value(b) * (size(
            value(quotient(a, b)),
        ) + FRACTION_LIMIT),
{
    lemma_one();
    lemma_magnitude_zero(a);
    lemma_magnitude_zero(b);
    let (x, d) = (magnitude(a), magnitude(b));
    assert(x * unit() >= 0) by (nonlinear_arith)
        requires
            x >= 0,
            unit() > 0,
    ;
    lemma_rounded_nearest(x * unit(), d);
    assert(unsigned(quotient(a, b)) == rounded(x * unit(), d));
    lemma_ratio_error(x * unit(), d);
    lemma_signed_value(negative(a) != negative(b), x * unit(), d);
    let s = spread(rounded(x * unit(), d));
    assert((-x) * unit() == -(x * unit())) by (nonlinear_arith);
    assert((-s) * d == -(s * d)) by (nonlinear_arith);
}

/// Rounding a whole number of units moves it by at most a part in `2 * FRACTION_LIMIT`.
pub proof fn lemma_rounding_error(n: int)
    requires
        n >= 0,
        rounded(n, 1) < INFINITY,
    ensures
        size(spread(rounded(n, 1)) - n) * (2 * FRACTION_LIMIT) <= spread(rounded(n, 1)),
{
    lemma_rounded_nearest(n, 1);
    let u = rounded(n, 1);
    let gap = spread(u + 1) - spread(u);
    let off = size(spread(u) - n);
    lemma_gap(u);
    if u == 0 {
        lemma_spread_at(0, 0);
        lemma2_to64();
    }
    lemma_spread_at_most(0, u);
    assert(2 * off <= gap);
    if gap != 1 {
        assert(off * (2 * FRACTION_LIMIT) <= gap * FRACTION_LIMIT) by (nonlinear_arith)
            requires
                2 * off <= gap,
        ;
    }
}

/// A finite sum is off the exact one by at most a part in `2 * FRACTION_LIMIT`.
pub proof fn lemma_sum_error(a: Scalar, b: Scalar)
    requires
        is_finite(a),
        is_finite(b),
        is_finite(sum(a, b)),
    ensures
        size(value(sum(a, b)) - (value(a) + value(b))) * (2 * FRACTION_LIMIT) <= size(value(sum(a, b))),
{
    let t = value(a) + value(b);
    lemma_magnitude_zero(sum(a, b));
    if t != 0 {
        lemma_signed_value(t < 0, size(t), 1);
        lemma_rounded_nearest(size(t), 1);
        lemma_rounding_error(size(t));
    }
}

/// The order of the summands does not matter.
pub proof fn lemma_sum_commutes(a: Scalar, b: Scalar)
    ensures
        sum(a, b) == sum(b, a),
{
}

/// The order of the factors does not matter.
pub proof fn lemma_product_commutes(a: Scalar, b: Scalar)
    ensures
        product(a, b) == product(b, a),
{
    let (x, y) = (magnitude(a), magnitude(b));
    assert(x * y == y * x) by (nonlinear_arith);
}

/// Dividing by 1.0, and multiplying by it, changes no number.
pub proof fn lemma_one_is_neutral(a: Scalar)
    requires
        !is_nan(a),
    ensures
        quotient(a, ONE) == a,
        product(a, ONE) == a,
{
    lemma_one();
    lemma_magnitude_zero(a);
    if !is_infinite(a) {
        let x = magnitude(a);
        assert(x * unit() == unit() * x) by (nonlinear_arith);
        lemma_rounded_exact(x * unit(), unit(), unsigned(a));
    }
}

} // verus!
