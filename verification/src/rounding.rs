//! Rounding exact results to the nearest binary32 number.
//!
//! An exact result is handed over as a whole number of some power of two, with a
//! mark for whether anything was cut off below. What comes back is the unsigned
//! pattern of the nearest number; of two that are equally near, the even one.

use crate::scalar::{lemma_spread_order, spread, FRACTION_LIMIT, INFINITY};
use vstd::arithmetic::div_mod::{lemma_fundamental_div_mod, lemma_fundamental_div_mod_converse};
use vstd::arithmetic::power2::{
    lemma2_to64, lemma2_to64_rest, lemma_pow2_adds, lemma_pow2_pos, lemma_pow2_strictly_increases,
    lemma_pow2_unfold, pow2,
};
use vstd::prelude::*;

verus! {

/// Twice the number halfway between the unsigned pattern `u` and the next one.
pub open spec fn twice_midpoint(u: int) -> int {
    spread(u) + spread(u + 1)
}

/// Whether `u` is the unsigned pattern nearest to `num / den`, ties going to the
/// even pattern. Infinity takes what is nearer to it than to the largest finite
/// number, and everything beyond.
pub open spec fn nearest(num: int, den: int, u: int) -> bool {
    &&& 0 <= u <= INFINITY
    &&& u > 0 ==> den * twice_midpoint(u - 1) < 2 * num || (den * twice_midpoint(u - 1) == 2 * num && u
        % 2 == 0)
    &&& u < INFINITY ==> 2 * num < den * twice_midpoint(u) || (2 * num == den * twice_midpoint(u) && u
        % 2 == 0)
}

/// Whether `u` is the unsigned pattern nearest to the square root of `x`, ties
/// going to the even pattern.
pub open spec fn nearest_root(x: int, u: int) -> bool {
    &&& 0 <= u <= INFINITY
    &&& u > 0 ==> twice_midpoint(u - 1) * twice_midpoint(u - 1) < 4 * x || (twice_midpoint(u - 1)
        * twice_midpoint(u - 1) == 4 * x && u % 2 == 0)
    &&& u < INFINITY ==> 4 * x < twice_midpoint(u) * twice_midpoint(u) || (4 * x == twice_midpoint(u)
        * twice_midpoint(u) && u % 2 == 0)
}

/// The unsigned pattern nearest to `num / den`.
#[verifier::opaque]
pub open spec fn rounded(num: int, den: int) -> int {
    choose|u: int| nearest(num, den, u)
}

/// The unsigned pattern nearest to the square root of `x`.
#[verifier::opaque]
pub open spec fn rounded_root(x: int) -> int {
    choose|u: int| nearest_root(x, u)
}

/// Midpoints grow with the pattern.
pub proof fn lemma_midpoint_order(u: int, v: int)
    requires
        0 <= u <= v,
    ensures
        0 < twice_midpoint(u) <= twice_midpoint(v),
        u < v ==> twice_midpoint(u) < twice_midpoint(v),
{
    lemma_spread_order(u, u + 1);
    if u < v {
        lemma_spread_order(u, v);
        lemma_spread_order(u + 1, v + 1);
    }
}

/// At most one pattern is nearest to a ratio.
proof fn lemma_nearest_below(num: int, den: int, u: int, v: int)
    requires
        den > 0,
        nearest(num, den, u),
        nearest(num, den, v),
    ensures
        u >= v,
{
    if u < v {
        lemma_midpoint_order(u, v - 1);
        let (a, b) = (twice_midpoint(u), twice_midpoint(v - 1));
        assert(den * a <= den * b && (a < b ==> den * a < den * b)) by (nonlinear_arith)
            requires
                den > 0,
                a <= b,
        ;
    }
}

/// The pattern nearest to a ratio is the one that `rounded` names.
pub proof fn lemma_rounded(num: int, den: int, u: int)
    requires
        den > 0,
        nearest(num, den, u),
    ensures
        rounded(num, den) == u,
{
    reveal(rounded);
    let v = rounded(num, den);
    assert(nearest(num, den, v));
    lemma_nearest_below(num, den, u, v);
    lemma_nearest_below(num, den, v, u);
}

/// Some pattern is nearest to a ratio: it is found by going up from a pattern that
/// is not too high.
proof fn lemma_nearest_from(num: int, den: int, u: int)
    requires
        den > 0,
        0 <= u <= INFINITY,
        u > 0 ==> den * twice_midpoint(u - 1) < 2 * num || (den * twice_midpoint(u - 1) == 2 * num && u
            % 2 == 0),
    ensures
        exists|v: int| nearest(num, den, v),
    decreases INFINITY - u,
{
    if u == INFINITY || 2 * num < den * twice_midpoint(u) || (2 * num == den * twice_midpoint(u) && u
        % 2 == 0) {
        assert(nearest(num, den, u));
    } else {
        lemma_nearest_from(num, den, u + 1);
    }
}

/// What `rounded` names is nearest to the ratio.
pub proof fn lemma_rounded_nearest(num: int, den: int)
    requires
        den > 0,
    ensures
        nearest(num, den, rounded(num, den)),
{
    reveal(rounded);
    lemma_nearest_from(num, den, 0);
}

/// Rounding keeps the order: the larger ratio is not rounded to a smaller number.
pub proof fn lemma_rounded_order(num: int, den: int, other_num: int, other_den: int)
    requires
        den > 0,
        other_den > 0,
        num * other_den <= other_num * den,
    ensures
        rounded(num, den) <= rounded(other_num, other_den),
{
    let u = rounded(num, den);
    let v = rounded(other_num, other_den);
    lemma_rounded_nearest(num, den);
    lemma_rounded_nearest(other_num, other_den);
    if v < u {
        lemma_midpoint_order(v, u - 1);
        let (low, high) = (twice_midpoint(v), twice_midpoint(u - 1));
        assert(den * high <= 2 * num);
        assert(2 * other_num <= other_den * low);
        assert(low == high && den * high == 2 * num && 2 * other_num == other_den * low)
            by (nonlinear_arith)
            requires
                den > 0,
                other_den > 0,
                low <= high,
                den * high <= 2 * num,
                2 * other_num <= other_den * low,
                num * other_den <= other_num * den,
        ;
    }
}

/// A ratio that a pattern denotes is rounded to that pattern.
pub proof fn lemma_rounded_exact(num: int, den: int, u: int)
    requires
        den > 0,
        0 <= u <= INFINITY,
        num == den * spread(u),
    ensures
        rounded(num, den) == u,
{
    let w = spread(u);
    if u > 0 {
        lemma_spread_order(u - 1, u);
        assert(den * twice_midpoint(u - 1) < 2 * (den * w)) by (nonlinear_arith)
            requires
                den > 0,
                twice_midpoint(u - 1) < 2 * w,
        ;
    }
    lemma_spread_order(u, u + 1);
    assert(2 * (den * w) < den * twice_midpoint(u)) by (nonlinear_arith)
        requires
            den > 0,
            2 * w < twice_midpoint(u),
    ;
    assert(nearest(num, den, u));
    lemma_rounded(num, den, u);
}

/// At most one pattern is nearest to a root.
proof fn lemma_nearest_root_below(x: int, u: int, v: int)
    requires
        nearest_root(x, u),
        nearest_root(x, v),
    ensures
        u >= v,
{
    if u < v {
        lemma_midpoint_order(u, v - 1);
        let (a, b) = (twice_midpoint(u), twice_midpoint(v - 1));
        assert(a * a <= b * b && (a < b ==> a * a < b * b)) by (nonlinear_arith)
            requires
                0 <= a <= b,
        ;
    }
}

/// The pattern nearest to a root is the one that `rounded_root` names.
pub proof fn lemma_rounded_root(x: int, u: int)
    requires
        nearest_root(x, u),
    ensures
        rounded_root(x) == u,
{
    reveal(rounded_root);
    let v = rounded_root(x);
    assert(nearest_root(x, v));
    lemma_nearest_root_below(x, u, v);
    lemma_nearest_root_below(x, v, u);
}

/// Some pattern is nearest to a root: it is found by going up from a pattern that is
/// not too high.
proof fn lemma_nearest_root_from(x: int, u: int)
    requires
        0 <= u <= INFINITY,
        u > 0 ==> twice_midpoint(u - 1) * twice_midpoint(u - 1) < 4 * x || (twice_midpoint(u - 1)
            * twice_midpoint(u - 1) == 4 * x && u % 2 == 0),
    ensures
        exists|v: int| nearest_root(x, v),
    decreases INFINITY - u,
{
    let y = twice_midpoint(u);
    if u == INFINITY || 4 * x < y * y || (4 * x == y * y && u % 2 == 0) {
        assert(nearest_root(x, u));
    } else {
        lemma_nearest_root_from(x, u + 1);
    }
}

/// What `rounded_root` names is nearest to the root.
pub proof fn lemma_rounded_root_nearest(x: int)
    ensures
        nearest_root(x, rounded_root(x)),
{
    reveal(rounded_root);
    lemma_nearest_root_from(x, 0);
}

/// A root between the numbers that two patterns denote is rounded to between the two.
pub proof fn lemma_rounded_root_between(x: int, low: int, high: int)
    requires
        0 <= low <= high <= INFINITY,
        spread(low) * spread(low) <= x <= spread(high) * spread(high),
    ensures
        low <= rounded_root(x) <= high,
{
    lemma_rounded_root_nearest(x);
    let u = rounded_root(x);
    if u < low {
        lemma_midpoint_order(u, low - 1);
        lemma_spread_order(low - 1, low);
        let (y, w) = (twice_midpoint(u), spread(low));
        assert(y * y < 4 * (w * w)) by (nonlinear_arith)
            requires
                0 < y < 2 * w,
        ;
    }
    if u > high {
        lemma_midpoint_order(high, u - 1);
        lemma_spread_order(high, high + 1);
        let (y, w) = (twice_midpoint(u - 1), spread(high));
        assert(4 * (w * w) < y * y) by (nonlinear_arith)
            requires
                0 <= 2 * w < y,
        ;
    }
}

/// A significand `m` at the scale `e` has its pattern at `e * 2^23 + m`.
pub proof fn lemma_spread_at(m: int, e: int)
    requires
        0 <= e,
        0 <= m <= 2 * FRACTION_LIMIT,
        e > 0 ==> m >= FRACTION_LIMIT,
    ensures
        spread(e * FRACTION_LIMIT + m) == m * pow2(e as nat),
{
    reveal(spread);
    let limit = FRACTION_LIMIT as int;
    let u = e * limit + m;
    assert(pow2(0) == 1) by {
        lemma2_to64();
    }
    let p = pow2(e as nat) as int;
    if m < limit {
        assert(e == 0);
        assert(u == m && u / limit == 0 && u % limit == m);
        assert(m * p == m) by (nonlinear_arith)
            requires
                p == 1,
        ;
    } else if m < 2 * limit {
        assert(u == (e + 1) * limit + (m - limit));
        lemma_fundamental_div_mod_converse(u, limit, e + 1, m - limit);
    } else {
        assert(u == (e + 2) * limit);
        lemma_fundamental_div_mod_converse(u, limit, e + 2, 0);
        lemma_pow2_unfold((e + 1) as nat);
        assert(limit * (2 * p) == m * p) by (nonlinear_arith)
            requires
                m == 2 * limit,
        ;
    }
}

/// Whether `u` is the pattern to take for an exact result that lies at
/// `n * 2^(e - bias)` when nothing was cut off, and strictly between there and
/// `(n + 1) * 2^(e - bias)` when something was.
pub open spec fn rounds(n: int, e: nat, bias: nat, cut: bool, u: int) -> bool {
    let unit = pow2(e) as int;
    let scale = pow2(bias) as int;
    &&& 0 <= u <= INFINITY
    &&& u > 0 ==> {
        let y = twice_midpoint(u - 1) * scale;
        y < 2 * (n * unit) || (y == 2 * (n * unit) && (cut || u % 2 == 0))
    }
    &&& u < INFINITY ==> {
        let y = twice_midpoint(u) * scale;
        ||| 2 * ((n + 1) * unit) <= y
        ||| !cut && 2 * (n * unit) < y
        ||| !cut && 2 * (n * unit) == y && u % 2 == 0
    }
}

/// The pattern to take for a ratio is the one nearest to it.
pub proof fn lemma_rounds_ratio(n: int, e: nat, bias: nat, cut: bool, num: int, den: int, u: int)
    requires
        den > 0,
        rounds(n, e, bias, cut, u),
        den * (n * pow2(e)) <= num * pow2(bias) < den * ((n + 1) * pow2(e)),
        cut <==> den * (n * pow2(e)) != num * pow2(bias),
    ensures
        nearest(num, den, u),
{
    let unit = pow2(e) as int;
    let scale = pow2(bias) as int;
    lemma_pow2_pos(bias);
    let low = n * unit;
    let high = (n + 1) * unit;
    if u > 0 {
        let y = twice_midpoint(u - 1);
        assert(y * scale < 2 * low ==> den * y < 2 * num) by (nonlinear_arith)
            requires
                den > 0,
                scale > 0,
                den * low <= num * scale,
        ;
        assert(y * scale == 2 * low && cut ==> den * y < 2 * num) by (nonlinear_arith)
            requires
                den > 0,
                scale > 0,
                den * low <= num * scale,
                cut ==> den * low != num * scale,
        ;
        assert(y * scale == 2 * low && !cut ==> den * y == 2 * num) by (nonlinear_arith)
            requires
                den > 0,
                scale > 0,
                !cut ==> den * low == num * scale,
        ;
    }
    if u < INFINITY {
        let y = twice_midpoint(u);
        assert(2 * high <= y * scale ==> 2 * num < den * y) by (nonlinear_arith)
            requires
                den > 0,
                scale > 0,
                num * scale < den * high,
        ;
        assert(2 * low < y * scale && !cut ==> 2 * num < den * y) by (nonlinear_arith)
            requires
                den > 0,
                scale > 0,
                !cut ==> den * low == num * scale,
        ;
        assert(2 * low == y * scale && !cut ==> 2 * num == den * y) by (nonlinear_arith)
            requires
                den > 0,
                scale > 0,
                !cut ==> den * low == num * scale,
        ;
    }
}

/// The pattern to take for a square root is the one nearest to it.
pub proof fn lemma_rounds_root(n: int, e: nat, bias: nat, cut: bool, x: int, u: int)
    requires
        n >= 0,
        rounds(n, e, bias, cut, u),
        (n * pow2(e)) * (n * pow2(e)) <= x * (pow2(bias) * pow2(bias)),
        x * (pow2(bias) * pow2(bias)) < ((n + 1) * pow2(e)) * ((n + 1) * pow2(e)),
        cut <==> (n * pow2(e)) * (n * pow2(e)) != x * (pow2(bias) * pow2(bias)),
    ensures
        nearest_root(x, u),
{
    let unit = pow2(e) as int;
    let scale = pow2(bias) as int;
    lemma_pow2_pos(bias);
    lemma_pow2_pos(e);
    let low = n * unit;
    let high = (n + 1) * unit;
    assert(0 <= low < high) by (nonlinear_arith)
        requires
            n >= 0,
            unit > 0,
            low == n * unit,
            high == (n + 1) * unit,
    ;
    let x2 = x * (scale * scale);
    if u > 0 {
        let y = twice_midpoint(u - 1);
        lemma_midpoint_order(u - 1, u - 1);
        lemma_square_scaled(y, x, scale);
        let z = y * scale;
        assert(0 <= z) by (nonlinear_arith)
            requires
                y > 0,
                scale > 0,
                z == y * scale,
        ;
        assert(z < 2 * low ==> z * z < 4 * x2) by (nonlinear_arith)
            requires
                0 <= z,
                low * low <= x2,
        ;
        assert(z == 2 * low ==> z * z == 4 * (low * low)) by (nonlinear_arith);
    }
    if u < INFINITY {
        let y = twice_midpoint(u);
        lemma_midpoint_order(u, u);
        lemma_square_scaled(y, x, scale);
        let z = y * scale;
        assert(2 * high <= z ==> 4 * x2 < z * z) by (nonlinear_arith)
            requires
                0 <= high,
                x2 < high * high,
        ;
        assert(2 * low < z ==> 4 * (low * low) < z * z) by (nonlinear_arith)
            requires
                0 <= low,
        ;
        assert(z == 2 * low ==> z * z == 4 * (low * low)) by (nonlinear_arith);
    }
}

/// Squares compare as they do when both sides are scaled.
proof fn lemma_square_scaled(y: int, x: int, scale: int)
    requires
        scale > 0,
    ensures
        (y * scale) * (y * scale) < 4 * (x * (scale * scale)) <==> y * y < 4 * x,
        (y * scale) * (y * scale) == 4 * (x * (scale * scale)) <==> y * y == 4 * x,
{
    let q = scale * scale;
    assert(q > 0) by (nonlinear_arith)
        requires
            scale > 0,
            q == scale * scale,
    ;
    assert((y * scale) * (y * scale) == (y * y) * q) by (nonlinear_arith)
        requires
            q == scale * scale,
    ;
    let a = y * y;
    assert(a * q < 4 * (x * q) <==> a < 4 * x) by (nonlinear_arith)
        requires
            q > 0,
    ;
    assert(a * q == 4 * (x * q) <==> a == 4 * x) by (nonlinear_arith)
        requires
            q > 0,
    ;
}

/// Two to the power `k`.
pub fn power_of_two(k: u32) -> (r: u128)
    requires
        k < 128,
    ensures
        r == pow2(k as nat),
        r > 0,
{
    proof {
        lemma2_to64();
        lemma_pow2_adds(64, 64);
        if k < 127 {
            lemma_pow2_strictly_increases(k as nat, 127);
        }
        lemma_pow2_unfold(128);
    }
    let mut r: u128 = 1;
    let mut i: u32 = 0;
    while i < k
        invariant
            i <= k < 128,
            r == pow2(i as nat),
            r > 0,
            pow2(k as nat) <= u128::MAX,
        decreases k - i,
    {
        proof {
            lemma_pow2_unfold((i + 1) as nat);
            if i + 1 < k {
                lemma_pow2_strictly_increases((i + 1) as nat, k as nat);
            }
        }
        r = r * 2;
        i = i + 1;
    }
    r
}

/// How many binary digits a number has.
pub fn bit_length(n: u128) -> (r: u32)
    ensures
        r <= 128,
        n < pow2(r as nat),
        n > 0 ==> r > 0 && pow2((r - 1) as nat) <= n,
        n == 0 ==> r == 0,
{
    proof {
        lemma2_to64();
    }
    let mut r: u32 = 0;
    let mut rest: u128 = n;
    proof {
        assert(pow2(0) == 1);
    }
    while rest > 0
        invariant
            r <= 128,
            rest * pow2(r as nat) <= n < (rest + 1) * pow2(r as nat),
            n <= u128::MAX,
            rest == 0 && n > 0 ==> r > 0 && pow2((r - 1) as nat) <= n,
            n == 0 ==> r == 0,
        decreases rest,
    {
        let ghost p = pow2(r as nat) as int;
        let ghost half = (rest / 2) as int;
        proof {
            lemma_pow2_unfold((r + 1) as nat);
            lemma_pow2_pos(r as nat);
            assert(half * (2 * p) <= n < (half + 1) * (2 * p)) by (nonlinear_arith)
                requires
                    rest * p <= n < (rest + 1) * p,
                    2 * half <= rest <= 2 * half + 1,
                    p > 0,
            ;
            assert(p <= n) by (nonlinear_arith)
                requires
                    rest * p <= n,
                    rest >= 1,
                    p > 0,
            ;
            if r == 128 {
                lemma2_to64();
                lemma_pow2_adds(64, 64);
            }
        }
        rest = rest / 2;
        r = r + 1;
    }
    assert((rest + 1) * pow2(r as nat) == pow2(r as nat)) by (nonlinear_arith)
        requires
            rest == 0,
    ;
    r
}

/// What lies beyond the largest finite number goes to infinity.
proof fn lemma_rounds_capped(n: int, e: nat, bias: nat, cut: bool, u: int)
    requires
        u >= INFINITY,
        ({
            let y = twice_midpoint(u - 1) * pow2(bias);
            y < 2 * (n * pow2(e)) || (y == 2 * (n * pow2(e)) && (cut || u % 2 == 0))
        }),
    ensures
        rounds(n, e, bias, cut, INFINITY as int),
{
    let scale = pow2(bias) as int;
    lemma_pow2_pos(bias);
    lemma_midpoint_order(INFINITY - 1, u - 1);
    let (a, b) = (twice_midpoint(INFINITY - 1), twice_midpoint(u - 1));
    assert(a * scale <= b * scale && (a < b ==> a * scale < b * scale)) by (nonlinear_arith)
        requires
            scale > 0,
            a <= b,
    ;
    assert(INFINITY % 2 == 0);
}

/// The rounding of a significand cut to `m` with the rest `rest` of `2^shift` at
/// the scale `scale_e`.
proof fn lemma_cut_rounds(
    n: int,
    e: nat,
    bias: nat,
    cut: bool,
    m: int,
    rest: int,
    shift: nat,
    scale_e: nat,
    up: bool,
)
    requires
        0 < shift,
        scale_e + bias == shift + e,
        n == m * pow2(shift) + rest,
        0 <= rest < pow2(shift),
        0 <= m < 2 * FRACTION_LIMIT,
        scale_e > 0 ==> m >= FRACTION_LIMIT,
        up <==> (2 * rest > pow2(shift) || (2 * rest == pow2(shift) && (cut || m % 2 == 1))),
    ensures
        ({
            let u = scale_e * FRACTION_LIMIT + m + (if up { 1int } else { 0 });
            let unit = pow2(e) as int;
            let scale = pow2(bias) as int;
            &&& u > 0 ==> {
                let y = twice_midpoint(u - 1) * scale;
                y < 2 * (n * unit) || (y == 2 * (n * unit) && (cut || u % 2 == 0))
            }
            &&& {
                let y = twice_midpoint(u) * scale;
                ||| 2 * ((n + 1) * unit) <= y
                ||| !cut && 2 * (n * unit) < y
                ||| !cut && 2 * (n * unit) == y && u % 2 == 0
            }
        }),
{
    let limit = FRACTION_LIMIT as int;
    let unit = pow2(e) as int;
    let scale = pow2(bias) as int;
    let p = pow2(shift) as int;
    let w = pow2(scale_e) as int;
    let u0 = scale_e * limit + m;
    lemma_pow2_pos(e);
    lemma_pow2_pos(bias);
    lemma_pow2_pos(shift);
    lemma_pow2_pos(scale_e);
    lemma_pow2_adds(scale_e, bias);
    lemma_pow2_adds(shift, e);
    lemma_pow2_unfold(shift);
    let half = pow2((shift - 1) as nat) as int;
    assert(w * scale == p * unit);
    lemma_spread_at(m, scale_e as int);
    lemma_spread_at(m + 1, scale_e as int);
    assert(spread(u0) == m * w);
    assert(spread(u0 + 1) == (m + 1) * w);
    let mid = m * p + half;
    assert(twice_midpoint(u0) * scale == 2 * (mid * unit)) by (nonlinear_arith)
        requires
            twice_midpoint(u0) == m * w + (m + 1) * w,
            w * scale == p * unit,
            p == 2 * half,
            mid == m * p + half,
    ;
    assert(u0 % 2 == m % 2) by {
        assert(u0 == 2 * (scale_e * (limit / 2)) + m) by (nonlinear_arith)
            requires
                u0 == scale_e * limit + m,
                limit == 2 * (limit / 2),
        ;
    }
    if up {
        let u = u0 + 1;
        assert(n >= mid);
        assert(n > mid ==> mid * unit < n * unit) by (nonlinear_arith)
            requires
                unit > 0,
        ;
        assert(twice_midpoint(u) * scale > 2 * ((n + 1) * unit)) by {
            lemma_spread_order(u0 + 1, u0 + 2);
            assert(twice_midpoint(u) * scale > 2 * (((m + 1) * p) * unit)) by (nonlinear_arith)
                requires
                    twice_midpoint(u) > 2 * ((m + 1) * w),
                    w * scale == p * unit,
                    scale > 0,
            ;
            assert((m + 1) * p == m * p + p) by (nonlinear_arith);
            assert(((m + 1) * p) * unit >= (n + 1) * unit) by (nonlinear_arith)
                requires
                    n + 1 <= (m + 1) * p,
                    unit > 0,
            ;
        }
    } else {
        assert(n <= mid);
        assert(n + 1 <= mid ==> (n + 1) * unit <= mid * unit) by (nonlinear_arith)
            requires
                unit > 0,
        ;
        if u0 > 0 {
            lemma_spread_order(u0 - 1, u0);
            assert(twice_midpoint(u0 - 1) * scale < 2 * ((m * p) * unit)) by (nonlinear_arith)
                requires
                    twice_midpoint(u0 - 1) < 2 * (m * w),
                    w * scale == p * unit,
                    scale > 0,
            ;
            assert((m * p) * unit <= n * unit) by (nonlinear_arith)
                requires
                    m * p <= n,
                    unit > 0,
            ;
        }
    }
}

/// A significand that lost nothing keeps its value.
proof fn lemma_exact_rounds(n: int, e: nat, bias: nat, m: int, grow: nat, scale_e: nat)
    requires
        scale_e + bias + grow == e,
        m == n * pow2(grow),
        0 <= m < 2 * FRACTION_LIMIT,
        scale_e > 0 ==> m >= FRACTION_LIMIT,
    ensures
        ({
            let u = scale_e * FRACTION_LIMIT + m;
            &&& u > 0 ==> twice_midpoint(u - 1) * pow2(bias) < 2 * (n * pow2(e))
            &&& 2 * (n * pow2(e)) < twice_midpoint(u) * pow2(bias)
        }),
{
    let unit = pow2(e) as int;
    let scale = pow2(bias) as int;
    let w = pow2(scale_e) as int;
    let g = pow2(grow) as int;
    let u = scale_e * FRACTION_LIMIT + m;
    lemma_pow2_pos(bias);
    lemma_pow2_adds(scale_e, bias);
    lemma_pow2_adds(scale_e + bias, grow);
    lemma_spread_at(m, scale_e as int);
    assert(spread(u) * scale == n * unit) by (nonlinear_arith)
        requires
            spread(u) == m * w,
            m == n * g,
            unit == (w * scale) * g,
    ;
    lemma_spread_order(u, u + 1);
    assert(twice_midpoint(u) * scale > 2 * (spread(u) * scale)) by (nonlinear_arith)
        requires
            twice_midpoint(u) > 2 * spread(u),
            scale > 0,
    ;
    if u > 0 {
        lemma_spread_order(u - 1, u);
        assert(twice_midpoint(u - 1) * scale < 2 * (spread(u) * scale)) by (nonlinear_arith)
            requires
                twice_midpoint(u - 1) < 2 * spread(u),
                scale > 0,
        ;
    }
}

/// A number with `length` binary digits, cut by `shift` of them, keeps the others.
proof fn lemma_digits_kept(n: int, length: nat, shift: nat, m: int, rest: int)
    requires
        0 < n < pow2(length),
        length > 0,
        pow2((length - 1) as nat) <= n,
        n == m * pow2(shift) + rest,
        0 <= rest < pow2(shift),
        length <= shift + 24,
    ensures
        0 <= m < pow2(24),
        length == shift + 24 ==> m >= pow2(23),
{
    let p = pow2(shift) as int;
    lemma_pow2_pos(shift);
    lemma_pow2_adds(shift, 24);
    lemma_pow2_length(length, shift + 24);
    let top = pow2(24) as int;
    assert(0 <= m < top) by (nonlinear_arith)
        requires
            0 < n < p * top,
            n == m * p + rest,
            0 <= rest < p,
    ;
    if length == shift + 24 {
        lemma_pow2_adds(shift, 23);
        let low = pow2(23) as int;
        assert(m >= low) by (nonlinear_arith)
            requires
                n >= p * low,
                n == m * p + rest,
                0 <= rest < p,
        ;
    }
}

/// The pattern to take for an exact result near `n * 2^(e - bias)`, of which
/// something may have been cut off below.
pub fn round(n: u128, e: u32, bias: u32, cut: bool) -> (r: u32)
    requires
        n < 0x4000_0000_0000_0000_0000_0000_0000_0000,
        e < 0x1_0000,
        bias < 0x1_0000,
        cut ==> n >= 0x200_0000,
    ensures
        rounds(n as int, e as nat, bias as nat, cut, r as int),
{
    if n == 0 {
        proof {
            lemma_pow2_pos(bias as nat);
            lemma_midpoint_order(0, 0);
            assert(0 < twice_midpoint(0) * pow2(bias as nat)) by (nonlinear_arith)
                requires
                    twice_midpoint(0) > 0,
                    pow2(bias as nat) > 0,
            ;
        }
        return 0;
    }
    let length: i64 = bit_length(n) as i64;
    let wanted: i64 = e as i64 - bias as i64 + length - 24;
    let scale_e: i64 = if wanted > 0 { wanted } else { 0 };
    let shift: i64 = scale_e + bias as i64 - e as i64;
    proof {
        lemma2_to64();
        lemma2_to64_rest();
        lemma_pow2_adds(64, 62);
        if length > 126 {
            lemma_pow2_length(126, (length - 1) as nat);
        }
        if cut && length < 26 {
            lemma_pow2_length(length as nat, 25);
        }
    }
    let u: u64 = if shift <= 0 {
        let grow: u128 = power_of_two((-shift) as u32);
        proof {
            lemma_pow2_adds(length as nat, (-shift) as nat);
            lemma_pow2_length((length - shift) as nat, 24);
            assert(0 < n * grow < pow2(length as nat) * grow) by (nonlinear_arith)
                requires
                    0 < n < pow2(length as nat),
                    grow > 0,
            ;
            if scale_e > 0 {
                lemma_pow2_adds((length - 1) as nat, (-shift) as nat);
                assert(n * grow >= pow2((length - 1) as nat) * grow) by (nonlinear_arith)
                    requires
                        n >= pow2((length - 1) as nat),
                        grow > 0,
                ;
            }
            lemma_exact_rounds(
                n as int,
                e as nat,
                bias as nat,
                n * grow,
                (-shift) as nat,
                scale_e as nat,
            );
        }
        scale_e as u64 * FRACTION_LIMIT as u64 + (n * grow) as u64
    } else if shift < 127 {
        let p: u128 = power_of_two(shift as u32);
        let m: u128 = n / p;
        let rest: u128 = n % p;
        let up: bool = rest > p - rest || (rest == p - rest && (cut || m % 2 == 1));
        proof {
            lemma_fundamental_div_mod(n as int, p as int);
            assert(p * m == m * p) by (nonlinear_arith);
            lemma_digits_kept(n as int, length as nat, shift as nat, m as int, rest as int);
            lemma_cut_rounds(
                n as int,
                e as nat,
                bias as nat,
                cut,
                m as int,
                rest as int,
                shift as nat,
                scale_e as nat,
                up,
            );
        }
        scale_e as u64 * FRACTION_LIMIT as u64 + m as u64 + (if up { 1u64 } else { 0u64 })
    } else {
        proof {
            lemma_pow2_length(127, shift as nat);
            lemma_pow2_unfold(127);
            assert(0 * pow2(shift as nat) == 0);
            lemma_cut_rounds(
                n as int,
                e as nat,
                bias as nat,
                cut,
                0,
                n as int,
                shift as nat,
                scale_e as nat,
                false,
            );
        }
        0
    };
    if u >= INFINITY as u64 {
        proof {
            lemma_rounds_capped(n as int, e as nat, bias as nat, cut, u as int);
        }
        INFINITY
    } else {
        u as u32
    }
}

/// Powers of two grow with the exponent.
proof fn lemma_pow2_length(a: nat, b: nat)
    requires
        a <= b,
    ensures
        0 < pow2(a) <= pow2(b),
{
    lemma_pow2_pos(a);
    if a < b {
        lemma_pow2_strictly_increases(a, b);
    }
}

} // verus!
