//! Arithmetic on scalars.
//!
//! Each operation gives the number nearest to the exact result, ties going to the
//! even pattern, and treats zeros, infinities and what is not a number as binary32
//! arithmetic does. What is not a number always comes out as [`NAN`].

use crate::rounding::{
    lemma_rounded, lemma_rounded_root, lemma_rounds_ratio, lemma_rounds_root, lemma_spread_at,
    nearest, power_of_two, round, rounded, rounded_root,
};
use crate::scalar::{
    is_nan, lemma_magnitude_zero, lemma_spread_order, magnitude, not_a_number, spread, unsigned,
    value, Scalar, FRACTION_LIMIT, INFINITY, SIGN, ZERO,
};
use vstd::arithmetic::div_mod::{
    lemma_div_is_ordered, lemma_fundamental_div_mod, lemma_fundamental_div_mod_converse,
};
use vstd::arithmetic::power2::{
    lemma2_to64, lemma2_to64_rest, lemma_pow2_adds, lemma_pow2_pos, lemma_pow2_strictly_increases,
    lemma_pow2_unfold, pow2,
};
use vstd::prelude::*;

verus! {

/// The pattern that stands for every result that is not a number.
pub const NAN: Scalar = 0x7FC0_0000;

/// How many of the smallest positive numbers make 1.0, as a power of two.
pub const UNIT_EXPONENT: u32 = 149;

/// 1.0, in units of the smallest positive number.
pub open spec fn unit() -> int {
    pow2(UNIT_EXPONENT as nat) as int
}

/// Whether a pattern is an infinity.
pub open spec fn is_infinite(s: Scalar) -> bool {
    unsigned(s) == INFINITY
}

/// Whether the sign bit is set.
pub open spec fn negative(s: Scalar) -> bool {
    s >= SIGN
}

/// An unsigned pattern under a sign.
pub open spec fn signed(minus: bool, u: int) -> Scalar {
    if minus {
        (SIGN + u) as u32
    } else {
        u as u32
    }
}

/// The absolute value of an integer.
pub open spec fn size(n: int) -> int {
    if n < 0 {
        -n
    } else {
        n
    }
}

/// `-a`.
pub open spec fn opposite(a: Scalar) -> Scalar {
    signed(!negative(a), unsigned(a))
}

/// `a + b`.
pub open spec fn sum(a: Scalar, b: Scalar) -> Scalar {
    if is_nan(a) || is_nan(b) {
        NAN
    } else if is_infinite(a) {
        if is_infinite(b) && negative(a) != negative(b) {
            NAN
        } else {
            a
        }
    } else if is_infinite(b) {
        b
    } else if value(a) + value(b) == 0 {
        signed(negative(a) && negative(b), 0)
    } else {
        signed(value(a) + value(b) < 0, rounded(size(value(a) + value(b)), 1))
    }
}

/// `a - b`.
pub open spec fn difference(a: Scalar, b: Scalar) -> Scalar {
    sum(a, opposite(b))
}

/// `a * b`.
pub open spec fn product(a: Scalar, b: Scalar) -> Scalar {
    let minus = negative(a) != negative(b);
    if is_nan(a) || is_nan(b) {
        NAN
    } else if is_infinite(a) || is_infinite(b) {
        if value(a) == 0 || value(b) == 0 {
            NAN
        } else {
            signed(minus, INFINITY as int)
        }
    } else {
        signed(minus, rounded(magnitude(a) * magnitude(b), unit()))
    }
}

/// `a / b`.
pub open spec fn quotient(a: Scalar, b: Scalar) -> Scalar {
    let minus = negative(a) != negative(b);
    if is_nan(a) || is_nan(b) {
        NAN
    } else if is_infinite(a) {
        if is_infinite(b) {
            NAN
        } else {
            signed(minus, INFINITY as int)
        }
    } else if is_infinite(b) {
        signed(minus, 0)
    } else if value(b) == 0 {
        if value(a) == 0 {
            NAN
        } else {
            signed(minus, INFINITY as int)
        }
    } else {
        signed(minus, rounded(magnitude(a) * unit(), magnitude(b)))
    }
}

/// The square root of `a`.
pub open spec fn root(a: Scalar) -> Scalar {
    if is_nan(a) {
        NAN
    } else if value(a) == 0 {
        a
    } else if negative(a) {
        NAN
    } else if is_infinite(a) {
        a
    } else {
        signed(false, rounded_root(magnitude(a) * unit()))
    }
}

/// The largest whole number not above `a`, kept within what a `u32` holds.
pub open spec fn whole_part(a: Scalar) -> int {
    if is_nan(a) || value(a) < 0 {
        0
    } else if value(a) / unit() > u32::MAX {
        u32::MAX as int
    } else {
        value(a) / unit()
    }
}

/// The number nearest to the integer `n`.
pub open spec fn from_whole(n: int) -> Scalar {
    signed(false, rounded(n * unit(), 1))
}

/// A finite number as a significand and the power of two that scales it.
fn parts(s: Scalar) -> (r: (u32, u32))
    requires
        unsigned(s) < INFINITY,
    ensures
        unsigned(s) == r.1 * FRACTION_LIMIT + r.0,
        r.0 < 2 * FRACTION_LIMIT,
        r.1 <= 253,
        r.1 > 0 ==> r.0 >= FRACTION_LIMIT,
        magnitude(s) == r.0 * pow2(r.1 as nat),
{
    let bare: u32 = if s < SIGN { s } else { s - SIGN };
    let top: u32 = bare / FRACTION_LIMIT;
    let e: u32 = if top == 0 { 0 } else { top - 1 };
    let m: u32 = bare - e * FRACTION_LIMIT;
    proof {
        lemma_spread_at(m as int, e as int);
    }
    (m, e)
}

/// `-a`.
pub fn negate(a: Scalar) -> (r: Scalar)
    ensures
        r == opposite(a),
{
    if a < SIGN {
        a + SIGN
    } else {
        a - SIGN
    }
}

/// An unsigned pattern under a sign.
fn with_sign(minus: bool, u: u32) -> (r: Scalar)
    requires
        u <= INFINITY,
    ensures
        r == signed(minus, u as int),
{
    if minus {
        SIGN + u
    } else {
        u
    }
}

/// A number is the nearest one to a result that differs from it by less than a
/// quarter of the gap around it.
proof fn lemma_far(u: int, m: int, e: int, num: int)
    requires
        1 <= e <= 253,
        FRACTION_LIMIT <= m < 2 * FRACTION_LIMIT,
        u == e * FRACTION_LIMIT + m,
        4 * size(num - m * pow2(e as nat)) < pow2(e as nat),
        u < INFINITY,
    ensures
        rounded(num, 1) == u,
{
    let limit = FRACTION_LIMIT as int;
    let p = pow2(e as nat) as int;
    let h = pow2((e - 1) as nat) as int;
    lemma_pow2_unfold(e as nat);
    lemma_spread_at(m, e);
    lemma_spread_at(m + 1, e);
    assert((m + 1) * p == m * p + p) by (nonlinear_arith);
    if m > limit {
        lemma_spread_at(m - 1, e);
        assert((m - 1) * p == m * p - p) by (nonlinear_arith);
    } else {
        lemma_spread_at(2 * limit - 1, e - 1);
        assert(u - 1 == (e - 1) * limit + (2 * limit - 1)) by (nonlinear_arith)
            requires
                u == e * limit + limit,
        ;
        assert((2 * limit - 1) * h == limit * p - h) by (nonlinear_arith)
            requires
                p == 2 * h,
        ;
    }
    assert(nearest(num, 1, u));
    lemma_rounded(num, 1, u);
}

/// `a + b` for finite numbers, `a` scaled no lower than `b`.
fn plus_finite(a: Scalar, b: Scalar, ma: u32, ea: u32, mb: u32, eb: u32) -> (r: Scalar)
    requires
        unsigned(a) < INFINITY,
        unsigned(b) < INFINITY,
        unsigned(a) == ea * FRACTION_LIMIT + ma,
        ma < 2 * FRACTION_LIMIT,
        mb < 2 * FRACTION_LIMIT,
        eb <= ea <= 253,
        ea > 0 ==> ma >= FRACTION_LIMIT,
        magnitude(a) == ma * pow2(ea as nat),
        magnitude(b) == mb * pow2(eb as nat),
    ensures
        r == sum(a, b),
{
    let minus_a: bool = a >= SIGN;
    let minus_b: bool = b >= SIGN;
    let gap: u32 = ea - eb;
    let ghost pa = pow2(ea as nat) as int;
    let ghost pb = pow2(eb as nat) as int;
    let ghost total = value(a) + value(b);
    proof {
        lemma_magnitude_zero(a);
        lemma_magnitude_zero(b);
        lemma_pow2_pos(eb as nat);
    }
    if gap > 64 {
        proof {
            let limit = 2 * FRACTION_LIMIT as int;
            let g = pow2(gap as nat) as int;
            lemma_pow2_adds(eb as nat, gap as nat);
            lemma2_to64();
            lemma_pow2_strictly_increases(64, gap as nat);
            assert(4 * magnitude(b) < pa) by (nonlinear_arith)
                requires
                    magnitude(b) == mb * pb,
                    0 <= mb < limit,
                    pa == pb * g,
                    g > 4 * limit,
                    pb > 0,
            ;
            assert(magnitude(a) >= pa) by (nonlinear_arith)
                requires
                    magnitude(a) == ma * pa,
                    ma >= 1,
                    pa > 0,
            ;
            lemma_far(unsigned(a), ma as int, ea as int, size(total));
        }
        return a;
    }
    let grow: u128 = power_of_two(gap);
    proof {
        lemma2_to64();
        if gap < 64 {
            lemma_pow2_strictly_increases(gap as nat, 64);
        }
        lemma_pow2_adds(eb as nat, gap as nat);
        assert(0 <= ma * grow <= 0x100_0000 * 0x1_0000_0000_0000_0000) by (nonlinear_arith)
            requires
                0 <= ma <= 0x100_0000,
                0 <= grow <= 0x1_0000_0000_0000_0000,
        ;
        assert(magnitude(a) == (ma * grow) * pb) by (nonlinear_arith)
            requires
                magnitude(a) == ma * pa,
                pa == pb * grow,
        ;
    }
    let x: u128 = ma as u128 * grow;
    let y: u128 = mb as u128;
    let (n, minus): (u128, bool) = if minus_a == minus_b {
        (x + y, minus_a)
    } else if x >= y {
        (x - y, minus_a)
    } else {
        (y - x, minus_b)
    };
    proof {
        assert((x + y) * pb == x * pb + y * pb) by (nonlinear_arith);
        assert((x - y) * pb == x * pb - y * pb) by (nonlinear_arith);
        assert((y - x) * pb == y * pb - x * pb) by (nonlinear_arith);
        assert(n * pb > 0 <==> n > 0) by (nonlinear_arith)
            requires
                pb > 0,
                n >= 0,
        ;
        assert(size(total) == n * pb);
    }
    if n == 0 {
        return with_sign(minus_a && minus_b, 0);
    }
    let u: u32 = round(n, eb, 0, false);
    proof {
        assert(pow2(0) == 1);
        assert((n + 1) * pb == n * pb + pb) by (nonlinear_arith);
        lemma_rounds_ratio(n as int, eb as nat, 0, false, n * pb, 1, u as int);
        lemma_rounded(n * pb, 1, u as int);
    }
    with_sign(minus, u)
}

/// `a + b`.
pub fn plus(a: Scalar, b: Scalar) -> (r: Scalar)
    ensures
        r == sum(a, b),
{
    if not_a_number(a) || not_a_number(b) {
        return NAN;
    }
    let infinite_a: bool = a == INFINITY || a == SIGN + INFINITY;
    let infinite_b: bool = b == INFINITY || b == SIGN + INFINITY;
    if infinite_a {
        return if infinite_b && a != b {
            NAN
        } else {
            a
        };
    }
    if infinite_b {
        return b;
    }
    let (ma, ea): (u32, u32) = parts(a);
    let (mb, eb): (u32, u32) = parts(b);
    if ea >= eb {
        plus_finite(a, b, ma, ea, mb, eb)
    } else {
        plus_finite(b, a, mb, eb, ma, ea)
    }
}

/// `a - b`.
pub fn minus(a: Scalar, b: Scalar) -> (r: Scalar)
    ensures
        r == difference(a, b),
{
    plus(a, negate(b))
}

/// `a * b`.
pub fn times(a: Scalar, b: Scalar) -> (r: Scalar)
    ensures
        r == product(a, b),
{
    if not_a_number(a) || not_a_number(b) {
        return NAN;
    }
    let minus: bool = (a >= SIGN) != (b >= SIGN);
    proof {
        lemma_magnitude_zero(a);
        lemma_magnitude_zero(b);
    }
    if a == INFINITY || a == SIGN + INFINITY || b == INFINITY || b == SIGN + INFINITY {
        return if a == ZERO || a == SIGN || b == ZERO || b == SIGN {
            NAN
        } else {
            with_sign(minus, INFINITY)
        };
    }
    let (ma, ea): (u32, u32) = parts(a);
    let (mb, eb): (u32, u32) = parts(b);
    proof {
        assert(0 <= ma * mb <= 0x100_0000 * 0x100_0000) by (nonlinear_arith)
            requires
                0 <= ma <= 0x100_0000,
                0 <= mb <= 0x100_0000,
        ;
    }
    let n: u128 = ma as u128 * mb as u128;
    let u: u32 = round(n, ea + eb, UNIT_EXPONENT, false);
    proof {
        let pa = pow2(ea as nat) as int;
        let pb = pow2(eb as nat) as int;
        lemma_pow2_pos(ea as nat);
        lemma_pow2_pos(eb as nat);
        lemma_pow2_pos(UNIT_EXPONENT as nat);
        lemma_pow2_adds(ea as nat, eb as nat);
        let q = pow2((ea + eb) as nat) as int;
        let num = magnitude(a) * magnitude(b);
        assert(num == n * q && q > 0) by (nonlinear_arith)
            requires
                num == (ma * pa) * (mb * pb),
                n == ma * mb,
                q == pa * pb,
                pa > 0,
                pb > 0,
        ;
        assert(unit() * (n * q) == num * unit() && num * unit() < unit() * ((n + 1) * q))
            by (nonlinear_arith)
            requires
                num == n * q,
                q > 0,
                unit() > 0,
        ;
        lemma_rounds_ratio(n as int, (ea + eb) as nat, UNIT_EXPONENT as nat, false, num, unit(), u as int);
        lemma_rounded(num, unit(), u as int);
    }
    with_sign(minus, u)
}

/// `a / b`.
pub fn divided(a: Scalar, b: Scalar) -> (r: Scalar)
    ensures
        r == quotient(a, b),
{
    if not_a_number(a) || not_a_number(b) {
        return NAN;
    }
    let minus: bool = (a >= SIGN) != (b >= SIGN);
    let infinite_b: bool = b == INFINITY || b == SIGN + INFINITY;
    proof {
        lemma_magnitude_zero(a);
        lemma_magnitude_zero(b);
    }
    if a == INFINITY || a == SIGN + INFINITY {
        return if infinite_b {
            NAN
        } else {
            with_sign(minus, INFINITY)
        };
    }
    if infinite_b {
        return with_sign(minus, 0);
    }
    if b == ZERO || b == SIGN {
        return if a == ZERO || a == SIGN {
            NAN
        } else {
            with_sign(minus, INFINITY)
        };
    }
    let (ma, ea): (u32, u32) = parts(a);
    let (mb, eb): (u32, u32) = parts(b);
    proof {
        assert(mb > 0) by (nonlinear_arith)
            requires
                mb * pow2(eb as nat) > 0,
                mb >= 0,
        ;
    }
    let scaled: u128 = ma as u128 * 0x4_0000_0000_0000;
    let n: u128 = scaled / mb as u128;
    let cut: bool = scaled % mb as u128 != 0;
    proof {
        lemma_fundamental_div_mod(scaled as int, mb as int);
        assert(ma >= 1 ==> n >= 0x200_0000) by (nonlinear_arith)
            requires
                ma >= 1 ==> scaled >= 0x4_0000_0000_0000,
                scaled < mb * n + mb,
                0 < mb <= 0x100_0000,
        ;
        assert(n <= scaled) by (nonlinear_arith)
            requires
                mb * n <= scaled,
                mb >= 1,
                n >= 0,
        ;
    }
    let u: u32 = round(n, ea + UNIT_EXPONENT, eb + 50, cut);
    proof {
        let pa = pow2(ea as nat) as int;
        let pb = pow2(eb as nat) as int;
        let k = 0x4_0000_0000_0000int;
        lemma2_to64_rest();
        lemma_pow2_pos(ea as nat);
        lemma_pow2_pos(eb as nat);
        lemma_pow2_pos(UNIT_EXPONENT as nat);
        lemma_pow2_adds(ea as nat, UNIT_EXPONENT as nat);
        lemma_pow2_adds(eb as nat, 50);
        let q = pow2((ea + UNIT_EXPONENT) as nat) as int;
        let scale = pow2((eb + 50) as nat) as int;
        let num = magnitude(a) * unit();
        let den = magnitude(b);
        let w = pb * q;
        assert(q > 0 && w > 0) by (nonlinear_arith)
            requires
                q == pa * unit(),
                w == pb * q,
                pa > 0,
                pb > 0,
                unit() > 0,
        ;
        assert(num * scale == scaled * w) by (nonlinear_arith)
            requires
                num == (ma * pa) * unit(),
                scale == pb * k,
                scaled == ma * k,
                q == pa * unit(),
                w == pb * q,
        ;
        assert(den * (n * q) == (mb * n) * w) by (nonlinear_arith)
            requires
                den == mb * pb,
                w == pb * q,
        ;
        assert(den * ((n + 1) * q) == (mb * n + mb) * w) by (nonlinear_arith)
            requires
                den == mb * pb,
                w == pb * q,
        ;
        assert((mb * n) * w <= scaled * w < (mb * n + mb) * w) by (nonlinear_arith)
            requires
                mb * n <= scaled < mb * n + mb,
                w > 0,
        ;
        assert((mb * n) * w == scaled * w <==> mb * n == scaled) by (nonlinear_arith)
            requires
                w > 0,
        ;
        lemma_rounds_ratio(n as int, (ea + UNIT_EXPONENT) as nat, (eb + 50) as nat, cut, num, den, u as int);
        lemma_rounded(num, den, u as int);
    }
    with_sign(minus, u)
}

/// The whole part of the square root of `n`.
fn whole_root(n: u128) -> (r: u128)
    requires
        n < 0x100_0000_0000_0000_0000_0000,
    ensures
        r * r <= n < (r + 1) * (r + 1),
        r < 0x1000_0000_0000,
{
    let mut r: u128 = 0;
    let mut step: u128 = 0x1000_0000_0000;
    let mut left: u32 = 44;
    proof {
        lemma2_to64_rest();
        assert(0x1000_0000_0000int * 0x1000_0000_0000int == 0x100_0000_0000_0000_0000_0000int);
    }
    while left > 0
        invariant
            left <= 44,
            step == pow2(left as nat),
            step <= 0x1000_0000_0000,
            r + step <= 0x1000_0000_0000,
            r * r <= n < (r + step) * (r + step),
        decreases left,
    {
        proof {
            lemma_pow2_unfold(left as nat);
        }
        step = step / 2;
        left = left - 1;
        let next: u128 = r + step;
        proof {
            assert(0 <= next * next <= 0x1000_0000_0000 * 0x1000_0000_0000) by (nonlinear_arith)
                requires
                    0 <= next <= 0x1000_0000_0000,
            ;
        }
        if next * next <= n {
            r = next;
        }
    }
    proof {
        lemma2_to64();
    }
    r
}

/// The square root of `a`.
pub fn sqrt(a: Scalar) -> (r: Scalar)
    ensures
        r == root(a),
{
    if not_a_number(a) {
        return NAN;
    }
    proof {
        lemma_magnitude_zero(a);
    }
    if a == ZERO || a == SIGN {
        return a;
    }
    if a >= SIGN {
        return NAN;
    }
    if a == INFINITY {
        return a;
    }
    let (m, e): (u32, u32) = parts(a);
    let odd: u32 = (e + UNIT_EXPONENT) % 2;
    let half: u32 = (e + UNIT_EXPONENT) / 2;
    let scaled: u128 = if odd == 1 {
        m as u128 * 0x2000_0000_0000_0000
    } else {
        m as u128 * 0x1000_0000_0000_0000
    };
    let n: u128 = whole_root(scaled);
    let cut: bool = n * n != scaled;
    proof {
        assert(m > 0) by (nonlinear_arith)
            requires
                m * pow2(e as nat) > 0,
                m >= 0,
        ;
        assert(n >= 0x200_0000) by (nonlinear_arith)
            requires
                scaled >= 0x1000_0000_0000_0000,
                scaled < (n + 1) * (n + 1),
                n >= 0,
        ;
    }
    let u: u32 = round(n, half, 30, cut);
    proof {
        let p = pow2(half as nat) as int;
        let scale = pow2(30) as int;
        let x = magnitude(a) * unit();
        lemma2_to64();
        lemma_pow2_pos(half as nat);
        lemma_pow2_adds(e as nat, UNIT_EXPONENT as nat);
        lemma_pow2_adds(half as nat, half as nat);
        lemma_pow2_adds((half + half) as nat, odd as nat);
        let w = p * p;
        assert(w > 0) by (nonlinear_arith)
            requires
                p > 0,
                w == p * p,
        ;
        let o = pow2(odd as nat) as int;
        assert(x == m * (w * o)) by (nonlinear_arith)
            requires
                x == (m * pow2(e as nat)) * unit(),
                pow2(e as nat) * unit() == w * o,
        ;
        assert(scale * scale == 0x1000_0000_0000_0000);
        assert(x * (scale * scale) == scaled * w) by (nonlinear_arith)
            requires
                x == m * (w * o),
                scaled == m * (o * 0x1000_0000_0000_0000),
                scale * scale == 0x1000_0000_0000_0000,
        ;
        assert((n * p) * (n * p) == (n * n) * w) by (nonlinear_arith)
            requires
                w == p * p,
        ;
        assert(((n + 1) * p) * ((n + 1) * p) == ((n + 1) * (n + 1)) * w) by (nonlinear_arith)
            requires
                w == p * p,
        ;
        let (low, high) = (n * n, (n + 1) * (n + 1));
        assert(low * w <= scaled * w < high * w) by (nonlinear_arith)
            requires
                low <= scaled < high,
                w > 0,
        ;
        assert(low * w == scaled * w <==> low == scaled) by (nonlinear_arith)
            requires
                w > 0,
        ;
        lemma_rounds_root(n as int, half as nat, 30, cut, x, u as int);
        lemma_rounded_root(x, u as int);
    }
    with_sign(false, u)
}

/// The number nearest to `n`.
pub fn from_u32(n: u32) -> (r: Scalar)
    ensures
        r == from_whole(n as int),
{
    let u: u32 = round(n as u128, UNIT_EXPONENT, 0, false);
    proof {
        lemma2_to64();
        lemma_pow2_pos(UNIT_EXPONENT as nat);
        let p = unit();
        assert((n + 1) * p == n * p + p) by (nonlinear_arith);
        lemma_rounds_ratio(n as int, UNIT_EXPONENT as nat, 0, false, n * p, 1, u as int);
        lemma_rounded(n * p, 1, u as int);
    }
    with_sign(false, u)
}

/// The largest whole number not above `a`, kept within what a `u32` holds.
pub fn floor_to_u32(a: Scalar) -> (r: u32)
    ensures
        r == whole_part(a),
{
    proof {
        lemma_magnitude_zero(a);
        lemma_pow2_pos(UNIT_EXPONENT as nat);
    }
    if not_a_number(a) || a >= SIGN {
        return 0;
    }
    let (m, e): (u32, u32) = if a >= TWO_TO_32 {
        proof {
            lemma_two_to_32(a);
        }
        return u32::MAX;
    } else {
        parts(a)
    };
    let ghost p = pow2(e as nat) as int;
    proof {
        lemma_pow2_pos(e as nat);
        lemma2_to64();
        lemma_two_to_32(a);
    }
    if e >= UNIT_EXPONENT {
        let grow: u128 = power_of_two(e - UNIT_EXPONENT);
        proof {
            lemma_pow2_adds(UNIT_EXPONENT as nat, (e - UNIT_EXPONENT) as nat);
            assert(magnitude(a) == (m * grow) * unit()) by (nonlinear_arith)
                requires
                    magnitude(a) == m * p,
                    p == unit() * grow,
            ;
            assert(0 <= m * grow < 0x1_0000_0000) by (nonlinear_arith)
                requires
                    (m * grow) * unit() < 0x1_0000_0000 * unit(),
                    unit() > 0,
                    m >= 0,
                    grow >= 0,
            ;
            lemma_fundamental_div_mod_converse(magnitude(a), unit(), m * grow, 0);
        }
        return (m as u128 * grow) as u32;
    }
    let drop: u32 = UNIT_EXPONENT - e;
    proof {
        lemma_pow2_adds(drop as nat, e as nat);
    }
    if drop > 64 {
        proof {
            lemma_pow2_strictly_increases(64, drop as nat);
            assert(0 <= m * p < unit()) by (nonlinear_arith)
                requires
                    0 <= m < pow2(drop as nat),
                    unit() == pow2(drop as nat) * p,
                    p > 0,
            ;
            lemma_fundamental_div_mod_converse(magnitude(a), unit(), 0, m * p);
        }
        return 0;
    }
    let d: u128 = power_of_two(drop);
    let w: u128 = m as u128 / d;
    proof {
        lemma_fundamental_div_mod(m as int, d as int);
        let rest = m as int % d as int;
        assert(0 <= rest * p < unit()) by (nonlinear_arith)
            requires
                0 <= rest < d,
                unit() == d * p,
                p > 0,
        ;
        assert(m * p == w * unit() + rest * p) by (nonlinear_arith)
            requires
                m == d * w + rest,
                unit() == d * p,
        ;
        lemma_fundamental_div_mod_converse(magnitude(a), unit(), w as int, rest * p);
        assert(w <= m) by (nonlinear_arith)
            requires
                m == d * w + rest,
                0 <= rest,
                d >= 1,
                w >= 0,
        ;
    }
    w as u32
}

/// The pattern of two to the power 32, the first number that no `u32` holds.
pub const TWO_TO_32: Scalar = 0x4F80_0000;

/// The numbers from `TWO_TO_32` on are those whose whole part no `u32` holds.
pub proof fn lemma_two_to_32(a: Scalar)
    requires
        a < SIGN,
    ensures
        a >= TWO_TO_32 ==> magnitude(a) / unit() > u32::MAX,
        a < TWO_TO_32 ==> magnitude(a) < 0x1_0000_0000 * unit(),
{
    let whole = spread(TWO_TO_32 as int);
    lemma_spread_at(FRACTION_LIMIT as int, 158);
    lemma2_to64();
    lemma_pow2_adds(UNIT_EXPONENT as nat, 9);
    lemma_pow2_pos(UNIT_EXPONENT as nat);
    assert(whole == 0x1_0000_0000 * unit());
    if a > TWO_TO_32 {
        lemma_spread_order(TWO_TO_32 as int, a as int);
    } else if a < TWO_TO_32 {
        lemma_spread_order(a as int, TWO_TO_32 as int);
    }
    if a >= TWO_TO_32 {
        lemma_div_is_ordered(whole, magnitude(a), unit());
        lemma_fundamental_div_mod_converse(whole, unit(), 0x1_0000_0000, 0);
    }
}

} // verus!
