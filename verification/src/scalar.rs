//! Single precision numbers as bit patterns.
//!
//! A [`Scalar`] is the 32-bit pattern of a binary32 number: one sign bit, eight
//! exponent bits and 23 fraction bits. What depends on the order of these numbers
//! alone is decided here, and stated over [`value`], the number that a pattern denotes.

use vstd::arithmetic::mul::{lemma_mul_inequality, lemma_mul_strict_inequality};
use vstd::arithmetic::power2::{
    lemma_pow2_pos, lemma_pow2_strictly_increases, lemma_pow2_unfold, pow2,
};
use vstd::prelude::*;

verus! {

/// The bit pattern of a binary32 number.
pub type Scalar = u32;

/// The pattern of 0.0.
pub const ZERO: Scalar = 0x0000_0000;

/// The pattern of 1.0.
pub const ONE: Scalar = 0x3F80_0000;

/// Where the patterns with the sign bit set begin.
pub const SIGN: u32 = 0x8000_0000;

/// The pattern of positive infinity; the patterns above it, below `SIGN`, are no numbers.
pub const INFINITY: Scalar = 0x7F80_0000;

/// One more than the largest fraction.
pub const FRACTION_LIMIT: u32 = 0x0080_0000;

/// The pattern without its sign bit.
pub open spec fn unsigned(s: Scalar) -> int {
    s as int % SIGN as int
}

/// The biased exponent of a pattern.
pub open spec fn exponent(s: Scalar) -> int {
    unsigned(s) / FRACTION_LIMIT as int
}

/// The fraction bits of a pattern.
pub open spec fn fraction(s: Scalar) -> int {
    unsigned(s) % FRACTION_LIMIT as int
}

/// Whether a pattern is not a number.
pub open spec fn is_nan(s: Scalar) -> bool {
    exponent(s) == 255 && fraction(s) != 0
}

/// What the unsigned pattern `u` denotes, in units of the smallest positive number
/// that a pattern can denote. An infinity counts as one step above the largest
/// finite number, and the patterns above it go on in the same way.
#[verifier::opaque]
pub open spec fn spread(u: int) -> int {
    let limit = FRACTION_LIMIT as int;
    if u / limit == 0 {
        u % limit
    } else {
        (limit + u % limit) * pow2((u / limit - 1) as nat)
    }
}

/// The absolute value of what a pattern denotes.
pub open spec fn magnitude(s: Scalar) -> int {
    spread(unsigned(s))
}

/// The number that a pattern denotes, in units of the smallest positive one.
/// Both patterns of zero denote 0.
pub open spec fn value(s: Scalar) -> int {
    if s < SIGN {
        magnitude(s)
    } else {
        -magnitude(s)
    }
}

/// `a < b` on numbers: false as soon as one of the two is not a number.
pub open spec fn less(a: Scalar, b: Scalar) -> bool {
    !is_nan(a) && !is_nan(b) && value(a) < value(b)
}

/// `a <= b` on numbers: false as soon as one of the two is not a number.
pub open spec fn at_most(a: Scalar, b: Scalar) -> bool {
    !is_nan(a) && !is_nan(b) && value(a) <= value(b)
}

/// The pattern with its sign bit cleared.
pub open spec fn absolute(s: Scalar) -> Scalar {
    unsigned(s) as u32
}

/// `s` brought between `low` and `high`; what is not a number stays as it is.
pub open spec fn clamped(s: Scalar, low: Scalar, high: Scalar) -> Scalar {
    if less(s, low) {
        low
    } else if less(high, s) {
        high
    } else {
        s
    }
}

/// The smaller of two; what is not a number gives way to the other.
pub open spec fn smaller(a: Scalar, b: Scalar) -> Scalar {
    if is_nan(a) || less(b, a) {
        b
    } else {
        a
    }
}

/// The larger of two; what is not a number gives way to the other.
pub open spec fn larger(a: Scalar, b: Scalar) -> Scalar {
    if is_nan(a) || less(a, b) {
        b
    } else {
        a
    }
}

/// The order of unsigned patterns is the order of what they denote.
pub proof fn lemma_spread_order(u: int, v: int)
    requires
        0 <= u < v,
    ensures
        0 <= spread(u) < spread(v),
{
    reveal(spread);
    let limit = FRACTION_LIMIT as int;
    let (eu, ev) = (u / limit, v / limit);
    let (fu, fv) = (u % limit, v % limit);
    assert(u == eu * limit + fu && v == ev * limit + fv);
    assert(0 <= eu <= ev);
    if eu == ev {
        assert(fu < fv);
        if eu > 0 {
            let p = pow2((eu - 1) as nat) as int;
            lemma_pow2_pos((eu - 1) as nat);
            lemma_mul_strict_inequality(limit + fu, limit + fv, p);
            lemma_mul_inequality(0, limit + fu, p);
        }
    } else {
        let q = pow2((ev - 1) as nat) as int;
        lemma_pow2_pos((ev - 1) as nat);
        lemma_mul_inequality(limit, limit + fv, q);
        if eu == 0 {
            lemma_mul_inequality(1, q, limit);
        } else {
            let p = pow2((eu - 1) as nat) as int;
            lemma_pow2_pos((eu - 1) as nat);
            lemma_mul_inequality(0, limit + fu, p);
            lemma_mul_strict_inequality(limit + fu, 2 * limit, p);
            lemma_pow2_unfold(eu as nat);
            if eu < ev - 1 {
                lemma_pow2_strictly_increases(eu as nat, (ev - 1) as nat);
            }
            lemma_mul_inequality(2 * p, q, limit);
            assert(2 * limit * p == limit * (2 * p)) by (nonlinear_arith);
        }
    }
}

/// A place for a pattern on the integers, in the order of the numbers denoted.
fn rank(s: Scalar) -> (r: i64)
    ensures
        r == (if s < SIGN { unsigned(s) } else { -unsigned(s) }),
{
    if s < SIGN {
        s as i64
    } else {
        -((s - SIGN) as i64)
    }
}

/// The order of the places is the order of the numbers denoted.
proof fn lemma_rank_order(a: Scalar, b: Scalar, ra: int, rb: int)
    requires
        ra == (if a < SIGN { unsigned(a) } else { -unsigned(a) }),
        rb == (if b < SIGN { unsigned(b) } else { -unsigned(b) }),
    ensures
        ra < rb <==> value(a) < value(b),
{
    lemma_magnitude_zero(a);
    lemma_magnitude_zero(b);
    if unsigned(a) < unsigned(b) {
        lemma_spread_order(unsigned(a), unsigned(b));
    } else if unsigned(b) < unsigned(a) {
        lemma_spread_order(unsigned(b), unsigned(a));
    }
}

/// A magnitude is never negative, and it is 0 for the two patterns of zero alone.
pub proof fn lemma_magnitude_zero(s: Scalar)
    ensures
        magnitude(s) >= 0,
        magnitude(s) == 0 <==> unsigned(s) == 0,
{
    reveal(spread);
    if unsigned(s) > 0 {
        lemma_spread_order(0, unsigned(s));
    }
}

/// Whether a pattern is not a number.
pub fn not_a_number(s: Scalar) -> (r: bool)
    ensures
        r == is_nan(s),
{
    let bare: u32 = if s < SIGN { s } else { s - SIGN };
    bare > INFINITY
}

/// `a < b`.
pub fn lt(a: Scalar, b: Scalar) -> (r: bool)
    ensures
        r == less(a, b),
{
    let ra: i64 = rank(a);
    let rb: i64 = rank(b);
    proof {
        lemma_rank_order(a, b, ra as int, rb as int);
    }
    !not_a_number(a) && !not_a_number(b) && ra < rb
}

/// `a <= b`.
pub fn le(a: Scalar, b: Scalar) -> (r: bool)
    ensures
        r == at_most(a, b),
{
    let ra: i64 = rank(a);
    let rb: i64 = rank(b);
    proof {
        lemma_rank_order(b, a, rb as int, ra as int);
    }
    !not_a_number(a) && !not_a_number(b) && ra <= rb
}

/// The absolute value.
pub fn abs(s: Scalar) -> (r: Scalar)
    ensures
        r == absolute(s),
{
    if s < SIGN {
        s
    } else {
        s - SIGN
    }
}

/// `s` brought between `low` and `high`.
pub fn clamp(s: Scalar, low: Scalar, high: Scalar) -> (r: Scalar)
    requires
        at_most(low, high),
    ensures
        r == clamped(s, low, high),
{
    if lt(s, low) {
        low
    } else if lt(high, s) {
        high
    } else {
        s
    }
}

/// The smaller of two.
pub fn min(a: Scalar, b: Scalar) -> (r: Scalar)
    ensures
        r == smaller(a, b),
{
    if not_a_number(a) || lt(b, a) {
        b
    } else {
        a
    }
}

/// The larger of two.
pub fn max(a: Scalar, b: Scalar) -> (r: Scalar)
    ensures
        r == larger(a, b),
{
    if not_a_number(a) || lt(a, b) {
        b
    } else {
        a
    }
}

/// Clamping lands in the interval, leaves what already lies there alone, and a
/// second clamping changes nothing.
pub proof fn lemma_clamped(s: Scalar, low: Scalar, high: Scalar)
    requires
        at_most(low, high),
        !is_nan(s),
    ensures
        at_most(low, clamped(s, low, high)),
        at_most(clamped(s, low, high), high),
        at_most(low, s) && at_most(s, high) ==> clamped(s, low, high) == s,
        clamped(clamped(s, low, high), low, high) == clamped(s, low, high),
{
}

/// The absolute value of a number denotes the number without its sign.
pub proof fn lemma_absolute(s: Scalar)
    ensures
        is_nan(absolute(s)) == is_nan(s),
        value(absolute(s)) == (if value(s) < 0 { -value(s) } else { value(s) }),
{
    lemma_magnitude_zero(s);
}

} // verus!
