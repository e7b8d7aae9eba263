//! How large the results of the arithmetic can get.

use crate::arithmetic::{difference, opposite, product, quotient, root, sum, unit};
use crate::bounds::{
    is_finite, lemma_one, lemma_product_between, lemma_quotient_between, lemma_sum_between,
};
use crate::rounding::{lemma_rounded_root_between, lemma_spread_at};
use crate::scalar::{
    at_most, lemma_magnitude_zero, lemma_spread_order, unsigned, value, Scalar, FRACTION_LIMIT,
    SIGN,
};
use crate::vector::{inner, vector_difference, vector_scaled, vector_sum, Vec3};
use vstd::arithmetic::power2::{
    lemma2_to64, lemma_pow2_adds, lemma_pow2_pos, lemma_pow2_unfold, pow2,
};
use vstd::prelude::*;

verus! {

/// Whether a scalar is a number of a size up to two to the power `k`.
pub open spec fn within(s: Scalar, k: nat) -> bool {
    &&& is_finite(s)
    &&& -(pow2(k) * unit()) <= value(s) <= pow2(k) * unit()
}

/// Whether the components of a vector are of a size up to two to the power `k`.
pub open spec fn vector_within(a: Vec3, k: nat) -> bool {
    within(a.x, k) && within(a.y, k) && within(a.z, k)
}

/// The pattern of two to the power `k`.
pub open spec fn power(k: nat) -> Scalar {
    ((126 + k) * FRACTION_LIMIT + FRACTION_LIMIT) as u32
}

/// The pattern of minus two to the power `k`.
pub open spec fn negative_power(k: nat) -> Scalar {
    (SIGN + (126 + k) * FRACTION_LIMIT + FRACTION_LIMIT) as u32
}

/// What the patterns of powers of two denote.
pub proof fn lemma_power(k: nat)
    requires
        k < 128,
    ensures
        value(power(k)) == pow2(k) * unit(),
        value(negative_power(k)) == -(pow2(k) * unit()),
        is_finite(power(k)),
        is_finite(negative_power(k)),
        unsigned(power(k)) == power(k),
        pow2(k) > 0,
        unit() > 0,
{
    lemma_spread_at(FRACTION_LIMIT as int, (126 + k) as int);
    lemma2_to64();
    lemma_pow2_adds(23, 126 + k);
    lemma_pow2_adds(149, k);
    lemma_pow2_pos(k);
    lemma_one();
    assert(unit() * pow2(k) == pow2(k) * unit()) by (nonlinear_arith);
    assert(unsigned(power(k)) == (126 + k) * FRACTION_LIMIT + FRACTION_LIMIT);
    assert(unsigned(negative_power(k)) == (126 + k) * FRACTION_LIMIT + FRACTION_LIMIT);
}

/// What lies between two opposite powers of two is finite.
proof fn lemma_between_powers(s: Scalar, k: nat)
    requires
        k < 128,
        at_most(negative_power(k), s),
        at_most(s, power(k)),
    ensures
        within(s, k),
{
    lemma_power(k);
    lemma_magnitude_zero(s);
    if !is_finite(s) {
        lemma_spread_order(power(k) as int, unsigned(s));
    }
}

/// A size holds for every larger power.
pub proof fn lemma_within_more(s: Scalar, k: nat, more: nat)
    requires
        within(s, k),
        k <= more,
    ensures
        within(s, more),
{
    lemma_one();
    let grow = (more - k) as nat;
    lemma_pow2_adds(k, grow);
    lemma_pow2_pos(grow);
    lemma_pow2_pos(k);
    assert(pow2(k) * unit() <= pow2(more) * unit()) by (nonlinear_arith)
        requires
            pow2(more) == pow2(k) * pow2(grow),
            pow2(grow) >= 1,
            pow2(k) >= 1,
            unit() > 0,
    ;
}

/// The size of a sum.
pub proof fn lemma_sum_within(a: Scalar, b: Scalar, k: nat)
    requires
        within(a, k),
        within(b, k),
        k < 127,
    ensures
        within(sum(a, b), k + 1),
{
    lemma_power(k + 1);
    lemma_pow2_unfold(k + 1);
    assert(pow2(k + 1) * unit() == 2 * (pow2(k) * unit())) by (nonlinear_arith)
        requires
            pow2(k + 1) == 2 * pow2(k),
    ;
    lemma_sum_between(a, b, negative_power(k + 1), power(k + 1));
    lemma_between_powers(sum(a, b), k + 1);
}

/// The size of the opposite.
pub proof fn lemma_opposite_within(a: Scalar, k: nat)
    requires
        within(a, k),
    ensures
        within(opposite(a), k),
{
    lemma_magnitude_zero(a);
}

/// The size of a difference.
pub proof fn lemma_difference_within(a: Scalar, b: Scalar, k: nat)
    requires
        within(a, k),
        within(b, k),
        k < 127,
    ensures
        within(difference(a, b), k + 1),
{
    lemma_opposite_within(b, k);
    lemma_sum_within(a, opposite(b), k);
}

/// The size of a product.
pub proof fn lemma_product_within(a: Scalar, b: Scalar, i: nat, j: nat)
    requires
        within(a, i),
        within(b, j),
        i + j < 128,
    ensures
        within(product(a, b), i + j),
{
    lemma_power(i + j);
    lemma_power(i);
    lemma_power(j);
    lemma_pow2_adds(i, j);
    let (p, q, u) = (pow2(i) as int, pow2(j) as int, unit());
    let (v, w) = (value(a), value(b));
    let (m, n) = (p * u, q * u);
    assert(-(m * n) <= v * w <= m * n) by (nonlinear_arith)
        requires
            -m <= v <= m,
            -n <= w <= n,
    ;
    assert(m * n == u * ((p * q) * u)) by (nonlinear_arith)
        requires
            m == p * u,
            n == q * u,
    ;
    assert(u * (-((p * q) * u)) == -(u * ((p * q) * u))) by (nonlinear_arith);
    lemma_product_between(a, b, negative_power(i + j), power(i + j));
    lemma_between_powers(product(a, b), i + j);
}

/// The size of a quotient by a number that is at least one by two to the power `m`.
pub proof fn lemma_quotient_within(a: Scalar, b: Scalar, i: nat, m: nat)
    requires
        within(a, i),
        is_finite(b),
        value(b) > 0,
        value(b) * pow2(m) >= unit(),
        i + m < 128,
    ensures
        within(quotient(a, b), i + m),
{
    lemma_power(i + m);
    lemma_power(i);
    lemma_power(m);
    lemma_pow2_adds(i, m);
    let (p, q, u) = (pow2(i) as int, pow2(m) as int, unit());
    let (v, d) = (value(a), value(b));
    let bound = (p * q) * u;
    assert(p * u <= d * (p * q)) by (nonlinear_arith)
        requires
            d * q >= u,
            p > 0,
    ;
    assert(d * (-bound) <= v * u <= d * bound) by (nonlinear_arith)
        requires
            -(p * u) <= v <= p * u,
            p * u <= d * (p * q),
            bound == (p * q) * u,
            u > 0,
    ;
    lemma_quotient_between(a, b, negative_power(i + m), power(i + m));
    lemma_between_powers(quotient(a, b), i + m);
}

/// The size of a root, from above and from below.
pub proof fn lemma_root_within(a: Scalar, low: Scalar, k: nat)
    requires
        within(a, k + k),
        k + k < 128,
        low < SIGN,
        0 < unsigned(low),
        is_finite(low),
        value(low) * value(low) <= value(a) * unit(),
    ensures
        within(root(a), k),
        value(root(a)) >= value(low),
{
    lemma_power(k);
    lemma_power(k + k);
    lemma_pow2_adds(k, k);
    lemma_magnitude_zero(low);
    lemma_magnitude_zero(a);
    let (p, u, v, l) = (pow2(k) as int, unit(), value(a), value(low));
    assert(v > 0) by (nonlinear_arith)
        requires
            l * l <= v * u,
            l > 0,
            u > 0,
    ;
    assert(v * u <= (p * u) * (p * u)) by (nonlinear_arith)
        requires
            v <= (p * p) * u,
            u > 0,
    ;
    assert(p * u > 0) by (nonlinear_arith)
        requires
            p > 0,
            u > 0,
    ;
    assert(l <= p * u) by (nonlinear_arith)
        requires
            l * l <= (p * u) * (p * u),
            l > 0,
            p * u > 0,
    ;
    if unsigned(low) > power(k) {
        lemma_spread_order(power(k) as int, unsigned(low));
    }
    lemma_rounded_root_between(v * u, unsigned(low), power(k) as int);
    let r = root(a);
    assert(unsigned(low) <= unsigned(r) <= power(k));
    if unsigned(low) < unsigned(r) {
        lemma_spread_order(unsigned(low), unsigned(r));
    }
    if unsigned(r) < power(k) {
        lemma_spread_order(unsigned(r), power(k) as int);
    }
    lemma_magnitude_zero(r);
}

/// The size of an inner product.
pub proof fn lemma_inner_within(a: Vec3, b: Vec3, i: nat, j: nat)
    requires
        vector_within(a, i),
        vector_within(b, j),
        i + j < 126,
    ensures
        within(inner(a, b), i + j + 2),
{
    lemma_product_within(a.x, b.x, i, j);
    lemma_product_within(a.y, b.y, i, j);
    lemma_product_within(a.z, b.z, i, j);
    lemma_sum_within(product(a.x, b.x), product(a.y, b.y), i + j);
    lemma_within_more(product(a.z, b.z), i + j, i + j + 1);
    lemma_sum_within(sum(product(a.x, b.x), product(a.y, b.y)), product(a.z, b.z), i + j + 1);
}

/// The size of a sum and a difference of vectors.
pub proof fn lemma_vector_sum_within(a: Vec3, b: Vec3, k: nat)
    requires
        vector_within(a, k),
        vector_within(b, k),
        k < 127,
    ensures
        vector_within(vector_sum(a, b), k + 1),
        vector_within(vector_difference(a, b), k + 1),
{
    lemma_sum_within(a.x, b.x, k);
    lemma_sum_within(a.y, b.y, k);
    lemma_sum_within(a.z, b.z, k);
    lemma_difference_within(a.x, b.x, k);
    lemma_difference_within(a.y, b.y, k);
    lemma_difference_within(a.z, b.z, k);
}

/// The size of a scaled vector.
pub proof fn lemma_vector_scaled_within(a: Vec3, k: Scalar, i: nat, j: nat)
    requires
        vector_within(a, i),
        within(k, j),
        i + j < 128,
    ensures
        vector_within(vector_scaled(a, k), i + j),
{
    lemma_product_within(a.x, k, i, j);
    lemma_product_within(a.y, k, i, j);
    lemma_product_within(a.z, k, i, j);
}

/// A size of a vector holds for every larger power.
pub proof fn lemma_vector_within_more(a: Vec3, k: nat, more: nat)
    requires
        vector_within(a, k),
        k <= more,
    ensures
        vector_within(a, more),
{
    lemma_within_more(a.x, k, more);
    lemma_within_more(a.y, k, more);
    lemma_within_more(a.z, k, more);
}

} // verus!
