//! What holds of the fixed clock of the simulation: it keeps up, loses no time, and
//! makes the same steps however the time is cut into frames.

use crate::arithmetic::{
    difference, from_whole, lemma_two_to_32, opposite, product, quotient, size, sum, unit,
};
use crate::bounds::{
    is_finite, lemma_dyadic, lemma_gap, lemma_one, lemma_one_is_neutral, lemma_product_commutes,
    lemma_quotient_at_least, lemma_quotient_between, lemma_sum_between, lemma_sum_error,
    lemma_sum_exact,
};
use crate::constants::{decimal, lemma_decimal, FOUR, STEP_HZ, TWO};
use crate::rounding::{
    lemma_midpoint_order, lemma_rounded, lemma_rounded_exact, lemma_rounded_nearest,
    lemma_spread_at, nearest, rounded, twice_midpoint,
};
use crate::scalar::{
    at_most, is_nan, larger, lemma_magnitude_zero, lemma_spread_order, less, magnitude, spread,
    unsigned, value, Scalar, FRACTION_LIMIT, INFINITY, ONE, SIGN, ZERO,
};
use crate::water_pass::{step_time, steps_in, time_left, time_with, MAX_STEPS_PER_FRAME};
use vstd::arithmetic::div_mod::{
    lemma_basic_div, lemma_div_is_ordered, lemma_div_pos_is_pos, lemma_fundamental_div_mod,
    lemma_fundamental_div_mod_converse,
};
use vstd::arithmetic::power2::{
    lemma2_to64, lemma_pow2_pos, lemma_pow2_strictly_increases, lemma_pow2_unfold, pow2,
};
use vstd::prelude::*;

verus! {

/// A frame makes at most so many steps, and the time left is never negative.
pub proof fn lemma_clock_bounds(elapsed: Scalar)
    ensures
        0 <= steps_in(elapsed) <= MAX_STEPS_PER_FRAME,
        at_most(ZERO, time_left(elapsed)),
{
    lemma_magnitude_zero(ZERO);
    lemma_one();
    if !is_nan(quotient(elapsed, step_time())) && value(quotient(elapsed, step_time())) >= 0 {
        lemma_div_pos_is_pos(
            value(quotient(elapsed, step_time())),
            unit(),
        );
    }
}

/// The pattern of the time that a step simulates.
pub const STEP_TIME: Scalar = 0x3C88_8889;

/// The pattern of the time that three steps simulate.
const THREE_STEPS_TIME: Scalar = 0x3D4C_CCCE;

/// The pattern of 3.0.
const THREE: Scalar = 0x4040_0000;

/// What the first few whole numbers denote.
proof fn lemma_whole_values()
    ensures
        unit() > 0,
        value(ZERO) == 0,
        value(ONE) == unit(),
        value(TWO) == 2 * unit(),
        value(THREE) == 3 * unit(),
        value(FOUR) == 4 * unit(),
        value(STEP_HZ) == 60 * unit(),
        from_whole(0) == ZERO,
        from_whole(1) == ONE,
        from_whole(2) == TWO,
        from_whole(3) == THREE,
        from_whole(4) == FOUR,
{
    lemma2_to64();
    lemma_one();
    lemma_magnitude_zero(ZERO);
    lemma_dyadic(0x80_0000, 127, 22);
    lemma_dyadic(0xC0_0000, 127, 22);
    lemma_dyadic(0x80_0000, 128, 21);
    lemma_dyadic(0xF0_0000, 131, 18);
    lemma_rounded_exact(0, 1, 0);
    lemma_rounded_exact(unit(), 1, ONE as int);
    lemma_rounded_exact(2 * unit(), 1, TWO as int);
    lemma_rounded_exact(3 * unit(), 1, THREE as int);
    lemma_rounded_exact(4 * unit(), 1, FOUR as int);
}

/// A step simulates the number of seconds nearest to a sixtieth.
pub proof fn lemma_step_time()
    ensures
        step_time() == STEP_TIME,
        STEP_TIME == decimal(1, 60),
{
    lemma_whole_values();
    lemma2_to64();
    lemma_decimal(1, 60, 0x88_8889, 120, 0x2000_0000);
    lemma_rounded_nearest(unit(), 60);
    let u = rounded(unit(), 60);
    let (w, d) = (unit() * unit(), 60 * unit());
    let (low, high) = (twice_midpoint(u - 1), twice_midpoint(u));
    assert(60 * low < 2 * unit() ==> d * low < 2 * w) by (nonlinear_arith)
        requires
            unit() > 0,
            w == unit() * unit(),
            d == 60 * unit(),
    ;
    assert(60 * low == 2 * unit() ==> d * low == 2 * w) by (nonlinear_arith)
        requires
            w == unit() * unit(),
            d == 60 * unit(),
    ;
    assert(2 * unit() < 60 * high ==> 2 * w < d * high) by (nonlinear_arith)
        requires
            unit() > 0,
            w == unit() * unit(),
            d == 60 * unit(),
    ;
    assert(2 * unit() == 60 * high ==> 2 * w == d * high) by (nonlinear_arith)
        requires
            w == unit() * unit(),
            d == 60 * unit(),
    ;
    assert(nearest(w, d, u));
    lemma_rounded(w, d, u);
}

/// The times of up to four steps, as the clock takes them off: never too little, and
/// too much only for three steps.
proof fn lemma_step_times()
    ensures
        value(STEP_TIME) > 0,
        value(product(ZERO, STEP_TIME)) == 0,
        is_finite(product(ZERO, STEP_TIME)),
        product(ONE, STEP_TIME) == STEP_TIME,
        value(product(TWO, STEP_TIME)) == 2 * value(STEP_TIME),
        is_finite(product(TWO, STEP_TIME)),
        value(product(THREE, STEP_TIME)) >= 3 * value(STEP_TIME),
        (value(product(THREE, STEP_TIME)) - 3 * value(STEP_TIME)) * FRACTION_LIMIT <= value(STEP_TIME),
        is_finite(product(THREE, STEP_TIME)),
        value(product(FOUR, STEP_TIME)) == 4 * value(STEP_TIME),
        is_finite(product(FOUR, STEP_TIME)),
{
    lemma_whole_values();
    let p = pow2(120) as int;
    let q = pow2(121) as int;
    lemma_pow2_pos(120);
    lemma_pow2_unfold(121);
    lemma_spread_at(0x88_8889, 120);
    lemma_spread_at(0x88_8889, 121);
    lemma_pow2_unfold(122);
    lemma_spread_at(0x88_8889, 122);
    lemma_spread_at(0xCC_CCCD, 121);
    lemma_spread_at(0xCC_CCCE, 121);
    lemma_spread_at(0xCC_CCCF, 121);
    let t = value(STEP_TIME);
    assert(t == 0x88_8889 * p);
    lemma_rounded_exact(0, unit(), 0);
    lemma_magnitude_zero(ZERO);
    lemma_one_is_neutral(STEP_TIME);
    lemma_product_commutes(ONE, STEP_TIME);
    assert((2 * unit()) * t == unit() * (2 * t)) by (nonlinear_arith);
    lemma_rounded_exact((2 * unit()) * t, unit(), 0x3D08_8889);
    assert((4 * unit()) * t == unit() * (4 * t)) by (nonlinear_arith);
    lemma_rounded_exact((4 * unit()) * t, unit(), 0x3D88_8889);
    let third = twice_midpoint(THREE_STEPS_TIME - 1);
    let fourth = twice_midpoint(THREE_STEPS_TIME as int);
    assert(third == 0x199_999B * q && fourth == 0x199_999D * q);
    assert(unit() * third == 2 * ((3 * unit()) * t)) by (nonlinear_arith)
        requires
            third == 0x199_999B * q,
            t == 0x88_8889 * p,
            q == 2 * p,
    ;
    assert(2 * ((3 * unit()) * t) < unit() * fourth) by (nonlinear_arith)
        requires
            fourth == 0x199_999D * q,
            t == 0x88_8889 * p,
            q == 2 * p,
            p > 0,
            unit() > 0,
    ;
    assert(nearest((3 * unit()) * t, unit(), THREE_STEPS_TIME as int));
    lemma_rounded((3 * unit()) * t, unit(), THREE_STEPS_TIME as int);
}

/// Time that is good for fewer than `k` steps is less than that of `k` steps.
proof fn lemma_fewer_steps(elapsed: Scalar, k: int, whole: Scalar)
    requires
        1 <= k <= 4,
        value(whole) == k * unit(),
        is_finite(whole),
        !is_nan(elapsed),
        steps_in(elapsed) < k,
        value(elapsed) > 0,
    ensures
        is_finite(elapsed),
        value(elapsed) < k * value(STEP_TIME),
{
    lemma_whole_values();
    lemma_step_time();
    lemma_step_times();
    let t = value(STEP_TIME);
    let e = value(elapsed);
    if !is_finite(elapsed) {
        let q = quotient(elapsed, step_time());
        lemma_magnitude_zero(elapsed);
        assert(elapsed == INFINITY);
        assert(q == INFINITY);
        lemma_two_to_32(q);
    } else if e >= k * t {
        assert(t * (k * unit()) <= e * unit()) by (nonlinear_arith)
            requires
                k * t <= e,
                unit() > 0,
        ;
        lemma_quotient_at_least(elapsed, STEP_TIME, whole);
        let q = value(quotient(elapsed, STEP_TIME));
        lemma_div_is_ordered(k * unit(), q, unit());
        lemma_fundamental_div_mod_converse(k * unit(), unit(), k, 0);
    }
}

/// Once a frame makes fewer steps than it may, the simulation is behind by no more
/// than the time of one step, whatever the frames took.
pub proof fn lemma_clock_keeps_up(elapsed: Scalar)
    requires
        steps_in(elapsed) < MAX_STEPS_PER_FRAME,
    ensures
        at_most(time_left(elapsed), step_time()),
{
    lemma_whole_values();
    lemma_step_time();
    lemma_step_times();
    lemma_clock_bounds(elapsed);
    let k = steps_in(elapsed);
    if !is_nan(elapsed) && value(elapsed) > 0 {
        let next = if k == 0 { ONE } else if k == 1 { TWO } else if k == 2 { THREE } else { FOUR };
        lemma_fewer_steps(elapsed, k + 1, next);
        let taken = product(from_whole(k), STEP_TIME);
        assert(value(opposite(taken)) == -value(taken)) by {
            lemma_magnitude_zero(taken);
        }
        assert(value(elapsed) - value(taken) <= value(STEP_TIME)) by {
            assert((k + 1) * value(STEP_TIME) == k * value(STEP_TIME) + value(STEP_TIME))
                by (nonlinear_arith);
        }
        lemma_sum_between(elapsed, opposite(taken), opposite(taken), STEP_TIME);
    } else if !is_nan(elapsed) {
        lemma_left_of_nothing(elapsed);
    }
}

/// Where no time has passed, no step is made and none is left.
proof fn lemma_left_of_nothing(elapsed: Scalar)
    requires
        !is_nan(elapsed),
        value(elapsed) <= 0,
    ensures
        at_most(time_left(elapsed), step_time()),
{
    lemma_whole_values();
    lemma_step_time();
    lemma_step_times();
    lemma_magnitude_zero(elapsed);
    let q = quotient(elapsed, STEP_TIME);
    if is_finite(elapsed) {
        let num = magnitude(elapsed) * unit();
        lemma_rounded_nearest(num, magnitude(STEP_TIME));
        if unsigned(elapsed) == 0 {
            lemma_rounded_exact(0, magnitude(STEP_TIME), 0);
        }
        lemma_magnitude_zero(q);
        assert(value(q) <= 0);
        assert(steps_in(elapsed) == 0) by {
            lemma_basic_div(0, unit());
        }
        lemma_taking_nothing(elapsed);
    }
}

/// Taking the time of no steps off leaves a finite time as it is.
proof fn lemma_taking_nothing(elapsed: Scalar)
    requires
        is_finite(elapsed),
    ensures
        difference(elapsed, product(ZERO, STEP_TIME)) == elapsed,
{
    lemma_whole_values();
    lemma_step_times();
    lemma_rounded_exact(0, unit(), 0);
    lemma_magnitude_zero(elapsed);
    lemma_magnitude_zero(SIGN);
    assert(product(ZERO, STEP_TIME) == ZERO) by {
        assert(magnitude(ZERO) * magnitude(STEP_TIME) == 0) by (nonlinear_arith)
            requires
                magnitude(ZERO) == 0,
        ;
    }
    if value(elapsed) != 0 {
        lemma_sum_exact(elapsed, SIGN, elapsed);
    }
}

/// Time that is too short for a step makes none and is kept.
pub proof fn lemma_short_time_kept(elapsed: Scalar)
    requires
        at_most(ZERO, elapsed),
        less(elapsed, step_time()),
    ensures
        steps_in(elapsed) == 0,
        time_left(elapsed) == elapsed,
{
    lemma_whole_values();
    lemma_step_time();
    lemma_step_times();
    lemma_magnitude_zero(elapsed);
    let below: Scalar = 0x3F7F_FFFF;
    let (u, t, b) = (unit(), value(STEP_TIME), value(below));
    let p = pow2(120) as int;
    lemma2_to64();
    lemma_pow2_pos(120);
    lemma_spread_at(0x88_8889, 120);
    lemma_spread_at(0x88_8888, 120);
    lemma_dyadic(0xFF_FFFF, 125, 24);
    assert(unsigned(elapsed) < STEP_TIME) by {
        if unsigned(elapsed) > STEP_TIME {
            lemma_spread_order(STEP_TIME as int, unsigned(elapsed));
        }
    }
    if unsigned(elapsed) < STEP_TIME - 1 {
        lemma_spread_order(unsigned(elapsed), STEP_TIME - 1);
    }
    let e = value(elapsed);
    assert(0 <= e <= 0x88_8888 * p);
    assert(t * 0 <= e * u <= t * b) by (nonlinear_arith)
        requires
            0 <= e <= 0x88_8888 * p,
            t == 0x88_8889 * p,
            b * 0x100_0000 == 0xFF_FFFF * u,
            p > 0,
            u > 0,
    ;
    lemma_quotient_between(elapsed, STEP_TIME, ZERO, below);
    let q = value(quotient(elapsed, STEP_TIME));
    assert(0 <= q < u);
    lemma_basic_div(q, u);
    lemma_taking_nothing(elapsed);
}

/// The time that the clock takes off for `k` steps.
proof fn lemma_taken(k: int)
    requires
        0 <= k <= MAX_STEPS_PER_FRAME,
    ensures
        is_finite(product(from_whole(k), STEP_TIME)),
        k * value(STEP_TIME) <= value(product(from_whole(k), STEP_TIME)),
        (value(product(from_whole(k), STEP_TIME)) - k * value(STEP_TIME)) * FRACTION_LIMIT <= value(STEP_TIME),
{
    lemma_whole_values();
    lemma_step_times();
    let t = value(STEP_TIME);
    assert(0 * t == 0 && 1 * t == t && 2 * t == t + t && 3 * t == t + t + t && 4 * t == t + t + t + t)
        by (nonlinear_arith);
}

/// Where the clock makes `k` steps, their time has passed but for rounding.
proof fn lemma_steps_earned(elapsed: Scalar, k: int, whole: Scalar)
    requires
        1 <= k <= MAX_STEPS_PER_FRAME,
        steps_in(elapsed) == k,
        value(whole) == k * unit(),
        0 < unsigned(whole),
        whole < SIGN,
        is_finite(whole),
        is_finite(elapsed),
        value(elapsed) > 0,
    ensures
        (k * value(STEP_TIME) - value(elapsed)) * (2 * FRACTION_LIMIT) <= k * value(STEP_TIME),
{
    lemma_whole_values();
    lemma_step_time();
    lemma_step_times();
    lemma_magnitude_zero(elapsed);
    let limit = FRACTION_LIMIT as int;
    let (t, e, w) = (value(STEP_TIME), value(elapsed), whole as int);
    let q = quotient(elapsed, STEP_TIME);
    let u = rounded(e * unit(), t);
    lemma_rounded_nearest(e * unit(), t);
    assert(unsigned(q) == u);
    lemma_magnitude_zero(q);
    let share = value(q) / unit();
    lemma_fundamental_div_mod(value(q), unit());
    assert(k * unit() <= value(q)) by (nonlinear_arith)
        requires
            k <= share,
            unit() * share <= value(q),
            unit() > 0,
    ;
    if u < w {
        lemma_spread_order(u, w);
    }
    lemma_midpoint_order(w - 1, u - 1);
    lemma_gap(w);
    let (middle, reached) = (twice_midpoint(w - 1), twice_midpoint(u - 1));
    lemma2_to64();
    lemma_pow2_strictly_increases(23, 149);
    assert(limit <= k * unit()) by (nonlinear_arith)
        requires
            limit <= unit(),
            k >= 1,
    ;
    assert((2 * limit - 1) * (k * unit()) <= limit * middle) by (nonlinear_arith)
        requires
            middle == spread(w - 1) + k * unit(),
            (k * unit() - spread(w - 1)) * limit <= k * unit(),
    ;
    assert(t * ((2 * limit - 1) * (k * unit())) <= limit * (2 * (e * unit()))) by (nonlinear_arith)
        requires
            (2 * limit - 1) * (k * unit()) <= limit * middle,
            middle <= reached,
            t * reached <= 2 * (e * unit()),
            t > 0,
            limit > 0,
    ;
    assert((2 * limit - 1) * (k * t) <= (2 * limit) * e) by (nonlinear_arith)
        requires
            t * ((2 * limit - 1) * (k * unit())) <= limit * (2 * (e * unit())),
            unit() > 0,
    ;
    assert((k * t - e) * (2 * limit) == (2 * limit) * (k * t) - (2 * limit) * e) by (nonlinear_arith);
    assert((2 * limit - 1) * (k * t) == (2 * limit) * (k * t) - k * t) by (nonlinear_arith);
}

/// A number between zero and a finite one is finite.
proof fn lemma_finite_between(a: Scalar, high: Scalar)
    requires
        at_most(ZERO, a),
        at_most(a, high),
        is_finite(high),
    ensures
        is_finite(a),
{
    lemma_magnitude_zero(ZERO);
    lemma_magnitude_zero(a);
    lemma_magnitude_zero(high);
    if !is_finite(a) {
        lemma_spread_order(unsigned(high), unsigned(a));
    }
}

/// What is left of finite time after its steps, and the time of these steps, make up
/// the time that there was, but for rounding.
proof fn lemma_time_split(elapsed: Scalar)
    requires
        is_finite(elapsed),
        at_most(ZERO, elapsed),
    ensures
        is_finite(time_left(elapsed)),
        at_most(ZERO, time_left(elapsed)),
        size(
            value(time_left(elapsed)) + steps_in(elapsed) * value(STEP_TIME) - value(elapsed),
        ) * FRACTION_LIMIT <= value(elapsed) + 2 * value(STEP_TIME),
{
    lemma_whole_values();
    lemma_step_time();
    lemma_step_times();
    lemma_clock_bounds(elapsed);
    let limit = FRACTION_LIMIT as int;
    let (t, e, k) = (value(STEP_TIME), value(elapsed), steps_in(elapsed));
    lemma_taken(k);
    let taken = product(from_whole(k), STEP_TIME);
    let rest = difference(elapsed, taken);
    lemma_magnitude_zero(taken);
    lemma_magnitude_zero(elapsed);
    assert(value(opposite(taken)) == -value(taken));
    let left = value(time_left(elapsed));
    assert(k * t <= 4 * t && k * t >= 0) by (nonlinear_arith)
        requires
            0 <= k <= 4,
            t > 0,
    ;
    if e > value(taken) {
        lemma_sum_between(elapsed, opposite(taken), ZERO, elapsed);
        lemma_finite_between(rest, elapsed);
        lemma_sum_error(elapsed, opposite(taken));
        let (off, over) = (left - (e - value(taken)), value(taken) - k * t);
        assert(time_left(elapsed) == rest);
        assert(size(off - over) * limit <= e + 2 * t) by (nonlinear_arith)
            requires
                size(off) * (2 * limit) <= e,
                0 <= over,
                over * limit <= t,
                t > 0,
                limit > 0,
        ;
    } else {
        lemma_sum_between(elapsed, opposite(taken), opposite(taken), ZERO);
        assert(left == 0);
        lemma_magnitude_zero(time_left(elapsed));
        if k == 0 {
            assert(e == 0);
        } else {
            assert(e > 0) by {
                if e == 0 {
                    lemma_rounded_exact(0, t, 0);
                    assert(0 * unit() == 0);
                    lemma_magnitude_zero(quotient(elapsed, STEP_TIME));
                    lemma_basic_div(0, unit());
                }
            }
            let whole = if k == 1 { ONE } else if k == 2 { TWO } else if k == 3 { THREE } else { FOUR };
            lemma_steps_earned(elapsed, k, whole);
            let short = k * t - e;
            assert(size(short) * limit <= e + 2 * t) by (nonlinear_arith)
                requires
                    short * (2 * limit) <= k * t,
                    k * t <= 4 * t,
                    (-short) * limit <= t,
                    t > 0,
                    limit > 0,
                    e >= 0,
            {
                assert((-short) * limit == -(short * limit)) by (nonlinear_arith);
                assert(short * (2 * limit) == 2 * (short * limit)) by (nonlinear_arith);
            }
        }
    }
}

/// A frame loses no time and adds none, but for rounding: what it leaves and the time of
/// the steps that it makes are what was left before and what the frame took.
pub proof fn lemma_time_kept(left: Scalar, delta_time: Scalar)
    requires
        at_most(ZERO, left),
        is_finite(time_with(left, delta_time)),
    ensures
        ({
            let elapsed = time_with(left, delta_time);
            &&& is_finite(time_left(elapsed))
            &&& at_most(ZERO, time_left(elapsed))
            &&& 2 * size(
                value(time_left(elapsed)) + steps_in(elapsed) * value(step_time()) - (value(left) + value(
                    larger(delta_time, ZERO),
                )),
            ) * FRACTION_LIMIT <= 3 * value(elapsed) + 4 * value(step_time())
        }),
{
    lemma_step_time();
    lemma_step_times();
    lemma_magnitude_zero(ZERO);
    lemma_magnitude_zero(left);
    let added = larger(delta_time, ZERO);
    lemma_magnitude_zero(added);
    assert(value(added) >= 0 && !is_nan(added));
    assert(is_finite(left) && is_finite(added));
    let elapsed = time_with(left, delta_time);
    lemma_magnitude_zero(elapsed);
    lemma_sum_error(left, added);
    lemma_sum_between_zero(left, added);
    lemma_time_split(elapsed);
    let limit = FRACTION_LIMIT as int;
    let (t, e) = (value(STEP_TIME), value(elapsed));
    let first = e - (value(left) + value(added));
    let second = value(time_left(elapsed)) + steps_in(elapsed) * t - e;
    assert(2 * size(first + second) * limit <= 3 * e + 4 * t) by (nonlinear_arith)
        requires
            size(first) * (2 * limit) <= e,
            size(second) * limit <= e + 2 * t,
            limit > 0,
    ;
}

/// A sum of numbers not below zero is not below zero.
proof fn lemma_sum_between_zero(a: Scalar, b: Scalar)
    requires
        is_finite(a),
        is_finite(b),
        value(a) >= 0,
        value(b) >= 0,
    ensures
        at_most(ZERO, sum(a, b)),
{
    lemma_magnitude_zero(ZERO);
    lemma_magnitude_zero(sum(a, b));
    let t = value(a) + value(b);
    if t > 0 {
        lemma_rounded_nearest(t, 1);
    }
}

/// What the clock has left after frames that took `deltas`, from `start` on.
pub open spec fn clock(start: Scalar, deltas: Seq<Scalar>) -> Scalar
    decreases deltas.len(),
{
    if deltas.len() == 0 {
        start
    } else {
        time_left(time_with(clock(start, deltas.drop_last()), deltas.last()))
    }
}

/// How many steps these frames made.
pub open spec fn steps_made(start: Scalar, deltas: Seq<Scalar>) -> int
    decreases deltas.len(),
{
    if deltas.len() == 0 {
        0
    } else {
        steps_made(start, deltas.drop_last()) + steps_in(
            time_with(clock(start, deltas.drop_last()), deltas.last()),
        )
    }
}

/// The time that these frames took, negative ones left out.
pub open spec fn time_passed(deltas: Seq<Scalar>) -> int
    decreases deltas.len(),
{
    if deltas.len() == 0 {
        0
    } else {
        time_passed(deltas.drop_last()) + value(larger(deltas.last(), ZERO))
    }
}

/// Whether the clock never had more than `most` to make steps for.
pub open spec fn backlog_within(start: Scalar, deltas: Seq<Scalar>, most: int) -> bool
    decreases deltas.len(),
{
    deltas.len() > 0 ==> {
        let elapsed = time_with(clock(start, deltas.drop_last()), deltas.last());
        &&& backlog_within(start, deltas.drop_last(), most)
        &&& is_finite(elapsed)
        &&& value(elapsed) <= most
    }
}

/// Over any number of frames the simulated time and what is left make up the time that
/// passed, but for rounding in each frame.
pub proof fn lemma_no_time_lost(start: Scalar, deltas: Seq<Scalar>, most: int)
    requires
        at_most(ZERO, start),
        backlog_within(start, deltas, most),
    ensures
        at_most(ZERO, clock(start, deltas)),
        2 * size(
            steps_made(start, deltas) * value(step_time()) + value(clock(start, deltas)) - (value(start)
                + time_passed(deltas)),
        ) * FRACTION_LIMIT <= deltas.len() * (3 * most + 4 * value(step_time())),
    decreases deltas.len(),
{
    let limit = FRACTION_LIMIT as int;
    let t = value(step_time());
    let share = 3 * most + 4 * t;
    let count = deltas.len() as int;
    if count == 0 {
        assert(0 * t == 0 && 0 * share == 0) by (nonlinear_arith);
    } else {
        let before = deltas.drop_last();
        lemma_no_time_lost(start, before, most);
        let left = clock(start, before);
        lemma_time_kept(left, deltas.last());
        let elapsed = time_with(left, deltas.last());
        let (n, k) = (steps_made(start, before), steps_in(elapsed));
        assert((n + k) * t == n * t + k * t) by (nonlinear_arith);
        let first = n * t + value(left) - (value(start) + time_passed(before));
        let second = value(time_left(elapsed)) + k * t - (value(left) + value(larger(deltas.last(), ZERO)));
        assert(count * share == (count - 1) * share + share) by (nonlinear_arith);
        assert(2 * size(first + second) * limit <= 2 * size(first) * limit + 2 * size(second) * limit)
            by (nonlinear_arith)
            requires
                limit > 0,
        ;
    }
}

/// The steps do not depend on how the time is cut into frames: two runs that took the
/// same time and caught up with it made the same number of steps, give or take one, as
/// long as the rounding of all their frames adds up to less than a step.
pub proof fn lemma_rate_independent(start: Scalar, deltas: Seq<Scalar>, others: Seq<Scalar>, most: int)
    requires
        at_most(ZERO, start),
        time_passed(deltas) == time_passed(others),
        backlog_within(start, deltas, most),
        backlog_within(start, others, most),
        at_most(clock(start, deltas), step_time()),
        at_most(clock(start, others), step_time()),
        (deltas.len() + others.len()) * (3 * most + 4 * value(step_time())) < 2 * value(step_time())
            * FRACTION_LIMIT,
    ensures
        -1 <= steps_made(start, deltas) - steps_made(start, others) <= 1,
{
    lemma_no_time_lost(start, deltas, most);
    lemma_no_time_lost(start, others, most);
    lemma_step_time();
    lemma_step_times();
    lemma_magnitude_zero(ZERO);
    let limit = FRACTION_LIMIT as int;
    let t = value(step_time());
    let share = 3 * most + 4 * t;
    let (n, m) = (steps_made(start, deltas), steps_made(start, others));
    let (a, b) = (value(clock(start, deltas)), value(clock(start, others)));
    let total = value(start) + time_passed(deltas);
    let (first, second) = (n * t + a - total, m * t + b - total);
    let (i, j) = (deltas.len() as int, others.len() as int);
    assert((i + j) * share == i * share + j * share) by (nonlinear_arith);
    assert(2 * size(first - second) * limit <= 2 * size(first) * limit + 2 * size(second) * limit)
        by (nonlinear_arith)
        requires
            limit > 0,
    ;
    assert(size(first - second) < t) by (nonlinear_arith)
        requires
            2 * size(first - second) * limit < 2 * t * limit,
            limit > 0,
    ;
    assert(-1 <= n - m <= 1) by (nonlinear_arith)
        requires
            -2 * t < n * t - m * t < 2 * t,
            t > 0,
    ;
}

} // verus!
