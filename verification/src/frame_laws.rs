//! What comes out of a frame: the turns that the ball makes, where the drops of the rain
//! fall, and what the pass is told.

use crate::arithmetic::{from_whole, product, quotient, size, unit};
use crate::bounds::{is_finite, lemma_dyadic, lemma_one_is_neutral};
use crate::constants::{MAX_FRAME_TIME, SCATTER_STEPS, SPIN_RATE, TWO};
use crate::grid_laws::lemma_from_whole;
use crate::limits::lemma_limit_values;
use crate::motion_laws::{
    frame_time, lemma_factor_off, lemma_far_from_overflow, lemma_frame_time_near, lemma_small_ratio,
    lemma_without_factor,
};
use crate::params::WaterParams;
use crate::picking_laws::lemma_small_product;
use crate::plugin::{scatter_point, world_position, DragMode, InputFrame, WaterState};
use crate::roll_laws::{
    across, lemma_ball_rolls_along_its_way, lemma_half_near, lemma_short_way_does_not_roll,
    moved_over_floor,
};
use crate::rotation_laws::lemma_zero_over;
use crate::rounding::{lemma_rounded_exact, lemma_spread_at};
use crate::scalar::{at_most, is_nan, lemma_magnitude_zero, smaller, spread, value, Scalar, ZERO};
use crate::spin_laws::{lemma_axis_slant, slant_length};
use crate::vector::{Vec2, Vec3};
use vstd::arithmetic::power2::{lemma2_to64, lemma_pow2_adds, lemma_pow2_unfold, pow2};
use vstd::prelude::*;

verus! {

/// The half of the angle of a frame, as computed.
proof fn lemma_spin_angle(delta: Scalar)
    requires
        is_finite(delta),
        0 <= 16 * value(delta) <= unit(),
    ensures
        size(5 * value(quotient(product(SPIN_RATE, delta), TWO)) - value(delta)) * 0x8_0000 <= unit(),
{
    lemma_limit_values();
    lemma_far_from_overflow();
    lemma2_to64();
    lemma_dyadic(0xCC_CCCD, 124, 25);
    let (u, v, t) = (unit(), value(SPIN_RATE), value(delta));
    assert(v * 0x200_0000 == 0xCC_CCCD * u);
    assert(0 <= v * t <= u * u) by (nonlinear_arith)
        requires
            0 <= v <= u,
            0 <= t <= u,
    ;
    lemma_small_product(SPIN_RATE, delta, u);
    let x = value(product(SPIN_RATE, delta));
    lemma_factor_off(5 * v, 2 * u, t, u, u);
    assert((5 * v) * t == 5 * (v * t) && (2 * u) * t == (2 * t) * u) by (nonlinear_arith);
    let g = 5 * x - 2 * t;
    assert(g * u == 5 * (x * u) - (2 * t) * u) by (nonlinear_arith)
        requires
            g == 5 * x - 2 * t,
    ;
    assert((11 * u) * u == 11 * (u * u)) by (nonlinear_arith);
    lemma_without_factor(g, u, 11 * u);
    let two = value(TWO);
    let q = size(x) + 0x100_0000;
    assert(size(x) * u <= two * q) by (nonlinear_arith)
        requires
            two == 2 * u,
            q >= size(x),
            u > 0,
    ;
    lemma_small_ratio(product(SPIN_RATE, delta), TWO, q);
    lemma_half_near(value(quotient(product(SPIN_RATE, delta), TWO)), two, x, u);
}

/// In every frame that is not paused the ball turns by itself, around the direction of
/// (0.3, 1, 0.2), at four tenths of the frame's time: the half of that angle is a fifth of
/// the time. A paused ball does not turn.
pub proof fn lemma_spin_in_frame(state: WaterState, delta_time: Scalar, l: int)
    requires
        at_most(ZERO, delta_time),
        slant_length(l),
    ensures
        state.turns_in(delta_time) is None <==> state.paused,
        state.turns_in(delta_time) matches Some((spin, roll)) ==> {
            let u = unit();
            &&& size(5 * value(spin.half_angle) - frame_time(delta_time)) * 0x8_0000 <= u
            &&& size(10 * (value(spin.axis.x) * l) - 3 * (u * u)) * 0x400 <= u * u
            &&& size(10 * (value(spin.axis.y) * l) - 10 * (u * u)) * 0x400 <= u * u
            &&& size(10 * (value(spin.axis.z) * l) - 2 * (u * u)) * 0x400 <= u * u
        },
{
    lemma_frame_time_near(delta_time);
    lemma_spin_angle(smaller(delta_time, MAX_FRAME_TIME));
    lemma_axis_slant(l);
}

/// In a frame that moved the ball clearly far enough over the floor it rolls, around the
/// axis across its way and by twice the way to either half; in one that moved it clearly
/// less it does not.
pub proof fn lemma_roll_in_frame(state: WaterState, delta_time: Scalar, x: int, z: int, d: int)
    requires
        !state.paused,
        moved_over_floor(state.after_motion(delta_time), x, z, d),
    ensures
        ({
            let turns = state.turns_in(delta_time);
            &&& 0x1_0000 * d >= unit() ==> (turns matches Some((spin, roll)) && roll matches Some(turn) && across(
                turn.axis,
                x,
                z,
                d,
            ) && size(value(turn.half_angle) - 2 * d) * 0x1000 <= d)
            &&& 0x2_0000 * d <= unit() ==> (turns matches Some((spin, roll)) && roll is None)
        }),
{
    let after = state.after_motion(delta_time);
    if 0x1_0000 * d >= unit() {
        lemma_ball_rolls_along_its_way(after, x, z, d);
    }
    if 0x2_0000 * d <= unit() {
        lemma_short_way_does_not_roll(after, x, z, d);
    }
}

/// A coordinate of a drop of the rain: exactly one of 65536 places along the side.
proof fn lemma_scatter_exact(n: int)
    requires
        0 <= n < 0x1_0000,
    ensures
        value(quotient(from_whole(n), SCATTER_STEPS)) * 0x1_0000 == n * unit(),
{
    lemma_limit_values();
    lemma2_to64();
    lemma_dyadic(0x80_0000, 142, 7);
    let u = unit();
    assert(value(SCATTER_STEPS) == 0x1_0000 * u);
    lemma_magnitude_zero(SCATTER_STEPS);
    if n == 0 {
        lemma_from_whole(0);
        lemma_zero_over(SCATTER_STEPS);
    } else {
        assert(n * pow2(0) == n && n * pow2(24) >= 0x80_0000) by (nonlinear_arith)
            requires
                pow2(0) == 1,
                pow2(24) == 0x100_0000,
                n >= 1,
        ;
        let (m, s) = lemma_shifted_up(n, n, 0);
        lemma_patterns_of(n, m, s);
        let (top, low) = ((149 - s) * 0x80_0000 + m, (133 - s) * 0x80_0000 + m);
        lemma_rounded_exact(n * u, 1, top);
        let w = from_whole(n);
        assert(w == top);
        assert(value(w) == n * u);
        let (num, den) = ((n * u) * u, 0x1_0000 * u);
        assert(num == den * spread(low)) by (nonlinear_arith)
            requires
                spread(low) * 0x1_0000 == n * u,
                num == (n * u) * u,
                den == 0x1_0000 * u,
        ;
        lemma_rounded_exact(num, den, low);
        lemma_magnitude_zero(quotient(w, SCATTER_STEPS));
        assert(quotient(w, SCATTER_STEPS) == low);
    }
}

/// A number below 65536 times as many powers of two as make it a whole significand.
proof fn lemma_shifted_up(n: int, m: int, s: nat) -> (r: (int, int))
    requires
        1 <= n < 0x1_0000,
        1 <= m < 0x100_0000,
        m == n * pow2(s),
        s <= 24,
        s < 24 || m >= 0x80_0000,
        m * pow2((24 - s) as nat) >= 0x80_0000,
    ensures
        0x80_0000 <= r.0 < 0x100_0000,
        0 <= r.1 <= 24,
        r.0 == n * pow2(r.1 as nat),
    decreases 24 - s,
{
    lemma2_to64();
    if m >= 0x80_0000 {
        (m, s as int)
    } else {
        lemma_pow2_unfold(s + 1);
        lemma_pow2_unfold((24 - s) as nat);
        assert(2 * m == n * pow2(s + 1)) by (nonlinear_arith)
            requires
                m == n * pow2(s),
                pow2(s + 1) == 2 * pow2(s),
        ;
        let (p, q) = (pow2((24 - s) as nat) as int, pow2((23 - s) as nat) as int);
        assert((2 * m) * q == m * p) by (nonlinear_arith)
            requires
                p == 2 * q,
        ;
        if s == 23 {
            assert((2 * m) * q == 2 * m) by (nonlinear_arith)
                requires
                    q == 1,
            ;
        }
        lemma_shifted_up(n, 2 * m, s + 1)
    }
}

/// The patterns of a whole number, and of a 65536th of it.
proof fn lemma_patterns_of(n: int, m: int, s: int)
    requires
        1 <= n < 0x1_0000,
        0x80_0000 <= m < 0x100_0000,
        0 <= s <= 24,
        m == n * pow2(s as nat),
    ensures
        spread((149 - s) * 0x80_0000 + m) == n * unit(),
        spread((133 - s) * 0x80_0000 + m) * 0x1_0000 == n * unit(),
{
    lemma2_to64();
    lemma_spread_at(m, 149 - s);
    lemma_spread_at(m, 133 - s);
    lemma_pow2_adds(s as nat, (149 - s) as nat);
    lemma_pow2_adds((133 - s) as nat, 16);
    let (a, b, c) = (pow2(s as nat) as int, pow2((149 - s) as nat) as int, pow2((133 - s) as nat) as int);
    assert((n * a) * b == n * (a * b)) by (nonlinear_arith);
    assert((m * c) * 0x1_0000 == m * (c * 0x1_0000)) by (nonlinear_arith);
}

/// The drops of the rain are spread evenly: the two halves of a random word pick one of
/// 65536 places along either side, so that every two words pick two places.
pub proof fn lemma_rain_is_spread(word: u32, other: u32)
    ensures
        value(scatter_point(word).x) * 0x1_0000 == (word as int / 0x1_0000) * unit(),
        value(scatter_point(word).y) * 0x1_0000 == (word as int % 0x1_0000) * unit(),
        scatter_point(word) == scatter_point(other) ==> word == other,
{
    lemma_limit_values();
    lemma_scatter_exact(word as int / 0x1_0000);
    lemma_scatter_exact(word as int % 0x1_0000);
    lemma_scatter_exact(other as int / 0x1_0000);
    lemma_scatter_exact(other as int % 0x1_0000);
    let (a, b, c, d, u) = (
        word as int / 0x1_0000,
        word as int % 0x1_0000,
        other as int / 0x1_0000,
        other as int % 0x1_0000,
        unit(),
    );
    if scatter_point(word) == scatter_point(other) {
        assert(a == c && b == d) by (nonlinear_arith)
            requires
                a * u == c * u,
                b * u == d * u,
                u > 0,
        ;
    }
}

/// The pass is told where the ball was in the frame before and where it is now, how it is
/// turned, and whether it is shown; its radius is a quarter.
pub proof fn lemma_pass_is_told(state: WaterState, scattered: Vec2, params: WaterParams)
    ensures
        ({
            let told = state.published(scattered, params);
            &&& told.sphere_old == state.ball_previous_center
            &&& told.sphere_new == state.ball_center
            &&& 4 * value(told.sphere_radius) == unit()
            &&& told.ball_rotation == state.ball_rotation
            &&& told.ball_shown == state.ball_shown
            &&& told.drop_active <==> !state.paused && (state.pending_drop is Some || state.rain)
            &&& told.drop_active ==> told.drop_center == (match state.pending_drop {
                Some(place) => place,
                None => scattered,
            })
            &&& state.after_publish().ball_previous_center == state.ball_center
            &&& state.after_publish().pending_drop is None
            &&& state.after_publish() == (WaterState {
                ball_previous_center: state.ball_center,
                pending_drop: None,
                ..state
            })
        }),
{
    lemma_limit_values();
}

/// The pool is the world: a point of the one is the same point of the other.
pub proof fn lemma_pool_is_world(center: Vec3)
    requires
        !is_nan(center.x),
        !is_nan(center.y),
        !is_nan(center.z),
    ensures
        world_position(center) == center,
{
    lemma_one_is_neutral(center.x);
    lemma_one_is_neutral(center.y);
    lemma_one_is_neutral(center.z);
}

/// The cursor and the keys move nothing but the ball that is dragged, and that one only along
/// a ray: how the ball is turned, where it was before, the rain and what is shown stay.
pub proof fn lemma_input_moves_dragged_ball(state: WaterState, input: InputFrame)
    ensures
        ({
            let after = state.after_input(input);
            &&& after.ball_rotation == state.ball_rotation
            &&& after.ball_previous_center == state.ball_previous_center
            &&& after.rain == state.rain
            &&& after.ball_shown == state.ball_shown
            &&& after.paused == (state.paused != input.toggle_pause)
            &&& after.drag_mode != DragMode::Ball || input.ray is None ==> after.ball_center
                == state.ball_center && after.ball_velocity == state.ball_velocity
            &&& !input.left_pressed ==> after.drag_plane_normal == state.drag_plane_normal
            &&& !input.left_pressed && input.ray is None ==> after.drag_prev_hit == state.drag_prev_hit
        }),
{
}

/// The time of a frame moves nothing but the ball.
pub proof fn lemma_time_moves_ball(state: WaterState, delta_time: Scalar)
    ensures
        ({
            let after = state.after_motion(delta_time);
            after == (WaterState {
                ball_center: after.ball_center,
                ball_velocity: after.ball_velocity,
                ..state
            })
        }),
        state.paused ==> state.after_motion(delta_time) == state,
        !state.paused && state.drag_mode == DragMode::Ball ==> state.after_motion(delta_time).ball_center
            == state.ball_center,
{
}

} // verus!
