//! The numbers that the pool, the ball and the pass are made of.

use crate::arithmetic::{signed, size, unit};
use crate::rounding::{lemma_rounded, lemma_spread_at, nearest, rounded, twice_midpoint};
use crate::scalar::{Scalar, FRACTION_LIMIT, INFINITY, ZERO};
use vstd::arithmetic::power2::{
    lemma2_to64, lemma2_to64_rest, lemma_pow2_adds, lemma_pow2_pos, lemma_pow2_unfold, pow2,
};
use vstd::prelude::*;

verus! {

/// 0.5
pub const HALF: Scalar = 0x3F00_0000;

/// 2.0
pub const TWO: Scalar = 0x4000_0000;

/// 4.0
pub const FOUR: Scalar = 0x4080_0000;

/// 1.0: half the width of the pool.
pub const POOL_HALF: Scalar = 0x3F80_0000;

/// 1.0: the height of the world that one unit of pool height takes.
pub const WORLD_SCALE: Scalar = 0x3F80_0000;

/// 0.25: the radius of the ball.
pub const SPHERE_RADIUS: Scalar = 0x3E80_0000;

/// 0.25: the radius of the ball in the height field.
pub const SPHERE_SIM_RADIUS: Scalar = 0x3E80_0000;

/// 0.5: twice the radius of the ball in the height field.
pub const SPHERE_SIM_DIAMETER: Scalar = 0x3F00_0000;

/// 0.75: how far the ball's centre may be from the middle along a side.
pub const SIDE_LIMIT: Scalar = 0x3F40_0000;

/// -0.75: the same limit on the other side.
pub const NEGATIVE_SIDE_LIMIT: Scalar = 0xBF40_0000;

/// -0.75: how low the ball's centre may be.
pub const FLOOR_LIMIT: Scalar = 0xBF40_0000;

/// 1.0: how high the ball may be dragged.
pub const CEILING_LIMIT: Scalar = 0x3F80_0000;

/// 0.03: the radius of a drop.
pub const DROP_RADIUS: Scalar = 0x3CF5_C28F;

/// 0.02: the strength of a drop.
pub const DROP_STRENGTH: Scalar = 0x3CA3_D70A;

/// -0.4: where the ball starts.
pub const BALL_START_X: Scalar = 0xBECC_CCCD;

/// -0.5: where the ball starts.
pub const BALL_START_Y: Scalar = 0xBF00_0000;

/// 0.2: where the ball starts.
pub const BALL_START_Z: Scalar = 0x3E4C_CCCD;

/// -1.0: where the ball is before the first frame.
pub const DEFAULT_SPHERE_Y: Scalar = 0xBF80_0000;

/// 1.5: how far the cursor goes before it counts as moved.
pub const CURSOR_TOLERANCE: Scalar = 0x3FC0_0000;

/// 0.05: the longest time that a frame may simulate.
pub const MAX_FRAME_TIME: Scalar = 0x3D4C_CCCD;

/// -4.0: the pull downwards.
pub const GRAVITY: Scalar = 0xC080_0000;

/// 1.1: the lift of a fully submerged ball, in units of the pull.
pub const BUOYANCY: Scalar = 0x3F8C_CCCD;

/// 0.000001: the squared speed up to which water does not brake.
pub const SLOW: Scalar = 0x3586_37BD;

/// 0.7: the share of its speed that a bounce leaves.
pub const REBOUND: Scalar = 0x3F33_3333;

/// 0.4: how fast the ball turns by itself.
pub const SPIN_RATE: Scalar = 0x3ECC_CCCD;

/// 0.3: where the slanted direction of the sun and of the ball's axis points.
pub const SLANT_X: Scalar = 0x3E99_999A;

/// 1.0: where the slanted direction of the sun and of the ball's axis points.
pub const SLANT_Y: Scalar = 0x3F80_0000;

/// 0.2: where the slanted direction of the sun and of the ball's axis points.
pub const SLANT_Z: Scalar = 0x3E4C_CCCD;

/// 0.00001: the length up to which a movement rolls nothing.
pub const SHORT: Scalar = 0x3727_C5AC;

/// 0.000001: up to here a ray counts as parallel to a plane.
pub const PARALLEL: Scalar = 0x3586_37BD;

/// 1.0 / 256.0: the width of a cell of the height field.
pub const TEXEL: Scalar = 0x3B80_0000;

/// 60.0: simulation steps for each second.
pub const STEP_HZ: Scalar = 0x4270_0000;

/// 1.0: half the width of the drawn pool.
pub const EXTENT: Scalar = 0x3F80_0000;

/// 0.0: the height of the resting water.
pub const WATER_LEVEL: Scalar = 0x0000_0000;

/// 8.0: how much the height field is raised.
pub const HEIGHT_SCALE: Scalar = 0x4100_0000;

/// -1.0: the height of the drawn floor.
pub const FLOOR_Y: Scalar = 0xBF80_0000;

/// 1.0 / 6.0: the height of the rim of the pool.
pub const POOL_RIM: Scalar = 0x3E2A_AAAB;

/// -1.0
pub const MINUS_ONE: Scalar = 0xBF80_0000;

/// 65536.0: how many places along a side of the field the rain picks from.
pub const SCATTER_STEPS: Scalar = 0x4780_0000;

/// 0.96: the green of the sunlight.
pub const SUN_GREEN: Scalar = 0x3F75_C28F;

/// 0.88: the blue of the sunlight.
pub const SUN_BLUE: Scalar = 0x3F61_47AE;

/// 0.16: the red of shallow water.
pub const SHALLOW_RED: Scalar = 0x3E23_D70A;

/// 0.46: the green of shallow water.
pub const SHALLOW_GREEN: Scalar = 0x3EEB_851F;

/// 0.52: the blue of shallow water.
pub const SHALLOW_BLUE: Scalar = 0x3F05_1EB8;

/// 0.03: the red of deep water.
pub const DEEP_RED: Scalar = 0x3CF5_C28F;

/// 0.16: the green of deep water.
pub const DEEP_GREEN: Scalar = 0x3E23_D70A;

/// 0.24: the blue of deep water.
pub const DEEP_BLUE: Scalar = 0x3E75_C28F;

/// 0.3: how strong bright spots bloom.
pub const BLOOM_INTENSITY: Scalar = 0x3E99_999A;

/// 1.3: from which brightness on spots bloom.
pub const BLOOM_THRESHOLD: Scalar = 0x3FA6_6666;

/// 0.0: the rest height of the water.
pub const WATER_Y: Scalar = 0x0000_0000;

/// -0.2: the height that the camera looks at.
pub const CAMERA_FOCUS_Y: Scalar = 0xBE4C_CCCD;

/// 4.0: how far the camera is from what it looks at.
pub const CAMERA_RADIUS: Scalar = 0x4080_0000;

/// 3.7: how far the camera is turned.
pub const CAMERA_YAW: Scalar = 0x406C_CCCD;

/// 0.42: how far the camera is tilted.
pub const CAMERA_PITCH: Scalar = 0x3ED7_0A3D;

/// 16.0: the left edge of the panel.
pub const PANEL_LEFT: Scalar = 0x4180_0000;

/// 16.0: the upper edge of the panel.
pub const PANEL_TOP: Scalar = 0x4180_0000;

/// 216.0: the right edge of the panel.
pub const PANEL_RIGHT: Scalar = 0x4358_0000;

/// 184.0: the lower edge of the panel.
pub const PANEL_BOTTOM: Scalar = 0x4338_0000;

/// 0.02: half the height of the cloud.
pub const RAIN_THICKNESS: Scalar = 0x3CA3_D70A;

/// 1.6: the height of the cloud.
pub const RAIN_HEIGHT: Scalar = 0x3FCC_CCCD;

/// 450.0: drops for each second.
pub const RAIN_RATE: Scalar = 0x43E1_0000;

/// 0.5: the shortest life of a drop.
pub const RAIN_LIFE_MIN: Scalar = 0x3F00_0000;

/// 0.7: the longest life of a drop.
pub const RAIN_LIFE_MAX: Scalar = 0x3F33_3333;

/// 1.8: the lowest speed of a drop.
pub const RAIN_SPEED_MIN: Scalar = 0x3FE6_6666;

/// 2.6: the highest speed of a drop.
pub const RAIN_SPEED_MAX: Scalar = 0x4026_6666;

/// 0.03: how far the drops spread.
pub const RAIN_SPREAD: Scalar = 0x3CF5_C28F;

/// -5.0: the pull on a drop.
pub const RAIN_GRAVITY: Scalar = 0xC0A0_0000;

/// 0.0: nothing brakes a drop.
pub const RAIN_DRAG: Scalar = 0x0000_0000;

/// 0.045: the size of a young drop.
pub const RAIN_SIZE_START: Scalar = 0x3D38_51EC;

/// 0.02: the size of an old drop.
pub const RAIN_SIZE_END: Scalar = 0x3CA3_D70A;

/// 0.7: how strong a drop glows.
pub const RAIN_GLOW: Scalar = 0x3F33_3333;

/// 0.7: when a drop reaches the second colour.
pub const MIST_MIDDLE: Scalar = 0x3F33_3333;

/// 0.85: the red of a young drop.
pub const MIST_RED_START: Scalar = 0x3F59_999A;

/// 0.93: the green of a young drop.
pub const MIST_GREEN_START: Scalar = 0x3F6E_147B;

/// 0.7: the red of a drop in the middle of its life.
pub const MIST_RED_MIDDLE: Scalar = 0x3F33_3333;

/// 0.85: the green of a drop in the middle of its life.
pub const MIST_GREEN_MIDDLE: Scalar = 0x3F59_999A;

/// 0.95: how opaque a drop in the middle of its life is.
pub const MIST_ALPHA_MIDDLE: Scalar = 0x3F73_3333;

/// 0.6: the red of an old drop.
pub const MIST_RED_END: Scalar = 0x3F19_999A;

/// 0.8: the green of an old drop.
pub const MIST_GREEN_END: Scalar = 0x3F4C_CCCD;

/// 18.0: the left edge of the legend.
pub const HELP_LEFT: Scalar = 0x4190_0000;

/// 200.0: the upper edge of the legend.
pub const HELP_TOP: Scalar = 0x4348_0000;

/// 26.0: the size of the legend's first line.
pub const HEADLINE_SIZE: Scalar = 0x41D0_0000;

/// 18.0: the size of the legend's other lines.
pub const LINE_SIZE: Scalar = 0x4190_0000;

/// 8.0: the gap between two lines of the legend.
pub const LINE_GAP: Scalar = 0x4100_0000;

/// 0.95: the red of the legend.
pub const TEXT_RED: Scalar = 0x3F73_3333;

/// 0.98: the green of the legend.
pub const TEXT_GREEN: Scalar = 0x3F7A_E148;

/// 0.04: the width of the legend's outline.
pub const OUTLINE_WIDTH: Scalar = 0x3D23_D70A;

/// The scalar nearest to the fraction `num / den`.
pub open spec fn decimal(num: int, den: int) -> Scalar {
    signed(num < 0, rounded(size(num) * unit(), den))
}

/// A fraction between the two midpoints around a significand rounds to it.
pub proof fn lemma_decimal(num: int, den: int, m: int, e: int, grow: int)
    requires
        0 < e <= 149,
        FRACTION_LIMIT <= m < 2 * FRACTION_LIMIT,
        den > 0,
        grow == pow2((149 - e) as nat),
        m > FRACTION_LIMIT ==> den * (2 * m - 1) < 2 * (size(num) * grow),
        m == FRACTION_LIMIT ==> den * (4 * m - 1) < 4 * (size(num) * grow),
        2 * (size(num) * grow) < den * (2 * m + 1),
    ensures
        decimal(num, den) == signed(num < 0, e * FRACTION_LIMIT + m),
{
    let limit = FRACTION_LIMIT as int;
    let p = pow2(e as nat) as int;
    let h = pow2((e - 1) as nat) as int;
    let u = e * limit + m;
    let whole = size(num) * grow;
    lemma_pow2_unfold(e as nat);
    lemma_pow2_pos((e - 1) as nat);
    lemma_pow2_adds(e as nat, (149 - e) as nat);
    lemma_spread_at(m, e);
    lemma_spread_at(m + 1, e);
    assert(size(num) * unit() == whole * p) by (nonlinear_arith)
        requires
            whole == size(num) * grow,
            unit() == p * grow,
    ;
    assert(2 * (whole * p) < den * twice_midpoint(u)) by (nonlinear_arith)
        requires
            2 * whole < den * (2 * m + 1),
            twice_midpoint(u) == m * p + (m + 1) * p,
            p > 0,
    ;
    if m > limit {
        lemma_spread_at(m - 1, e);
        assert(den * twice_midpoint(u - 1) < 2 * (whole * p)) by (nonlinear_arith)
            requires
                den * (2 * m - 1) < 2 * whole,
                twice_midpoint(u - 1) == (m - 1) * p + m * p,
                p > 0,
        ;
    } else {
        lemma_spread_at(2 * limit - 1, e - 1);
        assert(u - 1 == (e - 1) * limit + (2 * limit - 1)) by (nonlinear_arith)
            requires
                u == e * limit + limit,
        ;
        assert(den * twice_midpoint(u - 1) < 2 * (whole * p)) by (nonlinear_arith)
            requires
                den * (4 * m - 1) < 4 * whole,
                twice_midpoint(u - 1) == (2 * limit - 1) * h + m * p,
                m == limit,
                p == 2 * h,
                h > 0,
        ;
    }
    assert(u < INFINITY) by (nonlinear_arith)
        requires
            u == e * limit + m,
            e <= 149,
            m < 2 * limit,
            limit == 0x80_0000,
    ;
    assert(nearest(size(num) * unit(), den, u));
    lemma_rounded(size(num) * unit(), den, u);
}

/// Zero is exact.
proof fn lemma_decimal_zero()
    ensures
        decimal(0, 1) == ZERO,
{
    lemma_spread_at(0, 0);
    lemma_spread_at(1, 0);
    lemma2_to64();
    assert(0 * unit() == 0);
    assert(nearest(0, 1, 0));
    lemma_rounded(0, 1, 0);
}

/// Every constant of the pool and the pass is the scalar nearest to the decimal number that it stands
/// for.
#[verifier::rlimit(50)]
pub proof fn lemma_constants()
    ensures
        HALF == decimal(1, 2),
        TWO == decimal(2, 1),
        FOUR == decimal(4, 1),
        POOL_HALF == decimal(1, 1),
        WORLD_SCALE == decimal(1, 1),
        SPHERE_RADIUS == decimal(1, 4),
        SPHERE_SIM_RADIUS == decimal(1, 4),
        SPHERE_SIM_DIAMETER == decimal(1, 2),
        SIDE_LIMIT == decimal(3, 4),
        NEGATIVE_SIDE_LIMIT == decimal(-3, 4),
        FLOOR_LIMIT == decimal(-3, 4),
        CEILING_LIMIT == decimal(1, 1),
        DROP_RADIUS == decimal(3, 100),
        DROP_STRENGTH == decimal(2, 100),
        BALL_START_X == decimal(-4, 10),
        BALL_START_Y == decimal(-5, 10),
        BALL_START_Z == decimal(2, 10),
        DEFAULT_SPHERE_Y == decimal(-1, 1),
        CURSOR_TOLERANCE == decimal(15, 10),
        MAX_FRAME_TIME == decimal(5, 100),
        GRAVITY == decimal(-4, 1),
        BUOYANCY == decimal(11, 10),
        SLOW == decimal(1, 1000000),
        REBOUND == decimal(7, 10),
        SPIN_RATE == decimal(4, 10),
        SLANT_X == decimal(3, 10),
        SLANT_Y == decimal(1, 1),
        SLANT_Z == decimal(2, 10),
        SHORT == decimal(1, 100000),
        PARALLEL == decimal(1, 1000000),
        TEXEL == decimal(1, 256),
        STEP_HZ == decimal(60, 1),
        EXTENT == decimal(1, 1),
        WATER_LEVEL == decimal(0, 1),
        HEIGHT_SCALE == decimal(8, 1),
        FLOOR_Y == decimal(-1, 1),
        POOL_RIM == decimal(1, 6),
        MINUS_ONE == decimal(-1, 1),
        SCATTER_STEPS == decimal(65536, 1),
{
    lemma2_to64();
    lemma2_to64_rest();
    lemma_decimal_zero();
    lemma_decimal(1, 2, 0x800000, 125, 0x1000000);
    lemma_decimal(2, 1, 0x800000, 127, 0x400000);
    lemma_decimal(4, 1, 0x800000, 128, 0x200000);
    lemma_decimal(1, 1, 0x800000, 126, 0x800000);
    lemma_decimal(1, 4, 0x800000, 124, 0x2000000);
    lemma_decimal(3, 4, 0xC00000, 125, 0x1000000);
    lemma_decimal(-3, 4, 0xC00000, 125, 0x1000000);
    lemma_decimal(3, 100, 0xF5C28F, 120, 0x20000000);
    lemma_decimal(2, 100, 0xA3D70A, 120, 0x20000000);
    lemma_decimal(-4, 10, 0xCCCCCD, 124, 0x2000000);
    lemma_decimal(-5, 10, 0x800000, 125, 0x1000000);
    lemma_decimal(2, 10, 0xCCCCCD, 123, 0x4000000);
    lemma_decimal(-1, 1, 0x800000, 126, 0x800000);
    lemma_decimal(15, 10, 0xC00000, 126, 0x800000);
    lemma_decimal(5, 100, 0xCCCCCD, 121, 0x10000000);
    lemma_decimal(-4, 1, 0x800000, 128, 0x200000);
    lemma_decimal(11, 10, 0x8CCCCD, 126, 0x800000);
    lemma_decimal(1, 1000000, 0x8637BD, 106, 0x80000000000);
    lemma_decimal(7, 10, 0xB33333, 125, 0x1000000);
    lemma_decimal(4, 10, 0xCCCCCD, 124, 0x2000000);
    lemma_decimal(3, 10, 0x99999A, 124, 0x2000000);
    lemma_decimal(1, 100000, 0xA7C5AC, 109, 0x10000000000);
    lemma_decimal(1, 256, 0x800000, 118, 0x80000000);
    lemma_decimal(60, 1, 0xF00000, 131, 0x40000);
    lemma_decimal(8, 1, 0x800000, 129, 0x100000);
    lemma_decimal(1, 6, 0xAAAAAB, 123, 0x4000000);
    lemma_decimal(65536, 1, 0x800000, 142, 0x80);
}

/// Every constant of the scene is the scalar nearest to its decimal number.
#[verifier::rlimit(50)]
pub proof fn lemma_scene_constants()
    ensures
        SUN_GREEN == decimal(96, 100),
        SUN_BLUE == decimal(88, 100),
        SHALLOW_RED == decimal(16, 100),
        SHALLOW_GREEN == decimal(46, 100),
        SHALLOW_BLUE == decimal(52, 100),
        DEEP_RED == decimal(3, 100),
        DEEP_GREEN == decimal(16, 100),
        DEEP_BLUE == decimal(24, 100),
        BLOOM_INTENSITY == decimal(3, 10),
        BLOOM_THRESHOLD == decimal(13, 10),
        WATER_Y == decimal(0, 1),
        CAMERA_FOCUS_Y == decimal(-2, 10),
        CAMERA_RADIUS == decimal(4, 1),
        CAMERA_YAW == decimal(37, 10),
        CAMERA_PITCH == decimal(42, 100),
        PANEL_LEFT == decimal(16, 1),
        PANEL_TOP == decimal(16, 1),
        PANEL_RIGHT == decimal(216, 1),
        PANEL_BOTTOM == decimal(184, 1),
        RAIN_THICKNESS == decimal(2, 100),
        RAIN_HEIGHT == decimal(16, 10),
        RAIN_RATE == decimal(450, 1),
        RAIN_LIFE_MIN == decimal(5, 10),
        RAIN_LIFE_MAX == decimal(7, 10),
        RAIN_SPEED_MIN == decimal(18, 10),
        RAIN_SPEED_MAX == decimal(26, 10),
        RAIN_SPREAD == decimal(3, 100),
        RAIN_GRAVITY == decimal(-5, 1),
        RAIN_DRAG == decimal(0, 1),
        RAIN_SIZE_START == decimal(45, 1000),
        RAIN_SIZE_END == decimal(2, 100),
        RAIN_GLOW == decimal(7, 10),
        MIST_MIDDLE == decimal(7, 10),
        MIST_RED_START == decimal(85, 100),
        MIST_GREEN_START == decimal(93, 100),
        MIST_RED_MIDDLE == decimal(7, 10),
        MIST_GREEN_MIDDLE == decimal(85, 100),
        MIST_ALPHA_MIDDLE == decimal(95, 100),
        MIST_RED_END == decimal(6, 10),
        MIST_GREEN_END == decimal(8, 10),
        HELP_LEFT == decimal(18, 1),
        HELP_TOP == decimal(200, 1),
        HEADLINE_SIZE == decimal(26, 1),
        LINE_SIZE == decimal(18, 1),
        LINE_GAP == decimal(8, 1),
        TEXT_RED == decimal(95, 100),
        TEXT_GREEN == decimal(98, 100),
        OUTLINE_WIDTH == decimal(4, 100),
{
    lemma2_to64();
    lemma2_to64_rest();
    lemma_decimal_zero();
    lemma_decimal(96, 100, 0xF5C28F, 125, 0x1000000);
    lemma_decimal(88, 100, 0xE147AE, 125, 0x1000000);
    lemma_decimal(16, 100, 0xA3D70A, 123, 0x4000000);
    lemma_decimal(46, 100, 0xEB851F, 124, 0x2000000);
    lemma_decimal(52, 100, 0x851EB8, 125, 0x1000000);
    lemma_decimal(3, 100, 0xF5C28F, 120, 0x20000000);
    lemma_decimal(24, 100, 0xF5C28F, 123, 0x4000000);
    lemma_decimal(3, 10, 0x99999A, 124, 0x2000000);
    lemma_decimal(13, 10, 0xA66666, 126, 0x800000);
    lemma_decimal(-2, 10, 0xCCCCCD, 123, 0x4000000);
    lemma_decimal(4, 1, 0x800000, 128, 0x200000);
    lemma_decimal(37, 10, 0xECCCCD, 127, 0x400000);
    lemma_decimal(42, 100, 0xD70A3D, 124, 0x2000000);
    lemma_decimal(16, 1, 0x800000, 130, 0x80000);
    lemma_decimal(216, 1, 0xD80000, 133, 0x10000);
    lemma_decimal(184, 1, 0xB80000, 133, 0x10000);
    lemma_decimal(2, 100, 0xA3D70A, 120, 0x20000000);
    lemma_decimal(16, 10, 0xCCCCCD, 126, 0x800000);
    lemma_decimal(450, 1, 0xE10000, 134, 0x8000);
    lemma_decimal(5, 10, 0x800000, 125, 0x1000000);
    lemma_decimal(7, 10, 0xB33333, 125, 0x1000000);
    lemma_decimal(18, 10, 0xE66666, 126, 0x800000);
    lemma_decimal(26, 10, 0xA66666, 127, 0x400000);
    lemma_decimal(-5, 1, 0xA00000, 128, 0x200000);
    lemma_decimal(45, 1000, 0xB851EC, 121, 0x10000000);
    lemma_decimal(85, 100, 0xD9999A, 125, 0x1000000);
    lemma_decimal(93, 100, 0xEE147B, 125, 0x1000000);
    lemma_decimal(95, 100, 0xF33333, 125, 0x1000000);
    lemma_decimal(6, 10, 0x99999A, 125, 0x1000000);
    lemma_decimal(8, 10, 0xCCCCCD, 125, 0x1000000);
    lemma_decimal(18, 1, 0x900000, 130, 0x80000);
    lemma_decimal(200, 1, 0xC80000, 133, 0x10000);
    lemma_decimal(26, 1, 0xD00000, 130, 0x80000);
    lemma_decimal(8, 1, 0x800000, 129, 0x100000);
    lemma_decimal(98, 100, 0xFAE148, 125, 0x1000000);
    lemma_decimal(4, 100, 0xA3D70A, 121, 0x10000000);
}

} // verus!
