use water_app::arithmetic::{divided, from_u32, minus, negate, plus, times};
use water_app::constants as c;
use water_app::clock_laws::STEP_TIME;
use water_app::scalar::{ONE, ZERO};

#[test]
fn constants_of_the_pool_and_the_pass() {
    assert_eq!(c::HALF, (0.5f32).to_bits());
    assert_eq!(c::TWO, (2.0f32).to_bits());
    assert_eq!(c::FOUR, (4.0f32).to_bits());
    assert_eq!(c::POOL_HALF, (1.0f32).to_bits());
    assert_eq!(c::WORLD_SCALE, (1.0f32).to_bits());
    assert_eq!(c::SPHERE_RADIUS, (0.25f32).to_bits());
    assert_eq!(c::SPHERE_SIM_RADIUS, (0.25f32).to_bits());
    assert_eq!(c::SPHERE_SIM_DIAMETER, (0.5f32).to_bits());
    assert_eq!(c::SIDE_LIMIT, (0.75f32).to_bits());
    assert_eq!(c::NEGATIVE_SIDE_LIMIT, (-0.75f32).to_bits());
    assert_eq!(c::FLOOR_LIMIT, (-0.75f32).to_bits());
    assert_eq!(c::CEILING_LIMIT, (1.0f32).to_bits());
    assert_eq!(c::DROP_RADIUS, (0.03f32).to_bits());
    assert_eq!(c::DROP_STRENGTH, (0.02f32).to_bits());
    assert_eq!(c::BALL_START_X, (-0.4f32).to_bits());
    assert_eq!(c::BALL_START_Y, (-0.5f32).to_bits());
    assert_eq!(c::BALL_START_Z, (0.2f32).to_bits());
    assert_eq!(c::DEFAULT_SPHERE_Y, (-1.0f32).to_bits());
    assert_eq!(c::CURSOR_TOLERANCE, (1.5f32).to_bits());
    assert_eq!(c::MAX_FRAME_TIME, (0.05f32).to_bits());
    assert_eq!(c::GRAVITY, (-4.0f32).to_bits());
    assert_eq!(c::BUOYANCY, (1.1f32).to_bits());
    assert_eq!(c::SLOW, (0.000001f32).to_bits());
    assert_eq!(c::REBOUND, (0.7f32).to_bits());
    assert_eq!(c::SPIN_RATE, (0.4f32).to_bits());
    assert_eq!(c::SLANT_X, (0.3f32).to_bits());
    assert_eq!(c::SLANT_Y, (1.0f32).to_bits());
    assert_eq!(c::SLANT_Z, (0.2f32).to_bits());
    assert_eq!(c::SHORT, (0.00001f32).to_bits());
    assert_eq!(c::PARALLEL, (0.000001f32).to_bits());
    assert_eq!(c::TEXEL, (0.00390625f32).to_bits());
    assert_eq!(c::STEP_HZ, (60.0f32).to_bits());
    assert_eq!(c::EXTENT, (1.0f32).to_bits());
    assert_eq!(c::WATER_LEVEL, (0.0f32).to_bits());
    assert_eq!(c::HEIGHT_SCALE, (8.0f32).to_bits());
    assert_eq!(c::FLOOR_Y, (-1.0f32).to_bits());
    assert_eq!(c::MINUS_ONE, (-1.0f32).to_bits());
    assert_eq!(c::SCATTER_STEPS, (65536.0f32).to_bits());
}

#[test]
fn constants_of_the_scene() {
    assert_eq!(c::SUN_GREEN, (0.96f32).to_bits());
    assert_eq!(c::SUN_BLUE, (0.88f32).to_bits());
    assert_eq!(c::SHALLOW_RED, (0.16f32).to_bits());
    assert_eq!(c::SHALLOW_GREEN, (0.46f32).to_bits());
    assert_eq!(c::SHALLOW_BLUE, (0.52f32).to_bits());
    assert_eq!(c::DEEP_RED, (0.03f32).to_bits());
    assert_eq!(c::DEEP_GREEN, (0.16f32).to_bits());
    assert_eq!(c::DEEP_BLUE, (0.24f32).to_bits());
    assert_eq!(c::BLOOM_INTENSITY, (0.3f32).to_bits());
    assert_eq!(c::BLOOM_THRESHOLD, (1.3f32).to_bits());
    assert_eq!(c::WATER_Y, (0.0f32).to_bits());
    assert_eq!(c::CAMERA_FOCUS_Y, (-0.2f32).to_bits());
    assert_eq!(c::CAMERA_RADIUS, (4.0f32).to_bits());
    assert_eq!(c::CAMERA_YAW, (3.7f32).to_bits());
    assert_eq!(c::CAMERA_PITCH, (0.42f32).to_bits());
    assert_eq!(c::PANEL_LEFT, (16.0f32).to_bits());
    assert_eq!(c::PANEL_TOP, (16.0f32).to_bits());
    assert_eq!(c::PANEL_RIGHT, (216.0f32).to_bits());
    assert_eq!(c::PANEL_BOTTOM, (184.0f32).to_bits());
    assert_eq!(c::RAIN_THICKNESS, (0.02f32).to_bits());
    assert_eq!(c::RAIN_HEIGHT, (1.6f32).to_bits());
    assert_eq!(c::RAIN_RATE, (450.0f32).to_bits());
    assert_eq!(c::RAIN_LIFE_MIN, (0.5f32).to_bits());
    assert_eq!(c::RAIN_LIFE_MAX, (0.7f32).to_bits());
    assert_eq!(c::RAIN_SPEED_MIN, (1.8f32).to_bits());
    assert_eq!(c::RAIN_SPEED_MAX, (2.6f32).to_bits());
    assert_eq!(c::RAIN_SPREAD, (0.03f32).to_bits());
    assert_eq!(c::RAIN_GRAVITY, (-5.0f32).to_bits());
    assert_eq!(c::RAIN_DRAG, (0.0f32).to_bits());
    assert_eq!(c::RAIN_SIZE_START, (0.045f32).to_bits());
    assert_eq!(c::RAIN_SIZE_END, (0.02f32).to_bits());
    assert_eq!(c::RAIN_GLOW, (0.7f32).to_bits());
    assert_eq!(c::MIST_MIDDLE, (0.7f32).to_bits());
    assert_eq!(c::MIST_RED_START, (0.85f32).to_bits());
    assert_eq!(c::MIST_GREEN_START, (0.93f32).to_bits());
    assert_eq!(c::MIST_RED_MIDDLE, (0.7f32).to_bits());
    assert_eq!(c::MIST_GREEN_MIDDLE, (0.85f32).to_bits());
    assert_eq!(c::MIST_ALPHA_MIDDLE, (0.95f32).to_bits());
    assert_eq!(c::MIST_RED_END, (0.6f32).to_bits());
    assert_eq!(c::MIST_GREEN_END, (0.8f32).to_bits());
    assert_eq!(c::HELP_LEFT, (18.0f32).to_bits());
    assert_eq!(c::HELP_TOP, (200.0f32).to_bits());
    assert_eq!(c::HEADLINE_SIZE, (26.0f32).to_bits());
    assert_eq!(c::LINE_SIZE, (18.0f32).to_bits());
    assert_eq!(c::LINE_GAP, (8.0f32).to_bits());
    assert_eq!(c::TEXT_RED, (0.95f32).to_bits());
    assert_eq!(c::TEXT_GREEN, (0.98f32).to_bits());
    assert_eq!(c::OUTLINE_WIDTH, (0.04f32).to_bits());
}

#[test]
fn the_pass_draws_the_pool_of_the_game() {
    assert_eq!(c::EXTENT, c::POOL_HALF);
    assert_eq!(c::WATER_LEVEL, c::WATER_Y);
    assert_eq!(c::FLOOR_Y, negate(c::POOL_HALF));
    assert_eq!(c::POOL_RIM, (1.0f32 / 6.0).to_bits());
}

#[test]
fn zero_and_one() {
    assert_eq!(ZERO, 0.0f32.to_bits());
    assert_eq!(ONE, 1.0f32.to_bits());
    assert_eq!(STEP_TIME, (1.0f32 / 60.0).to_bits());
    assert_eq!(divided(ONE, c::STEP_HZ), STEP_TIME);
}

#[test]
fn limits_follow_from_pool_and_radius() {
    assert_eq!(c::SIDE_LIMIT, times(c::POOL_HALF, minus(ONE, c::SPHERE_SIM_RADIUS)));
    assert_eq!(c::NEGATIVE_SIDE_LIMIT, negate(c::SIDE_LIMIT));
    assert_eq!(c::FLOOR_LIMIT, times(minus(c::SPHERE_SIM_RADIUS, ONE), c::WORLD_SCALE));
    assert_eq!(c::CEILING_LIMIT, c::WORLD_SCALE);
    assert_eq!(c::SPHERE_SIM_DIAMETER, times(c::TWO, c::SPHERE_SIM_RADIUS));
    assert_eq!(plus(c::SIDE_LIMIT, c::SPHERE_SIM_RADIUS), c::POOL_HALF);
    assert_eq!(c::TEXEL, divided(ONE, from_u32(256)));
}
