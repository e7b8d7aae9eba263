use nalgebra_glm as glm;
use water_app::params::WaterParams;
use water_app::plugin::{
    ball_world_position, intersect_ray_plane, ray_hits_sphere, scatter, DragMode, InputFrame, Ray, WaterState,
};
use water_app::vector::{SineCosine, Vec2, Vec3, Vec4};

fn bits3(v: glm::Vec3) -> Vec3 {
    Vec3 { x: v.x.to_bits(), y: v.y.to_bits(), z: v.z.to_bits() }
}

fn vec3(x: f32, y: f32, z: f32) -> Vec3 {
    bits3(glm::vec3(x, y, z))
}

fn float3(v: Vec3) -> glm::Vec3 {
    glm::vec3(f32::from_bits(v.x), f32::from_bits(v.y), f32::from_bits(v.z))
}

fn vec2(x: f32, y: f32) -> Vec2 {
    Vec2 { x: x.to_bits(), y: y.to_bits() }
}

fn quiet() -> InputFrame {
    InputFrame {
        left_pressed: false,
        left_held: false,
        toggle_pause: false,
        quit: false,
        cursor_delta: vec2(0.0, 0.0),
        ray: None,
        ground: None,
    }
}

fn press(ray: Option<Ray>, ground: Option<Vec3>) -> InputFrame {
    InputFrame { left_pressed: true, left_held: true, ray, ground, ..quiet() }
}

fn hold(ray: Option<Ray>, ground: Option<Vec3>) -> InputFrame {
    InputFrame { left_held: true, ray, ground, ..quiet() }
}

/// A ray from above straight down on the ball.
fn down_on_ball() -> Option<Ray> {
    Some(Ray { origin: vec3(-0.4, 3.0, 0.2), direction: vec3(0.0, -1.0, 0.0) })
}

fn next(state: &mut u64) -> f32 {
    *state = state.wrapping_mul(6364136223846793005).wrapping_add(1442695040888963407);
    ((*state >> 40) as f32) / 16777216.0 * 2.0 - 1.0
}

/// The physics of the ball in the machine's own arithmetic.
fn expected_step(center: &mut glm::Vec3, velocity: &mut glm::Vec3, delta: f32) {
    let radius = 0.25f32;
    let submerged = ((radius - center.y) / (2.0 * radius)).clamp(0.0, 1.0);
    let gravity = glm::vec3(0.0f32, -4.0, 0.0);
    *velocity += gravity * (delta - 1.1 * delta * submerged);
    let speed_squared = velocity.dot(velocity);
    if speed_squared > 1.0e-6 {
        let drag = velocity.normalize() * (submerged * delta * speed_squared);
        *velocity -= drag;
    }
    *center += *velocity * delta;
    if center.y < radius - 1.0 {
        center.y = radius - 1.0;
        velocity.y = velocity.y.abs() * 0.7;
    }
    let limit = 1.0 - radius;
    center.x = center.x.clamp(-limit, limit);
    center.z = center.z.clamp(-limit, limit);
}

#[test]
fn the_first_state() {
    let state = WaterState::new();
    assert_eq!(state.ball_center, vec3(-0.4, -0.5, 0.2));
    assert_eq!(state.ball_previous_center, vec3(-0.4, -0.5, 0.2));
    assert_eq!(state.ball_velocity, vec3(0.0, 0.0, 0.0));
    assert_eq!(state.ball_rotation, Vec4 { x: 0, y: 0, z: 0, w: 1.0f32.to_bits() });
    assert_eq!(state.drag_mode, DragMode::Idle);
    assert_eq!(state.drag_plane_normal, vec3(0.0, 0.0, 1.0));
    assert_eq!(state.pending_drop, None);
    assert!(!state.paused && !state.rain && state.ball_shown);
}

#[test]
fn the_ball_moves_as_in_machine_arithmetic() {
    let mut state = WaterState::new();
    let mut center = glm::vec3(-0.4f32, -0.5, 0.2);
    let mut velocity = glm::vec3(0.0f32, 0.0, 0.0);
    for frame in 0..600 {
        let delta = if frame % 7 == 0 { 0.031f32 } else { 1.0 / 60.0 };
        state.step_ball_physics(delta.to_bits());
        expected_step(&mut center, &mut velocity, delta);
        assert_eq!(state.ball_center, bits3(center), "frame {}", frame);
        assert_eq!(state.ball_velocity, bits3(velocity), "frame {}", frame);
    }
}

#[test]
fn thrown_balls_move_as_in_machine_arithmetic() {
    let mut seed = 11u64;
    for _ in 0..300 {
        let mut center = glm::vec3(next(&mut seed), next(&mut seed), next(&mut seed));
        let mut velocity =
            glm::vec3(next(&mut seed) * 8.0, next(&mut seed) * 8.0, next(&mut seed) * 8.0);
        let delta = next(&mut seed).abs() * 0.05;
        let mut state = WaterState {
            ball_center: bits3(center),
            ball_velocity: bits3(velocity),
            ..WaterState::new()
        };
        state.step_ball_physics(delta.to_bits());
        expected_step(&mut center, &mut velocity, delta);
        assert_eq!(state.ball_center, bits3(center));
        assert_eq!(state.ball_velocity, bits3(velocity));
        let c = float3(state.ball_center);
        assert!(c.x.abs() <= 0.75 && c.z.abs() <= 0.75 && c.y >= -0.75);
    }
}

#[test]
fn the_ball_bounces_off_the_floor() {
    let mut state = WaterState {
        ball_center: vec3(0.0, -0.74, 0.0),
        ball_velocity: vec3(0.0, -3.0, 0.0),
        ..WaterState::new()
    };
    state.step_ball_physics(0.05f32.to_bits());
    assert_eq!(state.ball_center, vec3(0.0, -0.75, 0.0));
    assert!(f32::from_bits(state.ball_velocity.y) > 0.0);
}

#[test]
fn gravity_above_and_buoyancy_below() {
    let mut above = WaterState { ball_center: vec3(0.0, 0.5, 0.0), ..WaterState::new() };
    above.step_ball_physics(0.01f32.to_bits());
    assert!(f32::from_bits(above.ball_velocity.y) < 0.0);
    let mut below = WaterState { ball_center: vec3(0.0, -0.5, 0.0), ..WaterState::new() };
    below.step_ball_physics(0.01f32.to_bits());
    assert!(f32::from_bits(below.ball_velocity.y) > 0.0);
}

#[test]
fn a_frame_simulates_no_more_than_its_longest_time() {
    let (mut long, mut longest) = (WaterState::new(), WaterState::new());
    long.simulate(3.0f32.to_bits());
    longest.simulate(0.05f32.to_bits());
    assert_eq!(long, longest);
    let mut unknown = WaterState::new();
    unknown.simulate(f32::NAN.to_bits());
    assert_eq!(unknown, longest);
}

#[test]
fn turns_and_rotations_match_the_quaternions_of_glm() {
    let mut seed = 5u64;
    for _ in 0..200 {
        let before = glm::vec3(next(&mut seed) * 0.7, next(&mut seed) * 0.7, next(&mut seed) * 0.7);
        let now = glm::vec3(next(&mut seed) * 0.7, next(&mut seed) * 0.7, next(&mut seed) * 0.7);
        let old = glm::quat_normalize(&glm::quat(
            next(&mut seed),
            next(&mut seed),
            next(&mut seed),
            next(&mut seed),
        ));
        let delta = next(&mut seed).abs() * 0.05;
        // A held ball stays where it is, so only the turns change the state.
        let mut state = WaterState {
            ball_center: bits3(now),
            ball_previous_center: bits3(before),
            ball_rotation: Vec4 {
                x: old.coords.x.to_bits(),
                y: old.coords.y.to_bits(),
                z: old.coords.z.to_bits(),
                w: old.coords.w.to_bits(),
            },
            drag_mode: DragMode::Ball,
            ..WaterState::new()
        };
        let (spin, roll) = state.simulate(delta.to_bits()).unwrap();
        let roll = roll.unwrap();
        let pair = |half: u32| {
            let (sine, cosine) = f32::from_bits(half).sin_cos();
            SineCosine { sine: sine.to_bits(), cosine: cosine.to_bits() }
        };
        state.apply_ball_rotation(pair(spin.half_angle), pair(roll.half_angle));

        let ambient_axis = glm::normalize(&glm::vec3(0.3f32, 1.0, 0.2));
        let mut rotation = glm::quat_angle_axis(0.4 * delta, &ambient_axis) * old;
        let horizontal = glm::vec3(now.x - before.x, 0.0, now.z - before.z);
        let distance = horizontal.norm();
        let motion = horizontal / distance;
        let axis = glm::cross(&glm::vec3(0.0, 1.0, 0.0), &motion);
        let angle = distance / 0.25;
        rotation = glm::quat_angle_axis(angle, &(axis / axis.norm())) * rotation;
        rotation = glm::quat_normalize(&rotation);
        assert_eq!(state.ball_rotation.x, rotation.coords.x.to_bits());
        assert_eq!(state.ball_rotation.y, rotation.coords.y.to_bits());
        assert_eq!(state.ball_rotation.z, rotation.coords.z.to_bits());
        assert_eq!(state.ball_rotation.w, rotation.coords.w.to_bits());
    }
}

#[test]
fn a_ball_that_does_not_move_over_the_floor_does_not_roll() {
    let mut state = WaterState { drag_mode: DragMode::Ball, ..WaterState::new() };
    let (spin, roll) = state.simulate(0.02f32.to_bits()).unwrap();
    assert_eq!(roll, None);
    assert_eq!(spin.half_angle, (0.4f32 * 0.02 / 2.0).to_bits());
    let axis = glm::normalize(&glm::vec3(0.3f32, 1.0, 0.2));
    assert_eq!(spin.axis, bits3(axis));
}

#[test]
fn rays_and_spheres() {
    let hits = |o: glm::Vec3, d: glm::Vec3, c: glm::Vec3, r: f32| {
        let offset = o - c;
        let a = d.dot(&d);
        let b = 2.0 * offset.dot(&d);
        let c = offset.dot(&offset) - r * r;
        let discriminant = b * b - 4.0 * a * c;
        !(discriminant < 0.0) && (-b - discriminant.sqrt()) / (2.0 * a) > 0.0
    };
    let mut seed = 3u64;
    let mut met = 0;
    for _ in 0..2000 {
        let o = glm::vec3(next(&mut seed) * 2.0, next(&mut seed) * 2.0, next(&mut seed) * 2.0);
        let d = glm::vec3(next(&mut seed), next(&mut seed), next(&mut seed));
        let c = glm::vec3(next(&mut seed), next(&mut seed), next(&mut seed));
        let wanted = hits(o, d, c, 0.6);
        assert_eq!(ray_hits_sphere(bits3(o), bits3(d), bits3(c), 0.6f32.to_bits()), wanted);
        if wanted {
            met += 1;
        }
    }
    assert!(met > 50);
    // From inside a sphere the near end lies behind.
    assert!(!ray_hits_sphere(
        vec3(0.0, 0.0, 0.0),
        vec3(0.0, 0.0, 1.0),
        vec3(0.0, 0.0, 0.0),
        1.0f32.to_bits()
    ));
}

#[test]
fn rays_and_planes() {
    let up = vec3(0.0, 1.0, 0.0);
    let origin = vec3(1.0, 2.0, 3.0);
    let ground = vec3(0.0, 0.0, 0.0);
    let down = vec3(0.0, -1.0, 0.0);
    assert_eq!(intersect_ray_plane(origin, down, ground, up), Some(vec3(1.0, 0.0, 3.0)));
    // Behind the ray, and along the plane.
    assert_eq!(intersect_ray_plane(origin, up, ground, up), None);
    assert_eq!(intersect_ray_plane(origin, vec3(1.0, 0.0, 0.0), ground, up), None);
    let slanted = vec3(0.5, -1.0, 0.25);
    let hit = intersect_ray_plane(origin, slanted, ground, up).unwrap();
    assert_eq!(hit, vec3(2.0, 0.0, 3.5));
}

#[test]
fn the_pool_is_the_world() {
    assert_eq!(ball_world_position(vec3(-0.4, -0.5, 0.2)), vec3(-0.4, -0.5, 0.2));
}

#[test]
fn a_press_on_the_ball_grabs_it() {
    let mut state = WaterState::new();
    let outcome = state.handle_input(press(down_on_ball(), Some(vec3(-0.4, 0.0, 0.2))));
    assert_eq!(state.drag_mode, DragMode::Ball);
    assert!(!outcome.camera_enabled && !outcome.exit);
    assert_eq!(state.drag_plane_normal, bits3(-glm::vec3(0.0f32, -1.0, 0.0).normalize()));
    assert_eq!(state.drag_prev_hit, vec3(-0.4, -0.5, 0.2));
    assert_eq!(state.pending_drop, None);
}

#[test]
fn a_dragged_ball_follows_the_cursor_and_stays_in_the_pool() {
    let mut state = WaterState::new();
    state.handle_input(press(down_on_ball(), None));
    let aside = Some(Ray { origin: vec3(0.1, 3.0, 0.2), direction: vec3(0.0, -1.0, 0.0) });
    let outcome = state.handle_input(hold(aside, None));
    assert!(!outcome.camera_enabled);
    let wanted = -0.4f32 + (0.1 - -0.4);
    assert_eq!(state.ball_center, vec3(wanted, -0.5, 0.2));
    assert_eq!(state.drag_prev_hit, vec3(0.1, -0.5, 0.2));
    let outside = Some(Ray { origin: vec3(5.0, 3.0, -7.0), direction: vec3(0.0, -1.0, 0.0) });
    state.handle_input(hold(outside, None));
    assert_eq!(state.ball_center, vec3(0.75, -0.5, -0.75));
    // A ray that misses the plane moves nothing.
    let before = state.ball_center;
    let away = Some(Ray { origin: vec3(0.0, 3.0, 0.0), direction: vec3(0.0, 1.0, 0.0) });
    state.handle_input(hold(away, None));
    state.handle_input(hold(None, None));
    assert_eq!(state.ball_center, before);
    assert_eq!(state.drag_mode, DragMode::Ball);
}

#[test]
fn a_held_ball_has_no_speed() {
    let mut state = WaterState { ball_velocity: vec3(1.0, 2.0, 3.0), ..WaterState::new() };
    state.handle_input(press(down_on_ball(), None));
    let center = state.ball_center;
    state.simulate(0.02f32.to_bits());
    assert_eq!(state.ball_velocity, vec3(0.0, 0.0, 0.0));
    assert_eq!(state.ball_center, center);
}

#[test]
fn a_press_on_the_water_makes_a_drop() {
    let mut state = WaterState::new();
    let outcome = state.handle_input(press(None, Some(vec3(0.5, 0.0, -1.0))));
    assert_eq!(state.drag_mode, DragMode::Drops);
    assert!(!outcome.camera_enabled);
    assert_eq!(state.pending_drop, Some(vec2(0.75, 0.0)));
    // Holding still makes no more drops, moving does.
    state.handle_input(hold(None, Some(vec3(0.5, 0.0, -1.0))));
    assert_eq!(state.pending_drop, None);
    let barely = InputFrame { cursor_delta: vec2(1.5, 0.0), ..hold(None, Some(vec3(1.0, 0.0, 1.0))) };
    state.handle_input(barely);
    assert_eq!(state.pending_drop, None);
    let moved = InputFrame { cursor_delta: vec2(1.2, 1.2), ..barely };
    state.handle_input(moved);
    assert_eq!(state.pending_drop, Some(vec2(1.0, 1.0)));
    // Outside the pool there is no drop, though the drag goes on.
    let outside = InputFrame { ground: Some(vec3(1.01, 0.0, 0.0)), ..moved };
    state.handle_input(outside);
    assert_eq!(state.pending_drop, None);
    assert_eq!(state.drag_mode, DragMode::Drops);
}

#[test]
fn a_press_beside_the_pool_orbits() {
    let mut state = WaterState::new();
    let outcome = state.handle_input(press(None, Some(vec3(0.0, 0.0, -1.5))));
    assert_eq!(state.drag_mode, DragMode::Orbit);
    assert!(outcome.camera_enabled);
    let outcome = state.handle_input(press(None, None));
    assert_eq!(state.drag_mode, DragMode::Orbit);
    assert!(outcome.camera_enabled);
    let unknown = f32::NAN;
    state.handle_input(press(None, Some(vec3(unknown, 0.0, 0.0))));
    assert_eq!(state.drag_mode, DragMode::Orbit);
}

#[test]
fn a_release_ends_the_drag() {
    let mut state = WaterState::new();
    state.handle_input(press(down_on_ball(), None));
    let outcome = state.handle_input(quiet());
    assert_eq!(state.drag_mode, DragMode::Idle);
    assert!(outcome.camera_enabled);
    // A press that is already over drags nothing.
    let tap = InputFrame { left_held: false, ..press(None, Some(vec3(0.0, 0.0, 0.0))) };
    state.handle_input(tap);
    assert_eq!(state.drag_mode, DragMode::Idle);
    assert_eq!(state.pending_drop, None);
}

#[test]
fn keys_pause_and_quit() {
    let mut state = WaterState::new();
    let pause = InputFrame { toggle_pause: true, ..quiet() };
    state.handle_input(pause);
    assert!(state.paused);
    state.handle_input(quiet());
    assert!(state.paused);
    state.handle_input(pause);
    assert!(!state.paused);
    assert!(state.handle_input(InputFrame { quit: true, ..quiet() }).exit);
}

#[test]
fn a_paused_pool_stands_still() {
    let mut state = WaterState { paused: true, pending_drop: Some(vec2(0.5, 0.5)), ..WaterState::new() };
    let before = state;
    assert_eq!(state.simulate(0.02f32.to_bits()), None);
    assert_eq!(state, before);
    let mut params = WaterParams { drop_active: true, ..WaterParams::default() };
    state.publish(vec2(0.1, 0.2), &mut params);
    assert!(!params.drop_active);
    assert_eq!(state.pending_drop, None);
}

#[test]
fn the_pass_is_told_about_the_ball_and_the_drop() {
    let mut state = WaterState {
        pending_drop: Some(vec2(0.25, 0.5)),
        ball_center: vec3(0.1, 0.2, 0.3),
        ..WaterState::new()
    };
    let mut params = WaterParams { reset: true, ..WaterParams::default() };
    state.publish(vec2(0.9, 0.9), &mut params);
    assert_eq!(params.sphere_old, vec3(-0.4, -0.5, 0.2));
    assert_eq!(params.sphere_new, vec3(0.1, 0.2, 0.3));
    assert_eq!(params.sphere_radius, 0.25f32.to_bits());
    assert!(params.drop_active && params.reset);
    assert_eq!(params.drop_center, vec2(0.25, 0.5));
    assert_eq!(params.drop_radius, 0.03f32.to_bits());
    assert_eq!(params.drop_strength, 0.02f32.to_bits());
    state.ball_center = vec3(0.4, 0.2, 0.3);
    state.publish(vec2(0.9, 0.9), &mut params);
    assert_eq!(params.sphere_old, vec3(0.1, 0.2, 0.3));
    assert!(!params.drop_active);
}

#[test]
fn rain_scatters_drops_over_the_field() {
    let mut state = WaterState::new();
    let mut params = WaterParams::default();
    state.apply_controls(true, true, false, &mut params);
    assert!(state.rain && !params.reset);
    state.publish(scatter(0x8000_4000), &mut params);
    assert!(params.drop_active);
    assert_eq!(params.drop_center, vec2(0.5, 0.25));
    // A drop that was asked for comes first.
    state.pending_drop = Some(vec2(0.1, 0.1));
    state.publish(scatter(7), &mut params);
    assert_eq!(params.drop_center, vec2(0.1, 0.1));
    state.apply_controls(false, true, false, &mut params);
    state.publish(scatter(7), &mut params);
    assert!(!params.drop_active);
    for word in [0u32, 1, 0xFFFF_FFFF, 0x1234_5678] {
        let place = scatter(word);
        let (x, y) = (f32::from_bits(place.x), f32::from_bits(place.y));
        assert_eq!(x, (word >> 16) as f32 / 65536.0);
        assert_eq!(y, (word & 0xFFFF) as f32 / 65536.0);
        assert!((0.0..1.0).contains(&x) && (0.0..1.0).contains(&y));
    }
}

#[test]
fn the_panel_hides_the_ball_and_resets_the_pool() {
    let mut state = WaterState::new();
    let mut params = WaterParams::default();
    state.apply_controls(false, false, true, &mut params);
    assert!(!state.ball_shown && params.reset);
    // The request stays until the pass serves it.
    state.apply_controls(false, true, false, &mut params);
    assert!(state.ball_shown && params.reset);
}

#[test]
fn the_first_parameters() {
    let params = WaterParams::default();
    assert_eq!(params.drop_center, vec2(0.5, 0.5));
    assert_eq!(params.drop_radius, 0.03f32.to_bits());
    assert_eq!(params.drop_strength, 0.0f32.to_bits());
    assert_eq!(params.sphere_old, vec3(0.0, -1.0, 0.0));
    assert_eq!(params.sphere_new, vec3(0.0, -1.0, 0.0));
    assert_eq!(params.sphere_radius, 0.25f32.to_bits());
    assert!(!params.drop_active && !params.reset);
    assert!(params.ball_shown);
    assert_eq!(params.ball_rotation, WaterState::new().ball_rotation);
}

#[test]
fn the_ball_rolls_across_its_way() {
    let mut state = WaterState {
        ball_previous_center: vec3(-0.2, -0.5, 0.1),
        ball_center: vec3(0.1, -0.3, 0.5),
        drag_mode: DragMode::Ball,
        ..WaterState::new()
    };
    let (_, roll) = state.simulate(0.02f32.to_bits()).unwrap();
    let roll = roll.unwrap();
    let axis = float3(roll.axis);
    assert_eq!(axis.y, 0.0);
    assert!((axis.x - 0.8).abs() < 1.0e-6 && (axis.z + 0.6).abs() < 1.0e-6);
    assert!((f32::from_bits(roll.half_angle) - 0.5 / 0.25 / 2.0).abs() < 1.0e-6);
}

#[test]
fn a_click_reaches_the_pass_in_the_same_frame() {
    let mut state = WaterState::new();
    let mut params = WaterParams::default();
    state.handle_input(press(None, Some(vec3(-1.0, 0.0, 0.5))));
    state.publish(vec2(0.9, 0.9), &mut params);
    assert!(params.drop_active);
    assert_eq!(params.drop_center, vec2(0.0, 0.75));
}

#[test]
fn a_ball_without_a_facing_plane_is_not_grabbed() {
    // The ray meets the ball, but it is so short that no plane faces it.
    let short = Ray { origin: vec3(-0.4, 3.0, 0.2), direction: vec3(0.0, -1.0e-7, 0.0) };
    let mut state = WaterState::new();
    assert_eq!(state.classify_press(Some(short), None), DragMode::Ball);
    assert_eq!(state.grab_plane(Some(short)), None);
    state.handle_input(press(Some(short), None));
    assert_eq!(state.drag_mode, DragMode::Orbit);
}

#[test]
fn the_panel_reaches_the_pass() {
    let mut state = WaterState::new();
    let mut params = WaterParams::default();
    state.apply_controls(false, false, false, &mut params);
    state.publish(vec2(0.5, 0.5), &mut params);
    assert!(!params.ball_shown);
    state.apply_controls(false, true, false, &mut params);
    state.publish(vec2(0.5, 0.5), &mut params);
    assert!(params.ball_shown);
}

#[test]
fn the_rotation_stays_a_unit_quaternion() {
    let mut state = WaterState { drag_mode: DragMode::Ball, ..WaterState::new() };
    let mut params = WaterParams::default();
    let mut seed = 21u64;
    for _ in 0..2000 {
        state.ball_center = vec3(next(&mut seed) * 0.75, next(&mut seed) * 0.7, next(&mut seed) * 0.75);
        let (spin, roll) = state.simulate((next(&mut seed).abs() * 0.05).to_bits()).unwrap();
        let pair = |half: u32| {
            let (sine, cosine) = f32::from_bits(half).sin_cos();
            SineCosine { sine: sine.to_bits(), cosine: cosine.to_bits() }
        };
        let rolling = roll.map(|turn| pair(turn.half_angle)).unwrap_or(SineCosine { sine: 0, cosine: 0 });
        state.apply_ball_rotation(pair(spin.half_angle), rolling);
        state.publish(vec2(0.5, 0.5), &mut params);
        assert_eq!(params.ball_rotation, state.ball_rotation);
        let q = state.ball_rotation;
        let squares: f64 =
            [q.x, q.y, q.z, q.w].iter().map(|c| (f32::from_bits(*c) as f64) * (f32::from_bits(*c) as f64)).sum();
        assert!((squares - 1.0).abs() <= 1.0 / 262144.0);
    }
}

#[test]
fn a_resting_ball_floats_with_ten_elevenths_under_water() {
    for delta in [1.0e-30f32, 0.001, 0.016, 0.05] {
        for (share, up) in [(10.0f32 / 11.0 + 1.0e-4, true), (10.0 / 11.0 - 1.0e-4, false), (0.0, false), (1.0, true)] {
            // How high the ball's centre is with this share of it under water.
            let y = 0.25 - share * 0.5;
            let mut state = WaterState { ball_center: vec3(0.0, y, 0.0), ..WaterState::new() };
            state.step_ball_physics(delta.to_bits());
            let speed = f32::from_bits(state.ball_velocity.y);
            assert!(if up { speed > 0.0 } else { speed < 0.0 }, "{} {}", delta, share);
        }
    }
}

#[test]
fn a_far_movement_turns_the_ball_and_an_overflowing_one_does_not_roll_it() {
    for (now, before, rolls) in
        [(1.0e18f32, -1.0e18f32, true), (1.0e19, 3.0e18, true), (1.0e30, -1.0e30, false), (f32::MAX, f32::MIN, false)]
    {
        let mut state = WaterState {
            drag_mode: DragMode::Ball,
            ball_center: vec3(now, 0.0, 0.1),
            ball_previous_center: vec3(before, 0.0, 0.3),
            ..WaterState::new()
        };
        let (_, roll) = state.simulate(0.016f32.to_bits()).unwrap();
        assert_eq!(roll.is_some(), rolls);
        let pair = SineCosine { sine: 0.6f32.to_bits(), cosine: 0.8f32.to_bits() };
        state.apply_ball_rotation(pair, pair);
        let q = state.ball_rotation;
        let squares: f64 =
            [q.x, q.y, q.z, q.w].iter().map(|c| (f32::from_bits(*c) as f64) * (f32::from_bits(*c) as f64)).sum();
        assert!((squares - 1.0).abs() <= 1.0 / 262144.0);
    }
}

/// A ray from a place around the pool to a place in the ball, and the largest coordinate.
fn ray_at_ball(seed: &mut u64, center: glm::Vec3) -> (Ray, f32) {
    let origin = glm::vec3(next(seed), next(seed) + 1.5, next(seed)) * 4.0;
    let aim = center + glm::vec3(next(seed), next(seed), next(seed)) * 0.1;
    let most = origin.abs().max().max(1.0);
    (Ray { origin: bits3(origin), direction: bits3((aim - origin).normalize()) }, most)
}

#[test]
fn a_picked_point_lies_on_the_plane_through_the_ball_and_is_met_again() {
    let mut seed = 5u64;
    for _ in 0..500 {
        let center = glm::vec3(next(&mut seed) * 0.75, next(&mut seed) * 0.7, next(&mut seed) * 0.75);
        let (ray, most) = ray_at_ball(&mut seed, center);
        let state = WaterState { ball_center: bits3(center), ..WaterState::new() };
        let (normal, hit) = state.grab_plane(Some(ray)).unwrap();
        let wide = |v: Vec3| float3(v).map(|c| c as f64);
        let side = wide(normal).dot(&(wide(hit) - wide(bits3(center))));
        assert!(side.abs() * 8192.0 <= most as f64);
        let again = intersect_ray_plane(ray.origin, ray.direction, hit, normal).unwrap();
        assert!((wide(again) - wide(hit)).abs().max() * 4096.0 <= most as f64);
        let ahead = (float3(hit) - float3(ray.origin)).dot(&float3(ray.direction));
        assert!(ahead > 0.0);
    }
    // A ball behind the origin of the ray is not picked.
    let away = Ray { origin: vec3(0.0, 3.0, 0.0), direction: vec3(0.0, 1.0, 0.0) };
    assert_eq!(WaterState::new().grab_plane(Some(away)), None);
}

#[test]
fn a_grabbed_ball_does_not_jump() {
    let mut seed = 9u64;
    for _ in 0..500 {
        let center = glm::vec3(next(&mut seed) * 0.75, next(&mut seed) * 0.7, next(&mut seed) * 0.75);
        let (ray, most) = ray_at_ball(&mut seed, center);
        let mut state = WaterState { ball_center: bits3(center), ..WaterState::new() };
        state.handle_input(press(Some(ray), None));
        assert_eq!(state.drag_mode, DragMode::Ball);
        assert!((float3(state.ball_center) - center).abs().max() * 2048.0 <= most);
    }
}
