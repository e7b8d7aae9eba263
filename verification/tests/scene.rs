use water_app::scene::{
    first_title, render_look, spawn_camera, spawn_controls, spawn_help, spawn_rain_emitter, window_title,
};
use water_app::vector::{Vec2, Vec3, Vec4};

fn vec2(x: f32, y: f32) -> Vec2 {
    Vec2 { x: x.to_bits(), y: y.to_bits() }
}

fn vec3(x: f32, y: f32, z: f32) -> Vec3 {
    Vec3 { x: x.to_bits(), y: y.to_bits(), z: z.to_bits() }
}

fn vec4(x: f32, y: f32, z: f32, w: f32) -> Vec4 {
    Vec4 { x: x.to_bits(), y: y.to_bits(), z: z.to_bits(), w: w.to_bits() }
}

#[test]
fn the_look() {
    let look = render_look();
    assert!(look.hdr_sky && look.show_sky && look.bloom_enabled && !look.show_grid);
    assert_eq!(look.bloom_intensity, 0.3f32.to_bits());
    assert_eq!(look.bloom_threshold, 1.3f32.to_bits());
}

#[test]
fn the_camera() {
    let camera = spawn_camera();
    assert_eq!(camera.focus, vec3(0.0, -0.2, 0.0));
    assert_eq!(camera.radius, 4.0f32.to_bits());
    assert_eq!(camera.yaw, 3.7f32.to_bits());
    assert_eq!(camera.pitch, 0.42f32.to_bits());
    assert_eq!(camera.name, "Camera");
}

#[test]
fn the_panel() {
    let panel = spawn_controls();
    assert_eq!(panel.id, "water_controls");
    assert_eq!(panel.title, "Water");
    assert_eq!(panel.min, vec2(16.0, 16.0));
    assert_eq!(panel.max, vec2(216.0, 184.0));
    assert_eq!((panel.controls.rain.label, panel.controls.rain.checked), ("Rain", false));
    assert_eq!((panel.controls.ball.label, panel.controls.ball.checked), ("Ball", true));
    assert_eq!(panel.controls.reset, "Reset");
}

#[test]
fn the_rain() {
    let rain = spawn_rain_emitter();
    assert_eq!(rain.half_extents, vec3(1.0, 0.02, 1.0));
    assert_eq!(rain.position, vec3(0.0, 1.6, 0.0));
    assert_eq!(rain.direction, vec3(0.0, -1.0, 0.0));
    assert_eq!(rain.spawn_rate, 450.0f32.to_bits());
    assert_eq!(rain.burst_count, 0);
    assert_eq!(rain.particle_lifetime_min, 0.5f32.to_bits());
    assert_eq!(rain.particle_lifetime_max, 0.7f32.to_bits());
    assert_eq!(rain.initial_velocity_min, 1.8f32.to_bits());
    assert_eq!(rain.initial_velocity_max, 2.6f32.to_bits());
    assert_eq!(rain.velocity_spread, 0.03f32.to_bits());
    assert_eq!(rain.gravity, vec3(0.0, -5.0, 0.0));
    assert_eq!(rain.drag, 0.0f32.to_bits());
    assert_eq!(rain.size_start, 0.045f32.to_bits());
    assert_eq!(rain.size_end, 0.02f32.to_bits());
    assert_eq!(rain.emissive_strength, 0.7f32.to_bits());
    assert!(!rain.enabled && !rain.one_shot);
    let stops: Vec<(u32, Vec4)> = rain.colors.iter().map(|stop| (stop.at, stop.color)).collect();
    assert_eq!(
        stops,
        [
            (0.0f32.to_bits(), vec4(0.85, 0.93, 1.0, 1.0)),
            (0.7f32.to_bits(), vec4(0.7, 0.85, 1.0, 0.95)),
            (1.0f32.to_bits(), vec4(0.6, 0.8, 1.0, 0.0)),
        ]
    );
}

#[test]
fn the_legend() {
    let help = spawn_help();
    assert_eq!(help.len(), 3);
    assert_eq!(help[0].text, "Drag the pool: ripples    Drag the ball: move it");
    assert_eq!(help[1].text, "Drag outside the pool: orbit    Scroll: zoom");
    assert_eq!(help[2].text, "Space: pause    Q or Esc: quit");
    let tops = [200.0f32, 234.0, 260.0];
    let sizes = [26.0f32, 18.0, 18.0];
    for i in 0..3 {
        assert_eq!(help[i].position, vec2(18.0, tops[i]));
        assert_eq!(help[i].font_size, sizes[i].to_bits());
        assert_eq!(help[i].color, vec4(0.95, 0.98, 1.0, 1.0));
        assert_eq!(help[i].outline_width, 0.04f32.to_bits());
        assert_eq!(help[i].outline_color, vec4(0.0, 0.0, 0.0, 1.0));
    }
}

#[test]
fn titles() {
    assert_eq!(first_title(), "Nightshade Water");
    assert_eq!(window_title("60", false), "Nightshade Water | 60 FPS | running");
    assert_eq!(window_title("144", true), "Nightshade Water | 144 FPS | paused");
}
