use nalgebra_glm as glm;
use water_app::clock_laws::STEP_TIME;
use water_app::grid::build_grid;
use water_app::params::WaterParams;
use water_app::uniforms::{ball_uniform_bytes, render_uniform_bytes, sim_uniform_bytes, ViewFrame};
use water_app::vector::{Mat4, Vec2, Vec3, Vec4};
use water_app::water_pass::{
    caustics_texture_label, caustics_texture_plan, helpers_file, render_source, workgroups, BindGroup, BindLayout,
    BindingKind, BlendFactor, ComputePass, ComputePipeline, Culling, DrawCall, RenderPipeline, RenderTarget, Resource,
    StateTexture, UniformBuffer, Visibility, WaterGpuPass,
};

fn column(v: [f32; 4]) -> Vec4 {
    Vec4 { x: v[0].to_bits(), y: v[1].to_bits(), z: v[2].to_bits(), w: v[3].to_bits() }
}

fn matrix(m: &glm::Mat4) -> Mat4 {
    let c: [[f32; 4]; 4] = (*m).into();
    Mat4 { x: column(c[0]), y: column(c[1]), z: column(c[2]), w: column(c[3]) }
}

fn some_view() -> (ViewFrame, glm::Mat4, glm::Mat4) {
    let projection = glm::perspective(1.6f32, 0.9, 0.1, 100.0);
    let view = glm::look_at(
        &glm::vec3(1.0f32, 2.0, 3.0),
        &glm::vec3(0.0, -0.2, 0.0),
        &glm::vec3(0.0, 1.0, 0.0),
    );
    let frame = ViewFrame {
        projection: matrix(&projection),
        view: matrix(&view),
        camera_position: Vec3 { x: 1.0f32.to_bits(), y: 2.0f32.to_bits(), z: 3.0f32.to_bits() },
    };
    (frame, projection, view)
}

fn seconds(x: f32) -> u32 {
    x.to_bits()
}

fn count(plan: &[ComputePass], pipeline: ComputePipeline) -> usize {
    plan.iter().filter(|pass| pass.pipeline == pipeline).count()
}

/// The clock in the machine's own arithmetic: the steps of a frame and what is left.
fn expected_clock(left: f32, delta: f32) -> (u32, f32) {
    let elapsed = left + delta.max(0.0);
    let step = 1.0f32 / 60.0;
    let steps = ((elapsed / step).floor() as u32).min(4);
    (steps, (elapsed - steps as f32 * step).max(0.0))
}

#[test]
fn a_new_pass() {
    let (pass, buffers) = WaterGpuPass::new();
    assert!(!pass.cleared);
    assert_eq!(pass.index_count, 244800);
    assert_eq!(pass.step_accumulator, 0);
    let grid = build_grid(200);
    let words = grid.vertex_words();
    let floats: Vec<f32> = words.iter().map(|w| f32::from_bits(*w)).collect();
    assert_eq!(buffers.vertices, bytemuck::cast_slice::<f32, u8>(&floats));
    assert_eq!(buffers.indices, bytemuck::cast_slice::<u32, u8>(&grid.indices));
}

#[test]
fn words_become_the_bytes_of_the_machine() {
    let (_, buffers) = WaterGpuPass::new();
    assert_eq!(buffers.indices.len(), 4 * 244800);
    assert_eq!(buffers.indices[8..12], 1u32.to_ne_bytes());
    assert_eq!(buffers.vertices[0..4], (-1.0f32).to_ne_bytes());
}

#[test]
fn slots_of_the_pass() {
    let (pass, _) = WaterGpuPass::new();
    assert_eq!(pass.name(), "water_gpu_pass");
    assert!(pass.reads().is_empty());
    assert!(pass.writes().is_empty());
    assert_eq!(pass.reads_writes(), ["color", "depth"]);
}

#[test]
fn without_a_view_nothing_happens() {
    let (mut pass, _) = WaterGpuPass::new();
    let mut params = WaterParams { reset: true, ..WaterParams::default() };
    let before = pass;
    assert!(pass.execute(None, seconds(0.5), &mut params).is_none());
    assert_eq!(pass, before);
    assert!(params.reset);
}

#[test]
fn the_first_frame_clears_both_textures() {
    let (mut pass, _) = WaterGpuPass::new();
    let (view, _, _) = some_view();
    let mut params = WaterParams::default();
    let plan = pass.execute(Some(view), seconds(0.0), &mut params).unwrap();
    assert_eq!(
        plan.compute,
        [
            ComputePass { pipeline: ComputePipeline::Clear, group: BindGroup::Update },
            ComputePass { pipeline: ComputePipeline::Clear, group: BindGroup::Normals },
        ]
    );
    assert_eq!(plan.workgroups, 32);
    assert_eq!(
        plan.draws,
        [
            DrawCall { pipeline: RenderPipeline::Caustics, index_count: 244800 },
            DrawCall { pipeline: RenderPipeline::Pool, index_count: 30 },
            DrawCall { pipeline: RenderPipeline::Surface, index_count: 244800 },
            DrawCall { pipeline: RenderPipeline::Underside, index_count: 244800 },
            DrawCall { pipeline: RenderPipeline::Ball, index_count: 36 },
        ]
    );
    assert!(pass.cleared);
    let plan = pass.execute(Some(view), seconds(0.0), &mut params).unwrap();
    assert!(plan.compute.is_empty());
}

#[test]
fn a_reset_clears_once() {
    let (mut pass, _) = WaterGpuPass::new();
    let (view, _, _) = some_view();
    let mut params = WaterParams::default();
    pass.execute(Some(view), seconds(0.01), &mut params);
    assert_eq!(pass.step_accumulator, seconds(0.01));
    params.reset = true;
    let plan = pass.execute(Some(view), seconds(0.003), &mut params).unwrap();
    assert_eq!(count(&plan.compute, ComputePipeline::Clear), 2);
    assert_eq!(pass.step_accumulator, seconds(0.003));
    assert!(!params.reset);
    let plan = pass.execute(Some(view), seconds(0.003), &mut params).unwrap();
    assert_eq!(count(&plan.compute, ComputePipeline::Clear), 0);
}

#[test]
fn a_step_updates_and_then_computes_normals() {
    let (mut pass, _) = WaterGpuPass::new();
    let (view, _, _) = some_view();
    let mut params = WaterParams::default();
    pass.execute(Some(view), seconds(0.0), &mut params);
    let plan = pass.execute(Some(view), seconds(0.035), &mut params).unwrap();
    let update = ComputePass { pipeline: ComputePipeline::Update, group: BindGroup::Update };
    let normals = ComputePass { pipeline: ComputePipeline::Normals, group: BindGroup::Normals };
    assert_eq!(plan.compute, [update, normals, update, normals]);
}

#[test]
fn the_clock_runs_as_in_machine_arithmetic() {
    let (mut pass, _) = WaterGpuPass::new();
    let (view, _, _) = some_view();
    let mut params = WaterParams::default();
    pass.execute(Some(view), seconds(0.0), &mut params);
    let mut left = 0.0f32;
    let mut seed = 77u64;
    for _ in 0..400 {
        seed = seed.wrapping_mul(6364136223846793005).wrapping_add(1442695040888963407);
        let delta = ((seed >> 40) as f32) / 16777216.0 * 0.06 - 0.005;
        let plan = pass.execute(Some(view), seconds(delta), &mut params).unwrap();
        let (steps, rest) = expected_clock(left, delta);
        left = rest;
        assert_eq!(count(&plan.compute, ComputePipeline::Update), steps as usize);
        assert_eq!(count(&plan.compute, ComputePipeline::Normals), steps as usize);
        assert_eq!(pass.step_accumulator, left.to_bits());
    }
}

#[test]
fn a_long_frame_is_caught_up_later() {
    let (mut pass, _) = WaterGpuPass::new();
    let (view, _, _) = some_view();
    let mut params = WaterParams::default();
    pass.execute(Some(view), seconds(0.0), &mut params);
    let plan = pass.execute(Some(view), seconds(0.11), &mut params).unwrap();
    assert_eq!(count(&plan.compute, ComputePipeline::Update), 4);
    let plan = pass.execute(Some(view), seconds(0.0), &mut params).unwrap();
    assert_eq!(count(&plan.compute, ComputePipeline::Update), 2);
    assert!(f32::from_bits(pass.step_accumulator) <= f32::from_bits(STEP_TIME));
}

#[test]
fn times_that_are_no_times() {
    let (view, _, _) = some_view();
    let mut params = WaterParams::default();
    for delta in [f32::NAN, -1.0, f32::NEG_INFINITY, -0.0] {
        let (mut pass, _) = WaterGpuPass::new();
        let plan = pass.execute(Some(view), seconds(delta), &mut params).unwrap();
        assert_eq!(count(&plan.compute, ComputePipeline::Update), 0);
        assert_eq!(f32::from_bits(pass.step_accumulator), 0.0);
    }
    let (mut pass, _) = WaterGpuPass::new();
    let plan = pass.execute(Some(view), seconds(f32::INFINITY), &mut params).unwrap();
    assert_eq!(count(&plan.compute, ComputePipeline::Update), 4);
}

#[test]
fn a_time_too_short_for_a_step_is_kept() {
    let (mut pass, _) = WaterGpuPass::new();
    let (view, _, _) = some_view();
    let mut params = WaterParams::default();
    let plan = pass.execute(Some(view), seconds(0.0166), &mut params).unwrap();
    assert_eq!(count(&plan.compute, ComputePipeline::Update), 0);
    assert_eq!(pass.step_accumulator, seconds(0.0166));
}

#[test]
fn the_steps_do_not_depend_on_the_frame_rate() {
    let (view, _, _) = some_view();
    let total = |frames: u32, delta: f32| {
        let (mut pass, _) = WaterGpuPass::new();
        let mut params = WaterParams::default();
        let mut steps = 0;
        for _ in 0..frames {
            let plan = pass.execute(Some(view), seconds(delta), &mut params).unwrap();
            steps += count(&plan.compute, ComputePipeline::Update) as i64;
        }
        steps
    };
    // Four seconds, cut into frames of different lengths that single precision holds exactly.
    let coarse = total(64, 0.0625);
    let middle = total(256, 0.015625);
    let fine = total(1024, 0.00390625);
    assert!((coarse - 240).abs() <= 1);
    assert!((coarse - middle).abs() <= 1);
    assert!((middle - fine).abs() <= 1);
}

#[test]
fn uniforms_of_the_simulation() {
    let params = WaterParams {
        drop_center: Vec2 { x: 0.25f32.to_bits(), y: 0.75f32.to_bits() },
        drop_radius: 0.03f32.to_bits(),
        drop_strength: 0.02f32.to_bits(),
        drop_active: true,
        sphere_old: Vec3 { x: 1.0f32.to_bits(), y: 2.0f32.to_bits(), z: 3.0f32.to_bits() },
        sphere_new: Vec3 { x: 4.0f32.to_bits(), y: 5.0f32.to_bits(), z: 6.0f32.to_bits() },
        sphere_radius: 0.25f32.to_bits(),
        ball_rotation: column([0.5, 0.5, -0.5, 0.5]),
        ball_shown: true,
        reset: false,
    };
    let mut wanted: [f32; 16] = [
        0.25, 0.75, 0.03, 0.02, 1.0, 1.0 / 256.0, 0.0, 0.0, 1.0, 2.0, 3.0, 0.25, 4.0, 5.0, 6.0, 0.25,
    ];
    let bytes = sim_uniform_bytes(&params);
    assert_eq!(bytes.len(), 64);
    assert_eq!(bytes, bytemuck::bytes_of(&wanted));
    wanted[4] = 0.0;
    let calm = WaterParams { drop_active: false, ..params };
    assert_eq!(sim_uniform_bytes(&calm), bytemuck::bytes_of(&wanted));
    // The pass uploads the same bytes.
    let (mut pass, _) = WaterGpuPass::new();
    let (view, _, _) = some_view();
    let mut shared = calm;
    let plan = pass.execute(Some(view), seconds(0.01), &mut shared).unwrap();
    assert_eq!(plan.sim, bytemuck::bytes_of(&wanted));
    assert_eq!(plan.render, render_uniform_bytes(&view));
}

#[test]
fn uniforms_of_the_drawing() {
    let (frame, projection, view) = some_view();
    let product: [[f32; 4]; 4] = (projection * view).into();
    let sun = glm::normalize(&glm::vec3(0.3f32, 1.0, 0.2));
    let mut wanted: Vec<f32> = product.iter().flatten().copied().collect();
    wanted.extend_from_slice(&[1.0, 2.0, 3.0, 1.0]);
    wanted.extend_from_slice(&[sun.x, sun.y, sun.z, 0.0]);
    wanted.extend_from_slice(&[1.0, 0.96, 0.88, 0.0]);
    wanted.extend_from_slice(&[0.16, 0.46, 0.52, 0.0]);
    wanted.extend_from_slice(&[0.03, 0.16, 0.24, 0.0]);
    wanted.extend_from_slice(&[1.0, 0.0, 8.0, -1.0]);
    let bytes = render_uniform_bytes(&frame);
    assert_eq!(bytes.len(), 160);
    let values: Vec<f32> =
        bytes.chunks(4).map(|b| f32::from_ne_bytes([b[0], b[1], b[2], b[3]])).collect();
    assert_eq!(values, wanted);
}

#[test]
fn matrix_products_match_glm() {
    let mut seed = 9u64;
    let mut next = || {
        seed = seed.wrapping_mul(6364136223846793005).wrapping_add(1442695040888963407);
        ((seed >> 40) as f32) / 16777216.0 * 20.0 - 10.0
    };
    for _ in 0..100 {
        let a = glm::Mat4::from_fn(|_, _| next());
        let b = glm::Mat4::from_fn(|_, _| next());
        assert_eq!(matrix(&a).times(matrix(&b)), matrix(&(a * b)));
    }
}

#[test]
fn textures_of_the_field() {
    for texture in [StateTexture::A, StateTexture::B] {
        let plan = texture.plan();
        assert_eq!((plan.width, plan.height), (256, 256));
        assert_eq!((plan.layers, plan.levels, plan.samples), (1, 1, 1));
        assert!(plan.sampled && plan.stored && !plan.drawn);
    }
    let caustics = caustics_texture_plan();
    assert_eq!((caustics.width, caustics.height), (1024, 1024));
    assert_eq!((caustics.layers, caustics.levels, caustics.samples), (1, 1, 1));
    assert!(caustics.sampled && caustics.drawn && !caustics.stored);
    assert_eq!(caustics_texture_label(), "Water Caustics Texture");
    assert_eq!(StateTexture::A.label(), "Water State A");
    assert_eq!(StateTexture::B.label(), "Water State B");
    assert_eq!(workgroups() * 8, 256);
}

#[test]
fn bindings_of_the_pass() {
    let kinds = |layout: BindLayout| -> Vec<(u32, Visibility, BindingKind)> {
        layout.entries().iter().map(|e| (e.binding, e.visibility, e.kind)).collect()
    };
    assert_eq!(
        kinds(BindLayout::Compute),
        [
            (0, Visibility::Compute, BindingKind::SampledTexture),
            (1, Visibility::Compute, BindingKind::StorageTexture),
            (2, Visibility::Compute, BindingKind::Uniform),
        ]
    );
    assert_eq!(
        kinds(BindLayout::Render),
        [
            (0, Visibility::VertexFragment, BindingKind::Uniform),
            (1, Visibility::VertexFragment, BindingKind::SampledTexture),
            (2, Visibility::VertexFragment, BindingKind::FilteringSampler),
        ]
    );
    let resources = |group: BindGroup| -> Vec<(u32, Resource)> {
        group.entries().iter().map(|e| (e.binding, e.resource)).collect()
    };
    let (a, b) = (Resource::Texture(StateTexture::A), Resource::Texture(StateTexture::B));
    let sim = Resource::Buffer(UniformBuffer::Sim);
    assert_eq!(resources(BindGroup::Update), [(0, a), (1, b), (2, sim)]);
    assert_eq!(resources(BindGroup::Normals), [(0, b), (1, a), (2, sim)]);
    assert_eq!(
        resources(BindGroup::Render),
        [(0, Resource::Buffer(UniformBuffer::Render)), (1, a), (2, Resource::Sampler)]
    );
    assert_eq!(BindGroup::Update.layout(), BindLayout::Compute);
    assert_eq!(BindGroup::Normals.layout(), BindLayout::Compute);
    assert_eq!(BindGroup::Render.layout(), BindLayout::Render);
    let ball = Resource::Buffer(UniformBuffer::Ball);
    assert_eq!(kinds(BindLayout::Ball), [(0, Visibility::VertexFragment, BindingKind::Uniform)]);
    assert_eq!(
        kinds(BindLayout::Scene),
        [
            (0, Visibility::VertexFragment, BindingKind::Uniform),
            (1, Visibility::VertexFragment, BindingKind::SampledTexture),
        ]
    );
    assert_eq!(resources(BindGroup::Ball), [(0, ball)]);
    assert_eq!(resources(BindGroup::Scene), [(0, ball), (1, Resource::Caustics)]);
    assert_eq!(BindGroup::Ball.layout(), BindLayout::Ball);
    assert_eq!(BindGroup::Scene.layout(), BindLayout::Scene);
    assert_eq!(UniformBuffer::Ball.size(), 32);
    assert_eq!(UniformBuffer::Sim.size(), 64);
    assert_eq!(UniformBuffer::Render.size(), 160);
}

#[test]
fn plans_of_the_render_pipelines() {
    let caustics = RenderPipeline::Caustics.plan();
    assert_eq!((caustics.array_stride, caustics.components), (12, 3));
    assert_eq!(caustics.color_source, BlendFactor::One);
    assert_eq!(caustics.color_destination, BlendFactor::One);
    assert_eq!(caustics.alpha_source, BlendFactor::One);
    assert_eq!(caustics.alpha_destination, BlendFactor::One);
    assert!(!caustics.depth_write);
    assert_eq!(caustics.target, RenderTarget::Caustics);
    assert_eq!(caustics.group, BindGroup::Ball);
    assert_eq!(caustics.culling, Culling::Off);
    let surface = RenderPipeline::Surface.plan();
    assert_eq!((surface.array_stride, surface.components), (12, 3));
    assert_eq!(surface.color_source, BlendFactor::SourceAlpha);
    assert_eq!(surface.color_destination, BlendFactor::OneMinusSourceAlpha);
    assert_eq!(surface.alpha_source, BlendFactor::One);
    assert_eq!(surface.alpha_destination, BlendFactor::OneMinusSourceAlpha);
    assert!(surface.depth_write);
    assert_eq!(surface.culling, Culling::Back);
    let underside = RenderPipeline::Underside.plan();
    assert_eq!(underside.culling, Culling::Front);
    assert_eq!((underside.color_source, underside.alpha_source), (surface.color_source, surface.alpha_source));
    for solid in [RenderPipeline::Pool.plan(), RenderPipeline::Ball.plan()] {
        assert_eq!((solid.array_stride, solid.components), (12, 3));
        assert_eq!((solid.color_source, solid.color_destination), (BlendFactor::One, BlendFactor::Zero));
        assert_eq!((solid.alpha_source, solid.alpha_destination), (BlendFactor::One, BlendFactor::Zero));
        assert_eq!(solid.culling, Culling::Back);
        assert!(solid.depth_write);
    }
    for pipeline in
        [RenderPipeline::Pool, RenderPipeline::Surface, RenderPipeline::Underside, RenderPipeline::Ball]
    {
        assert_eq!(pipeline.plan().target, RenderTarget::Scene);
        assert_eq!(pipeline.plan().group, BindGroup::Scene);
    }
}

#[test]
fn a_hidden_ball_is_not_drawn() {
    let (mut pass, _) = WaterGpuPass::new();
    let (view, _, _) = some_view();
    let mut params = WaterParams { ball_shown: false, ..WaterParams::default() };
    let plan = pass.execute(Some(view), seconds(0.0), &mut params).unwrap();
    let drawn: Vec<RenderPipeline> = plan.draws.iter().map(|draw| draw.pipeline).collect();
    assert_eq!(
        drawn,
        [
            RenderPipeline::Caustics,
            RenderPipeline::Pool,
            RenderPipeline::Surface,
            RenderPipeline::Underside
        ]
    );
    assert_eq!(plan.ball[12..16], 0.0f32.to_ne_bytes());
}

#[test]
fn uniforms_of_the_ball() {
    let params = WaterParams {
        sphere_new: Vec3 { x: 1.0f32.to_bits(), y: 2.0f32.to_bits(), z: 3.0f32.to_bits() },
        ball_rotation: column([0.5, -0.5, 0.25, 0.75]),
        ..WaterParams::default()
    };
    let wanted: [f32; 8] = [1.0, 2.0, 3.0, 0.25, 0.5, -0.5, 0.25, 0.75];
    assert_eq!(ball_uniform_bytes(&params), bytemuck::bytes_of(&wanted));
    let (mut pass, _) = WaterGpuPass::new();
    let (view, _, _) = some_view();
    let mut shared = params;
    let plan = pass.execute(Some(view), seconds(0.0), &mut shared).unwrap();
    assert_eq!(plan.ball, bytemuck::bytes_of(&wanted));
}

#[test]
fn render_shaders_begin_with_the_shared_code() {
    assert_eq!(helpers_file(), "helpers.wgsl");
    assert_eq!(render_source("fn a() {}", "fn b() {}"), "fn a() {}\nfn b() {}");
}

#[test]
fn boxes_of_the_pool_and_the_ball() {
    let (_, buffers) = WaterGpuPass::new();
    let floats = |bytes: &[u8]| -> Vec<f32> {
        bytes.chunks(4).map(|b| f32::from_ne_bytes([b[0], b[1], b[2], b[3]])).collect()
    };
    let words = |bytes: &[u8]| -> Vec<usize> {
        bytes.chunks(4).map(|b| u32::from_ne_bytes([b[0], b[1], b[2], b[3]]) as usize).collect()
    };
    let rim = 1.0f32 / 6.0;
    let pool = floats(&buffers.pool_vertices);
    assert_eq!(pool.len(), 24);
    assert_eq!(&pool[..6], &[-1.0, -1.0, -1.0, 1.0, -1.0, -1.0]);
    assert_eq!(&pool[6..9], &[-1.0, rim, -1.0]);
    assert_eq!(&pool[21..], &[1.0, rim, 1.0]);
    let ball = floats(&buffers.ball_vertices);
    assert_eq!(&ball[21..], &[1.0, 1.0, 1.0]);
    assert!(ball.iter().all(|x| x.abs() == 1.0));
    // The pool shows its sides to an eye inside, the ball to an eye outside.
    let facing = |mesh: &[f32], triangle: &[usize], eye: glm::Vec3| {
        let at = |i: usize| glm::vec3(mesh[3 * i], mesh[3 * i + 1], mesh[3 * i + 2]);
        let (a, b, c) = (at(triangle[0]), at(triangle[1]), at(triangle[2]));
        (b - a).cross(&(c - a)).dot(&(eye - a))
    };
    let sides = words(&buffers.pool_indices);
    assert_eq!(sides.len(), 30);
    for triangle in sides.chunks(3) {
        assert!(facing(&pool, triangle, glm::vec3(0.0, -0.5, 0.0)) > 0.0);
    }
    // From far out along the first axis the wall between is the only one not seen.
    let seen = sides.chunks(3).filter(|t| facing(&pool, t, glm::vec3(5.0, 2.0, 0.0)) > 0.0).count();
    assert_eq!(seen, 8);
    let all = words(&buffers.ball_indices);
    assert_eq!(all.len(), 36);
    for triangle in all.chunks(3) {
        assert!(facing(&ball, triangle, glm::vec3(0.0, 0.0, 0.0)) < 0.0);
    }
}

#[test]
fn names_of_the_resources() {
    assert_eq!(UniformBuffer::Sim.label(), "Water Sim Uniform");
    assert_eq!(UniformBuffer::Render.label(), "Water Render Uniform");
    assert_eq!(BindLayout::Compute.label(), "Water Compute Layout");
    assert_eq!(BindLayout::Render.label(), "Water Render Layout");
    assert_eq!(BindLayout::Ball.label(), "Water Ball Layout");
    assert_eq!(BindLayout::Scene.label(), "Water Scene Layout");
    assert_eq!(ComputePipeline::Clear.layout_label(), "Water Compute Pipeline Layout");
    assert_eq!(ComputePipeline::Update.shader(), "water_sim.wgsl");
    assert_eq!(RenderPipeline::Caustics.layout_label(), "Water Caustics Pipeline Layout");
    assert_eq!(RenderPipeline::Surface.layout_label(), "Water Render Pipeline Layout");
    assert_eq!(UniformBuffer::Ball.label(), "Water Ball Uniform");
    assert_eq!(BindGroup::Ball.label(), "Water Ball Bind Group");
    assert_eq!(BindGroup::Scene.label(), "Water Scene Bind Group");
    assert_eq!(RenderPipeline::Pool.label(), "Water Pool Pipeline");
    assert_eq!(RenderPipeline::Underside.label(), "Water Underside Pipeline");
    assert_eq!(RenderPipeline::Ball.label(), "Water Ball Pipeline");
    assert_eq!(RenderPipeline::Pool.shader(), "pool.wgsl");
    assert_eq!(RenderPipeline::Underside.shader(), "water_surface.wgsl");
    assert_eq!(RenderPipeline::Ball.shader(), "sphere.wgsl");
    assert_eq!(RenderPipeline::Pool.vertex_label(), "Water Pool Vertices");
    assert_eq!(RenderPipeline::Pool.index_label(), "Water Pool Indices");
    assert_eq!(RenderPipeline::Ball.vertex_label(), "Water Ball Vertices");
    assert_eq!(RenderPipeline::Ball.index_label(), "Water Ball Indices");
    assert_eq!(RenderPipeline::Underside.vertex_label(), "Water Grid Vertices");
    assert_eq!(RenderPipeline::Underside.index_label(), "Water Grid Indices");
    assert_eq!(BindGroup::Update.label(), "Water Update Bind Group");
    assert_eq!(BindGroup::Normals.label(), "Water Normals Bind Group");
    assert_eq!(BindGroup::Render.label(), "Water Render Bind Group");
    assert_eq!(ComputePipeline::Clear.label(), "Water Clear Pipeline");
    assert_eq!(ComputePipeline::Update.label(), "Water Update Pipeline");
    assert_eq!(ComputePipeline::Normals.label(), "Water Normals Pipeline");
    assert_eq!(ComputePipeline::Clear.entry_point(), "clear");
    assert_eq!(ComputePipeline::Update.entry_point(), "update");
    assert_eq!(ComputePipeline::Normals.entry_point(), "normals");
    assert_eq!(ComputePipeline::Clear.pass_label(), "Water Clear");
    assert_eq!(ComputePipeline::Update.pass_label(), "Water Update");
    assert_eq!(ComputePipeline::Normals.pass_label(), "Water Normals");
    assert_eq!(RenderPipeline::Caustics.label(), "Water Caustics Pipeline");
    assert_eq!(RenderPipeline::Surface.label(), "Water Render Pipeline");
    assert_eq!(RenderPipeline::Caustics.shader(), "caustics.wgsl");
    assert_eq!(RenderPipeline::Surface.shader(), "water_surface.wgsl");
    assert_eq!(RenderPipeline::Caustics.vertex_label(), "Water Grid Vertices");
    assert_eq!(RenderPipeline::Surface.vertex_label(), "Water Grid Vertices");
    assert_eq!(RenderPipeline::Caustics.index_label(), "Water Grid Indices");
    assert_eq!(RenderPipeline::Surface.index_label(), "Water Grid Indices");
}
