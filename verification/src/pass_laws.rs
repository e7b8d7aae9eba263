//! What holds of the GPU pass: its resources fit together, and the two textures
//! change roles as they should.

use crate::boxes::{box_triangles, BOX_SIDES};
use crate::params::WaterParams;
use crate::plugin::WaterState;
use crate::scalar::{ONE, ZERO};
use crate::uniforms::{ball_uniform, in_memory, lemma_in_memory, sim_uniform};
use crate::vector::Vec2;
use crate::water_pass::{
    caustics_texture, clear_passes, frame_draws, frame_passes, step_passes, texture_plan, BindGroup,
    BindingKind, ComputePass, ComputePipeline, Culling, DrawCall, RenderPipeline, RenderPlan,
    RenderTarget, Resource, StateTexture, WaterGpuPass,
};
use vstd::prelude::*;

verus! {

/// Whether a resource is of the kind that a binding expects.
pub open spec fn fits(kind: BindingKind, resource: Resource) -> bool {
    match resource {
        Resource::Texture(_) => {
            ||| kind == BindingKind::SampledTexture && texture_plan().sampled
            ||| kind == BindingKind::StorageTexture && texture_plan().stored
        },
        Resource::Caustics => kind == BindingKind::SampledTexture && caustics_texture().sampled,
        Resource::Buffer(_) => kind == BindingKind::Uniform,
        Resource::Sampler => kind == BindingKind::FilteringSampler,
    }
}

/// Every bind group fits its layout, line by line.
pub proof fn lemma_groups_fit(group: BindGroup)
    ensures
        group.lines().len() == group.layout_of().lines().len(),
        forall|i: int|
            0 <= i < group.lines().len() ==> {
                &&& (#[trigger] group.lines()[i]).binding == group.layout_of().lines()[i].binding
                &&& fits(group.layout_of().lines()[i].kind, group.lines()[i].resource)
            },
{
}

/// The texture that a compute pass with this group reads.
pub open spec fn read_by(group: BindGroup) -> StateTexture {
    group.lines()[0].resource->Texture_0
}

/// The texture that a compute pass with this group writes.
pub open spec fn written_by(group: BindGroup) -> StateTexture {
    group.lines()[1].resource->Texture_0
}

/// No compute pass reads the texture that it writes, and each step's second pass
/// reads what its first one wrote.
pub proof fn lemma_no_feedback()
    ensures
        read_by(BindGroup::Update) != written_by(BindGroup::Update),
        read_by(BindGroup::Normals) != written_by(BindGroup::Normals),
        read_by(BindGroup::Normals) == written_by(BindGroup::Update),
        read_by(BindGroup::Update) == written_by(BindGroup::Normals),
{
}

/// What the two textures hold.
pub struct Field<T> {
    pub a: T,
    pub b: T,
}

/// What the shaders do to the content of a texture.
#[verifier::reject_recursive_types(T)]
pub struct Shaders<T> {
    pub flat: T,
    pub update: spec_fn(T) -> T,
    pub normals: spec_fn(T) -> T,
}

impl<T> Field<T> {
    /// The content of a texture.
    pub open spec fn at(self, texture: StateTexture) -> T {
        match texture {
            StateTexture::A => self.a,
            StateTexture::B => self.b,
        }
    }

    /// The textures with one of them written.
    pub open spec fn with(self, texture: StateTexture, content: T) -> Field<T> {
        match texture {
            StateTexture::A => Field { a: content, ..self },
            StateTexture::B => Field { b: content, ..self },
        }
    }

    /// The textures after a compute pass.
    pub open spec fn after_pass(self, shaders: Shaders<T>, pass: ComputePass) -> Field<T> {
        let input = self.at(read_by(pass.group));
        self.with(
            written_by(pass.group),
            match pass.pipeline {
                ComputePipeline::Clear => shaders.flat,
                ComputePipeline::Update => (shaders.update)(input),
                ComputePipeline::Normals => (shaders.normals)(input),
            },
        )
    }

    /// The textures after a list of compute passes.
    pub open spec fn after_passes(self, shaders: Shaders<T>, passes: Seq<ComputePass>) -> Field<T>
        decreases passes.len(),
    {
        if passes.len() == 0 {
            self
        } else {
            self.after_passes(shaders, passes.drop_last()).after_pass(shaders, passes.last())
        }
    }
}

/// A content after `steps` steps of the simulation.
pub open spec fn stepped<T>(shaders: Shaders<T>, steps: int, content: T) -> T
    decreases steps,
{
    if steps <= 0 {
        content
    } else {
        (shaders.normals)((shaders.update)(stepped(shaders, steps - 1, content)))
    }
}

/// A list of passes runs like its first part and then the other one.
proof fn lemma_passes_in_turn<T>(
    field: Field<T>,
    shaders: Shaders<T>,
    first: Seq<ComputePass>,
    second: Seq<ComputePass>,
)
    ensures
        field.after_passes(shaders, first + second) == field.after_passes(shaders, first).after_passes(
            shaders,
            second,
        ),
    decreases second.len(),
{
    if second.len() == 0 {
        assert(first + second =~= first);
    } else {
        assert((first + second).drop_last() =~= first + second.drop_last());
        lemma_passes_in_turn(field, shaders, first, second.drop_last());
    }
}

/// The passes of `steps` steps leave the drawn texture `steps` steps further.
proof fn lemma_steps<T>(field: Field<T>, shaders: Shaders<T>, steps: int)
    requires
        steps >= 0,
    ensures
        field.after_passes(shaders, step_passes(steps)).a == stepped(shaders, steps, field.a),
    decreases steps,
{
    if steps > 0 {
        lemma_steps(field, shaders, steps - 1);
        let last = seq![
            ComputePass { pipeline: ComputePipeline::Update, group: BindGroup::Update },
            ComputePass { pipeline: ComputePipeline::Normals, group: BindGroup::Normals },
        ];
        lemma_passes_in_turn(field, shaders, step_passes(steps - 1), last);
        let before = field.after_passes(shaders, step_passes(steps - 1));
        assert(last.drop_last() =~= seq![last[0]]);
        assert(last.drop_last().drop_last() =~= Seq::empty());
        reveal_with_fuel(Field::after_passes, 3);
        assert(before.after_passes(shaders, last).a == (shaders.normals)((shaders.update)(before.a)));
    }
}

/// After a frame the texture that the water is drawn from holds the field as many
/// steps further as the frame made: from a flat pool where the frame cleared it, else
/// from where the last frame left it.
pub proof fn lemma_frame<T>(field: Field<T>, shaders: Shaders<T>, clear: bool, steps: int)
    requires
        steps >= 0,
    ensures
        BindGroup::Render.lines()[1].resource == Resource::Texture(StateTexture::A),
        field.after_passes(shaders, frame_passes(clear, steps)).a == stepped(
            shaders,
            steps,
            if clear { shaders.flat } else { field.a },
        ),
{
    let first = if clear { clear_passes() } else { Seq::empty() };
    lemma_passes_in_turn(field, shaders, first, step_passes(steps));
    let before = field.after_passes(shaders, first);
    if clear {
        assert(first.drop_last() =~= seq![first[0]]);
        assert(first.drop_last().drop_last() =~= Seq::empty());
        reveal_with_fuel(Field::after_passes, 3);
        assert(before.a == shaders.flat && before.b == shaders.flat);
    }
    lemma_steps(before, shaders, steps);
}

/// A requested reset clears the pool in the next frame, and only there.
pub proof fn lemma_reset_once(pass: WaterGpuPass, params: WaterParams)
    ensures
        pass.clears(WaterParams { reset: true, ..params }),
        !(WaterGpuPass { cleared: true, ..pass }).clears(WaterParams { reset: false, ..params }),
{
}

/// The vertex layouts hold whole vertices of four-byte numbers.
pub proof fn lemma_strides(pipeline: RenderPipeline)
    ensures
        pipeline.plan_of().array_stride == 4 * pipeline.plan_of().components,
{
}

/// The caustics are drawn from the mesh that the water itself is drawn from, as many
/// indices of it and the same vertices, and no side of it is left out.
pub proof fn lemma_caustics_follow_water(surface: u32, ball_shown: bool)
    ensures
        ({
            let draws = frame_draws(surface, ball_shown);
            let (light, water) = (draws[0].pipeline.plan_of(), draws[2].pipeline.plan_of());
            &&& draws[0].pipeline == RenderPipeline::Caustics
            &&& draws[2].pipeline == RenderPipeline::Surface
            &&& draws[0].index_count == draws[2].index_count
            &&& light.array_stride == water.array_stride
            &&& light.components == water.components
            &&& light.culling == Culling::Off
        }),
{
}

/// The caustics are drawn into their texture first; everything after that is drawn into
/// the scene.
pub proof fn lemma_caustics_first(surface: u32, ball_shown: bool, i: int)
    requires
        0 <= i < frame_draws(surface, ball_shown).len(),
    ensures
        frame_draws(surface, ball_shown)[i].pipeline.plan_of().target == RenderTarget::Caustics <==> i == 0,
{
}

/// Whether a draw of this pipeline is handed the caustics texture.
pub open spec fn reads_caustics(pipeline: RenderPipeline) -> bool {
    exists|i: int|
        0 <= i < pipeline.plan_of().group.lines().len() && #[trigger] pipeline.plan_of().group.lines()[i].resource
            == Resource::Caustics
}

/// A draw is handed the caustics texture exactly where it does not draw into it.
pub proof fn lemma_caustics_read_or_drawn(pipeline: RenderPipeline)
    ensures
        reads_caustics(pipeline) <==> pipeline.plan_of().target != RenderTarget::Caustics,
        caustics_texture().drawn,
        caustics_texture().sampled,
        forall|i: int|
            0 <= i < BindGroup::Render.lines().len() ==> (#[trigger] BindGroup::Render.lines()[i]).resource
                != Resource::Caustics,
{
    if pipeline.plan_of().target != RenderTarget::Caustics {
        assert(pipeline.plan_of().group.lines()[1].resource == Resource::Caustics);
    }
}

/// The water is drawn twice, the same but for the faces that are left out: once the back
/// faces, once the front faces.
pub proof fn lemma_both_sides(surface: u32, ball_shown: bool)
    ensures
        ({
            let draws = frame_draws(surface, ball_shown);
            let (above, below) = (draws[2].pipeline.plan_of(), draws[3].pipeline.plan_of());
            &&& draws[2].index_count == surface
            &&& draws[3].index_count == surface
            &&& above.culling == Culling::Back
            &&& below == (RenderPlan { culling: Culling::Front, ..above })
        }),
{
}

/// The ball is drawn exactly where it is shown, and last.
pub proof fn lemma_ball_drawn(surface: u32, ball_shown: bool, i: int)
    requires
        0 <= i < frame_draws(surface, ball_shown).len(),
    ensures
        frame_draws(surface, ball_shown)[i].pipeline == RenderPipeline::Ball <==> ball_shown && i
            == frame_draws(surface, ball_shown).len() - 1,
{
}

/// The control panel reaches the pass in the same frame: the ball is drawn exactly where
/// its box is checked, and where it is not, it has no radius.
pub proof fn lemma_panel_shows_ball(
    state: WaterState,
    rain: bool,
    ball: bool,
    scattered: Vec2,
    params: WaterParams,
    surface: u32,
)
    ensures
        ({
            let told = (WaterState { rain, ball_shown: ball, ..state }).published(scattered, params);
            &&& frame_draws(surface, told.ball_shown).contains(
                DrawCall {
                    pipeline: RenderPipeline::Ball,
                    index_count: box_triangles(BOX_SIDES as int, false).len() as u32,
                },
            ) <==> ball
            &&& !ball ==> ball_uniform(told)[3] == ZERO
        }),
{
    let draws = frame_draws(surface, ball);
    if ball {
        assert(draws[4].pipeline == RenderPipeline::Ball);
    } else {
        assert forall|i: int| 0 <= i < draws.len() implies draws[i].pipeline != RenderPipeline::Ball by {
            lemma_ball_drawn(surface, ball, i);
        }
    }
}

/// Nothing that the simulation needs is lost on the way to it: bytes that stand for the
/// uniforms of two frames tell of the same drop and of the same ball before and after.
pub proof fn lemma_simulation_is_told(params: WaterParams, others: WaterParams, bytes: Seq<u8>)
    requires
        in_memory(sim_uniform(params), bytes),
        in_memory(sim_uniform(others), bytes),
    ensures
        params.drop_center == others.drop_center,
        params.drop_radius == others.drop_radius,
        params.drop_strength == others.drop_strength,
        params.drop_active == others.drop_active,
        params.sphere_old == others.sphere_old,
        params.sphere_new == others.sphere_new,
        params.sphere_radius == others.sphere_radius,
{
    let (a, b) = (sim_uniform(params), sim_uniform(others));
    lemma_in_memory(a, b, bytes);
    assert(a[0] == b[0] && a[1] == b[1] && a[2] == b[2] && a[3] == b[3] && a[4] == b[4]);
    assert(a[8] == b[8] && a[9] == b[9] && a[10] == b[10] && a[11] == b[11]);
    assert(a[12] == b[12] && a[13] == b[13] && a[14] == b[14]);
    assert(ONE != ZERO);
}

/// Nothing that the drawing of the ball needs is lost on the way to it: bytes that stand for
/// the uniforms of two frames tell of the same place and the same turn, and of the same
/// radius where the ball is shown.
pub proof fn lemma_ball_is_told(params: WaterParams, others: WaterParams, bytes: Seq<u8>)
    requires
        in_memory(ball_uniform(params), bytes),
        in_memory(ball_uniform(others), bytes),
    ensures
        params.sphere_new == others.sphere_new,
        params.ball_rotation == others.ball_rotation,
        params.ball_shown && others.ball_shown ==> params.sphere_radius == others.sphere_radius,
{
    let (a, b) = (ball_uniform(params), ball_uniform(others));
    lemma_in_memory(a, b, bytes);
    assert(a[0] == b[0] && a[1] == b[1] && a[2] == b[2] && a[3] == b[3]);
    assert(a[4] == b[4] && a[5] == b[5] && a[6] == b[6] && a[7] == b[7]);
}

} // verus!
