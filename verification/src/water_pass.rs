//! The GPU pass: what it is built from, and what it does in a frame.
//!
//! The height field lives on two textures. A step of the simulation reads the
//! first and writes the second, then computes normals from the second back into
//! the first. Everything is drawn from the first: the caustics into a texture of their
//! own, then with that texture the pool, the water from above and from below, and the
//! ball.

use crate::arithmetic::{
    difference, divided, floor_to_u32, from_u32, from_whole, minus, plus, product, quotient, sum,
    times, whole_part,
};
use crate::boxes::{
    ball_bounds, ball_box, box_triangles, box_words, build_corners, build_sides, pool, pool_bounds,
    BOX_SIDES, POOL_SIDES,
};
use crate::constants::STEP_HZ;
use crate::grid::{build_grid, index_count, index_words, vertex_count, vertex_words, Grid};
use crate::params::WaterParams;
use crate::scalar::{at_most, larger, max, Scalar, ONE, ZERO};
use crate::uniforms::{
    ball_uniform, ball_uniform_bytes, cast_words, in_memory, render_uniform, render_uniform_bytes,
    sim_uniform, sim_uniform_bytes, ViewFrame, BALL_UNIFORM_SIZE, RENDER_UNIFORM_SIZE,
    SIM_UNIFORM_SIZE,
};
use vstd::prelude::*;
use vstd::string::StringExecFns;

verus! {

/// How many cells the height field has along a side.
pub const SIM_SIZE: u32 = 256;

/// How many cells a workgroup covers along a side.
pub const WORKGROUP_SIZE: u32 = 8;

/// How many segments the drawn surface has along a side.
pub const GRID_RESOLUTION: u32 = 200;

/// How many cells the caustics texture has along a side.
pub const CAUSTICS_SIZE: u32 = 1024;

/// How many steps a frame simulates at most.
pub const MAX_STEPS_PER_FRAME: u32 = 4;

/// One of the two textures of the height field.
#[derive(Clone, Copy, Debug, PartialEq, Eq, Structural)]
pub enum StateTexture {
    A,
    B,
}

/// How a texture is made.
#[derive(Clone, Copy, Debug, PartialEq, Eq, Structural)]
pub struct TexturePlan {
    pub width: u32,
    pub height: u32,
    pub layers: u32,
    pub levels: u32,
    pub samples: u32,
    /// Whether shaders may read it.
    pub sampled: bool,
    /// Whether shaders may write it.
    pub stored: bool,
    /// Whether it may be drawn into.
    pub drawn: bool,
}

/// One of the three uniform buffers.
#[derive(Clone, Copy, Debug, PartialEq, Eq, Structural)]
pub enum UniformBuffer {
    Sim,
    Render,
    Ball,
}

/// What a shader is handed at a binding.
#[derive(Clone, Copy, Debug, PartialEq, Eq, Structural)]
pub enum Resource {
    Texture(StateTexture),
    /// The caustics texture.
    Caustics,
    Buffer(UniformBuffer),
    Sampler,
}

/// The shader stages that see a binding.
#[derive(Clone, Copy, Debug, PartialEq, Eq, Structural)]
pub enum Visibility {
    Compute,
    VertexFragment,
}

/// What a shader expects at a binding.
#[derive(Clone, Copy, Debug, PartialEq, Eq, Structural)]
pub enum BindingKind {
    /// A filterable texture that is read.
    SampledTexture,
    /// A texture that is written.
    StorageTexture,
    Uniform,
    FilteringSampler,
}

/// A line of a bind group layout.
#[derive(Clone, Copy, Debug, PartialEq, Eq, Structural)]
pub struct LayoutEntry {
    pub binding: u32,
    pub visibility: Visibility,
    pub kind: BindingKind,
}

/// A line of a bind group.
#[derive(Clone, Copy, Debug, PartialEq, Eq, Structural)]
pub struct GroupEntry {
    pub binding: u32,
    pub resource: Resource,
}

/// One of the four bind group layouts.
#[derive(Clone, Copy, Debug, PartialEq, Eq, Structural)]
pub enum BindLayout {
    Compute,
    Render,
    Ball,
    Scene,
}

/// One of the five bind groups.
#[derive(Clone, Copy, Debug, PartialEq, Eq, Structural)]
pub enum BindGroup {
    Update,
    Normals,
    Render,
    Ball,
    Scene,
}

/// One of the three compute pipelines.
#[derive(Clone, Copy, Debug, PartialEq, Eq, Structural)]
pub enum ComputePipeline {
    Clear,
    Update,
    Normals,
}

/// One of the five render pipelines.
#[derive(Clone, Copy, Debug, PartialEq, Eq, Structural)]
pub enum RenderPipeline {
    Caustics,
    Pool,
    /// The water seen from above.
    Surface,
    /// The water seen from below.
    Underside,
    Ball,
}

/// The faces that are not drawn. A face is seen from the front where its corners are
/// passed counter-clockwise.
#[derive(Clone, Copy, Debug, PartialEq, Eq, Structural)]
pub enum Culling {
    Off,
    Front,
    Back,
}

/// What is drawn into.
#[derive(Clone, Copy, Debug, PartialEq, Eq, Structural)]
pub enum RenderTarget {
    /// The caustics texture, which has no depth and is black before the frame's first draw.
    Caustics,
    /// The color and the depth of the scene.
    Scene,
}

/// A factor of a blend equation.
#[derive(Clone, Copy, Debug, PartialEq, Eq, Structural)]
pub enum BlendFactor {
    Zero,
    One,
    SourceAlpha,
    OneMinusSourceAlpha,
}

/// How a render pipeline reads vertices and writes pixels.
#[derive(Clone, Copy, Debug, PartialEq, Eq, Structural)]
pub struct RenderPlan {
    /// Bytes from one vertex to the next.
    pub array_stride: u64,
    /// Numbers in a vertex.
    pub components: u32,
    pub culling: Culling,
    pub color_source: BlendFactor,
    pub color_destination: BlendFactor,
    pub alpha_source: BlendFactor,
    pub alpha_destination: BlendFactor,
    pub depth_write: bool,
    pub target: RenderTarget,
    /// The second bind group; the first is that of the drawing.
    pub group: BindGroup,
}

/// A compute pass over the whole height field.
#[derive(Clone, Copy, Debug, PartialEq, Eq, Structural)]
pub struct ComputePass {
    pub pipeline: ComputePipeline,
    pub group: BindGroup,
}

/// A draw call over the first indices of a pipeline's index buffer.
#[derive(Clone, Copy, Debug, PartialEq, Eq, Structural)]
pub struct DrawCall {
    pub pipeline: RenderPipeline,
    pub index_count: u32,
}

/// What the pass does in a frame.
#[derive(Debug)]
pub struct FramePlan {
    /// The uniforms of the simulation.
    pub sim: Vec<u8>,
    /// The uniforms of the drawing.
    pub render: Vec<u8>,
    /// The uniforms of the ball.
    pub ball: Vec<u8>,
    /// The compute passes, in order; each covers the field with
    /// `workgroups` workgroups along either side.
    pub compute: Vec<ComputePass>,
    pub workgroups: u32,
    /// The draw calls, in order.
    pub draws: Vec<DrawCall>,
}

/// What the buffers of the pass hold.
#[derive(Debug)]
pub struct PassBuffers {
    pub vertices: Vec<u8>,
    pub indices: Vec<u8>,
    pub pool_vertices: Vec<u8>,
    pub pool_indices: Vec<u8>,
    pub ball_vertices: Vec<u8>,
    pub ball_indices: Vec<u8>,
}

/// The pass from frame to frame.
#[derive(Clone, Copy, Debug, PartialEq, Eq, Structural)]
pub struct WaterGpuPass {
    /// Whether the height field has ever been cleared.
    pub cleared: bool,
    /// How many indices the surface is drawn with.
    pub index_count: u32,
    /// The time that no step has been made for yet.
    pub step_accumulator: Scalar,
}

/// How a texture of the height field is made.
pub open spec fn texture_plan() -> TexturePlan {
    TexturePlan {
        width: SIM_SIZE,
        height: SIM_SIZE,
        layers: 1,
        levels: 1,
        samples: 1,
        sampled: true,
        stored: true,
        drawn: false,
    }
}

/// How the caustics texture is made.
pub open spec fn caustics_texture() -> TexturePlan {
    TexturePlan {
        width: CAUSTICS_SIZE,
        height: CAUSTICS_SIZE,
        layers: 1,
        levels: 1,
        samples: 1,
        sampled: true,
        stored: false,
        drawn: true,
    }
}

/// How the caustics texture is made: drawn into first, then read by shaders.
pub fn caustics_texture_plan() -> (r: TexturePlan)
    ensures
        r == caustics_texture(),
{
    TexturePlan {
        width: CAUSTICS_SIZE,
        height: CAUSTICS_SIZE,
        layers: 1,
        levels: 1,
        samples: 1,
        sampled: true,
        stored: false,
        drawn: true,
    }
}

/// The name of the caustics texture.
pub fn caustics_texture_label() -> (r: &'static str)
    ensures
        r@ == "Water Caustics Texture"@,
{
    "Water Caustics Texture"
}

impl BindLayout {
    /// The lines of a layout.
    pub open spec fn lines(self) -> Seq<LayoutEntry> {
        match self {
            BindLayout::Compute => seq![
                LayoutEntry {
                    binding: 0,
                    visibility: Visibility::Compute,
                    kind: BindingKind::SampledTexture,
                },
                LayoutEntry {
                    binding: 1,
                    visibility: Visibility::Compute,
                    kind: BindingKind::StorageTexture,
                },
                LayoutEntry {
                    binding: 2,
                    visibility: Visibility::Compute,
                    kind: BindingKind::Uniform,
                },
            ],
            BindLayout::Render => seq![
                LayoutEntry {
                    binding: 0,
                    visibility: Visibility::VertexFragment,
                    kind: BindingKind::Uniform,
                },
                LayoutEntry {
                    binding: 1,
                    visibility: Visibility::VertexFragment,
                    kind: BindingKind::SampledTexture,
                },
                LayoutEntry {
                    binding: 2,
                    visibility: Visibility::VertexFragment,
                    kind: BindingKind::FilteringSampler,
                },
            ],
            BindLayout::Ball => seq![
                LayoutEntry {
                    binding: 0,
                    visibility: Visibility::VertexFragment,
                    kind: BindingKind::Uniform,
                },
            ],
            BindLayout::Scene => seq![
                LayoutEntry {
                    binding: 0,
                    visibility: Visibility::VertexFragment,
                    kind: BindingKind::Uniform,
                },
                LayoutEntry {
                    binding: 1,
                    visibility: Visibility::VertexFragment,
                    kind: BindingKind::SampledTexture,
                },
            ],
        }
    }

    /// The lines of a layout.
    pub fn entries(self) -> (r: Vec<LayoutEntry>)
        ensures
            r@ == self.lines(),
    {
        let visibility: Visibility = match self {
            BindLayout::Compute => Visibility::Compute,
            _ => Visibility::VertexFragment,
        };
        let mut list: Vec<LayoutEntry> = Vec::new();
        match self {
            BindLayout::Compute => {
                list.push(LayoutEntry { binding: 0, visibility, kind: BindingKind::SampledTexture });
                list.push(LayoutEntry { binding: 1, visibility, kind: BindingKind::StorageTexture });
                list.push(LayoutEntry { binding: 2, visibility, kind: BindingKind::Uniform });
            },
            BindLayout::Render => {
                list.push(LayoutEntry { binding: 0, visibility, kind: BindingKind::Uniform });
                list.push(LayoutEntry { binding: 1, visibility, kind: BindingKind::SampledTexture });
                list.push(LayoutEntry { binding: 2, visibility, kind: BindingKind::FilteringSampler });
            },
            BindLayout::Ball => {
                list.push(LayoutEntry { binding: 0, visibility, kind: BindingKind::Uniform });
            },
            BindLayout::Scene => {
                list.push(LayoutEntry { binding: 0, visibility, kind: BindingKind::Uniform });
                list.push(LayoutEntry { binding: 1, visibility, kind: BindingKind::SampledTexture });
            },
        }
        assert(list@ =~= self.lines());
        list
    }
}

impl BindGroup {
    /// The layout that a group follows.
    pub open spec fn layout_of(self) -> BindLayout {
        match self {
            BindGroup::Render => BindLayout::Render,
            BindGroup::Ball => BindLayout::Ball,
            BindGroup::Scene => BindLayout::Scene,
            _ => BindLayout::Compute,
        }
    }

    /// The lines of a group.
    pub open spec fn lines(self) -> Seq<GroupEntry> {
        match self {
            BindGroup::Update => seq![
                GroupEntry { binding: 0, resource: Resource::Texture(StateTexture::A) },
                GroupEntry { binding: 1, resource: Resource::Texture(StateTexture::B) },
                GroupEntry { binding: 2, resource: Resource::Buffer(UniformBuffer::Sim) },
            ],
            BindGroup::Normals => seq![
                GroupEntry { binding: 0, resource: Resource::Texture(StateTexture::B) },
                GroupEntry { binding: 1, resource: Resource::Texture(StateTexture::A) },
                GroupEntry { binding: 2, resource: Resource::Buffer(UniformBuffer::Sim) },
            ],
            BindGroup::Render => seq![
                GroupEntry { binding: 0, resource: Resource::Buffer(UniformBuffer::Render) },
                GroupEntry { binding: 1, resource: Resource::Texture(StateTexture::A) },
                GroupEntry { binding: 2, resource: Resource::Sampler },
            ],
            BindGroup::Ball => seq![
                GroupEntry { binding: 0, resource: Resource::Buffer(UniformBuffer::Ball) },
            ],
            BindGroup::Scene => seq![
                GroupEntry { binding: 0, resource: Resource::Buffer(UniformBuffer::Ball) },
                GroupEntry { binding: 1, resource: Resource::Caustics },
            ],
        }
    }

    /// The layout that a group follows.
    pub fn layout(self) -> (r: BindLayout)
        ensures
            r == self.layout_of(),
    {
        match self {
            BindGroup::Render => BindLayout::Render,
            BindGroup::Ball => BindLayout::Ball,
            BindGroup::Scene => BindLayout::Scene,
            _ => BindLayout::Compute,
        }
    }

    /// The lines of a group.
    pub fn entries(self) -> (r: Vec<GroupEntry>)
        ensures
            r@ == self.lines(),
    {
        let mut list: Vec<GroupEntry> = Vec::new();
        match self {
            BindGroup::Update => {
                list.push(GroupEntry { binding: 0, resource: Resource::Texture(StateTexture::A) });
                list.push(GroupEntry { binding: 1, resource: Resource::Texture(StateTexture::B) });
                list.push(GroupEntry { binding: 2, resource: Resource::Buffer(UniformBuffer::Sim) });
            },
            BindGroup::Normals => {
                list.push(GroupEntry { binding: 0, resource: Resource::Texture(StateTexture::B) });
                list.push(GroupEntry { binding: 1, resource: Resource::Texture(StateTexture::A) });
                list.push(GroupEntry { binding: 2, resource: Resource::Buffer(UniformBuffer::Sim) });
            },
            BindGroup::Render => {
                list.push(GroupEntry { binding: 0, resource: Resource::Buffer(UniformBuffer::Render) });
                list.push(GroupEntry { binding: 1, resource: Resource::Texture(StateTexture::A) });
                list.push(GroupEntry { binding: 2, resource: Resource::Sampler });
            },
            BindGroup::Ball => {
                list.push(GroupEntry { binding: 0, resource: Resource::Buffer(UniformBuffer::Ball) });
            },
            BindGroup::Scene => {
                list.push(GroupEntry { binding: 0, resource: Resource::Buffer(UniformBuffer::Ball) });
                list.push(GroupEntry { binding: 1, resource: Resource::Caustics });
            },
        }
        assert(list@ =~= self.lines());
        list
    }
}

impl UniformBuffer {
    /// How many bytes a uniform buffer has.
    pub fn size(self) -> (r: u64)
        ensures
            self == UniformBuffer::Sim ==> r == SIM_UNIFORM_SIZE,
            self == UniformBuffer::Render ==> r == RENDER_UNIFORM_SIZE,
            self == UniformBuffer::Ball ==> r == BALL_UNIFORM_SIZE,
    {
        match self {
            UniformBuffer::Sim => SIM_UNIFORM_SIZE,
            UniformBuffer::Render => RENDER_UNIFORM_SIZE,
            UniformBuffer::Ball => BALL_UNIFORM_SIZE,
        }
    }
}

impl RenderPipeline {
    /// How a render pipeline works. Caustics carry the vertices of the water along the
    /// light, and add to their texture. The pool shows its inner sides, so that the near
    /// walls do not hide it. The water blends with what is behind it, from above and from
    /// below. The ball shows its outer side.
    pub open spec fn plan_of(self) -> RenderPlan {
        match self {
            RenderPipeline::Caustics => RenderPlan {
                array_stride: 12,
                components: 3,
                culling: Culling::Off,
                color_source: BlendFactor::One,
                color_destination: BlendFactor::One,
                alpha_source: BlendFactor::One,
                alpha_destination: BlendFactor::One,
                depth_write: false,
                target: RenderTarget::Caustics,
                group: BindGroup::Ball,
            },
            RenderPipeline::Pool => RenderPlan {
                array_stride: 12,
                components: 3,
                culling: Culling::Back,
                color_source: BlendFactor::One,
                color_destination: BlendFactor::Zero,
                alpha_source: BlendFactor::One,
                alpha_destination: BlendFactor::Zero,
                depth_write: true,
                target: RenderTarget::Scene,
                group: BindGroup::Scene,
            },
            RenderPipeline::Surface => RenderPlan {
                array_stride: 12,
                components: 3,
                culling: Culling::Back,
                color_source: BlendFactor::SourceAlpha,
                color_destination: BlendFactor::OneMinusSourceAlpha,
                alpha_source: BlendFactor::One,
                alpha_destination: BlendFactor::OneMinusSourceAlpha,
                depth_write: true,
                target: RenderTarget::Scene,
                group: BindGroup::Scene,
            },
            RenderPipeline::Underside => RenderPlan {
                array_stride: 12,
                components: 3,
                culling: Culling::Front,
                color_source: BlendFactor::SourceAlpha,
                color_destination: BlendFactor::OneMinusSourceAlpha,
                alpha_source: BlendFactor::One,
                alpha_destination: BlendFactor::OneMinusSourceAlpha,
                depth_write: true,
                target: RenderTarget::Scene,
                group: BindGroup::Scene,
            },
            RenderPipeline::Ball => RenderPlan {
                array_stride: 12,
                components: 3,
                culling: Culling::Back,
                color_source: BlendFactor::One,
                color_destination: BlendFactor::Zero,
                alpha_source: BlendFactor::One,
                alpha_destination: BlendFactor::Zero,
                depth_write: true,
                target: RenderTarget::Scene,
                group: BindGroup::Scene,
            },
        }
    }

    /// How a render pipeline works.
    pub fn plan(self) -> (r: RenderPlan)
        ensures
            r == self.plan_of(),
    {
        match self {
            RenderPipeline::Caustics => RenderPlan {
                array_stride: 12,
                components: 3,
                culling: Culling::Off,
                color_source: BlendFactor::One,
                color_destination: BlendFactor::One,
                alpha_source: BlendFactor::One,
                alpha_destination: BlendFactor::One,
                depth_write: false,
                target: RenderTarget::Caustics,
                group: BindGroup::Ball,
            },
            RenderPipeline::Pool => RenderPlan {
                array_stride: 12,
                components: 3,
                culling: Culling::Back,
                color_source: BlendFactor::One,
                color_destination: BlendFactor::Zero,
                alpha_source: BlendFactor::One,
                alpha_destination: BlendFactor::Zero,
                depth_write: true,
                target: RenderTarget::Scene,
                group: BindGroup::Scene,
            },
            RenderPipeline::Surface => RenderPlan {
                array_stride: 12,
                components: 3,
                culling: Culling::Back,
                color_source: BlendFactor::SourceAlpha,
                color_destination: BlendFactor::OneMinusSourceAlpha,
                alpha_source: BlendFactor::One,
                alpha_destination: BlendFactor::OneMinusSourceAlpha,
                depth_write: true,
                target: RenderTarget::Scene,
                group: BindGroup::Scene,
            },
            RenderPipeline::Underside => RenderPlan {
                array_stride: 12,
                components: 3,
                culling: Culling::Front,
                color_source: BlendFactor::SourceAlpha,
                color_destination: BlendFactor::OneMinusSourceAlpha,
                alpha_source: BlendFactor::One,
                alpha_destination: BlendFactor::OneMinusSourceAlpha,
                depth_write: true,
                target: RenderTarget::Scene,
                group: BindGroup::Scene,
            },
            RenderPipeline::Ball => RenderPlan {
                array_stride: 12,
                components: 3,
                culling: Culling::Back,
                color_source: BlendFactor::One,
                color_destination: BlendFactor::Zero,
                alpha_source: BlendFactor::One,
                alpha_destination: BlendFactor::Zero,
                depth_write: true,
                target: RenderTarget::Scene,
                group: BindGroup::Scene,
            },
        }
    }
}

impl StateTexture {
    /// How a texture of the height field is made: one layer and one level of cells, read
    /// by some shaders and written by others.
    pub fn plan(self) -> (r: TexturePlan)
        ensures
            r == texture_plan(),
    {
        TexturePlan {
            width: SIM_SIZE,
            height: SIM_SIZE,
            layers: 1,
            levels: 1,
            samples: 1,
            sampled: true,
            stored: true,
            drawn: false,
        }
    }

    /// The name of a texture.
    pub fn label(self) -> (r: &'static str)
        ensures
            self == StateTexture::A ==> r@ == "Water State A"@,
            self == StateTexture::B ==> r@ == "Water State B"@,
    {
        match self {
            StateTexture::A => "Water State A",
            StateTexture::B => "Water State B",
        }
    }
}

impl UniformBuffer {
    /// The name of a uniform buffer.
    pub fn label(self) -> (r: &'static str)
        ensures
            self == UniformBuffer::Sim ==> r@ == "Water Sim Uniform"@,
            self == UniformBuffer::Render ==> r@ == "Water Render Uniform"@,
            self == UniformBuffer::Ball ==> r@ == "Water Ball Uniform"@,
    {
        match self {
            UniformBuffer::Sim => "Water Sim Uniform",
            UniformBuffer::Render => "Water Render Uniform",
            UniformBuffer::Ball => "Water Ball Uniform",
        }
    }
}

impl BindLayout {
    /// The name of a layout.
    pub fn label(self) -> (r: &'static str)
        ensures
            self == BindLayout::Compute ==> r@ == "Water Compute Layout"@,
            self == BindLayout::Render ==> r@ == "Water Render Layout"@,
            self == BindLayout::Ball ==> r@ == "Water Ball Layout"@,
            self == BindLayout::Scene ==> r@ == "Water Scene Layout"@,
    {
        match self {
            BindLayout::Compute => "Water Compute Layout",
            BindLayout::Render => "Water Render Layout",
            BindLayout::Ball => "Water Ball Layout",
            BindLayout::Scene => "Water Scene Layout",
        }
    }
}

impl BindGroup {
    /// The name of a group.
    pub fn label(self) -> (r: &'static str)
        ensures
            self == BindGroup::Update ==> r@ == "Water Update Bind Group"@,
            self == BindGroup::Normals ==> r@ == "Water Normals Bind Group"@,
            self == BindGroup::Render ==> r@ == "Water Render Bind Group"@,
            self == BindGroup::Ball ==> r@ == "Water Ball Bind Group"@,
            self == BindGroup::Scene ==> r@ == "Water Scene Bind Group"@,
    {
        match self {
            BindGroup::Update => "Water Update Bind Group",
            BindGroup::Normals => "Water Normals Bind Group",
            BindGroup::Render => "Water Render Bind Group",
            BindGroup::Ball => "Water Ball Bind Group",
            BindGroup::Scene => "Water Scene Bind Group",
        }
    }
}

impl ComputePipeline {
    /// The name of a pipeline.
    pub fn label(self) -> (r: &'static str)
        ensures
            self == ComputePipeline::Clear ==> r@ == "Water Clear Pipeline"@,
            self == ComputePipeline::Update ==> r@ == "Water Update Pipeline"@,
            self == ComputePipeline::Normals ==> r@ == "Water Normals Pipeline"@,
    {
        match self {
            ComputePipeline::Clear => "Water Clear Pipeline",
            ComputePipeline::Update => "Water Update Pipeline",
            ComputePipeline::Normals => "Water Normals Pipeline",
        }
    }

    /// The name of the layout that a pipeline follows.
    pub fn layout_label(self) -> (r: &'static str)
        ensures
            r@ == "Water Compute Pipeline Layout"@,
    {
        "Water Compute Pipeline Layout"
    }

    /// The file of the shader that a pipeline runs.
    pub fn shader(self) -> (r: &'static str)
        ensures
            r@ == "water_sim.wgsl"@,
    {
        "water_sim.wgsl"
    }

    /// The function of the simulation shader that a pipeline runs.
    pub fn entry_point(self) -> (r: &'static str)
        ensures
            self == ComputePipeline::Clear ==> r@ == "clear"@,
            self == ComputePipeline::Update ==> r@ == "update"@,
            self == ComputePipeline::Normals ==> r@ == "normals"@,
    {
        match self {
            ComputePipeline::Clear => "clear",
            ComputePipeline::Update => "update",
            ComputePipeline::Normals => "normals",
        }
    }

    /// The name of a pass that runs a pipeline.
    pub fn pass_label(self) -> (r: &'static str)
        ensures
            self == ComputePipeline::Clear ==> r@ == "Water Clear"@,
            self == ComputePipeline::Update ==> r@ == "Water Update"@,
            self == ComputePipeline::Normals ==> r@ == "Water Normals"@,
    {
        match self {
            ComputePipeline::Clear => "Water Clear",
            ComputePipeline::Update => "Water Update",
            ComputePipeline::Normals => "Water Normals",
        }
    }
}

impl RenderPipeline {
    /// The name of a pipeline.
    pub fn label(self) -> (r: &'static str)
        ensures
            self == RenderPipeline::Caustics ==> r@ == "Water Caustics Pipeline"@,
            self == RenderPipeline::Pool ==> r@ == "Water Pool Pipeline"@,
            self == RenderPipeline::Surface ==> r@ == "Water Render Pipeline"@,
            self == RenderPipeline::Underside ==> r@ == "Water Underside Pipeline"@,
            self == RenderPipeline::Ball ==> r@ == "Water Ball Pipeline"@,
    {
        match self {
            RenderPipeline::Caustics => "Water Caustics Pipeline",
            RenderPipeline::Pool => "Water Pool Pipeline",
            RenderPipeline::Surface => "Water Render Pipeline",
            RenderPipeline::Underside => "Water Underside Pipeline",
            RenderPipeline::Ball => "Water Ball Pipeline",
        }
    }

    /// The name of the layout that a pipeline follows.
    pub fn layout_label(self) -> (r: &'static str)
        ensures
            self == RenderPipeline::Caustics ==> r@ == "Water Caustics Pipeline Layout"@,
            self == RenderPipeline::Pool ==> r@ == "Water Render Pipeline Layout"@,
            self == RenderPipeline::Surface ==> r@ == "Water Render Pipeline Layout"@,
            self == RenderPipeline::Underside ==> r@ == "Water Render Pipeline Layout"@,
            self == RenderPipeline::Ball ==> r@ == "Water Render Pipeline Layout"@,
    {
        match self {
            RenderPipeline::Caustics => "Water Caustics Pipeline Layout",
            RenderPipeline::Pool => "Water Render Pipeline Layout",
            RenderPipeline::Surface => "Water Render Pipeline Layout",
            RenderPipeline::Underside => "Water Render Pipeline Layout",
            RenderPipeline::Ball => "Water Render Pipeline Layout",
        }
    }

    /// The file of the shader that a pipeline runs.
    pub fn shader(self) -> (r: &'static str)
        ensures
            self == RenderPipeline::Caustics ==> r@ == "caustics.wgsl"@,
            self == RenderPipeline::Pool ==> r@ == "pool.wgsl"@,
            self == RenderPipeline::Surface ==> r@ == "water_surface.wgsl"@,
            self == RenderPipeline::Underside ==> r@ == "water_surface.wgsl"@,
            self == RenderPipeline::Ball ==> r@ == "sphere.wgsl"@,
    {
        match self {
            RenderPipeline::Caustics => "caustics.wgsl",
            RenderPipeline::Pool => "pool.wgsl",
            RenderPipeline::Surface => "water_surface.wgsl",
            RenderPipeline::Underside => "water_surface.wgsl",
            RenderPipeline::Ball => "sphere.wgsl",
        }
    }

    /// The name of the vertex buffer that a pipeline reads.
    pub fn vertex_label(self) -> (r: &'static str)
        ensures
            self == RenderPipeline::Caustics ==> r@ == "Water Grid Vertices"@,
            self == RenderPipeline::Pool ==> r@ == "Water Pool Vertices"@,
            self == RenderPipeline::Surface ==> r@ == "Water Grid Vertices"@,
            self == RenderPipeline::Underside ==> r@ == "Water Grid Vertices"@,
            self == RenderPipeline::Ball ==> r@ == "Water Ball Vertices"@,
    {
        match self {
            RenderPipeline::Caustics => "Water Grid Vertices",
            RenderPipeline::Pool => "Water Pool Vertices",
            RenderPipeline::Surface => "Water Grid Vertices",
            RenderPipeline::Underside => "Water Grid Vertices",
            RenderPipeline::Ball => "Water Ball Vertices",
        }
    }

    /// The name of the index buffer that a pipeline reads.
    pub fn index_label(self) -> (r: &'static str)
        ensures
            self == RenderPipeline::Caustics ==> r@ == "Water Grid Indices"@,
            self == RenderPipeline::Pool ==> r@ == "Water Pool Indices"@,
            self == RenderPipeline::Surface ==> r@ == "Water Grid Indices"@,
            self == RenderPipeline::Underside ==> r@ == "Water Grid Indices"@,
            self == RenderPipeline::Ball ==> r@ == "Water Ball Indices"@,
    {
        match self {
            RenderPipeline::Caustics => "Water Grid Indices",
            RenderPipeline::Pool => "Water Pool Indices",
            RenderPipeline::Surface => "Water Grid Indices",
            RenderPipeline::Underside => "Water Grid Indices",
            RenderPipeline::Ball => "Water Ball Indices",
        }
    }
}

/// The file of the code that the render shaders share.
pub fn helpers_file() -> (r: &'static str)
    ensures
        r@ == "helpers.wgsl"@,
{
    "helpers.wgsl"
}

/// The source of a render shader: the shared code, and then its own.
pub fn render_source(helpers: &str, own: &str) -> (r: String)
    ensures
        r@ == helpers@ + "\n"@ + own@,
{
    let mut source: String = helpers.to_owned();
    source.append("\n");
    source.append(own);
    source
}

/// The time that a step simulates.
pub open spec fn step_time() -> Scalar {
    quotient(ONE, STEP_HZ)
}

/// The time `left` by earlier frames and that of a frame that took `delta_time`. A
/// negative time counts as none, and so does what is not a number.
pub open spec fn time_with(left: Scalar, delta_time: Scalar) -> Scalar {
    sum(left, larger(delta_time, ZERO))
}

/// How many steps the accumulated time `elapsed` is good for.
pub open spec fn steps_in(elapsed: Scalar) -> int {
    let whole = whole_part(quotient(elapsed, step_time()));
    if whole > MAX_STEPS_PER_FRAME {
        MAX_STEPS_PER_FRAME as int
    } else {
        whole
    }
}

/// What is left of the accumulated time `elapsed` once its steps are made.
pub open spec fn time_left(elapsed: Scalar) -> Scalar {
    larger(difference(elapsed, product(from_whole(steps_in(elapsed)), step_time())), ZERO)
}

/// The passes that clear both textures.
pub open spec fn clear_passes() -> Seq<ComputePass> {
    seq![
        ComputePass { pipeline: ComputePipeline::Clear, group: BindGroup::Update },
        ComputePass { pipeline: ComputePipeline::Clear, group: BindGroup::Normals },
    ]
}

/// The passes that make `steps` steps.
pub open spec fn step_passes(steps: int) -> Seq<ComputePass>
    decreases steps,
{
    if steps <= 0 {
        Seq::empty()
    } else {
        step_passes(steps - 1) + seq![
            ComputePass { pipeline: ComputePipeline::Update, group: BindGroup::Update },
            ComputePass { pipeline: ComputePipeline::Normals, group: BindGroup::Normals },
        ]
    }
}

/// The compute passes of a frame.
pub open spec fn frame_passes(clear: bool, steps: int) -> Seq<ComputePass> {
    (if clear {
        clear_passes()
    } else {
        Seq::empty()
    }) + step_passes(steps)
}

/// The draws of a frame: the caustics, from the mesh of the water, and with them the
/// pool, both sides of the water, and the ball where it is shown.
pub open spec fn frame_draws(surface: u32, ball_shown: bool) -> Seq<DrawCall> {
    seq![
        DrawCall { pipeline: RenderPipeline::Caustics, index_count: surface },
        DrawCall {
            pipeline: RenderPipeline::Pool,
            index_count: box_triangles(POOL_SIDES as int, true).len() as u32,
        },
        DrawCall { pipeline: RenderPipeline::Surface, index_count: surface },
        DrawCall { pipeline: RenderPipeline::Underside, index_count: surface },
    ] + (if ball_shown {
        seq![
            DrawCall {
                pipeline: RenderPipeline::Ball,
                index_count: box_triangles(BOX_SIDES as int, false).len() as u32,
            },
        ]
    } else {
        Seq::empty()
    })
}

/// The draws of a frame.
fn draw_calls(surface: u32, ball_shown: bool) -> (r: Vec<DrawCall>)
    ensures
        r@ == frame_draws(surface, ball_shown),
{
    let mut draws: Vec<DrawCall> = Vec::new();
    draws.push(DrawCall { pipeline: RenderPipeline::Caustics, index_count: surface });
    draws.push(DrawCall { pipeline: RenderPipeline::Pool, index_count: 30 });
    draws.push(DrawCall { pipeline: RenderPipeline::Surface, index_count: surface });
    draws.push(DrawCall { pipeline: RenderPipeline::Underside, index_count: surface });
    if ball_shown {
        draws.push(DrawCall { pipeline: RenderPipeline::Ball, index_count: 36 });
    }
    assert(draws@ =~= frame_draws(surface, ball_shown));
    draws
}

/// The compute passes of a frame.
fn compute_passes(clear: bool, steps: u32) -> (r: Vec<ComputePass>)
    ensures
        r@ == frame_passes(clear, steps as int),
{
    let mut list: Vec<ComputePass> = Vec::new();
    if clear {
        list.push(ComputePass { pipeline: ComputePipeline::Clear, group: BindGroup::Update });
        list.push(ComputePass { pipeline: ComputePipeline::Clear, group: BindGroup::Normals });
    }
    let mut made: u32 = 0;
    assert(list@ =~= frame_passes(clear, 0));
    while made < steps
        invariant
            made <= steps,
            list@ == frame_passes(clear, made as int),
        decreases steps - made,
    {
        list.push(ComputePass { pipeline: ComputePipeline::Update, group: BindGroup::Update });
        list.push(ComputePass { pipeline: ComputePipeline::Normals, group: BindGroup::Normals });
        made = made + 1;
        assert(list@ =~= frame_passes(clear, made as int));
    }
    list
}

/// How many workgroups cover a side of the height field.
pub fn workgroups() -> (r: u32)
    ensures
        r * WORKGROUP_SIZE >= SIM_SIZE,
        (r - 1) * WORKGROUP_SIZE < SIM_SIZE,
{
    (SIM_SIZE + (WORKGROUP_SIZE - 1)) / WORKGROUP_SIZE
}

impl WaterGpuPass {
    /// Whether the pass draws the whole surface and its clock does not run behind zero.
    pub open spec fn wf(self) -> bool {
        &&& self.index_count == index_count(GRID_RESOLUTION as int)
        &&& at_most(ZERO, self.step_accumulator)
    }

    /// Whether the next frame clears the height field.
    pub open spec fn clears(self, params: WaterParams) -> bool {
        !self.cleared || params.reset
    }

    /// The accumulated time of a frame that took `delta_time`, before its steps. It
    /// starts afresh in a cleared pool.
    pub open spec fn elapsed(self, delta_time: Scalar, params: WaterParams) -> Scalar {
        time_with(if self.clears(params) { ZERO } else { self.step_accumulator }, delta_time)
    }

    /// The name of the pass.
    pub fn name(&self) -> (r: &'static str)
        ensures
            r@ == "water_gpu_pass"@,
    {
        "water_gpu_pass"
    }

    /// The slots that the pass only reads: none.
    pub fn reads(&self) -> (r: Vec<&'static str>)
        ensures
            r@.len() == 0,
    {
        Vec::new()
    }

    /// The slots that the pass only writes: none.
    pub fn writes(&self) -> (r: Vec<&'static str>)
        ensures
            r@.len() == 0,
    {
        Vec::new()
    }

    /// The slots that the pass reads and writes.
    pub fn reads_writes(&self) -> (r: Vec<&'static str>)
        ensures
            r@ == seq!["color", "depth"],
    {
        let mut slots: Vec<&'static str> = Vec::new();
        slots.push("color");
        slots.push("depth");
        slots
    }

    /// The pass before its first frame, and what its buffers hold: the mesh of the
    /// water, the pool and the box of the ball.
    pub fn new() -> (r: (WaterGpuPass, PassBuffers))
        ensures
            r.0.wf(),
            !r.0.cleared,
            r.0.step_accumulator == ZERO,
            r.0.index_count == index_count(GRID_RESOLUTION as int),
            in_memory(vertex_words(GRID_RESOLUTION as int), r.1.vertices@),
            in_memory(index_words(GRID_RESOLUTION as int), r.1.indices@),
            in_memory(box_words(pool_bounds()), r.1.pool_vertices@),
            in_memory(box_triangles(POOL_SIDES as int, true), r.1.pool_indices@),
            in_memory(box_words(ball_bounds()), r.1.ball_vertices@),
            in_memory(box_triangles(BOX_SIDES as int, false), r.1.ball_indices@),
    {
        assert(vertex_count(200) == 43601 && index_count(200) == 244800);
        let grid: Grid = build_grid(GRID_RESOLUTION);
        proof {
            grid.lemma_index_words();
        }
        let vertices: Vec<u8> = cast_words(&grid.vertex_words());
        let indices: Vec<u8> = cast_words(&grid.indices);
        let index_count: u32 = grid.indices.len() as u32;
        let buffers: PassBuffers = PassBuffers {
            vertices,
            indices,
            pool_vertices: cast_words(&build_corners(pool())),
            pool_indices: cast_words(&build_sides(POOL_SIDES, true)),
            ball_vertices: cast_words(&build_corners(ball_box())),
            ball_indices: cast_words(&build_sides(BOX_SIDES, false)),
        };
        (WaterGpuPass { cleared: false, index_count, step_accumulator: ZERO }, buffers)
    }

    /// Takes in a frame that took `delta_time`, and gives what to do in it. Without
    /// a view nothing is done and nothing changes; a reset stays requested.
    #[verifier::rlimit(30)]
    pub fn execute(
        &mut self,
        view: Option<ViewFrame>,
        delta_time: Scalar,
        params: &mut WaterParams,
    ) -> (r: Option<FramePlan>)
        ensures
            old(self).wf() ==> final(self).wf(),
            r.is_some() == view.is_some(),
            view.is_none() ==> *final(self) == *old(self) && *final(params) == *old(params),
            r matches Some(plan) ==> {
                let elapsed = old(self).elapsed(delta_time, *old(params));
                &&& *final(params) == (WaterParams { reset: false, ..*old(params) })
                &&& *final(self) == (WaterGpuPass {
                    cleared: true,
                    step_accumulator: time_left(elapsed),
                    ..*old(self)
                })
                &&& in_memory(sim_uniform(*old(params)), plan.sim@)
                &&& in_memory(render_uniform(view.unwrap()), plan.render@)
                &&& in_memory(ball_uniform(*old(params)), plan.ball@)
                &&& plan.compute@ == frame_passes(
                    old(self).clears(*old(params)),
                    steps_in(elapsed),
                )
                &&& plan.workgroups == SIM_SIZE / WORKGROUP_SIZE
                &&& plan.draws@ == frame_draws(old(self).index_count, old(params).ball_shown)
            },
    {
        let view: ViewFrame = match view {
            Some(view) => view,
            None => return None,
        };
        let snapshot: WaterParams = *params;
        params.reset = false;
        let sim: Vec<u8> = sim_uniform_bytes(&snapshot);
        let render: Vec<u8> = render_uniform_bytes(&view);
        let ball: Vec<u8> = ball_uniform_bytes(&snapshot);
        let clear: bool = !self.cleared || snapshot.reset;
        let steps: u32 = self.advance(clear, delta_time);
        let compute: Vec<ComputePass> = compute_passes(clear, steps);
        let draws: Vec<DrawCall> = draw_calls(self.index_count, snapshot.ball_shown);
        Some(FramePlan { sim, render, ball, compute, workgroups: workgroups(), draws })
    }

    /// Lets the clock run for `delta_time`, afresh where the pool is cleared, and gives the
    /// steps to make.
    fn advance(&mut self, clear: bool, delta_time: Scalar) -> (r: u32)
        ensures
            ({
                let elapsed = time_with(if clear { ZERO } else { old(self).step_accumulator }, delta_time);
                &&& r == steps_in(elapsed)
                &&& *final(self) == (WaterGpuPass {
                    cleared: old(self).cleared || clear,
                    step_accumulator: time_left(elapsed),
                    ..*old(self)
                })
            }),
    {
        if clear {
            self.cleared = true;
            self.step_accumulator = ZERO;
        }
        let elapsed: Scalar = plus(self.step_accumulator, max(delta_time, ZERO));
        let step_dt: Scalar = divided(ONE, STEP_HZ);
        let whole: u32 = floor_to_u32(divided(elapsed, step_dt));
        let steps: u32 = if whole > MAX_STEPS_PER_FRAME { MAX_STEPS_PER_FRAME } else { whole };
        self.step_accumulator = max(minus(elapsed, times(from_u32(steps), step_dt)), ZERO);
        steps
    }
}

} // verus!
