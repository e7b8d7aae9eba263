//! What the scene is set up with: the camera, the control panel, the rain and the
//! help overlay. The pool, the water and the ball are drawn by the pass.

use crate::arithmetic::{plus, sum};
use crate::bounds::{lemma_dyadic, lemma_sum_exact};
use crate::constants::{
    decimal, lemma_decimal, lemma_scene_constants, BLOOM_INTENSITY, BLOOM_THRESHOLD, CAMERA_FOCUS_Y,
    CAMERA_PITCH, CAMERA_RADIUS, CAMERA_YAW, HEADLINE_SIZE, HELP_LEFT, HELP_TOP, LINE_GAP,
    LINE_SIZE, MINUS_ONE, MIST_ALPHA_MIDDLE, MIST_GREEN_END, MIST_GREEN_MIDDLE, MIST_GREEN_START,
    MIST_MIDDLE, MIST_RED_END, MIST_RED_MIDDLE, MIST_RED_START, OUTLINE_WIDTH, PANEL_BOTTOM,
    PANEL_LEFT, PANEL_RIGHT, PANEL_TOP, POOL_HALF, RAIN_DRAG, RAIN_GLOW, RAIN_GRAVITY, RAIN_HEIGHT,
    RAIN_LIFE_MAX, RAIN_LIFE_MIN, RAIN_RATE, RAIN_SIZE_END, RAIN_SIZE_START, RAIN_SPEED_MAX,
    RAIN_SPEED_MIN, RAIN_SPREAD, RAIN_THICKNESS, TEXT_GREEN, TEXT_RED,
};
use crate::scalar::{lemma_spread_order, less, Scalar, ONE, ZERO};
use crate::vector::{Vec2, Vec3, Vec4};
use vstd::arithmetic::power2::lemma2_to64;
use vstd::prelude::*;
use vstd::string::StringExecFns;

verus! {

/// How the scene is rendered.
#[derive(Clone, Copy, Debug, PartialEq, Eq, Structural)]
pub struct RenderLook {
    /// The sky is the loaded high dynamic range environment.
    pub hdr_sky: bool,
    pub show_sky: bool,
    pub bloom_enabled: bool,
    pub bloom_intensity: Scalar,
    pub bloom_threshold: Scalar,
    pub show_grid: bool,
}

/// An orbit camera.
#[derive(Clone, Copy, Debug)]
pub struct OrbitCamera {
    pub focus: Vec3,
    pub radius: Scalar,
    pub yaw: Scalar,
    pub pitch: Scalar,
    pub name: &'static str,
}

/// A checkbox with its first setting.
#[derive(Clone, Copy, Debug)]
pub struct Checkbox {
    pub label: &'static str,
    pub checked: bool,
}

/// The widgets of the control panel, from top to bottom.
#[derive(Clone, Copy, Debug)]
pub struct Controls {
    pub rain: Checkbox,
    pub ball: Checkbox,
    /// The label of a button.
    pub reset: &'static str,
}

/// The control panel.
#[derive(Clone, Copy, Debug)]
pub struct ControlPanel {
    pub id: &'static str,
    pub title: &'static str,
    pub min: Vec2,
    pub max: Vec2,
    pub controls: Controls,
}

/// A colour that a particle reaches at a share of its life.
#[derive(Clone, Copy, Debug, PartialEq, Eq, Structural)]
pub struct ColorStop {
    pub at: Scalar,
    pub color: Vec4,
}

/// A cloud that particles of rain fall from.
#[derive(Debug)]
pub struct RainEmitter {
    /// Half the size of the box that drops start in.
    pub half_extents: Vec3,
    pub position: Vec3,
    pub direction: Vec3,
    pub spawn_rate: Scalar,
    pub burst_count: u32,
    pub particle_lifetime_min: Scalar,
    pub particle_lifetime_max: Scalar,
    pub initial_velocity_min: Scalar,
    pub initial_velocity_max: Scalar,
    pub velocity_spread: Scalar,
    pub gravity: Vec3,
    pub drag: Scalar,
    pub size_start: Scalar,
    pub size_end: Scalar,
    pub colors: Vec<ColorStop>,
    pub emissive_strength: Scalar,
    pub enabled: bool,
    pub one_shot: bool,
}

/// A line of the legend.
#[derive(Clone, Copy, Debug)]
pub struct HelpLine {
    pub text: &'static str,
    pub position: Vec2,
    pub font_size: Scalar,
    pub color: Vec4,
    pub outline_width: Scalar,
    pub outline_color: Vec4,
}

/// The look of the scene.
pub fn render_look() -> (r: RenderLook)
    ensures
        r == (RenderLook {
            hdr_sky: true,
            show_sky: true,
            bloom_enabled: true,
            bloom_intensity: BLOOM_INTENSITY,
            bloom_threshold: BLOOM_THRESHOLD,
            show_grid: false,
        }),
{
    RenderLook {
        hdr_sky: true,
        show_sky: true,
        bloom_enabled: true,
        bloom_intensity: BLOOM_INTENSITY,
        bloom_threshold: BLOOM_THRESHOLD,
        show_grid: false,
    }
}

/// The orbit camera that frames the pool.
pub fn spawn_camera() -> (r: OrbitCamera)
    ensures
        r.focus == (Vec3 { x: ZERO, y: CAMERA_FOCUS_Y, z: ZERO }),
        r.radius == CAMERA_RADIUS,
        r.yaw == CAMERA_YAW,
        r.pitch == CAMERA_PITCH,
        r.name@ == "Camera"@,
{
    OrbitCamera {
        focus: Vec3 { x: ZERO, y: CAMERA_FOCUS_Y, z: ZERO },
        radius: CAMERA_RADIUS,
        yaw: CAMERA_YAW,
        pitch: CAMERA_PITCH,
        name: "Camera",
    }
}

/// The control panel: no rain at first, and the ball shown.
pub fn spawn_controls() -> (r: ControlPanel)
    ensures
        r.id@ == "water_controls"@,
        r.title@ == "Water"@,
        r.min == (Vec2 { x: PANEL_LEFT, y: PANEL_TOP }),
        r.max == (Vec2 { x: PANEL_RIGHT, y: PANEL_BOTTOM }),
        r.controls.rain.label@ == "Rain"@,
        !r.controls.rain.checked,
        r.controls.ball.label@ == "Ball"@,
        r.controls.ball.checked,
        r.controls.reset@ == "Reset"@,
{
    ControlPanel {
        id: "water_controls",
        title: "Water",
        min: Vec2 { x: PANEL_LEFT, y: PANEL_TOP },
        max: Vec2 { x: PANEL_RIGHT, y: PANEL_BOTTOM },
        controls: Controls {
            rain: Checkbox { label: "Rain", checked: false },
            ball: Checkbox { label: "Ball", checked: true },
            reset: "Reset",
        },
    }
}

/// The colours of a drop over its life: it fades out.
pub open spec fn mist() -> Seq<ColorStop> {
    seq![
        ColorStop {
            at: ZERO,
            color: Vec4 { x: MIST_RED_START, y: MIST_GREEN_START, z: ONE, w: ONE },
        },
        ColorStop {
            at: MIST_MIDDLE,
            color: Vec4 { x: MIST_RED_MIDDLE, y: MIST_GREEN_MIDDLE, z: ONE, w: MIST_ALPHA_MIDDLE },
        },
        ColorStop {
            at: ONE,
            color: Vec4 { x: MIST_RED_END, y: MIST_GREEN_END, z: ONE, w: ZERO },
        },
    ]
}

/// The cloud above the pool, as wide as the pool. It is off at first.
pub fn spawn_rain_emitter() -> (r: RainEmitter)
    ensures
        r.half_extents == (Vec3 { x: POOL_HALF, y: RAIN_THICKNESS, z: POOL_HALF }),
        r.position == (Vec3 { x: ZERO, y: RAIN_HEIGHT, z: ZERO }),
        r.direction == (Vec3 { x: ZERO, y: MINUS_ONE, z: ZERO }),
        r.spawn_rate == RAIN_RATE,
        r.burst_count == 0,
        r.particle_lifetime_min == RAIN_LIFE_MIN,
        r.particle_lifetime_max == RAIN_LIFE_MAX,
        r.initial_velocity_min == RAIN_SPEED_MIN,
        r.initial_velocity_max == RAIN_SPEED_MAX,
        r.velocity_spread == RAIN_SPREAD,
        r.gravity == (Vec3 { x: ZERO, y: RAIN_GRAVITY, z: ZERO }),
        r.drag == RAIN_DRAG,
        r.size_start == RAIN_SIZE_START,
        r.size_end == RAIN_SIZE_END,
        r.colors@ == mist(),
        r.emissive_strength == RAIN_GLOW,
        !r.enabled,
        !r.one_shot,
{
    let mut colors: Vec<ColorStop> = Vec::new();
    colors.push(
        ColorStop {
            at: ZERO,
            color: Vec4 { x: MIST_RED_START, y: MIST_GREEN_START, z: ONE, w: ONE },
        },
    );
    colors.push(
        ColorStop {
            at: MIST_MIDDLE,
            color: Vec4 { x: MIST_RED_MIDDLE, y: MIST_GREEN_MIDDLE, z: ONE, w: MIST_ALPHA_MIDDLE },
        },
    );
    colors.push(
        ColorStop {
            at: ONE,
            color: Vec4 { x: MIST_RED_END, y: MIST_GREEN_END, z: ONE, w: ZERO },
        },
    );
    assert(colors@ =~= mist());
    RainEmitter {
        half_extents: Vec3 { x: POOL_HALF, y: RAIN_THICKNESS, z: POOL_HALF },
        position: Vec3 { x: ZERO, y: RAIN_HEIGHT, z: ZERO },
        direction: Vec3 { x: ZERO, y: MINUS_ONE, z: ZERO },
        spawn_rate: RAIN_RATE,
        burst_count: 0,
        particle_lifetime_min: RAIN_LIFE_MIN,
        particle_lifetime_max: RAIN_LIFE_MAX,
        initial_velocity_min: RAIN_SPEED_MIN,
        initial_velocity_max: RAIN_SPEED_MAX,
        velocity_spread: RAIN_SPREAD,
        gravity: Vec3 { x: ZERO, y: RAIN_GRAVITY, z: ZERO },
        drag: RAIN_DRAG,
        size_start: RAIN_SIZE_START,
        size_end: RAIN_SIZE_END,
        colors,
        emissive_strength: RAIN_GLOW,
        enabled: false,
        one_shot: false,
    }
}

/// What the legend says.
pub open spec fn legend() -> Seq<&'static str> {
    seq![
        "Drag the pool: ripples    Drag the ball: move it",
        "Drag outside the pool: orbit    Scroll: zoom",
        "Space: pause    Q or Esc: quit",
    ]
}

/// The size of line `i` of the legend: the first one is a headline.
pub open spec fn line_size(i: int) -> Scalar {
    if i == 0 {
        HEADLINE_SIZE
    } else {
        LINE_SIZE
    }
}

/// Where line `i` of the legend begins: below the line before, and a gap.
pub open spec fn line_top(i: int) -> Scalar
    decreases i,
{
    if i <= 0 {
        HELP_TOP
    } else {
        sum(line_top(i - 1), sum(line_size(i - 1), LINE_GAP))
    }
}

/// Line `i` of the legend.
pub open spec fn is_help_line(i: int, line: HelpLine) -> bool {
    &&& line.text == legend()[i]
    &&& line.position == (Vec2 { x: HELP_LEFT, y: line_top(i) })
    &&& line.font_size == line_size(i)
    &&& line.color == (Vec4 { x: TEXT_RED, y: TEXT_GREEN, z: ONE, w: ONE })
    &&& line.outline_width == OUTLINE_WIDTH
    &&& line.outline_color == (Vec4 { x: ZERO, y: ZERO, z: ZERO, w: ONE })
}

/// The legend.
pub fn spawn_help() -> (r: Vec<HelpLine>)
    ensures
        r@.len() == 3,
        forall|i: int| 0 <= i < 3 ==> is_help_line(i, #[trigger] r@[i]),
{
    let lines: Vec<&'static str> = vec![
        "Drag the pool: ripples    Drag the ball: move it",
        "Drag outside the pool: orbit    Scroll: zoom",
        "Space: pause    Q or Esc: quit",
    ];
    assert(lines@ =~= legend());
    let mut list: Vec<HelpLine> = Vec::new();
    let mut y: Scalar = HELP_TOP;
    let mut index: usize = 0;
    while index < lines.len()
        invariant
            lines@ == legend(),
            index <= lines@.len(),
            list@.len() == index,
            y == line_top(index as int),
            forall|i: int| 0 <= i < index ==> is_help_line(i, #[trigger] list@[i]),
        decreases lines@.len() - index,
    {
        let font_size: Scalar = if index == 0 { HEADLINE_SIZE } else { LINE_SIZE };
        list.push(
            HelpLine {
                text: lines[index],
                position: Vec2 { x: HELP_LEFT, y },
                font_size,
                color: Vec4 { x: TEXT_RED, y: TEXT_GREEN, z: ONE, w: ONE },
                outline_width: OUTLINE_WIDTH,
                outline_color: Vec4 { x: ZERO, y: ZERO, z: ZERO, w: ONE },
            },
        );
        y = plus(y, plus(font_size, LINE_GAP));
        index = index + 1;
    }
    list
}

/// The title of the window before the first frame.
pub fn first_title() -> (r: String)
    ensures
        r@ == "Nightshade Water"@,
{
    "Nightshade Water".to_owned()
}

/// The title of the window, given the frames for each second as text.
pub fn window_title(frames_per_second: &str, paused: bool) -> (r: String)
    ensures
        r@ == "Nightshade Water | "@ + frames_per_second@ + " FPS | "@ + (if paused {
            "paused"@
        } else {
            "running"@
        }),
{
    let status: &str = if paused { "paused" } else { "running" };
    let mut title: String = "Nightshade Water | ".to_owned();
    title.append(frames_per_second);
    title.append(" FPS | ");
    title.append(status);
    title
}

/// The lines of the legend stand one below the other, at 200, 234 and 260.
pub proof fn lemma_legend_lines()
    ensures
        line_top(0) == decimal(200, 1),
        line_top(1) == decimal(234, 1),
        line_top(2) == decimal(260, 1),
{
    lemma_scene_constants();
    lemma2_to64();
    lemma_decimal(234, 1, 0xEA_0000, 133, 0x1_0000);
    lemma_decimal(260, 1, 0x82_0000, 134, 0x8000);
    lemma_dyadic(0xC8_0000, 133, 16);
    lemma_dyadic(0xEA_0000, 133, 16);
    lemma_dyadic(0x82_0000, 134, 15);
    lemma_dyadic(0x80_0000, 129, 20);
    lemma_dyadic(0xD0_0000, 130, 19);
    lemma_dyadic(0x90_0000, 130, 19);
    lemma_dyadic(0x88_0000, 131, 18);
    lemma_sum_exact(HEADLINE_SIZE, LINE_GAP, 0x4208_0000);
    lemma_sum_exact(HELP_TOP, 0x4208_0000, 0x436A_0000);
    lemma_sum_exact(LINE_SIZE, LINE_GAP, 0x41D0_0000);
    lemma_sum_exact(0x436A_0000, 0x41D0_0000, 0x4382_0000);
    reveal_with_fuel(line_top, 3);
}

/// The colours of a drop follow one another over its whole life, and it ends
/// transparent.
pub proof fn lemma_mist()
    ensures
        mist()[0].at == ZERO,
        less(mist()[0].at, mist()[1].at),
        less(mist()[1].at, mist()[2].at),
        mist()[2].at == ONE,
        mist()[2].color.w == ZERO,
{
    lemma_spread_order(0, MIST_MIDDLE as int);
    lemma_spread_order(MIST_MIDDLE as int, ONE as int);
}

/// The ranges that the drops of the rain are drawn from are not empty, and drops shrink.
pub proof fn lemma_rain_ranges()
    ensures
        less(RAIN_LIFE_MIN, RAIN_LIFE_MAX),
        less(RAIN_SPEED_MIN, RAIN_SPEED_MAX),
        less(RAIN_SIZE_END, RAIN_SIZE_START),
{
    lemma_spread_order(RAIN_LIFE_MIN as int, RAIN_LIFE_MAX as int);
    lemma_spread_order(RAIN_SPEED_MIN as int, RAIN_SPEED_MAX as int);
    lemma_spread_order(RAIN_SIZE_END as int, RAIN_SIZE_START as int);
}

} // verus!
