//! The words and bytes that the GPU reads.

use crate::constants::{
    DEEP_BLUE, DEEP_GREEN, DEEP_RED, EXTENT, FLOOR_Y, HEIGHT_SCALE, SHALLOW_BLUE, SHALLOW_GREEN,
    SHALLOW_RED, SLANT_X, SLANT_Y, SLANT_Z, SUN_BLUE, SUN_GREEN, TEXEL, WATER_LEVEL,
};
use crate::params::WaterParams;
use crate::scalar::{ONE, ZERO};
use crate::vector::{direction, matrix_product, matrix_words, Mat4, Vec3};
use vstd::endian::{endianness, Endian};
use vstd::prelude::*;

verus! {

/// How many bytes the uniforms of the simulation take.
pub const SIM_UNIFORM_SIZE: u64 = 64;

/// How many bytes the uniforms of the drawing take.
pub const RENDER_UNIFORM_SIZE: u64 = 160;

/// How many bytes the uniforms of the ball take.
pub const BALL_UNIFORM_SIZE: u64 = 32;

/// What the camera contributes to a frame.
#[derive(Clone, Copy, Debug, PartialEq, Eq, Structural)]
pub struct ViewFrame {
    pub projection: Mat4,
    pub view: Mat4,
    pub camera_position: Vec3,
}

/// The weight of the byte at place `k` of a word, counted from the low end.
pub open spec fn weight(k: int) -> int {
    if k == 0 {
        1
    } else if k == 1 {
        0x100
    } else if k == 2 {
        0x1_0000
    } else {
        0x100_0000
    }
}

/// The byte at place `k` of a word in the memory of the machine.
pub open spec fn word_byte(word: u32, k: int) -> u8 {
    match endianness() {
        Endian::Little => (word as int / weight(k) % 0x100) as u8,
        Endian::Big => (word as int / weight(3 - k) % 0x100) as u8,
    }
}

/// Whether `bytes` are what a list of words is in the memory of the machine.
pub open spec fn in_memory(words: Seq<u32>, bytes: Seq<u8>) -> bool {
    &&& bytes.len() == 4 * words.len()
    &&& forall|j: int|
        0 <= j < bytes.len() ==> #[trigger] bytes[j] == word_byte(words[j / 4], j % 4)
}

/// The bytes of an array of words.
///
/// This is `bytemuck::bytes_of`, which reads the array as the bytes that it takes
/// in memory: four for each word, in the order of the machine.
#[verifier::external_body]
fn bytes_of_words<const N: usize>(words: &[u32; N]) -> (r: Vec<u8>)
    ensures
        in_memory(words@, r@),
{
    bytemuck::bytes_of(words).to_vec()
}

/// The bytes of a list of words.
///
/// This is `bytemuck::cast_slice` from `u32` to `u8`, which reads the list as the
/// bytes that it takes in memory: four for each word, in the order of the machine.
#[verifier::external_body]
pub(crate) fn cast_words(words: &Vec<u32>) -> (r: Vec<u8>)
    ensures
        in_memory(words@, r@),
{
    bytemuck::cast_slice::<u32, u8>(words.as_slice()).to_vec()
}

/// A number below two to the power 32 is made of its four bytes.
proof fn lemma_four_bytes(a: int)
    requires
        0 <= a < 0x1_0000_0000,
    ensures
        a == a % 0x100 + 0x100 * (a / 0x100 % 0x100) + 0x1_0000 * (a / 0x1_0000 % 0x100) + 0x100_0000 * (a
            / 0x100_0000 % 0x100),
{
}

/// The four bytes of a word name it.
proof fn lemma_word_bytes(a: u32, b: u32)
    requires
        word_byte(a, 0) == word_byte(b, 0),
        word_byte(a, 1) == word_byte(b, 1),
        word_byte(a, 2) == word_byte(b, 2),
        word_byte(a, 3) == word_byte(b, 3),
    ensures
        a == b,
{
    lemma_four_bytes(a as int);
    lemma_four_bytes(b as int);
}

/// Bytes in memory name the words that they came from.
pub proof fn lemma_in_memory(words: Seq<u32>, others: Seq<u32>, bytes: Seq<u8>)
    requires
        in_memory(words, bytes),
        in_memory(others, bytes),
    ensures
        words == others,
{
    assert forall|i: int| 0 <= i < words.len() implies words[i] == others[i] by {
        assert forall|k: int| 0 <= k < 4 implies word_byte(words[i], k) == word_byte(others[i], k) by {
            assert((4 * i + k) / 4 == i && (4 * i + k) % 4 == k);
            assert(bytes[4 * i + k] == word_byte(words[i], k));
        }
        lemma_word_bytes(words[i], others[i]);
    }
    assert(words =~= others);
}

/// The uniforms of the simulation: the drop, the flags, and the ball before and after.
pub open spec fn sim_uniform(params: WaterParams) -> Seq<u32> {
    seq![
        params.drop_center.x,
        params.drop_center.y,
        params.drop_radius,
        params.drop_strength,
        if params.drop_active { ONE } else { ZERO },
        TEXEL,
        ZERO,
        ZERO,
        params.sphere_old.x,
        params.sphere_old.y,
        params.sphere_old.z,
        params.sphere_radius,
        params.sphere_new.x,
        params.sphere_new.y,
        params.sphere_new.z,
        params.sphere_radius,
    ]
}

/// The uniforms of the drawing: the camera, the sun, the water's colours and the
/// size of the scene.
pub open spec fn render_uniform(view: ViewFrame) -> Seq<u32> {
    let sun = direction(Vec3 { x: SLANT_X, y: SLANT_Y, z: SLANT_Z });
    matrix_words(matrix_product(view.projection, view.view)) + seq![
        view.camera_position.x,
        view.camera_position.y,
        view.camera_position.z,
        ONE,
        sun.x,
        sun.y,
        sun.z,
        ZERO,
        ONE,
        SUN_GREEN,
        SUN_BLUE,
        ZERO,
        SHALLOW_RED,
        SHALLOW_GREEN,
        SHALLOW_BLUE,
        ZERO,
        DEEP_RED,
        DEEP_GREEN,
        DEEP_BLUE,
        ZERO,
        EXTENT,
        WATER_LEVEL,
        HEIGHT_SCALE,
        FLOOR_Y,
    ]
}

/// The uniforms of the ball: where it is, its radius, and how it is turned. A ball that
/// is not shown has no radius.
pub open spec fn ball_uniform(params: WaterParams) -> Seq<u32> {
    seq![
        params.sphere_new.x,
        params.sphere_new.y,
        params.sphere_new.z,
        if params.ball_shown { params.sphere_radius } else { ZERO },
        params.ball_rotation.x,
        params.ball_rotation.y,
        params.ball_rotation.z,
        params.ball_rotation.w,
    ]
}

/// The bytes of the uniforms of the ball.
pub fn ball_uniform_bytes(params: &WaterParams) -> (r: Vec<u8>)
    ensures
        in_memory(ball_uniform(*params), r@),
        r@.len() == BALL_UNIFORM_SIZE,
{
    let words: [u32; 8] = [
        params.sphere_new.x,
        params.sphere_new.y,
        params.sphere_new.z,
        if params.ball_shown { params.sphere_radius } else { ZERO },
        params.ball_rotation.x,
        params.ball_rotation.y,
        params.ball_rotation.z,
        params.ball_rotation.w,
    ];
    assert(words@ =~= ball_uniform(*params));
    bytes_of_words(&words)
}

/// The bytes of the uniforms of the simulation.
pub fn sim_uniform_bytes(params: &WaterParams) -> (r: Vec<u8>)
    ensures
        in_memory(sim_uniform(*params), r@),
        r@.len() == SIM_UNIFORM_SIZE,
{
    let words: [u32; 16] = [
        params.drop_center.x,
        params.drop_center.y,
        params.drop_radius,
        params.drop_strength,
        if params.drop_active { ONE } else { ZERO },
        TEXEL,
        ZERO,
        ZERO,
        params.sphere_old.x,
        params.sphere_old.y,
        params.sphere_old.z,
        params.sphere_radius,
        params.sphere_new.x,
        params.sphere_new.y,
        params.sphere_new.z,
        params.sphere_radius,
    ];
    assert(words@ =~= sim_uniform(*params));
    bytes_of_words(&words)
}

/// The bytes of the uniforms of the drawing.
pub fn render_uniform_bytes(view: &ViewFrame) -> (r: Vec<u8>)
    ensures
        in_memory(render_uniform(*view), r@),
        r@.len() == RENDER_UNIFORM_SIZE,
{
    let sun: Vec3 = Vec3 { x: SLANT_X, y: SLANT_Y, z: SLANT_Z }.normalize();
    let m: Mat4 = view.projection.times(view.view);
    let words: [u32; 40] = [
        m.x.x,
        m.x.y,
        m.x.z,
        m.x.w,
        m.y.x,
        m.y.y,
        m.y.z,
        m.y.w,
        m.z.x,
        m.z.y,
        m.z.z,
        m.z.w,
        m.w.x,
        m.w.y,
        m.w.z,
        m.w.w,
        view.camera_position.x,
        view.camera_position.y,
        view.camera_position.z,
        ONE,
        sun.x,
        sun.y,
        sun.z,
        ZERO,
        ONE,
        SUN_GREEN,
        SUN_BLUE,
        ZERO,
        SHALLOW_RED,
        SHALLOW_GREEN,
        SHALLOW_BLUE,
        ZERO,
        DEEP_RED,
        DEEP_GREEN,
        DEEP_BLUE,
        ZERO,
        EXTENT,
        WATER_LEVEL,
        HEIGHT_SCALE,
        FLOOR_Y,
    ];
    assert(words@ =~= render_uniform(*view));
    bytes_of_words(&words)
}

} // verus!
