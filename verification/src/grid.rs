//! The water mesh: a square grid of triangles with a skirt hanging from its rim.
//!
//! Vertices are lattice points. Along either axis the lattice point `i` of a grid
//! of `n` segments stands at `i / n * 2 - 1` in the pool, which spans [-1, 1].

use crate::arithmetic::{
    difference, divided, from_u32, from_whole, minus, product, quotient, times,
};
use crate::constants::TWO;
use crate::scalar::{Scalar, ONE, ZERO};
use vstd::arithmetic::div_mod::{
    lemma_div_pos_is_pos, lemma_fundamental_div_mod, lemma_fundamental_div_mod_converse,
    lemma_multiply_divide_lt,
};
use vstd::arithmetic::mul::{lemma_mul_inequality, lemma_mul_is_distributive_add_other_way};
use vstd::prelude::*;

verus! {

/// A vertex of the mesh. The vertices of the skirt's lower edge are marked.
#[derive(Clone, Copy, Debug, PartialEq, Eq, Structural)]
pub struct GridVertex {
    pub x: u32,
    pub z: u32,
    pub lowered: bool,
}

/// A mesh: its vertices, and three indices for each triangle.
#[derive(Debug)]
pub struct Grid {
    pub segments: u32,
    pub vertices: Vec<GridVertex>,
    pub indices: Vec<u32>,
}

/// A lattice point.
pub struct Point {
    pub x: int,
    pub z: int,
}

/// How many segments a grid of the asked resolution has: no fewer than two.
pub open spec fn segments_of(resolution: int) -> int {
    if resolution < 2 {
        2
    } else {
        resolution
    }
}

/// How many vertices lie on the surface of a grid of `s` segments.
pub open spec fn surface_vertices(s: int) -> int {
    (s + 1) * (s + 1)
}

/// How many indices the surface of a grid of `s` segments takes: two triangles a cell.
pub open spec fn surface_indices(s: int) -> int {
    6 * (s * s)
}

/// How many vertices a grid has: the surface, and four for each of the skirt's quads.
pub open spec fn vertex_count(s: int) -> int {
    surface_vertices(s) + 16 * s
}

/// How many indices a grid has.
pub open spec fn index_count(s: int) -> int {
    surface_indices(s) + 24 * s
}

/// Where the upper edge of the skirt's quad `k` begins. Quads go round the four
/// sides in turn.
pub open spec fn skirt_from(s: int, k: int) -> Point {
    let i = k / 4;
    if k % 4 == 0 {
        Point { x: i, z: s }
    } else if k % 4 == 1 {
        Point { x: i + 1, z: 0 }
    } else if k % 4 == 2 {
        Point { x: s, z: i + 1 }
    } else {
        Point { x: 0, z: i }
    }
}

/// Where the upper edge of the skirt's quad `k` ends.
pub open spec fn skirt_to(s: int, k: int) -> Point {
    let i = k / 4;
    if k % 4 == 0 {
        Point { x: i + 1, z: s }
    } else if k % 4 == 1 {
        Point { x: i, z: 0 }
    } else if k % 4 == 2 {
        Point { x: s, z: i }
    } else {
        Point { x: 0, z: i + 1 }
    }
}

/// Where vertex `i` lies on the lattice. The surface comes first, row by row; a
/// quad of the skirt lists its upper edge forth and its lower edge back.
pub open spec fn vertex_point(s: int, i: int) -> Point {
    if i < surface_vertices(s) {
        Point { x: i % (s + 1), z: i / (s + 1) }
    } else {
        let j = i - surface_vertices(s);
        if j % 4 == 0 || j % 4 == 3 {
            skirt_from(s, j / 4)
        } else {
            skirt_to(s, j / 4)
        }
    }
}

/// Whether vertex `i` belongs to the lower edge of the skirt.
pub open spec fn vertex_lowered(s: int, i: int) -> bool {
    i >= surface_vertices(s) && (i - surface_vertices(s)) % 4 >= 2
}

/// The index at place `i` of the index list.
pub open spec fn index_at(s: int, i: int) -> int {
    if i < surface_indices(s) {
        let cell = i / 6;
        let near = cell / s * (s + 1) + cell % s;
        if i % 6 == 0 {
            near
        } else if i % 6 == 1 || i % 6 == 4 {
            near + (s + 1)
        } else if i % 6 == 2 || i % 6 == 3 {
            near + 1
        } else {
            near + (s + 1) + 1
        }
    } else {
        let j = i - surface_indices(s);
        let base = surface_vertices(s) + 4 * (j / 6);
        if j % 6 == 0 || j % 6 == 3 {
            base
        } else if j % 6 == 1 {
            base + 1
        } else if j % 6 == 2 || j % 6 == 4 {
            base + 2
        } else {
            base + 3
        }
    }
}

/// Whether `v` is vertex `i` of a grid of `s` segments.
pub open spec fn is_vertex(s: int, i: int, v: GridVertex) -> bool {
    v.x == vertex_point(s, i).x && v.z == vertex_point(s, i).z && v.lowered == vertex_lowered(s, i)
}

/// Whether a list holds the first vertices of a grid of `s` segments.
pub open spec fn vertices_match(s: int, vertices: Seq<GridVertex>) -> bool {
    forall|i: int| 0 <= i < vertices.len() ==> is_vertex(s, i, #[trigger] vertices[i])
}

/// Whether a list holds the first indices of a grid of `s` segments.
pub open spec fn indices_match(s: int, indices: Seq<u32>) -> bool {
    forall|i: int| 0 <= i < indices.len() ==> #[trigger] indices[i] == index_at(s, i)
}

/// Where the lattice point `i` of `s` segments stands along an axis of the pool.
pub open spec fn coordinate(s: int, i: int) -> Scalar {
    difference(product(quotient(from_whole(i), from_whole(s)), TWO), ONE)
}

/// The vertex buffer of a mesh of `s` segments: for each vertex, where it stands
/// along the two axes, and 1 where it is lowered, else 0.
pub open spec fn vertex_words(s: int) -> Seq<Scalar> {
    Seq::new(
        (3 * vertex_count(s)) as nat,
        |j: int|
            {
                if j % 3 == 0 {
                    coordinate(s, vertex_point(s, j / 3).x)
                } else if j % 3 == 1 {
                    coordinate(s, vertex_point(s, j / 3).z)
                } else if vertex_lowered(s, j / 3) {
                    ONE
                } else {
                    ZERO
                }
            },
    )
}

/// The index buffer of a mesh of `s` segments.
pub open spec fn index_words(s: int) -> Seq<u32> {
    Seq::new(index_count(s) as nat, |i: int| index_at(s, i) as u32)
}

impl Grid {
    /// Whether this is the whole mesh of its number of segments.
    pub open spec fn wf(&self) -> bool {
        &&& self.segments >= 2
        &&& self.vertices@.len() == vertex_count(self.segments as int)
        &&& vertices_match(self.segments as int, self.vertices@)
        &&& self.indices@.len() == index_count(self.segments as int)
        &&& indices_match(self.segments as int, self.indices@)
    }
}

/// Row `z` and column `x` of a table with `width` columns name one place.
pub proof fn lemma_place(z: int, x: int, width: int)
    requires
        0 <= z,
        0 <= x < width,
    ensures
        (z * width + x) / width == z,
        (z * width + x) % width == x,
{
    lemma_fundamental_div_mod_converse(z * width + x, width, z, x);
}

/// A place in the first `rows` rows of a table lies before the end of those rows.
pub proof fn lemma_place_bound(z: int, x: int, width: int, rows: int)
    requires
        0 <= z < rows,
        0 <= x < width,
    ensures
        0 <= z * width + x < rows * width,
{
    lemma_mul_inequality(z + 1, rows, width);
    lemma_mul_is_distributive_add_other_way(width, z, 1);
    lemma_mul_inequality(0, z, width);
}

/// Appends the vertices of the surface.
fn push_surface(segments: u32, vertices: &mut Vec<GridVertex>)
    requires
        old(vertices)@.len() == 0,
        segments >= 2,
        vertex_count(segments as int) <= 0x1_0000_0000,
    ensures
        final(vertices)@.len() == surface_vertices(segments as int),
        vertices_match(segments as int, final(vertices)@),
{
    proof {
        lemma_segments_small(segments as int);
    }
    let count: u32 = segments + 1;
    let mut z: u32 = 0;
    while z < count
        invariant
            count == segments + 1,
            z <= count,
            vertices@.len() == z * count,
            vertices_match(segments as int, vertices@),
        decreases count - z,
    {
        let mut x: u32 = 0;
        while x < count
            invariant
                count == segments + 1,
                z < count,
                x <= count,
                vertices@.len() == z * count + x,
                vertices_match(segments as int, vertices@),
            decreases count - x,
        {
            proof {
                lemma_place(z as int, x as int, count as int);
                lemma_place_bound(z as int, x as int, count as int, count as int);
            }
            vertices.push(GridVertex { x, z, lowered: false });
            x = x + 1;
        }
        proof {
            lemma_mul_is_distributive_add_other_way(count as int, z as int, 1);
        }
        z = z + 1;
    }
}

/// A grid whose vertices can all be named has fewer than 65536 segments.
proof fn lemma_segments_small(s: int)
    requires
        2 <= s,
        vertex_count(s) <= 0x1_0000_0000,
    ensures
        s < 0x1_0000,
{
    if s >= 0x1_0000 {
        lemma_mul_inequality(0x1_0001, s + 1, s + 1);
        lemma_mul_inequality(0x1_0001, s + 1, 0x1_0001);
    }
}

/// Appends two triangles for each cell of the surface.
fn push_cells(segments: u32, indices: &mut Vec<u32>)
    requires
        old(indices)@.len() == 0,
        segments >= 2,
        vertex_count(segments as int) <= 0x1_0000_0000,
    ensures
        final(indices)@.len() == surface_indices(segments as int),
        indices_match(segments as int, final(indices)@),
{
    proof {
        lemma_segments_small(segments as int);
    }
    let count: u32 = segments + 1;
    let ghost s = segments as int;
    let mut z: u32 = 0;
    while z < segments
        invariant
            s == segments,
            count == segments + 1,
            z <= segments,
            segments >= 2,
            vertex_count(s) <= 0x1_0000_0000,
            indices@.len() == 6 * (z * segments),
            indices_match(s, indices@),
        decreases segments - z,
    {
        let mut x: u32 = 0;
        while x < segments
            invariant
                s == segments,
                count == segments + 1,
                z < segments,
                x <= segments,
                segments >= 2,
                vertex_count(s) <= 0x1_0000_0000,
                indices@.len() == 6 * (z * segments + x),
                indices_match(s, indices@),
            decreases segments - x,
        {
            let ghost cell = z * segments + x;
            proof {
                lemma_place(z as int, x as int, s);
                lemma_place_bound(z as int, x as int, s, s);
                lemma_place_bound(z + 1, x + 1, s + 1, s + 1);
                lemma_mul_is_distributive_add_other_way(s + 1, z as int, 1);
                assert(0 <= z * count) by (nonlinear_arith);
            }
            let top_left: u32 = z * count + x;
            let top_right: u32 = top_left + 1;
            let bottom_left: u32 = top_left + count;
            let bottom_right: u32 = bottom_left + 1;
            let ghost before = indices@;
            indices.push(top_left);
            indices.push(bottom_left);
            indices.push(top_right);
            indices.push(top_right);
            indices.push(bottom_left);
            indices.push(bottom_right);
            assert forall|i: int| 0 <= i < indices@.len() implies #[trigger] indices@[i] == index_at(
                s,
                i,
            ) by {
                if i < before.len() {
                    assert(indices@[i] == before[i]);
                } else {
                    assert(i / 6 == cell);
                }
            }
            x = x + 1;
        }
        proof {
            lemma_mul_is_distributive_add_other_way(s, z as int, 1);
        }
        z = z + 1;
    }
}

/// Appends one quad of the skirt, from `a` to `b` along the rim.
fn push_skirt(vertices: &mut Vec<GridVertex>, indices: &mut Vec<u32>, ax: u32, az: u32, bx: u32, bz: u32)
    requires
        old(vertices)@.len() + 4 <= 0x1_0000_0000,
    ensures
        final(vertices)@ == old(vertices)@ + seq![
            (GridVertex { x: ax, z: az, lowered: false }),
            (GridVertex { x: bx, z: bz, lowered: false }),
            (GridVertex { x: bx, z: bz, lowered: true }),
            (GridVertex { x: ax, z: az, lowered: true }),
        ],
        final(indices)@ == old(indices)@ + seq![
            old(vertices)@.len() as u32,
            (old(vertices)@.len() + 1) as u32,
            (old(vertices)@.len() + 2) as u32,
            old(vertices)@.len() as u32,
            (old(vertices)@.len() + 2) as u32,
            (old(vertices)@.len() + 3) as u32,
        ],
{
    let base: u32 = vertices.len() as u32;
    vertices.push(GridVertex { x: ax, z: az, lowered: false });
    vertices.push(GridVertex { x: bx, z: bz, lowered: false });
    vertices.push(GridVertex { x: bx, z: bz, lowered: true });
    vertices.push(GridVertex { x: ax, z: az, lowered: true });
    indices.push(base);
    indices.push(base + 1);
    indices.push(base + 2);
    indices.push(base);
    indices.push(base + 2);
    indices.push(base + 3);
}

/// A quad appended behind the first `k` quads of the skirt is the next one.
proof fn lemma_skirt_appended(
    s: int,
    k: int,
    vertices: Seq<GridVertex>,
    indices: Seq<u32>,
    new_vertices: Seq<GridVertex>,
    new_indices: Seq<u32>,
)
    requires
        2 <= s,
        0 <= k < 4 * s,
        vertex_count(s) <= 0x1_0000_0000,
        vertices.len() == surface_vertices(s) + 4 * k,
        vertices_match(s, vertices),
        indices.len() == surface_indices(s) + 6 * k,
        indices_match(s, indices),
        new_vertices.len() == 4,
        forall|c: int|
            0 <= c < 4 ==> is_vertex(s, surface_vertices(s) + 4 * k + c, #[trigger] new_vertices[c]),
        new_indices =~= seq![
            vertices.len() as u32,
            (vertices.len() + 1) as u32,
            (vertices.len() + 2) as u32,
            vertices.len() as u32,
            (vertices.len() + 2) as u32,
            (vertices.len() + 3) as u32,
        ],
    ensures
        vertices_match(s, vertices + new_vertices),
        indices_match(s, indices + new_indices),
{
    let all = vertices + new_vertices;
    assert forall|i: int| 0 <= i < all.len() implies is_vertex(s, i, #[trigger] all[i]) by {
        if i < vertices.len() {
            assert(all[i] == vertices[i]);
        } else {
            assert(all[i] == new_vertices[i - vertices.len()]);
        }
    }
    let listed = indices + new_indices;
    assert forall|i: int| 0 <= i < listed.len() implies #[trigger] listed[i] == index_at(s, i) by {
        if i < indices.len() {
            assert(listed[i] == indices[i]);
        } else {
            let c = i - indices.len();
            assert(listed[i] == new_indices[c]);
            assert((i - surface_indices(s)) / 6 == k);
            assert((i - surface_indices(s)) % 6 == c);
        }
    }
}

/// Appends the quad `k` of the skirt, given the ends of its upper edge.
fn push_skirt_quad(
    segments: u32,
    k: Ghost<int>,
    vertices: &mut Vec<GridVertex>,
    indices: &mut Vec<u32>,
    ax: u32,
    az: u32,
    bx: u32,
    bz: u32,
)
    requires
        segments >= 2,
        0 <= k@ < 4 * segments,
        vertex_count(segments as int) <= 0x1_0000_0000,
        old(vertices)@.len() == surface_vertices(segments as int) + 4 * k@,
        vertices_match(segments as int, old(vertices)@),
        old(indices)@.len() == surface_indices(segments as int) + 6 * k@,
        indices_match(segments as int, old(indices)@),
        ax == skirt_from(segments as int, k@).x,
        az == skirt_from(segments as int, k@).z,
        bx == skirt_to(segments as int, k@).x,
        bz == skirt_to(segments as int, k@).z,
    ensures
        final(vertices)@.len() == surface_vertices(segments as int) + 4 * (k@ + 1),
        vertices_match(segments as int, final(vertices)@),
        final(indices)@.len() == surface_indices(segments as int) + 6 * (k@ + 1),
        indices_match(segments as int, final(indices)@),
{
    let ghost s = segments as int;
    let ghost new_vertices = seq![
        GridVertex { x: ax, z: az, lowered: false },
        GridVertex { x: bx, z: bz, lowered: false },
        GridVertex { x: bx, z: bz, lowered: true },
        GridVertex { x: ax, z: az, lowered: true },
    ];
    let ghost len = vertices@.len();
    let ghost new_indices = seq![
        len as u32,
        (len + 1) as u32,
        (len + 2) as u32,
        len as u32,
        (len + 2) as u32,
        (len + 3) as u32,
    ];
    proof {
        assert forall|c: int| 0 <= c < 4 implies is_vertex(
            s,
            surface_vertices(s) + 4 * k@ + c,
            #[trigger] new_vertices[c],
        ) by {
            assert((4 * k@ + c) / 4 == k@);
            assert((4 * k@ + c) % 4 == c);
        }
        lemma_skirt_appended(s, k@, vertices@, indices@, new_vertices, new_indices);
    }
    push_skirt(vertices, indices, ax, az, bx, bz);
}

/// Builds the mesh of a grid of the asked resolution. An index is a `u32`, so
/// the mesh must not have more vertices than a `u32` can name.
pub fn build_grid(resolution: u32) -> (r: Grid)
    requires
        vertex_count(segments_of(resolution as int)) <= 0x1_0000_0000,
    ensures
        r.segments == segments_of(resolution as int),
        r.wf(),
{
    let segments: u32 = if resolution < 2 { 2 } else { resolution };
    let mut vertices: Vec<GridVertex> = Vec::new();
    let mut indices: Vec<u32> = Vec::new();
    push_surface(segments, &mut vertices);
    push_cells(segments, &mut indices);
    proof {
        lemma_segments_small(segments as int);
    }
    let mut i: u32 = 0;
    while i < segments
        invariant
            2 <= segments < 0x1_0000,
            i <= segments,
            vertex_count(segments as int) <= 0x1_0000_0000,
            vertices@.len() == surface_vertices(segments as int) + 16 * i,
            vertices_match(segments as int, vertices@),
            indices@.len() == surface_indices(segments as int) + 24 * i,
            indices_match(segments as int, indices@),
        decreases segments - i,
    {
        let next: u32 = i + 1;
        push_skirt_quad(segments, Ghost(4 * i), &mut vertices, &mut indices, i, segments, next, segments);
        push_skirt_quad(segments, Ghost(4 * i + 1), &mut vertices, &mut indices, next, 0, i, 0);
        push_skirt_quad(segments, Ghost(4 * i + 2), &mut vertices, &mut indices, segments, next, segments, i);
        push_skirt_quad(segments, Ghost(4 * i + 3), &mut vertices, &mut indices, 0, i, 0, next);
        i = next;
    }
    Grid { segments, vertices, indices }
}

/// Where the lattice points of `segments` segments stand along an axis.
fn coordinates(segments: u32) -> (r: Vec<Scalar>)
    requires
        segments < u32::MAX,
    ensures
        r@.len() == segments + 1,
        forall|i: int| 0 <= i <= segments ==> #[trigger] r@[i] == coordinate(segments as int, i),
{
    let mut list: Vec<Scalar> = Vec::new();
    let mut i: u32 = 0;
    let width: Scalar = from_u32(segments);
    while i < segments + 1
        invariant
            segments < u32::MAX,
            width == from_whole(segments as int),
            i <= segments + 1,
            list@.len() == i,
            forall|k: int| 0 <= k < i ==> #[trigger] list@[k] == coordinate(segments as int, k),
        decreases segments + 1 - i,
    {
        list.push(minus(times(divided(from_u32(i), width), TWO), ONE));
        i = i + 1;
    }
    list
}

/// Vertices stay on the lattice.
pub proof fn lemma_vertex_on_lattice(s: int, i: int)
    requires
        2 <= s,
        0 <= i < vertex_count(s),
    ensures
        0 <= vertex_point(s, i).x <= s,
        0 <= vertex_point(s, i).z <= s,
{
    if i < surface_vertices(s) {
        lemma_fundamental_div_mod(i, s + 1);
        lemma_multiply_divide_lt(i, s + 1, s + 1);
        lemma_div_pos_is_pos(i, s + 1);
    }
}

impl Grid {
    /// The index list is the index buffer.
    pub proof fn lemma_index_words(&self)
        requires
            self.wf(),
        ensures
            self.indices@ == index_words(self.segments as int),
    {
        assert(self.indices@ =~= index_words(self.segments as int));
    }

    /// The vertex buffer of the mesh.
    pub fn vertex_words(&self) -> (r: Vec<Scalar>)
        requires
            self.wf(),
        ensures
            r@ == vertex_words(self.segments as int),
    {
        proof {
            if self.segments == u32::MAX {
                assert(self.vertices.len() <= usize::MAX);
                assert(0x1_0000_0000int * 0x1_0000_0000int == 0x1_0000_0000_0000_0000int);
            }
        }
        let table: Vec<Scalar> = coordinates(self.segments);
        let mut words: Vec<Scalar> = Vec::new();
        let ghost s = self.segments as int;
        let ghost wanted = vertex_words(s);
        let mut i: usize = 0;
        while i < self.vertices.len()
            invariant
                self.wf(),
                s == self.segments,
                wanted == vertex_words(s),
                table@.len() == s + 1,
                forall|k: int| 0 <= k <= s ==> #[trigger] table@[k] == coordinate(s, k),
                i <= self.vertices@.len(),
                words@.len() == 3 * i,
                forall|j: int| 0 <= j < words@.len() ==> #[trigger] words@[j] == wanted[j],
            decreases self.vertices@.len() - i,
        {
            let v: GridVertex = self.vertices[i];
            proof {
                assert(is_vertex(s, i as int, self.vertices@[i as int]));
                lemma_vertex_on_lattice(s, i as int);
                assert(table@[v.x as int] == coordinate(s, v.x as int));
                assert(table@[v.z as int] == coordinate(s, v.z as int));
                assert((3 * i) / 3 == i && (3 * i) % 3 == 0);
                assert((3 * i + 1) / 3 == i && (3 * i + 1) % 3 == 1);
                assert((3 * i + 2) / 3 == i && (3 * i + 2) % 3 == 2);
            }
            words.push(table[v.x as usize]);
            words.push(table[v.z as usize]);
            words.push(if v.lowered { ONE } else { ZERO });
            i = i + 1;
        }
        assert(words@ =~= wanted);
        words
    }
}

} // verus!
