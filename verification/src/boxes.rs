//! The meshes of the pool and of the ball: boxes.
//!
//! A box has eight corners. Corner `i` lies at the high end of the first axis where `i`
//! is odd, of the second where `i / 2` is, and of the third where `i / 4` is. The pool is
//! a box without its top, seen from inside. The ball is traced inside a box around it,
//! seen from outside.

use crate::constants::{FLOOR_Y, MINUS_ONE, POOL_HALF, POOL_RIM};
use crate::scalar::{Scalar, ONE};
use vstd::prelude::*;

verus! {

/// How many sides a box has.
pub const BOX_SIDES: u32 = 6;

/// How many sides the pool has: all but the top, which comes last.
pub const POOL_SIDES: u32 = 5;

/// The ends of a box along an axis.
#[derive(Clone, Copy, Debug, PartialEq, Eq, Structural)]
pub struct Span {
    pub low: Scalar,
    pub high: Scalar,
}

/// A box.
#[derive(Clone, Copy, Debug, PartialEq, Eq, Structural)]
pub struct Bounds {
    pub x: Span,
    pub y: Span,
    pub z: Span,
}

/// The pool: as wide as the water, from the floor to the rim.
pub open spec fn pool_bounds() -> Bounds {
    Bounds {
        x: Span { low: MINUS_ONE, high: POOL_HALF },
        y: Span { low: FLOOR_Y, high: POOL_RIM },
        z: Span { low: MINUS_ONE, high: POOL_HALF },
    }
}

/// The box around a ball of radius 1.
pub open spec fn ball_bounds() -> Bounds {
    Bounds {
        x: Span { low: MINUS_ONE, high: ONE },
        y: Span { low: MINUS_ONE, high: ONE },
        z: Span { low: MINUS_ONE, high: ONE },
    }
}

/// Whether corner `i` lies at the high end of the axis `axis`.
pub open spec fn at_high_end(i: int, axis: int) -> bool {
    if axis == 0 {
        i % 2 == 1
    } else if axis == 1 {
        i / 2 % 2 == 1
    } else {
        i / 4 % 2 == 1
    }
}

/// The corners of side `k`, in the order in which they are passed counter-clockwise as
/// seen from inside. The sides are the floor, the two across the first axis, the two
/// across the third, and the top.
pub open spec fn side_corner(k: int, c: int) -> int {
    let corners: Seq<int> = if k == 0 {
        seq![0, 4, 5, 1]
    } else if k == 1 {
        seq![0, 2, 6, 4]
    } else if k == 2 {
        seq![1, 5, 7, 3]
    } else if k == 3 {
        seq![0, 1, 3, 2]
    } else if k == 4 {
        seq![4, 6, 7, 5]
    } else {
        seq![2, 3, 7, 6]
    };
    corners[c]
}

/// Which corner of its side the index at place `j` of a side names, for a box seen from
/// inside: two triangles.
pub open spec fn inward_corner(j: int) -> int {
    if j == 0 || j == 3 {
        0
    } else if j == 1 {
        1
    } else if j == 2 || j == 4 {
        2
    } else {
        3
    }
}

/// The same for a box seen from outside: the triangles are passed the other way round.
pub open spec fn outward_corner(j: int) -> int {
    if j == 0 || j == 3 {
        0
    } else if j == 2 {
        1
    } else if j == 1 || j == 5 {
        2
    } else {
        3
    }
}

/// The index buffer of the first `sides` sides of a box.
pub open spec fn box_triangles(sides: int, inward: bool) -> Seq<u32> {
    Seq::new(
        (6 * sides) as nat,
        |i: int|
            side_corner(
                i / 6,
                if inward {
                    inward_corner(i % 6)
                } else {
                    outward_corner(i % 6)
                },
            ) as u32,
    )
}

/// The end of a span.
pub open spec fn end_of(span: Span, high: bool) -> Scalar {
    if high {
        span.high
    } else {
        span.low
    }
}

/// The vertex buffer of a box: the eight corners.
pub open spec fn box_words(bounds: Bounds) -> Seq<Scalar> {
    Seq::new(
        24,
        |j: int|
            {
                let i = j / 3;
                if j % 3 == 0 {
                    end_of(bounds.x, at_high_end(i, 0))
                } else if j % 3 == 1 {
                    end_of(bounds.y, at_high_end(i, 1))
                } else {
                    end_of(bounds.z, at_high_end(i, 2))
                }
            },
    )
}

/// The pool.
pub fn pool() -> (r: Bounds)
    ensures
        r == pool_bounds(),
{
    Bounds {
        x: Span { low: MINUS_ONE, high: POOL_HALF },
        y: Span { low: FLOOR_Y, high: POOL_RIM },
        z: Span { low: MINUS_ONE, high: POOL_HALF },
    }
}

/// The box around a ball of radius 1.
pub fn ball_box() -> (r: Bounds)
    ensures
        r == ball_bounds(),
{
    let span: Span = Span { low: MINUS_ONE, high: ONE };
    Bounds { x: span, y: span, z: span }
}

/// The vertex buffer of a box.
pub fn build_corners(bounds: Bounds) -> (r: Vec<Scalar>)
    ensures
        r@ == box_words(bounds),
{
    let mut words: Vec<Scalar> = Vec::new();
    let mut i: u32 = 0;
    while i < 8
        invariant
            i <= 8,
            words@.len() == 3 * i,
            forall|j: int| 0 <= j < words@.len() ==> #[trigger] words@[j] == box_words(bounds)[j],
        decreases 8 - i,
    {
        proof {
            assert((3 * i) / 3 == i && (3 * i) % 3 == 0);
            assert((3 * i + 1) / 3 == i && (3 * i + 1) % 3 == 1);
            assert((3 * i + 2) / 3 == i && (3 * i + 2) % 3 == 2);
        }
        words.push(if i % 2 == 1 { bounds.x.high } else { bounds.x.low });
        words.push(if i / 2 % 2 == 1 { bounds.y.high } else { bounds.y.low });
        words.push(if i / 4 % 2 == 1 { bounds.z.high } else { bounds.z.low });
        i = i + 1;
    }
    assert(words@ =~= box_words(bounds));
    words
}

/// The four corners of a side.
fn corners_of(k: u32) -> (r: (u32, u32, u32, u32))
    requires
        k < BOX_SIDES,
    ensures
        r.0 == side_corner(k as int, 0),
        r.1 == side_corner(k as int, 1),
        r.2 == side_corner(k as int, 2),
        r.3 == side_corner(k as int, 3),
{
    if k == 0 {
        (0, 4, 5, 1)
    } else if k == 1 {
        (0, 2, 6, 4)
    } else if k == 2 {
        (1, 5, 7, 3)
    } else if k == 3 {
        (0, 1, 3, 2)
    } else if k == 4 {
        (4, 6, 7, 5)
    } else {
        (2, 3, 7, 6)
    }
}

/// The index buffer of the first `sides` sides of a box.
pub fn build_sides(sides: u32, inward: bool) -> (r: Vec<u32>)
    requires
        sides <= BOX_SIDES,
    ensures
        r@ == box_triangles(sides as int, inward),
{
    let mut indices: Vec<u32> = Vec::new();
    let mut k: u32 = 0;
    let ghost wanted = box_triangles(sides as int, inward);
    while k < sides
        invariant
            k <= sides <= BOX_SIDES,
            indices@.len() == 6 * k,
            wanted == box_triangles(sides as int, inward),
            forall|i: int| 0 <= i < indices@.len() ==> #[trigger] indices@[i] == wanted[i],
        decreases sides - k,
    {
        let (a, b, c, d): (u32, u32, u32, u32) = corners_of(k);
        let ghost before = indices@;
        indices.push(a);
        indices.push(if inward { b } else { c });
        indices.push(if inward { c } else { b });
        indices.push(a);
        indices.push(if inward { c } else { d });
        indices.push(if inward { d } else { c });
        assert forall|i: int| 0 <= i < indices@.len() implies #[trigger] indices@[i] == wanted[i] by {
            if i < before.len() {
                assert(indices@[i] == before[i]);
            } else {
                assert(i / 6 == k && i % 6 == i - 6 * k);
            }
        }
        k = k + 1;
    }
    assert(indices@ =~= wanted);
    indices
}

} // verus!
