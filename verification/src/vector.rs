//! Vectors, quaternions and matrices of scalars.

use crate::arithmetic::{
    difference, divided, minus, negate, opposite, plus, product, quotient, root, sqrt, sum, times,
};
use crate::scalar::{Scalar, ZERO};
use vstd::prelude::*;

verus! {

/// A vector of two scalars.
#[derive(Clone, Copy, Debug, PartialEq, Eq, Structural)]
pub struct Vec2 {
    pub x: Scalar,
    pub y: Scalar,
}

/// A vector of three scalars.
#[derive(Clone, Copy, Debug, PartialEq, Eq, Structural)]
pub struct Vec3 {
    pub x: Scalar,
    pub y: Scalar,
    pub z: Scalar,
}

/// A vector of four scalars.
#[derive(Clone, Copy, Debug, PartialEq, Eq, Structural)]
pub struct Vec4 {
    pub x: Scalar,
    pub y: Scalar,
    pub z: Scalar,
    pub w: Scalar,
}

/// The sine and the cosine of an angle.
#[derive(Clone, Copy, Debug, PartialEq, Eq, Structural)]
pub struct SineCosine {
    pub sine: Scalar,
    pub cosine: Scalar,
}

/// A square matrix of four columns.
#[derive(Clone, Copy, Debug, PartialEq, Eq, Structural)]
pub struct Mat4 {
    pub x: Vec4,
    pub y: Vec4,
    pub z: Vec4,
    pub w: Vec4,
}

/// `a + b`.
pub open spec fn vector_sum(a: Vec3, b: Vec3) -> Vec3 {
    Vec3 { x: sum(a.x, b.x), y: sum(a.y, b.y), z: sum(a.z, b.z) }
}

/// `a - b`.
pub open spec fn vector_difference(a: Vec3, b: Vec3) -> Vec3 {
    Vec3 { x: difference(a.x, b.x), y: difference(a.y, b.y), z: difference(a.z, b.z) }
}

/// `-a`.
pub open spec fn vector_opposite(a: Vec3) -> Vec3 {
    Vec3 { x: opposite(a.x), y: opposite(a.y), z: opposite(a.z) }
}

/// `a * k`.
pub open spec fn vector_scaled(a: Vec3, k: Scalar) -> Vec3 {
    Vec3 { x: product(a.x, k), y: product(a.y, k), z: product(a.z, k) }
}

/// `a / k`.
pub open spec fn vector_unscaled(a: Vec3, k: Scalar) -> Vec3 {
    Vec3 { x: quotient(a.x, k), y: quotient(a.y, k), z: quotient(a.z, k) }
}

/// The products of the components of `a` and `b`, added from first to last.
pub open spec fn inner(a: Vec3, b: Vec3) -> Scalar {
    sum(sum(product(a.x, b.x), product(a.y, b.y)), product(a.z, b.z))
}

/// The vector product of `a` and `b`.
pub open spec fn outer(a: Vec3, b: Vec3) -> Vec3 {
    Vec3 {
        x: difference(product(a.y, b.z), product(a.z, b.y)),
        y: difference(product(a.z, b.x), product(a.x, b.z)),
        z: difference(product(a.x, b.y), product(a.y, b.x)),
    }
}

/// The length of `a`.
pub open spec fn length(a: Vec3) -> Scalar {
    root(inner(a, a))
}

/// `a` divided by its length.
pub open spec fn direction(a: Vec3) -> Vec3 {
    vector_unscaled(a, length(a))
}

/// The product of two quaternions, the real parts last.
pub open spec fn quaternion_product(a: Vec4, b: Vec4) -> Vec4 {
    Vec4 {
        x: difference(
            sum(sum(product(a.w, b.x), product(a.x, b.w)), product(a.y, b.z)),
            product(a.z, b.y),
        ),
        y: sum(
            sum(difference(product(a.w, b.y), product(a.x, b.z)), product(a.y, b.w)),
            product(a.z, b.x),
        ),
        z: sum(
            difference(sum(product(a.w, b.z), product(a.x, b.y)), product(a.y, b.x)),
            product(a.z, b.w),
        ),
        w: difference(
            difference(difference(product(a.w, b.w), product(a.x, b.x)), product(a.y, b.y)),
            product(a.z, b.z),
        ),
    }
}

/// The length of a quaternion.
pub open spec fn quaternion_length(a: Vec4) -> Scalar {
    root(
        sum(
            sum(product(a.x, a.x), product(a.z, a.z)),
            sum(product(a.y, a.y), product(a.w, a.w)),
        ),
    )
}

/// A quaternion divided by its length.
pub open spec fn quaternion_direction(a: Vec4) -> Vec4 {
    let k = quaternion_length(a);
    Vec4 { x: quotient(a.x, k), y: quotient(a.y, k), z: quotient(a.z, k), w: quotient(a.w, k) }
}

/// The quaternion that turns around `axis`, by the angle of which half has the
/// given sine and cosine.
pub open spec fn turn(axis: Vec3, half: SineCosine) -> Vec4 {
    let around = vector_scaled(direction(axis), half.sine);
    Vec4 { x: around.x, y: around.y, z: around.z, w: half.cosine }
}

/// The length of a plane vector.
pub open spec fn plane_length(a: Vec2) -> Scalar {
    root(sum(product(a.x, a.x), product(a.y, a.y)))
}

/// The products of four pairs, added from first to last.
pub open spec fn inner_of_four(a: Vec4, b: Vec4) -> Scalar {
    sum(
        sum(sum(product(a.x, b.x), product(a.y, b.y)), product(a.z, b.z)),
        product(a.w, b.w),
    )
}

/// The product of a matrix and a column.
#[verifier::opaque]
pub open spec fn transformed(a: Mat4, v: Vec4) -> Vec4 {
    Vec4 {
        x: inner_of_four(Vec4 { x: a.x.x, y: a.y.x, z: a.z.x, w: a.w.x }, v),
        y: inner_of_four(Vec4 { x: a.x.y, y: a.y.y, z: a.z.y, w: a.w.y }, v),
        z: inner_of_four(Vec4 { x: a.x.z, y: a.y.z, z: a.z.z, w: a.w.z }, v),
        w: inner_of_four(Vec4 { x: a.x.w, y: a.y.w, z: a.z.w, w: a.w.w }, v),
    }
}

/// The product of two matrices.
pub open spec fn matrix_product(a: Mat4, b: Mat4) -> Mat4 {
    Mat4 {
        x: transformed(a, b.x),
        y: transformed(a, b.y),
        z: transformed(a, b.z),
        w: transformed(a, b.w),
    }
}

/// The entries of a matrix, column by column.
pub open spec fn matrix_words(a: Mat4) -> Seq<Scalar> {
    seq![
        a.x.x, a.x.y, a.x.z, a.x.w,
        a.y.x, a.y.y, a.y.z, a.y.w,
        a.z.x, a.z.y, a.z.z, a.z.w,
        a.w.x, a.w.y, a.w.z, a.w.w,
    ]
}

impl Vec3 {
    /// The zero vector.
    pub fn zeros() -> (r: Vec3)
        ensures
            r == (Vec3 { x: ZERO, y: ZERO, z: ZERO }),
    {
        Vec3 { x: ZERO, y: ZERO, z: ZERO }
    }

    /// `self + other`.
    pub fn plus(self, other: Vec3) -> (r: Vec3)
        ensures
            r == vector_sum(self, other),
    {
        Vec3 { x: plus(self.x, other.x), y: plus(self.y, other.y), z: plus(self.z, other.z) }
    }

    /// `self - other`.
    pub fn minus(self, other: Vec3) -> (r: Vec3)
        ensures
            r == vector_difference(self, other),
    {
        Vec3 { x: minus(self.x, other.x), y: minus(self.y, other.y), z: minus(self.z, other.z) }
    }

    /// `-self`.
    pub fn negated(self) -> (r: Vec3)
        ensures
            r == vector_opposite(self),
    {
        Vec3 { x: negate(self.x), y: negate(self.y), z: negate(self.z) }
    }

    /// `self * k`.
    pub fn times(self, k: Scalar) -> (r: Vec3)
        ensures
            r == vector_scaled(self, k),
    {
        Vec3 { x: times(self.x, k), y: times(self.y, k), z: times(self.z, k) }
    }

    /// `self / k`.
    pub fn divided(self, k: Scalar) -> (r: Vec3)
        ensures
            r == vector_unscaled(self, k),
    {
        Vec3 { x: divided(self.x, k), y: divided(self.y, k), z: divided(self.z, k) }
    }

    /// The inner product.
    pub fn dot(self, other: Vec3) -> (r: Scalar)
        ensures
            r == inner(self, other),
    {
        plus(plus(times(self.x, other.x), times(self.y, other.y)), times(self.z, other.z))
    }

    /// The vector product.
    pub fn cross(self, other: Vec3) -> (r: Vec3)
        ensures
            r == outer(self, other),
    {
        Vec3 {
            x: minus(times(self.y, other.z), times(self.z, other.y)),
            y: minus(times(self.z, other.x), times(self.x, other.z)),
            z: minus(times(self.x, other.y), times(self.y, other.x)),
        }
    }

    /// The length.
    pub fn norm(self) -> (r: Scalar)
        ensures
            r == length(self),
    {
        sqrt(self.dot(self))
    }

    /// The vector divided by its length.
    pub fn normalize(self) -> (r: Vec3)
        ensures
            r == direction(self),
    {
        self.divided(self.norm())
    }
}

impl Vec2 {
    /// The length.
    pub fn norm(self) -> (r: Scalar)
        ensures
            r == plane_length(self),
    {
        sqrt(plus(times(self.x, self.x), times(self.y, self.y)))
    }
}

impl Vec4 {
    /// The product of two quaternions.
    pub fn quaternion_times(self, other: Vec4) -> (r: Vec4)
        ensures
            r == quaternion_product(self, other),
    {
        Vec4 {
            x: minus(
                plus(plus(times(self.w, other.x), times(self.x, other.w)), times(self.y, other.z)),
                times(self.z, other.y),
            ),
            y: plus(
                plus(minus(times(self.w, other.y), times(self.x, other.z)), times(self.y, other.w)),
                times(self.z, other.x),
            ),
            z: plus(
                minus(plus(times(self.w, other.z), times(self.x, other.y)), times(self.y, other.x)),
                times(self.z, other.w),
            ),
            w: minus(
                minus(minus(times(self.w, other.w), times(self.x, other.x)), times(self.y, other.y)),
                times(self.z, other.z),
            ),
        }
    }

    /// The quaternion divided by its length.
    pub fn quaternion_normalize(self) -> (r: Vec4)
        ensures
            r == quaternion_direction(self),
    {
        let k: Scalar = sqrt(
            plus(
                plus(times(self.x, self.x), times(self.z, self.z)),
                plus(times(self.y, self.y), times(self.w, self.w)),
            ),
        );
        Vec4 {
            x: divided(self.x, k),
            y: divided(self.y, k),
            z: divided(self.z, k),
            w: divided(self.w, k),
        }
    }

    /// The quaternion that turns around `axis`, by the angle of which half has
    /// the given sine and cosine.
    pub fn from_turn(axis: Vec3, half: SineCosine) -> (r: Vec4)
        ensures
            r == turn(axis, half),
    {
        let around: Vec3 = axis.normalize().times(half.sine);
        Vec4 { x: around.x, y: around.y, z: around.z, w: half.cosine }
    }

    /// The products of four pairs, added from first to last.
    fn dot(self, other: Vec4) -> (r: Scalar)
        ensures
            r == inner_of_four(self, other),
    {
        plus(
            plus(plus(times(self.x, other.x), times(self.y, other.y)), times(self.z, other.z)),
            times(self.w, other.w),
        )
    }
}

impl Mat4 {
    /// The product of a matrix and a column.
    fn times_column(self, v: Vec4) -> (r: Vec4)
        ensures
            r == transformed(self, v),
    {
        reveal(transformed);
        Vec4 {
            x: Vec4 { x: self.x.x, y: self.y.x, z: self.z.x, w: self.w.x }.dot(v),
            y: Vec4 { x: self.x.y, y: self.y.y, z: self.z.y, w: self.w.y }.dot(v),
            z: Vec4 { x: self.x.z, y: self.y.z, z: self.z.z, w: self.w.z }.dot(v),
            w: Vec4 { x: self.x.w, y: self.y.w, z: self.z.w, w: self.w.w }.dot(v),
        }
    }

    /// The product of two matrices.
    pub fn times(self, other: Mat4) -> (r: Mat4)
        ensures
            r == matrix_product(self, other),
    {
        Mat4 {
            x: self.times_column(other.x),
            y: self.times_column(other.y),
            z: self.times_column(other.z),
            w: self.times_column(other.w),
        }
    }
}

} // verus!
