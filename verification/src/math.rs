//! Vectors of two, three and four numbers, and a 4x4 matrix.

use vstd::prelude::*;
use crate::scalar::{Scalar, ONE_BITS};

verus! {

//
// 2D vectors
//
/// A vector of two numbers. Its operations work component by component,
/// every step rounded.
#[derive(Clone, Copy, Debug, PartialEq, Eq, Structural)]
pub struct Vector2 {
    pub x: Scalar,
    pub y: Scalar,
}

impl Vector2 {
    /// The sum of two vectors.
    pub open spec fn sum(self, rhs: Vector2) -> Vector2 {
        Vector2 { x: self.x.sum(rhs.x), y: self.y.sum(rhs.y) }
    }

    /// The difference of two vectors.
    pub open spec fn difference(self, rhs: Vector2) -> Vector2 {
        Vector2 { x: self.x.difference(rhs.x), y: self.y.difference(rhs.y) }
    }

    /// The vector with both components multiplied by `rhs`.
    pub open spec fn scaled(self, rhs: Scalar) -> Vector2 {
        Vector2 { x: self.x.product(rhs), y: self.y.product(rhs) }
    }

    /// The dot product: x * x' + y * y', every step rounded.
    pub open spec fn dot(self, other: Vector2) -> Scalar {
        self.x.product(other.x).sum(self.y.product(other.y))
    }

    /// The vector with the given components.
    pub fn new(x: Scalar, y: Scalar) -> (v: Vector2)
        ensures
            v == (Vector2 { x, y }),
    {
        Vector2 { x, y }
    }

    /// The sum of two vectors.
    pub fn plus(&self, rhs: &Vector2) -> (v: Vector2)
        ensures
            v == self.sum(*rhs),
    {
        Vector2 { x: self.x.plus(&rhs.x), y: self.y.plus(&rhs.y) }
    }

    /// The difference of two vectors.
    pub fn minus(&self, rhs: &Vector2) -> (v: Vector2)
        ensures
            v == self.difference(*rhs),
    {
        Vector2 { x: self.x.minus(&rhs.x), y: self.y.minus(&rhs.y) }
    }

    /// The vector with both components multiplied by `rhs`.
    pub fn times(&self, rhs: Scalar) -> (v: Vector2)
        ensures
            v == self.scaled(rhs),
    {
        Vector2 { x: self.x.times(&rhs), y: self.y.times(&rhs) }
    }

    /// Returns the dot product of the current vector with another vector.
    pub fn dot_product(&self, other: &Vector2) -> (d: Scalar)
        ensures
            d == self.dot(*other),
    {
        self.x.times(&other.x).plus(&self.y.times(&other.y))
    }
}

//
// 3D vectors
//
/// A vector of three numbers. Its operations work component by component,
/// every step rounded.
#[derive(Clone, Copy, Debug, PartialEq, Eq, Structural)]
pub struct Vector3 {
    pub x: Scalar,
    pub y: Scalar,
    pub z: Scalar,
}

impl Vector3 {
    /// The vector whose components are all positive zero.
    pub open spec fn zero() -> Vector3 {
        Vector3 { x: Scalar { bits: 0 }, y: Scalar { bits: 0 }, z: Scalar { bits: 0 } }
    }

    /// The sum of two vectors.
    pub open spec fn sum(self, rhs: Vector3) -> Vector3 {
        Vector3 { x: self.x.sum(rhs.x), y: self.y.sum(rhs.y), z: self.z.sum(rhs.z) }
    }

    /// The difference of two vectors.
    pub open spec fn difference(self, rhs: Vector3) -> Vector3 {
        Vector3 {
            x: self.x.difference(rhs.x),
            y: self.y.difference(rhs.y),
            z: self.z.difference(rhs.z),
        }
    }

    /// The vector with every component multiplied by `rhs`.
    pub open spec fn scaled(self, rhs: Scalar) -> Vector3 {
        Vector3 { x: self.x.product(rhs), y: self.y.product(rhs), z: self.z.product(rhs) }
    }

    /// The dot product: (x * x' + y * y') + z * z', every step rounded.
    pub open spec fn dot(self, other: Vector3) -> Scalar {
        self.x.product(other.x).sum(self.y.product(other.y)).sum(self.z.product(other.z))
    }

    /// The cross product.
    pub open spec fn cross(self, other: Vector3) -> Vector3 {
        Vector3 {
            x: self.y.product(other.z).difference(self.z.product(other.y)),
            y: self.z.product(other.x).difference(self.x.product(other.z)),
            z: self.x.product(other.y).difference(self.y.product(other.x)),
        }
    }

    /// The length: the root of (x * x + y * y) + z * z, every step rounded.
    pub open spec fn norm(self) -> Scalar {
        self.x.product(self.x).sum(self.y.product(self.y)).sum(self.z.product(self.z)).root()
    }

    /// The distance to another vector: the length of the difference.
    pub open spec fn distance(self, other: Vector3) -> Scalar {
        self.difference(other).norm()
    }

    /// The vector of length one that points the same way: every component
    /// times one over the length. A vector without length points nowhere:
    /// it gives the zero vector.
    pub open spec fn unit(self) -> Vector3 {
        if self.norm().magnitude() == 0 {
            Vector3::zero()
        } else {
            self.scaled((Scalar { bits: ONE_BITS }).quotient(self.norm()))
        }
    }

    /// The cosine of the angle between two vectors: their dot product over
    /// the product of their lengths.
    pub open spec fn cosine(self, other: Vector3) -> Scalar {
        self.dot(other).quotient(self.norm().product(other.norm()))
    }

    /// The vector with the given components.
    pub fn new(x: Scalar, y: Scalar, z: Scalar) -> (v: Vector3)
        ensures
            v == (Vector3 { x, y, z }),
    {
        Vector3 { x, y, z }
    }

    /// The sum of two vectors.
    pub fn plus(&self, rhs: &Vector3) -> (v: Vector3)
        ensures
            v == self.sum(*rhs),
    {
        Vector3 { x: self.x.plus(&rhs.x), y: self.y.plus(&rhs.y), z: self.z.plus(&rhs.z) }
    }

    /// The difference of two vectors.
    pub fn minus(&self, rhs: &Vector3) -> (v: Vector3)
        ensures
            v == self.difference(*rhs),
    {
        Vector3 { x: self.x.minus(&rhs.x), y: self.y.minus(&rhs.y), z: self.z.minus(&rhs.z) }
    }

    /// The vector with every component multiplied by `rhs`.
    pub fn times(&self, rhs: Scalar) -> (v: Vector3)
        ensures
            v == self.scaled(rhs),
    {
        Vector3 { x: self.x.times(&rhs), y: self.y.times(&rhs), z: self.z.times(&rhs) }
    }

    /// Returns the dot product of the current vector with another vector.
    pub fn dot_product(&self, other: &Vector3) -> (d: Scalar)
        ensures
            d == self.dot(*other),
    {
        self.x.times(&other.x).plus(&self.y.times(&other.y)).plus(&self.z.times(&other.z))
    }

    /// Returns the cross product of the current vector with another vector.
    pub fn cross_product(&self, other: &Vector3) -> (v: Vector3)
        ensures
            v == self.cross(*other),
    {
        Vector3 {
            x: self.y.times(&other.z).minus(&self.z.times(&other.y)),
            y: self.z.times(&other.x).minus(&self.x.times(&other.z)),
            z: self.x.times(&other.y).minus(&self.y.times(&other.x)),
        }
    }

    /// Returns the distance to another vector.
    pub fn distance_to(&self, other: &Vector3) -> (d: Scalar)
        ensures
            d == self.distance(*other),
    {
        self.minus(other).length()
    }

    /// Returns the length of a vector.
    pub fn length(&self) -> (l: Scalar)
        ensures
            l == self.norm(),
    {
        self.x.times(&self.x).plus(&self.y.times(&self.y)).plus(&self.z.times(&self.z)).sqrt()
    }

    /// Normalises a vector. A vector without length gives the zero vector.
    pub fn normalised(&self) -> (v: Vector3)
        ensures
            v == self.unit(),
            self.norm().magnitude() == 0 ==> v == Vector3::zero(),
    {
        let length = self.length();
        if length.is_zero() {
            return Vector3 { x: Scalar::zero(), y: Scalar::zero(), z: Scalar::zero() };
        }
        let inverse_length = Scalar::one().over(&length);
        self.times(inverse_length)
    }

    /// Returns how much two vectors are similar (pointing in the same
    /// direction) using cosine similarity.
    pub fn cos_similarity(&self, other: &Vector3) -> (c: Scalar)
        ensures
            c == self.cosine(*other),
    {
        self.dot_product(other).over(&self.length().times(&other.length()))
    }
}

//
// 4D vectors
//
/// A vector of four numbers: a point with its weight w, or a quaternion.
#[derive(Clone, Copy, Debug, PartialEq, Eq, Structural)]
pub struct Vector4 {
    pub x: Scalar,
    pub y: Scalar,
    pub z: Scalar,
    pub w: Scalar,
}

impl Vector4 {
    /// The perspective divide: x, y and z times one over w. With w at
    /// zero there is nothing to divide by, and the result is the zero
    /// vector.
    pub open spec fn divided(self) -> Vector3 {
        if self.w.magnitude() == 0 {
            Vector3::zero()
        } else {
            let inverse_w = (Scalar { bits: ONE_BITS }).quotient(self.w);
            Vector3 {
                x: self.x.product(inverse_w),
                y: self.y.product(inverse_w),
                z: self.z.product(inverse_w),
            }
        }
    }

    /// The length: the root of ((x * x + y * y) + z * z) + w * w, every
    /// step rounded.
    pub open spec fn norm(self) -> Scalar {
        self.x.product(self.x).sum(self.y.product(self.y)).sum(self.z.product(self.z)).sum(
            self.w.product(self.w),
        ).root()
    }

    /// The vector of length one that points the same way; the zero vector
    /// for a vector without length.
    pub open spec fn unit(self) -> Vector4 {
        if self.norm().magnitude() == 0 {
            Vector4 {
                x: Scalar { bits: 0 },
                y: Scalar { bits: 0 },
                z: Scalar { bits: 0 },
                w: Scalar { bits: 0 },
            }
        } else {
            let inverse_length = (Scalar { bits: ONE_BITS }).quotient(self.norm());
            Vector4 {
                x: self.x.product(inverse_length),
                y: self.y.product(inverse_length),
                z: self.z.product(inverse_length),
                w: self.w.product(inverse_length),
            }
        }
    }

    /// The vector with the given components.
    pub fn new(x: Scalar, y: Scalar, z: Scalar, w: Scalar) -> (v: Vector4)
        ensures
            v == (Vector4 { x, y, z, w }),
    {
        Vector4 { x, y, z, w }
    }

    /// The perspective divide. With w at zero, of either sign, the result
    /// is the zero vector.
    pub fn to_vector3(&self) -> (v: Vector3)
        ensures
            v == self.divided(),
            self.w.magnitude() == 0 ==> v == Vector3::zero(),
    {
        if self.w.is_zero() {
            Vector3 { x: Scalar::zero(), y: Scalar::zero(), z: Scalar::zero() }
        } else {
            let inverse_w = Scalar::one().over(&self.w);
            Vector3 {
                x: self.x.times(&inverse_w),
                y: self.y.times(&inverse_w),
                z: self.z.times(&inverse_w),
            }
        }
    }

    /// Returns the length of a vector.
    pub fn length(&self) -> (l: Scalar)
        ensures
            l == self.norm(),
    {
        self.x.times(&self.x).plus(&self.y.times(&self.y)).plus(&self.z.times(&self.z)).plus(
            &self.w.times(&self.w),
        ).sqrt()
    }

    /// Normalises a vector. A vector without length gives the zero vector.
    pub fn normalised(&self) -> (v: Vector4)
        ensures
            v == self.unit(),
    {
        let length = self.length();
        if length.is_zero() {
            return Vector4 {
                x: Scalar::zero(),
                y: Scalar::zero(),
                z: Scalar::zero(),
                w: Scalar::zero(),
            };
        }
        let inverse_length = Scalar::one().over(&length);
        Vector4 {
            x: self.x.times(&inverse_length),
            y: self.y.times(&inverse_length),
            z: self.z.times(&inverse_length),
            w: self.w.times(&inverse_length),
        }
    }
}

//
// Matrices (4x4)
//
/// A 4x4 matrix, row by row.
#[derive(Clone, Copy, Debug, PartialEq, Eq)]
pub struct Matrix44 {
    pub data: [Scalar; 16],
}

impl Matrix44 {
    /// The entry in the given row and column.
    pub open spec fn at(self, row: int, col: int) -> Scalar {
        self.data[row * 4 + col]
    }

    /// One component of the product with a column: the row's entries
    /// times the column's, summed from the left.
    pub open spec fn row_times(self, row: int, v: Vector4) -> Scalar {
        self.at(row, 0).product(v.x).sum(self.at(row, 1).product(v.y)).sum(
            self.at(row, 2).product(v.z),
        ).sum(self.at(row, 3).product(v.w))
    }

    /// The product of the matrix with a vector, taken as a column.
    pub open spec fn applied(self, v: Vector4) -> Vector4 {
        Vector4 {
            x: self.row_times(0, v),
            y: self.row_times(1, v),
            z: self.row_times(2, v),
            w: self.row_times(3, v),
        }
    }

    /// Multiplies a 4x4 matrix by a Vector4.
    pub fn multiply_vec4(&self, other: &Vector4) -> (v: Vector4)
        ensures
            v == self.applied(*other),
    {
        Vector4 {
            x: self.get(0, 0).times(&other.x).plus(&self.get(0, 1).times(&other.y)).plus(
                &self.get(0, 2).times(&other.z),
            ).plus(&self.get(0, 3).times(&other.w)),
            y: self.get(1, 0).times(&other.x).plus(&self.get(1, 1).times(&other.y)).plus(
                &self.get(1, 2).times(&other.z),
            ).plus(&self.get(1, 3).times(&other.w)),
            z: self.get(2, 0).times(&other.x).plus(&self.get(2, 1).times(&other.y)).plus(
                &self.get(2, 2).times(&other.z),
            ).plus(&self.get(2, 3).times(&other.w)),
            w: self.get(3, 0).times(&other.x).plus(&self.get(3, 1).times(&other.y)).plus(
                &self.get(3, 2).times(&other.z),
            ).plus(&self.get(3, 3).times(&other.w)),
        }
    }

    /// Gets the i, j entry of a 4x4 matrix.
    pub fn get(&self, row: u32, col: u32) -> (entry: Scalar)
        requires
            row < 4,
            col < 4,
        ensures
            entry == self.at(row as int, col as int),
    {
        self.data[(row * 4 + col) as usize]
    }
}

} // verus!
