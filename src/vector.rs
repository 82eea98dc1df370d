//! Two- and three-component integer vectors.
//!
//! Products are returned in a wider integer type, so none of them can overflow.

use vstd::prelude::*;

verus! {

/// A point or displacement in the drawing plane, in thousandths of a unit.
#[derive(Clone, Copy, Debug, PartialEq, Eq, Structural)]
pub struct Vec2 {
    pub x: i32,
    pub y: i32,
}

/// A direction or position in three dimensions.
#[derive(Clone, Copy, Debug, PartialEq, Eq, Structural)]
pub struct Vec3 {
    pub x: i32,
    pub y: i32,
    pub z: i32,
}

/// The dot product of two plane vectors, over the integers.
pub open spec fn dot2(a: Vec2, b: Vec2) -> int {
    a.x * b.x + a.y * b.y
}

/// The z component of the cross product of two plane vectors.
pub open spec fn cross2(a: Vec2, b: Vec2) -> int {
    a.x * b.y - a.y * b.x
}

/// The dot product of two space vectors, over the integers.
pub open spec fn dot3(a: Vec3, b: Vec3) -> int {
    a.x * b.x + a.y * b.y + a.z * b.z
}

/// Whether every component of the cross product `a × b` fits an `i32`.
pub open spec fn cross3_fits(a: Vec3, b: Vec3) -> bool {
    i32::MIN <= a.y * b.z - a.z * b.y <= i32::MAX
    && i32::MIN <= a.z * b.x - a.x * b.z <= i32::MAX
    && i32::MIN <= a.x * b.y - a.y * b.x <= i32::MAX
}

proof fn lemma_i32_product(a: i32, b: i32)
    ensures
        -0x4000_0000_0000_0000 <= a * b <= 0x4000_0000_0000_0000,
{
    assert(-0x4000_0000_0000_0000 <= a * b <= 0x4000_0000_0000_0000) by (nonlinear_arith)
        requires
            -0x8000_0000 <= a <= 0x7fff_ffff,
            -0x8000_0000 <= b <= 0x7fff_ffff,
    ;
}

impl Vec2 {
    pub fn dot(self, other: Self) -> (r: i128)
        ensures
            r == dot2(self, other),
    {
        proof {
            lemma_i32_product(self.x, other.x);
            lemma_i32_product(self.y, other.y);
        }
        self.x as i128 * other.x as i128 + self.y as i128 * other.y as i128
    }

    pub fn square_magnitude(self) -> (r: i128)
        ensures
            r == dot2(self, self),
            r >= 0,
    {
        proof {
            assert(self.x * self.x >= 0) by (nonlinear_arith);
            assert(self.y * self.y >= 0) by (nonlinear_arith);
        }
        self.dot(self)
    }

    pub fn cross(self, other: Self) -> (r: i128)
        ensures
            r == cross2(self, other),
    {
        proof {
            lemma_i32_product(self.x, other.y);
            lemma_i32_product(self.y, other.x);
        }
        self.x as i128 * other.y as i128 - self.y as i128 * other.x as i128
    }
}

impl Vec3 {
    pub fn dot(self, other: Self) -> (r: i128)
        ensures
            r == dot3(self, other),
    {
        proof {
            lemma_i32_product(self.x, other.x);
            lemma_i32_product(self.y, other.y);
            lemma_i32_product(self.z, other.z);
        }
        self.x as i128 * other.x as i128 + self.y as i128 * other.y as i128 + self.z as i128
            * other.z as i128
    }

    pub fn square_magnitude(self) -> (r: i128)
        ensures
            r == dot3(self, self),
            r >= 0,
    {
        proof {
            assert(self.x * self.x >= 0) by (nonlinear_arith);
            assert(self.y * self.y >= 0) by (nonlinear_arith);
            assert(self.z * self.z >= 0) by (nonlinear_arith);
        }
        self.dot(self)
    }

    pub fn cross(self, other: Self) -> (r: Vec3)
        requires
            cross3_fits(self, other),
        ensures
            r.x == self.y * other.z - self.z * other.y,
            r.y == self.z * other.x - self.x * other.z,
            r.z == self.x * other.y - self.y * other.x,
    {
        proof {
            lemma_i32_product(self.y, other.z);
            lemma_i32_product(self.z, other.y);
            lemma_i32_product(self.z, other.x);
            lemma_i32_product(self.x, other.z);
            lemma_i32_product(self.x, other.y);
            lemma_i32_product(self.y, other.x);
        }
        let x = self.y as i64 * other.z as i64 - self.z as i64 * other.y as i64;
        let y = self.z as i64 * other.x as i64 - self.x as i64 * other.z as i64;
        let z = self.x as i64 * other.y as i64 - self.y as i64 * other.x as i64;
        Vec3 { x: x as i32, y: y as i32, z: z as i32 }
    }
}

} // verus!
