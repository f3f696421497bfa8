//! Fixed-point vectors, transforms and bounding shapes.
//!
//! World coordinates are signed 32-bit fixed-point values; the linear part of
//! a transform holds signed 16-bit fixed-point factors. Nothing here rounds:
//! products and squares are formed at full width.

use vstd::prelude::*;

verus! {

/// A point or direction in world space.
#[derive(Clone, Copy, Debug, PartialEq, Eq, Structural)]
pub struct Vec3 {
    pub x: i32,
    pub y: i32,
    pub z: i32,
}

/// One column of the linear part of a transform.
#[derive(Clone, Copy, Debug, PartialEq, Eq, Structural)]
pub struct Axis {
    pub x: i16,
    pub y: i16,
    pub z: i16,
}

/// A world transform: three axes and a translation.
#[derive(Clone, Copy, Debug, PartialEq, Eq, Structural)]
pub struct Transform {
    pub x_axis: Axis,
    pub y_axis: Axis,
    pub z_axis: Axis,
    pub translation: Vec3,
}

/// A sphere, used as a bounding volume.
#[derive(Clone, Copy, Debug, PartialEq, Eq, Structural)]
pub struct Sphere {
    pub center: Vec3,
    pub radius: u32,
}

/// A cone from `apex` along `normal`, used as a bounding volume.
#[derive(Clone, Copy, Debug, PartialEq, Eq, Structural)]
pub struct Cone {
    pub apex: Vec3,
    pub normal: Vec3,
    pub height: u32,
    pub radius: u32,
}

/// A vector of mathematical integers.
pub struct Vec3Int {
    pub x: int,
    pub y: int,
    pub z: int,
}

/// The sum of `a` and `b`, held at the largest `u32` where it would pass it.
pub open spec fn sat_add(a: int, b: int) -> int {
    if a + b > u32::MAX {
        u32::MAX as int
    } else {
        a + b
    }
}

/// The squared length of `v`.
pub open spec fn length_squared(v: Vec3Int) -> int {
    v.x * v.x + v.y * v.y + v.z * v.z
}

impl Vec3 {
    /// The vector with the given coordinates.
    pub fn new(x: i32, y: i32, z: i32) -> (v: Vec3)
        ensures
            v == (Vec3 { x, y, z }),
    {
        Vec3 { x, y, z }
    }

    /// This vector with every coordinate negated.
    pub open spec fn negated(&self) -> Vec3Int {
        Vec3Int { x: -self.x, y: -self.y, z: -self.z }
    }
}

impl Axis {
    /// The axis with the given factors.
    pub fn new(x: i16, y: i16, z: i16) -> (a: Axis)
        ensures
            a == (Axis { x, y, z }),
    {
        Axis { x, y, z }
    }
}

impl Sphere {
    /// The sphere around `center` with the given radius.
    pub fn new(center: Vec3, radius: u32) -> (s: Sphere)
        ensures
            s == (Sphere { center, radius }),
    {
        Sphere { center, radius }
    }

    /// This sphere with its radius grown by `amount`, held at the largest
    /// radius a sphere can have.
    pub open spec fn grown(&self, amount: u32) -> Sphere {
        Sphere { center: self.center, radius: sat_add(self.radius as int, amount as int) as u32 }
    }

    /// Grows the radius by `amount`.
    pub fn grow(&self, amount: u32) -> (s: Sphere)
        ensures
            s == self.grown(amount),
    {
        Sphere { center: self.center, radius: self.radius.saturating_add(amount) }
    }
}

impl Cone {
    /// The cone from `apex` along `normal`.
    pub fn new(apex: Vec3, normal: Vec3, height: u32, radius: u32) -> (c: Cone)
        ensures
            c == (Cone { apex, normal, height, radius }),
    {
        Cone { apex, normal, height, radius }
    }
}

impl Transform {
    /// The transform which leaves every vector as it is, in units of `one`.
    pub fn scale(one: i16) -> (t: Transform)
        ensures
            t == (Transform {
                x_axis: Axis { x: one, y: 0, z: 0 },
                y_axis: Axis { x: 0, y: one, z: 0 },
                z_axis: Axis { x: 0, y: 0, z: one },
                translation: Vec3 { x: 0, y: 0, z: 0 },
            }),
    {
        Transform {
            x_axis: Axis { x: one, y: 0, z: 0 },
            y_axis: Axis { x: 0, y: one, z: 0 },
            z_axis: Axis { x: 0, y: 0, z: one },
            translation: Vec3 { x: 0, y: 0, z: 0 },
        }
    }

    /// The linear part of this transform applied to the direction `v`; the
    /// translation plays no part.
    pub open spec fn vector3(&self, v: Vec3Int) -> Vec3Int {
        Vec3Int {
            x: self.x_axis.x * v.x + self.y_axis.x * v.y + self.z_axis.x * v.z,
            y: self.x_axis.y * v.x + self.y_axis.y * v.y + self.z_axis.y * v.z,
            z: self.x_axis.z * v.x + self.y_axis.z * v.y + self.z_axis.z * v.z,
        }
    }

    /// The squared length of the negated `eye` under the linear part of this
    /// transform: the depth measure by which meshes are ordered.
    pub open spec fn depth(&self, eye: Vec3) -> int {
        length_squared(self.vector3(eye.negated()))
    }

    /// Computes [`Transform::depth`].
    pub fn camera_depth(&self, eye: Vec3) -> (z: u128)
        ensures
            z == self.depth(eye),
    {
        let nx: i64 = 0 - (eye.x as i64);
        let ny: i64 = 0 - (eye.y as i64);
        let nz: i64 = 0 - (eye.z as i64);
        let cx: i64 = row(self.x_axis.x, self.y_axis.x, self.z_axis.x, nx, ny, nz);
        let cy: i64 = row(self.x_axis.y, self.y_axis.y, self.z_axis.y, nx, ny, nz);
        let cz: i64 = row(self.x_axis.z, self.y_axis.z, self.z_axis.z, nx, ny, nz);
        square(cx) + square(cy) + square(cz)
    }
}

/// One coordinate of a transformed direction.
fn row(a: i16, b: i16, c: i16, x: i64, y: i64, z: i64) -> (r: i64)
    requires
        -0x8000_0000 <= x <= 0x8000_0000,
        -0x8000_0000 <= y <= 0x8000_0000,
        -0x8000_0000 <= z <= 0x8000_0000,
    ensures
        r == a * x + b * y + c * z,
        -0xC000_0000_0000 <= r <= 0xC000_0000_0000,
{
    proof {
        lemma_product_bound(a as int, x as int);
        lemma_product_bound(b as int, y as int);
        lemma_product_bound(c as int, z as int);
    }
    let ax: i64 = (a as i64) * x;
    let by: i64 = (b as i64) * y;
    let cz: i64 = (c as i64) * z;
    ax + by + cz
}

/// The square of one coordinate of a transformed direction.
fn square(v: i64) -> (r: u128)
    requires
        -0xC000_0000_0000 <= v <= 0xC000_0000_0000,
    ensures
        r == v * v,
        r <= 0x9000_0000_0000_0000_0000_0000,
{
    proof {
        lemma_square_bound(v as int);
    }
    let m: i128 = v as i128;
    let sq: i128 = m * m;
    sq as u128
}

proof fn lemma_product_bound(a: int, x: int)
    requires
        -0x8000 <= a <= 0x8000,
        -0x8000_0000 <= x <= 0x8000_0000,
    ensures
        -0x4000_0000_0000 <= a * x <= 0x4000_0000_0000,
{
    assert(-0x4000_0000_0000 <= a * x <= 0x4000_0000_0000) by (nonlinear_arith)
        requires
            -0x8000 <= a <= 0x8000,
            -0x8000_0000 <= x <= 0x8000_0000,
    ;
}

proof fn lemma_square_bound(v: int)
    requires
        -0xC000_0000_0000 <= v <= 0xC000_0000_0000,
    ensures
        0 <= v * v <= 0x9000_0000_0000_0000_0000_0000,
{
    assert(0 <= v * v <= 0x9000_0000_0000_0000_0000_0000) by (nonlinear_arith)
        requires
            -0xC000_0000_0000 <= v <= 0xC000_0000_0000,
    ;
}

} // verus!
