//! What the compiler asks of a camera, and a camera with a box-shaped view
//! volume.

use vstd::prelude::*;
use crate::math::{Cone, Sphere, Vec3, sat_add};

verus! {

/// A camera: a position and a visibility test for the two bounding shapes.
///
/// The three spec functions say what the camera answers; the three executable
/// methods must answer just that.
pub trait Camera {
    /// Where the camera stands.
    spec fn eye_point(&self) -> Vec3;

    /// Whether any part of `sphere` lies in the view volume.
    spec fn sees_sphere(&self, sphere: Sphere) -> bool;

    /// Whether any part of `cone` lies in the view volume.
    spec fn sees_cone(&self, cone: Cone) -> bool;

    /// Where the camera stands.
    fn eye(&self) -> (e: Vec3)
        ensures
            e == self.eye_point(),
    ;

    /// Whether any part of `sphere` lies in the view volume.
    fn overlaps_sphere(&self, sphere: Sphere) -> (r: bool)
        ensures
            r == self.sees_sphere(sphere),
    ;

    /// Whether any part of `cone` lies in the view volume.
    fn overlaps_cone(&self, cone: Cone) -> (r: bool)
        ensures
            r == self.sees_cone(cone),
    ;
}

/// A camera whose view volume is the axis-aligned box from `min` to `max`.
#[derive(Clone, Copy, Debug)]
pub struct BoxCamera {
    pub eye: Vec3,
    pub min: Vec3,
    pub max: Vec3,
}

/// How far the coordinate `c` lies outside the interval from `lo` to `hi`.
pub open spec fn axis_gap(c: int, lo: int, hi: int) -> int {
    if c < lo {
        lo - c
    } else if c > hi {
        c - hi
    } else {
        0
    }
}

impl BoxCamera {
    /// A camera at `eye` which sees the box from `min` to `max`.
    pub fn new(eye: Vec3, min: Vec3, max: Vec3) -> (c: BoxCamera)
        ensures
            c == (BoxCamera { eye, min, max }),
    {
        BoxCamera { eye, min, max }
    }

    /// The squared distance from `p` to the view volume.
    pub open spec fn gap_squared(&self, p: Vec3) -> int {
        let dx = axis_gap(p.x as int, self.min.x as int, self.max.x as int);
        let dy = axis_gap(p.y as int, self.min.y as int, self.max.y as int);
        let dz = axis_gap(p.z as int, self.min.z as int, self.max.z as int);
        dx * dx + dy * dy + dz * dz
    }
}

/// The square of how far `c` lies outside the interval from `lo` to `hi`.
fn gap_square(c: i32, lo: i32, hi: i32) -> (r: u128)
    ensures
        r == axis_gap(c as int, lo as int, hi as int) * axis_gap(c as int, lo as int, hi as int),
        r <= 0x1_0000_0000_0000_0000,
{
    let d: i64 = if c < lo {
        (lo as i64) - (c as i64)
    } else if c > hi {
        (c as i64) - (hi as i64)
    } else {
        0
    };
    assert(0 <= d * d <= 0x1_0000_0000_0000_0000) by (nonlinear_arith)
        requires
            0 <= d <= 0x1_0000_0000,
    ;
    let w: u128 = d as u128;
    w * w
}

impl Camera for BoxCamera {
    open spec fn eye_point(&self) -> Vec3 {
        self.eye
    }

    /// A sphere is seen when its centre is no further from the box than its
    /// radius.
    open spec fn sees_sphere(&self, sphere: Sphere) -> bool {
        self.gap_squared(sphere.center) <= sphere.radius * sphere.radius
    }

    /// A cone is seen when the sphere around its apex which holds it is seen.
    open spec fn sees_cone(&self, cone: Cone) -> bool {
        self.sees_sphere(
            Sphere {
                center: cone.apex,
                radius: sat_add(cone.height as int, cone.radius as int) as u32,
            },
        )
    }

    fn eye(&self) -> (e: Vec3) {
        self.eye
    }

    fn overlaps_sphere(&self, sphere: Sphere) -> (r: bool) {
        let dx: u128 = gap_square(sphere.center.x, self.min.x, self.max.x);
        let dy: u128 = gap_square(sphere.center.y, self.min.y, self.max.y);
        let dz: u128 = gap_square(sphere.center.z, self.min.z, self.max.z);
        let rad: u128 = sphere.radius as u128;
        assert(0 <= rad * rad <= 0x1_0000_0000_0000_0000) by (nonlinear_arith)
            requires
                0 <= rad <= 0x1_0000_0000,
        ;
        dx + dy + dz <= rad * rad
    }

    fn overlaps_cone(&self, cone: Cone) -> (r: bool) {
        self.overlaps_sphere(
            Sphere { center: cone.apex, radius: cone.height.saturating_add(cone.radius) },
        )
    }
}

} // verus!
