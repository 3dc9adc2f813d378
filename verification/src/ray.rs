//! Rays: an origin and an (unnormalized) direction.

use vstd::prelude::*;
use crate::fixed::{FS, fxmul};
use crate::vec3::{Vec3, bounded, OP_MAX};

verus! {

#[derive(Debug, Clone, Copy, PartialEq, Eq, Structural)]
pub struct Ray {
    pub a: Vec3,
    pub b: Vec3,
}

/// First coordinate of `origin + t * direction`, floor-rounded.
pub open spec fn point_at1(r: Ray, t: int) -> int {
    r.a.v1 + fxmul(t, r.b.v1 as int)
}

/// Second coordinate of `origin + t * direction`, floor-rounded.
pub open spec fn point_at2(r: Ray, t: int) -> int {
    r.a.v2 + fxmul(t, r.b.v2 as int)
}

/// Third coordinate of `origin + t * direction`, floor-rounded.
pub open spec fn point_at3(r: Ray, t: int) -> int {
    r.a.v3 + fxmul(t, r.b.v3 as int)
}

impl Ray {
    pub fn new(a: &Vec3, b: &Vec3) -> (r: Ray)
        ensures
            r.a == *a,
            r.b == *b,
    {
        Ray { a: *a, b: *b }
    }

    pub fn origin(self: &Ray) -> (r: Vec3)
        ensures
            r == self.a,
    {
        self.a
    }

    pub fn direction(self: &Ray) -> (r: Vec3)
        ensures
            r == self.b,
    {
        self.b
    }

    /// The point the ray reaches at parameter `t` (a fixed-point scalar;
    /// negative values lie behind the origin).
    pub fn point_at_parameter(self, t: i64) -> (r: Vec3)
        requires
            bounded(self.b, OP_MAX as int),
            -OP_MAX <= t <= OP_MAX,
            i64::MIN <= point_at1(self, t as int) <= i64::MAX,
            i64::MIN <= point_at2(self, t as int) <= i64::MAX,
            i64::MIN <= point_at3(self, t as int) <= i64::MAX,
        ensures
            r.v1 == point_at1(self, t as int),
            r.v2 == point_at2(self, t as int),
            r.v3 == point_at3(self, t as int),
    {
        let d = self.b.mul_s(t);
        self.a.add(d)
    }
}

} // verus!
