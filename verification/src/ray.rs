//! A ray: origin plus direction, with a parametric point evaluator.

use vstd::prelude::*;
use core::marker::PhantomData;

verus! {

use crate::fixed::{SCALE, ORIGIN_MAX, DIR_MAX, tdiv};
use crate::vec3::{Position, Vec3f};

#[derive(Clone, Copy)]
pub struct Ray {
    /// Origin.
    pub a: Vec3f<Position>,
    /// Direction (not necessarily unit length).
    pub b: Vec3f<Position>,
}

/// A ray the tracer can work with: bounded origin and direction, and
/// a direction that is not the zero vector.
pub open spec fn ray_wf(r: Ray) -> bool {
    &&& r.a.bounded(ORIGIN_MAX as int)
    &&& r.b.bounded(DIR_MAX as int)
    &&& r.b.sq_len() != 0
}

impl Ray {
    pub fn origin(&self) -> (r: Vec3f<Position>)
        ensures
            r == self.a,
    {
        self.a
    }

    pub fn direction(&self) -> (r: Vec3f<Position>)
        ensures
            r == self.b,
    {
        self.b
    }

    /// The point `origin + t * direction / SCALE`, truncated
    /// componentwise.
    pub open spec fn point_at_spec(self, t: int) -> Vec3f<Position> {
        Vec3f {
            x: (self.a.x + tdiv(self.b.x * t, SCALE as int)) as i64,
            y: (self.a.y + tdiv(self.b.y * t, SCALE as int)) as i64,
            z: (self.a.z + tdiv(self.b.z * t, SCALE as int)) as i64,
            tag: PhantomData,
        }
    }

    pub fn point_at_parameter(&self, t: i64) -> (r: Vec3f<Position>)
        requires
            self.a.bounded(0x1000000000000000),
            self.b.bounded(DIR_MAX as int),
            -0x100000000000 <= t <= 0x100000000000,
        ensures
            r == self.point_at_spec(t as int),
            r.x == self.a.x + tdiv(self.b.x * t, SCALE as int),
            r.y == self.a.y + tdiv(self.b.y * t, SCALE as int),
            r.z == self.a.z + tdiv(self.b.z * t, SCALE as int),
    {
        self.a.add(self.b.scale(t))
    }
}

} // verus!
