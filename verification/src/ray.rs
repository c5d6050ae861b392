//! Rays: an origin point plus a direction vector.

use vstd::prelude::*;
use crate::fx::{Fx, mag_le, fmul, MUL_LIMIT};
use crate::vec3::{Vec3, Point3, v3_mag_le, lemma_fmul_prod_limit};

verus! {

/// Envelope on the components of any point a ray is traced through: 2^36.
pub const POS_LIMIT: i128 = 68719476736;

/// Envelope on the components of a ray direction: 2^34.
pub const DIR_LIMIT: i128 = 17179869184;

#[derive(Clone, Copy, PartialEq, Eq, Structural, Debug)]
pub struct Ray {
    pub origin: Point3,
    pub direction: Vec3,
}

/// A ray whose origin and direction lie within the tracing envelopes.
pub open spec fn ray_wf(r: Ray) -> bool {
    &&& v3_mag_le(r.origin, POS_LIMIT as int)
    &&& v3_mag_le(r.direction, DIR_LIMIT as int)
}

/// The parametric position `origin + t * direction`, componentwise over the
/// fixed-point product.
pub open spec fn at_spec(r: Ray, t: int) -> Point3 {
    Vec3 {
        x: Fx { raw: (r.origin.x.raw + fmul(r.direction.x.raw as int, t)) as i128 },
        y: Fx { raw: (r.origin.y.raw + fmul(r.direction.y.raw as int, t)) as i128 },
        z: Fx { raw: (r.origin.z.raw + fmul(r.direction.z.raw as int, t)) as i128 },
    }
}

impl Ray {
    /// Builds a ray from its origin and direction.
    pub fn new(origin: Point3, direction: Vec3) -> (r: Ray)
        ensures
            r.origin == origin,
            r.direction == direction,
    {
        Ray { origin, direction }
    }

    /// The ray's origin.
    pub fn origin(&self) -> (r: Point3)
        ensures
            r == self.origin,
    {
        self.origin
    }

    /// The ray's direction.
    pub fn direction(&self) -> (r: Vec3)
        ensures
            r == self.direction,
    {
        self.direction
    }

    /// Evaluates the parametric position at distance `t`.
    pub fn at(&self, t: Fx) -> (r: Point3)
        requires
            ray_wf(*self),
            mag_le(t.raw as int, POS_LIMIT as int),
        ensures
            r == at_spec(*self, t.raw as int),
    {
        proof {
            lemma_fmul_prod_limit(self.direction.x.raw as int, t.raw as int);
            lemma_fmul_prod_limit(self.direction.y.raw as int, t.raw as int);
            lemma_fmul_prod_limit(self.direction.z.raw as int, t.raw as int);
        }
        self.origin.add(self.direction.scale(t))
    }
}

} // verus!
