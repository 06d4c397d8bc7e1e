//! Rays: a point of origin and a direction.

use crate::scalar::Scalar;
use crate::vector::Vector;
use vstd::prelude::*;

verus! {

/// A half-line: the points `origin + t * direction`.
#[derive(Debug, Clone, Copy)]
pub struct Ray {
    pub origin: Vector,
    pub direction: Vector,
}

impl Ray {
    pub open spec fn spec_new(origin: Vector, direction: Vector) -> Ray {
        Ray { origin, direction }
    }

    /// The ray from `origin` along `direction`.
    #[verifier::when_used_as_spec(spec_new)]
    pub fn new(origin: Vector, direction: Vector) -> (r: Ray)
        ensures
            r == Ray::spec_new(origin, direction),
    {
        Ray { origin, direction }
    }

    pub open spec fn at_spec(&self, t: Scalar) -> Vector {
        self.origin.plus(self.direction.scaled(t))
    }

    /// The point at parameter `t`: the origin plus `t` times the direction.
    #[verifier::when_used_as_spec(at_spec)]
    pub fn at(&self, t: Scalar) -> (r: Vector)
        ensures
            r == self.at_spec(t),
    {
        self.origin + t * self.direction
    }
}

} // verus!
