//! What an intersection query returns.

use crate::material::Material;
use crate::ray::Ray;
use crate::scalar::Scalar;
use crate::vector::Vector;
use vstd::prelude::*;

verus! {

/// A surface that a ray can meet.
pub trait Hittable {
    /// The intersection of `r` with the surface whose parameter lies in
    /// `[t_min, t_max]`, if there is one.
    fn hit(&self, r: &Ray, t_min: Scalar, t_max: Scalar) -> Option<HitRecord>;
}

/// One intersection: where, at which parameter, and on which side.
pub struct HitRecord<'material> {
    pub point: Vector,
    /// The surface normal, turned against the incoming ray.
    pub normal: Vector,
    pub t: Scalar,
    /// Whether the ray came from outside the surface.
    pub front_face: bool,
    pub material: &'material Material,
}

} // verus!
