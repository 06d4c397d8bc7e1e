//! A path tracer for scenes of spheres, computed in fixed point.
//!
//! Numbers are [`scalar::Scalar`]s, decimal fixed-point values on which every
//! operation is total, so rendering never overflows and never divides by
//! zero unnoticed; [`trig`] adds the sine, cosine and tangent. [`vector`],
//! [`ray`] and [`camera`] build the geometry on them, [`sphere`] and [`hit`]
//! find where a ray meets the scene, [`material`] decides how a ray leaves a
//! surface, [`utils`] follows a ray through its scatterings, [`render`]
//! turns a scene into the bytes of an image, and [`scene`] builds a scene
//! worth rendering.
//!
//! Whatever depends on chance comes in two forms: one that draws its random
//! values itself, and one that takes them as arguments and says exactly what
//! it returns for them. The former promises that its result is one that the
//! latter returns for some values that the draws may produce. All draws
//! come from [`random`]. [`rounding`] bounds what rounding does to the length
//! of a unit vector, and shows that products of whole vectors are exact.

pub mod camera;
pub mod hit;
pub mod material;
pub mod random;
pub mod ray;
pub mod render;
pub mod rounding;
pub mod scalar;
pub mod scene;
pub mod sphere;
pub mod trig;
pub mod utils;
pub mod vector;
