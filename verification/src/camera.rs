//! A thin-lens camera: from a place on the image to a ray into the scene.

use crate::ray::Ray;
use crate::rounding::is_moderate;
use crate::scalar::{lemma_times_zero, Scalar};
use crate::utils::{degrees_to_radians_spec, is_disk_sample, random_in_unit_disk};
use crate::utils;
use crate::vector::{fuzzy_equal_spec, Vector};
use vstd::prelude::*;

verus! {

/// A camera: where it stands, the frame that it looks through, and its lens.
pub struct Camera {
    origin: Vector,
    lower_left_corner: Vector,
    horizontal: Vector,
    vertical: Vector,
    lens_radius: Scalar,
    u: Vector,
    v: Vector,
    w: Vector,
}

/// Height of the image plane at distance one, for a vertical field of view of
/// `vfov` degrees: `2 tan(vfov / 2)`.
pub open spec fn viewport_height(vfov: Scalar) -> Scalar {
    Scalar::from_int(2).times(degrees_to_radians_spec(vfov).over(Scalar::from_int(2)).spec_tan())
}

/// Width of the image plane at distance one.
pub open spec fn viewport_width(vfov: Scalar, aspect_ratio: Scalar) -> Scalar {
    aspect_ratio.times(viewport_height(vfov))
}

impl Camera {
    /// Where the rays start from, but for the offset on the lens.
    pub closed spec fn origin(&self) -> Vector {
        self.origin
    }

    /// The corner of the image at `s = 0`, `t = 0`, on the plane of focus.
    pub closed spec fn lower_left_corner(&self) -> Vector {
        self.lower_left_corner
    }

    /// The image's extent along `u`, on the plane of focus.
    pub closed spec fn horizontal(&self) -> Vector {
        self.horizontal
    }

    /// The image's extent along `v`, on the plane of focus.
    pub closed spec fn vertical(&self) -> Vector {
        self.vertical
    }

    /// Half the diameter of the lens.
    pub closed spec fn lens_radius(&self) -> Scalar {
        self.lens_radius
    }

    /// The unit vector to the right of the camera.
    pub closed spec fn u(&self) -> Vector {
        self.u
    }

    /// The unit vector upward of the camera.
    pub closed spec fn v(&self) -> Vector {
        self.v
    }

    /// The unit vector from the target toward the camera.
    pub closed spec fn w(&self) -> Vector {
        self.w
    }

    /// A camera at `look_from` that looks at `look_at`, with `vup` pointing
    /// upward, a vertical field of view of `vfov` degrees, an image
    /// `aspect_ratio` times as wide as high, a lens of diameter `aperture`,
    /// and the plane `focus_distance` away in focus.
    pub fn new(
        look_from: Vector,
        look_at: Vector,
        vup: Vector,
        vfov: Scalar,
        aspect_ratio: Scalar,
        aperture: Scalar,
        focus_distance: Scalar,
    ) -> (r: Camera)
        ensures
            r.w() == look_from.minus(look_at).unit_spec(),
            r.u() == vup.cross_spec(&r.w()).unit_spec(),
            r.v() == r.w().cross_spec(&r.u()),
            r.origin() == look_from,
            r.horizontal() == r.u().scaled(
                focus_distance.times(viewport_width(vfov, aspect_ratio)),
            ),
            r.vertical() == r.v().scaled(focus_distance.times(viewport_height(vfov))),
            r.lower_left_corner() == look_from.minus(
                r.horizontal().divided(Scalar::from_int(2)),
            ).minus(r.vertical().divided(Scalar::from_int(2))).minus(r.w().scaled(focus_distance)),
            r.lens_radius() == aperture.over(Scalar::from_int(2)),
            is_moderate(look_from.minus(look_at)) ==> fuzzy_equal_spec(
                r.w().len_spec(),
                Scalar::one(),
            ),
            is_moderate(vup.cross_spec(&r.w())) ==> fuzzy_equal_spec(
                r.u().len_spec(),
                Scalar::one(),
            ),
    {
        let theta = utils::degrees_to_radians(vfov);
        let h = (theta / Scalar::from_int(2)).tan();
        let viewport_height = Scalar::from_int(2) * h;
        let viewport_width = aspect_ratio * viewport_height;

        let w = (look_from - look_at).get_unit_vector();
        let u = (vup.cross(&w)).get_unit_vector();
        let v = w.cross(&u);

        let origin = look_from;
        let horizontal = focus_distance * viewport_width * u;
        let vertical = focus_distance * viewport_height * v;
        let lower_left_corner = origin - horizontal / Scalar::from_int(2) - vertical
            / Scalar::from_int(2) - focus_distance * w;

        let lens_radius = aperture / Scalar::from_int(2);

        Self { origin, horizontal, vertical, lower_left_corner, w, v, u, lens_radius }
    }

    pub open spec fn ray_through_spec(&self, s: Scalar, t: Scalar, lens_sample: Vector) -> Ray {
        let rd = lens_sample.scaled(self.lens_radius());
        let offset = self.u().scaled(rd.x()).plus(self.v().scaled(rd.y()));
        Ray {
            origin: self.origin().plus(offset),
            direction: self.lower_left_corner().plus(self.horizontal().scaled(s)).plus(
                self.vertical().scaled(t),
            ).minus(self.origin()).minus(offset),
        }
    }

    /// The ray toward the place `(s, t)` of the image, both in `[0, 1]`, that
    /// starts on the lens at the point that `lens_sample` stands for: the
    /// lens radius times the sample, along `u` and `v`.
    #[verifier::when_used_as_spec(ray_through_spec)]
    pub fn ray_through(&self, s: Scalar, t: Scalar, lens_sample: Vector) -> (r: Ray)
        ensures
            r == self.ray_through_spec(s, t, lens_sample),
    {
        let rd = self.lens_radius * lens_sample;
        let offset = self.u * rd.data.0 + self.v * rd.data.1;

        Ray::new(
            self.origin + offset,
            self.lower_left_corner + s * self.horizontal + t * self.vertical - self.origin
                - offset,
        )
    }

    /// The ray toward the place `(s, t)` of the image from a random point of
    /// the lens.
    pub fn get_ray(&self, s: Scalar, t: Scalar) -> (r: Ray)
        ensures
            exists|lens_sample: Vector|
                is_disk_sample(lens_sample) && r == #[trigger] self.ray_through_spec(
                    s,
                    t,
                    lens_sample,
                ),
    {
        let lens_sample = random_in_unit_disk();
        self.ray_through(s, t, lens_sample)
    }
}

/// A camera without a lens is a pinhole: its rays do not depend on the
/// sample of the lens.
pub proof fn lemma_pinhole_ignores_the_lens(
    camera: &Camera,
    s: Scalar,
    t: Scalar,
    first: Vector,
    second: Vector,
)
    requires
        camera.lens_radius() == Scalar::zero(),
    ensures
        camera.ray_through_spec(s, t, first) == camera.ray_through_spec(s, t, second),
{
    lemma_times_zero(first.x());
    lemma_times_zero(first.y());
    lemma_times_zero(second.x());
    lemma_times_zero(second.y());
}

} // verus!
