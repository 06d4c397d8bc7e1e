//! Surface materials: how each one scatters an incoming ray.

use crate::hit::HitRecord;
use crate::random::uniform;
use crate::ray::Ray;
use crate::scalar::{
    lemma_over_unit_interval, lemma_powi_unit_interval, lemma_square_unit_interval,
    lemma_times_below, lemma_times_zero, Scalar, SCALE,
};
use crate::vector::{Vector, VectorType};
use std::ops::Neg;
use vstd::prelude::*;

verus! {

/// A material decides what becomes of a ray that hits it: `None` where the
/// ray is absorbed, else the attenuation and the ray that leaves.
pub trait Scatterable {
    fn scatter(&self, ray: &Ray, hit_record: &HitRecord) -> Option<(Option<Ray>, Vector)>;
}

/// The materials that a surface can be made of.
#[derive(Clone, Copy)]
pub enum Material {
    Lambertian(Lambertian),
    Metal(Metal),
    Dielectric(Dielectric),
}

/// A number in `[0, 1)`.
pub open spec fn is_unit_draw(d: Scalar) -> bool {
    0 <= d.raw < SCALE
}

/// The colour that takes nothing from the light.
pub open spec fn white() -> Vector {
    Vector {
        data: (Scalar::one(), Scalar::one(), Scalar::one()),
        data_type: VectorType::Color,
    }
}

pub open spec fn reflect_spec(v: Vector, n: Vector) -> Vector {
    v.minus(n.scaled(Scalar::from_int(2).times(v.dot_spec(&n))))
}

/// The mirror image of `v` at a surface with normal `n`: `v - 2 (v . n) n`.
#[verifier::when_used_as_spec(reflect_spec)]
pub fn reflect(v: Vector, n: Vector) -> (r: Vector)
    ensures
        r == reflect_spec(v, n),
{
    v - n * (Scalar::from_int(2) * v.dot(&n))
}

pub open spec fn refract_spec(uv: Vector, n: Vector, etai_over_etat: Scalar) -> Vector {
    let cos_theta = uv.negated().dot_spec(&n).spec_min(Scalar::one());
    let r_out_perp = uv.plus(n.scaled(cos_theta)).scaled(etai_over_etat);
    let r_out_parallel = n.scaled(
        Scalar::from_int(-1i64).times(
            Scalar::one().minus(r_out_perp.length_squared_spec()).spec_abs().spec_sqrt(),
        ),
    );
    r_out_parallel.plus(r_out_perp)
}

/// Direction of the refracted ray by Snell's law, for a unit direction `uv`,
/// a normal `n` against it and the ratio of the refractive indices.
#[verifier::when_used_as_spec(refract_spec)]
pub fn refract(uv: Vector, n: Vector, etai_over_etat: Scalar) -> (r: Vector)
    ensures
        r == refract_spec(uv, n, etai_over_etat),
{
    let cos_theta = uv.neg().dot(&n).min(Scalar::one());
    let r_out_perp = (uv + n * cos_theta) * etai_over_etat;
    let r_out_parallel = n * (Scalar::from_int(-1) * (Scalar::one()
        - r_out_perp.length_squared()).abs().sqrt());
    r_out_parallel + r_out_perp
}

pub open spec fn reflectance_spec(cosine: Scalar, ref_idx: Scalar) -> Scalar {
    let r0 = Scalar::one().minus(ref_idx).over(Scalar::one().plus(ref_idx));
    let r0 = r0.times(r0);
    r0.plus(Scalar::one().minus(r0).times(Scalar::one().minus(cosine).spec_powi(5)))
}

/// Schlick's approximation of the share of light that a surface reflects:
/// `r0 + (1 - r0) (1 - cosine)^5` with `r0 = ((1 - ref_idx) / (1 + ref_idx))^2`.
#[verifier::when_used_as_spec(reflectance_spec)]
pub fn reflectance(cosine: Scalar, ref_idx: Scalar) -> (r: Scalar)
    ensures
        r == reflectance_spec(cosine, ref_idx),
        0 <= cosine.raw <= SCALE && ref_idx.raw > 0 ==> 0 <= r.raw <= SCALE,
{
    proof {
        if 0 <= cosine.raw <= SCALE && ref_idx.raw > 0 {
            lemma_reflectance_unit_interval(cosine, ref_idx);
        }
    }
    let r0 = (Scalar::one() - ref_idx) / (Scalar::one() + ref_idx);
    let r0 = r0 * r0;
    r0 + (Scalar::one() - r0) * (Scalar::one() - cosine).powi(5)
}

/// The share of light that is reflected lies in `[0, 1]`, for a cosine in
/// `[0, 1]` and a positive ratio of refractive indices.
pub proof fn lemma_reflectance_unit_interval(cosine: Scalar, ref_idx: Scalar)
    requires
        0 <= cosine.raw <= SCALE,
        ref_idx.raw > 0,
    ensures
        0 <= reflectance_spec(cosine, ref_idx).raw <= SCALE,
{
    let numerator = Scalar::one().minus(ref_idx);
    let denominator = Scalar::one().plus(ref_idx);
    lemma_over_unit_interval(numerator, denominator);
    let ratio = numerator.over(denominator);
    lemma_square_unit_interval(ratio);
    let r0 = ratio.times(ratio);
    let power = Scalar::one().minus(cosine).spec_powi(5);
    lemma_powi_unit_interval(Scalar::one().minus(cosine), 5);
    lemma_times_below(Scalar::one().minus(r0), power);
}

/// Glass and the like: reflects or refracts, never absorbs.
#[derive(Clone, Copy)]
pub struct Dielectric {
    ir: Scalar,
}

impl Dielectric {
    /// The index of refraction.
    pub closed spec fn index(&self) -> Scalar {
        self.ir
    }

    pub closed spec fn spec_new(ir: Scalar) -> Dielectric {
        Dielectric { ir }
    }

    /// A dielectric with the index of refraction `ir`.
    #[verifier::when_used_as_spec(spec_new)]
    pub fn new(ir: Scalar) -> (r: Dielectric)
        ensures
            r == Dielectric::spec_new(ir),
            r.index() == ir,
    {
        Self { ir }
    }

    /// What a new dielectric holds.
    pub proof fn lemma_new(ir: Scalar)
        ensures
            Dielectric::spec_new(ir).index() == ir,
    {
    }

    /// Whether the index of refraction is one that a material can have: a
    /// positive number.
    pub open spec fn is_valid(&self) -> bool {
        self.index().raw > 0
    }

    #[verifier::opaque]
    pub open spec fn scatter_with_spec(
        &self,
        r: &Ray,
        hit_record: &HitRecord,
        draw: Scalar,
    ) -> Option<(Option<Ray>, Vector)> {
        let refraction_ratio = if hit_record.front_face {
            Scalar::one().over(self.index())
        } else {
            self.index()
        };
        let unit_direction = r.direction.unit_spec();
        let cos_theta = unit_direction.negated().dot_spec(&hit_record.normal).spec_min(
            Scalar::one(),
        );
        let sin_theta = Scalar::one().minus(cos_theta.times(cos_theta)).spec_sqrt();
        let cannot_refract = refraction_ratio.times(sin_theta).raw > SCALE;
        let direction = if cannot_refract || reflectance_spec(cos_theta, refraction_ratio).raw
            > draw.raw {
            reflect_spec(unit_direction, hit_record.normal)
        } else {
            refract_spec(unit_direction, hit_record.normal, refraction_ratio)
        };
        Some((Some(Ray { origin: hit_record.point, direction }), white()))
    }

    /// What the material does with `r` at `hit_record` when the random number
    /// that decides between reflection and refraction is `draw`.
    pub fn scatter_with(&self, r: &Ray, hit_record: &HitRecord, draw: Scalar) -> (out: Option<
        (Option<Ray>, Vector),
    >)
        ensures
            out == self.scatter_with_spec(r, hit_record, draw),
    {
        reveal(Dielectric::scatter_with_spec);
        let attenuation = Vector::new(
            Scalar::one(),
            Scalar::one(),
            Scalar::one(),
            VectorType::Color,
        );
        let refraction_ratio = if hit_record.front_face {
            Scalar::one() / self.ir
        } else {
            self.ir
        };
        let unit_direction = r.direction.get_unit_vector();
        let cos_theta = unit_direction.neg().dot(&hit_record.normal).min(Scalar::one());
        let sin_theta = (Scalar::one() - cos_theta * cos_theta).sqrt();
        let cannot_refract = (refraction_ratio * sin_theta).raw > SCALE;
        if cannot_refract || reflectance(cos_theta, refraction_ratio).raw > draw.raw {
            let direction = reflect(unit_direction, hit_record.normal);
            let scattered = Ray::new(hit_record.point, direction);
            Some((Some(scattered), attenuation))
        } else {
            let direction = refract(unit_direction, hit_record.normal, refraction_ratio);
            let scattered = Ray::new(hit_record.point, direction);
            Some((Some(scattered), attenuation))
        }
    }
}

impl Scatterable for Dielectric {
    /// Scatters with a number drawn from `[0, 1)`.
    fn scatter(&self, r: &Ray, hit_record: &HitRecord) -> (out: Option<(Option<Ray>, Vector)>)
        ensures
            exists|draw: Scalar|
                is_unit_draw(draw) && out == #[trigger] self.scatter_with_spec(
                    r,
                    hit_record,
                    draw,
                ),
            out matches Some((Some(scattered), attenuation)) && scattered.origin
                == hit_record.point && attenuation == white(),
    {
        reveal(Dielectric::scatter_with_spec);
        let draw = uniform(Scalar::zero(), Scalar::one());
        self.scatter_with(r, hit_record, draw)
    }
}

/// A mirror, blurred by `fuzz`.
#[derive(Clone, Copy)]
pub struct Metal {
    albedo: Vector,
    fuzz: Scalar,
}

impl Metal {
    /// The fuzz is at most one.
    #[verifier::type_invariant]
    spec fn fuzz_is_capped(self) -> bool {
        self.fuzz.raw <= SCALE
    }

    /// The colour that the metal gives to what it reflects.
    pub closed spec fn albedo(&self) -> Vector {
        self.albedo
    }

    /// How far the reflection is blurred, as a share of the unit ball.
    pub closed spec fn fuzz(&self) -> Scalar {
        self.fuzz
    }

    /// The fuzz of the metal, which is at most one.
    pub fn roughness(&self) -> (f: Scalar)
        ensures
            f == self.fuzz(),
            f.raw <= SCALE,
    {
        proof {
            use_type_invariant(self);
        }
        self.fuzz
    }

    pub closed spec fn spec_new(albedo: Vector, fuzz: Scalar) -> Metal {
        Metal { albedo, fuzz: fuzz.spec_min(Scalar::one()) }
    }

    /// A metal of the given colour; a `fuzz` above one counts as one.
    #[verifier::when_used_as_spec(spec_new)]
    pub fn new(albedo: Vector, fuzz: Scalar) -> (r: Metal)
        ensures
            r == Metal::spec_new(albedo, fuzz),
            r.albedo() == albedo,
            r.fuzz() == fuzz.spec_min(Scalar::one()),
    {
        Self { albedo, fuzz: if fuzz.raw < SCALE { fuzz } else { Scalar::one() } }
    }

    /// What a new metal holds.
    pub proof fn lemma_new(albedo: Vector, fuzz: Scalar)
        ensures
            Metal::spec_new(albedo, fuzz).albedo() == albedo,
            Metal::spec_new(albedo, fuzz).fuzz() == fuzz.spec_min(Scalar::one()),
    {
    }

    #[verifier::opaque]
    pub open spec fn scatter_with_spec(
        &self,
        ray: &Ray,
        hit_record: &HitRecord,
        sample: Vector,
    ) -> Option<(Option<Ray>, Vector)> {
        let reflected = reflect_spec(ray.direction.unit_spec(), hit_record.normal);
        let direction = reflected.plus(sample.scaled(self.fuzz()));
        if direction.dot_spec(&hit_record.normal).raw > 0 {
            Some((Some(Ray { origin: hit_record.point, direction }), self.albedo()))
        } else {
            None
        }
    }

    /// What the material does with `ray` at `hit_record` when the point of
    /// the unit ball that blurs the reflection is `sample`: the ray is
    /// absorbed where the blurred reflection points into the surface.
    pub fn scatter_with(&self, ray: &Ray, hit_record: &HitRecord, sample: Vector) -> (out: Option<
        (Option<Ray>, Vector),
    >)
        ensures
            out == self.scatter_with_spec(ray, hit_record, sample),
    {
        reveal(Metal::scatter_with_spec);
        let reflected = reflect(ray.direction.get_unit_vector(), hit_record.normal);
        let scattered = Ray::new(hit_record.point, reflected + self.fuzz * sample);
        let attenuation = self.albedo;
        if scattered.direction.dot(&hit_record.normal).raw > 0 {
            Some((Some(scattered), attenuation))
        } else {
            None
        }
    }
}

/// A metal without fuzz reflects like a mirror: what it does with a ray does
/// not depend on the sample.
pub proof fn lemma_polished_metal_ignores_the_sample(
    metal: Metal,
    ray: &Ray,
    hit_record: &HitRecord,
    first: Vector,
    second: Vector,
)
    requires
        metal.fuzz() == Scalar::zero(),
    ensures
        metal.scatter_with_spec(ray, hit_record, first) == metal.scatter_with_spec(
            ray,
            hit_record,
            second,
        ),
{
    reveal(Metal::scatter_with_spec);
    lemma_times_zero(first.x());
    lemma_times_zero(first.y());
    lemma_times_zero(first.z());
    lemma_times_zero(second.x());
    lemma_times_zero(second.y());
    lemma_times_zero(second.z());
}

impl Scatterable for Metal {
    /// Scatters with a random point of the unit ball.
    fn scatter(&self, ray: &Ray, hit_record: &HitRecord) -> (out: Option<(Option<Ray>, Vector)>)
        ensures
            exists|sample: Vector|
                sample.is_ball_sample() && out == #[trigger] self.scatter_with_spec(
                    ray,
                    hit_record,
                    sample,
                ),
            match out {
                Some((scattered, attenuation)) => scattered matches Some(leaving)
                    && leaving.origin == hit_record.point && leaving.direction.dot_spec(
                    &hit_record.normal,
                ).raw > 0 && attenuation == self.albedo(),
                None => true,
            },
    {
        reveal(Metal::scatter_with_spec);
        let sample = Vector::random_in_unit_sphere();
        self.scatter_with(ray, hit_record, sample)
    }
}

/// An ideal diffuse surface.
#[derive(Clone, Copy)]
pub struct Lambertian {
    pub albedo: Vector,
}

impl Lambertian {
    pub open spec fn spec_new(albedo: Vector) -> Lambertian {
        Lambertian { albedo }
    }

    /// A diffuse surface of the colour `albedo`.
    #[verifier::when_used_as_spec(spec_new)]
    pub fn new(albedo: Vector) -> (r: Lambertian)
        ensures
            r == Lambertian::spec_new(albedo),
    {
        Self { albedo }
    }

    #[verifier::opaque]
    pub open spec fn scatter_with_spec(&self, hit_record: &HitRecord, sample: Vector) -> Option<
        (Option<Ray>, Vector),
    > {
        let direction = hit_record.normal.plus(sample);
        let direction = if direction.near_zero_spec() {
            hit_record.normal
        } else {
            direction
        };
        Some((Some(Ray { origin: hit_record.point, direction }), self.albedo))
    }

    /// What the material does at `hit_record` when the point of the unit ball
    /// added to the normal is `sample`: the ray always leaves, along the
    /// normal itself where the sum is near zero.
    pub fn scatter_with(&self, hit_record: &HitRecord, sample: Vector) -> (out: Option<
        (Option<Ray>, Vector),
    >)
        ensures
            out == self.scatter_with_spec(hit_record, sample),
    {
        reveal(Lambertian::scatter_with_spec);
        let mut scatter_direction = hit_record.normal + sample;
        if scatter_direction.near_zero() {
            scatter_direction = hit_record.normal;
        }
        let scattered = Ray::new(hit_record.point, scatter_direction);
        let attenuation = self.albedo;
        Some((Some(scattered), attenuation))
    }
}

impl Scatterable for Lambertian {
    /// Scatters with a random point of the unit ball.
    fn scatter(&self, _ray: &Ray, hit_record: &HitRecord) -> (out: Option<(Option<Ray>, Vector)>)
        ensures
            exists|sample: Vector|
                sample.is_ball_sample() && out == #[trigger] self.scatter_with_spec(
                    hit_record,
                    sample,
                ),
            out matches Some((Some(scattered), attenuation)) && scattered.origin
                == hit_record.point && attenuation == self.albedo,
    {
        reveal(Lambertian::scatter_with_spec);
        let sample = Vector::random_in_unit_sphere();
        self.scatter_with(hit_record, sample)
    }
}

/// The random values that one scattering may use: a point of the unit ball
/// and a number in `[0, 1)`. Each material reads the one that it needs.
#[derive(Clone, Copy, Debug)]
pub struct ScatterSample {
    pub point: Vector,
    pub draw: Scalar,
}

impl ScatterSample {
    /// Whether the values are ones that the random draws may return.
    pub open spec fn is_valid(self) -> bool {
        self.point.is_ball_sample() && is_unit_draw(self.draw)
    }

    /// A sample that is valid: the center of the ball, and zero.
    pub open spec fn origin() -> ScatterSample {
        ScatterSample {
            point: Vector {
                data: (Scalar::zero(), Scalar::zero(), Scalar::zero()),
                data_type: VectorType::Vector,
            },
            draw: Scalar::zero(),
        }
    }

    /// The sample at the center is one that the draws may return.
    pub proof fn lemma_origin_is_valid()
        ensures
            ScatterSample::origin().is_valid(),
    {
        lemma_times_zero(Scalar::zero());
    }
}

impl Material {
    /// Whether the material is one that a surface can be made of.
    pub open spec fn is_valid(&self) -> bool {
        match self {
            Material::Dielectric(d) => d.is_valid(),
            _ => true,
        }
    }

    pub open spec fn scatter_with_spec(
        &self,
        ray: &Ray,
        hit_record: &HitRecord,
        sample: ScatterSample,
    ) -> Option<(Option<Ray>, Vector)> {
        match self {
            Material::Lambertian(l) => l.scatter_with_spec(hit_record, sample.point),
            Material::Metal(m) => m.scatter_with_spec(ray, hit_record, sample.point),
            Material::Dielectric(d) => d.scatter_with_spec(ray, hit_record, sample.draw),
        }
    }

    /// What the material does with `ray` at `hit_record` when the random
    /// values that it may use are those of `sample`.
    pub fn scatter_with(&self, ray: &Ray, hit_record: &HitRecord, sample: ScatterSample) -> (out:
        Option<(Option<Ray>, Vector)>)
        ensures
            out == self.scatter_with_spec(ray, hit_record, sample),
    {
        match self {
            Material::Metal(m) => m.scatter_with(ray, hit_record, sample.point),
            Material::Lambertian(l) => l.scatter_with(hit_record, sample.point),
            Material::Dielectric(d) => d.scatter_with(ray, hit_record, sample.draw),
        }
    }

    /// Whether `out` is a result that scattering `ray` at `hit_record` can
    /// have, for some values that the random draws may return.
    pub open spec fn may_scatter(
        &self,
        ray: &Ray,
        hit_record: &HitRecord,
        out: Option<(Option<Ray>, Vector)>,
    ) -> bool {
        exists|sample: ScatterSample|
            sample.is_valid() && out == #[trigger] self.scatter_with_spec(ray, hit_record, sample)
    }
}

impl Scatterable for Material {
    /// Scatters as the material that the variant holds, which draws the
    /// random values that it needs.
    fn scatter(&self, ray: &Ray, hit_record: &HitRecord) -> (out: Option<(Option<Ray>, Vector)>)
        ensures
            self.may_scatter(ray, hit_record, out),
    {
        proof {
            ScatterSample::lemma_origin_is_valid();
        }
        match self {
            Material::Metal(m) => {
                let out = m.scatter(ray, hit_record);
                proof {
                    let point = choose|sample: Vector|
                        sample.is_ball_sample() && out == #[trigger] m.scatter_with_spec(
                            ray,
                            hit_record,
                            sample,
                        );
                    let sample = ScatterSample { point, draw: Scalar::zero() };
                    assert(sample.is_valid() && out == self.scatter_with_spec(
                        ray,
                        hit_record,
                        sample,
                    ));
                }
                out
            },
            Material::Lambertian(l) => {
                let out = l.scatter(ray, hit_record);
                proof {
                    let point = choose|sample: Vector|
                        sample.is_ball_sample() && out == #[trigger] l.scatter_with_spec(
                            hit_record,
                            sample,
                        );
                    let sample = ScatterSample { point, draw: Scalar::zero() };
                    assert(sample.is_valid() && out == self.scatter_with_spec(
                        ray,
                        hit_record,
                        sample,
                    ));
                }
                out
            },
            Material::Dielectric(d) => {
                let out = d.scatter(ray, hit_record);
                proof {
                    let draw = choose|draw: Scalar|
                        is_unit_draw(draw) && out == #[trigger] d.scatter_with_spec(
                            ray,
                            hit_record,
                            draw,
                        );
                    let sample = ScatterSample { point: ScatterSample::origin().point, draw };
                    assert(sample.is_valid() && out == self.scatter_with_spec(
                        ray,
                        hit_record,
                        sample,
                    ));
                }
                out
            },
        }
    }
}

} // verus!
