//! Spheres, and the nearest hit among a list of them.

use crate::hit::{HitRecord, Hittable};
use crate::material::Material;
use crate::ray::Ray;
use crate::rounding::{
    equation_discriminant, equation_root, is_moderate_hit, is_near_radius,
    lemma_length_of_opposite, lemma_quotient_by_radius_length, lemma_root_point_near_radius,
};
use crate::scalar::{lemma_over_monotonic, lemma_results_in_range, lemma_sqrt_bounds, Scalar};
use crate::vector::{
    fuzzy_equal_spec, lemma_dot_negated, lemma_length_squared_not_negative, Vector,
};
use std::ops::Neg;
use vstd::prelude::*;

verus! {

/// A sphere and what it is made of.
pub struct Sphere {
    center: Vector,
    radius: Scalar,
    material: Material,
}

/// Whether `t` lies in `[t_min, t_max]`.
pub open spec fn in_interval(t: Scalar, t_min: Scalar, t_max: Scalar) -> bool {
    t_min.raw <= t.raw <= t_max.raw
}

impl Sphere {
    /// The center of the sphere.
    pub closed spec fn center(&self) -> Vector {
        self.center
    }

    /// The radius of the sphere.
    pub closed spec fn radius(&self) -> Scalar {
        self.radius
    }

    /// What the sphere is made of.
    pub closed spec fn material(&self) -> Material {
        self.material
    }

    pub closed spec fn spec_new(center: Vector, radius: Scalar, material: Material) -> Sphere {
        Sphere { center, radius, material }
    }

    /// The sphere around `center` with the given radius and material.
    #[verifier::when_used_as_spec(spec_new)]
    pub fn new(center: Vector, radius: Scalar, material: Material) -> (r: Sphere)
        ensures
            r == Sphere::spec_new(center, radius, material),
            r.center() == center,
            r.radius() == radius,
            r.material() == material,
    {
        Self { center, radius, material }
    }

    /// What a new sphere holds.
    pub proof fn lemma_new(center: Vector, radius: Scalar, material: Material)
        ensures
            Sphere::spec_new(center, radius, material).center() == center,
            Sphere::spec_new(center, radius, material).radius() == radius,
            Sphere::spec_new(center, radius, material).material() == material,
    {
    }

    /// Whether the sphere is one that a scene can hold: its radius is
    /// positive and its material valid.
    pub open spec fn is_valid(&self) -> bool {
        self.radius().raw > 0 && self.material().is_valid()
    }

    /// A quarter of the discriminant of the equation `|r.at(t) - center|^2 =
    /// radius^2` in `t`.
    pub open spec fn discriminant(&self, r: &Ray) -> Scalar {
        let oc = r.origin.minus(self.center());
        let a = r.direction.length_squared_spec();
        let half_b = oc.dot_spec(&r.direction);
        let c = oc.length_squared_spec().minus(self.radius().times(self.radius()));
        half_b.times(half_b).minus(a.times(c))
    }

    /// The smaller root of the equation, for a discriminant that is not
    /// negative.
    pub open spec fn near_root(&self, r: &Ray) -> Scalar {
        let oc = r.origin.minus(self.center());
        let a = r.direction.length_squared_spec();
        let half_b = oc.dot_spec(&r.direction);
        half_b.negated().minus(self.discriminant(r).spec_sqrt()).over(a)
    }

    /// The larger root of the equation, for a discriminant that is not
    /// negative.
    pub open spec fn far_root(&self, r: &Ray) -> Scalar {
        let oc = r.origin.minus(self.center());
        let a = r.direction.length_squared_spec();
        let half_b = oc.dot_spec(&r.direction);
        half_b.negated().plus(self.discriminant(r).spec_sqrt()).over(a)
    }

    /// The normal at `point` that points away from the center.
    pub open spec fn outward_normal(&self, point: Vector) -> Vector {
        point.minus(self.center()).divided(self.radius())
    }

    /// The record of the intersection at parameter `t`.
    pub open spec fn record_at(&self, r: &Ray, t: Scalar) -> HitRecord {
        let point = r.at_spec(t);
        let normal = self.outward_normal(point);
        let front_face = r.direction.dot_spec(&normal).raw < 0;
        HitRecord {
            t,
            point,
            normal: if front_face {
                normal
            } else {
                normal.negated()
            },
            material: &self.material(),
            front_face,
        }
    }

    /// The intersection that `hit` returns: at the smaller root where that
    /// lies in `[t_min, t_max]`, else at the larger root where that does.
    #[verifier::opaque]
    pub open spec fn hit_spec(&self, r: &Ray, t_min: Scalar, t_max: Scalar) -> Option<HitRecord> {
        if self.discriminant(r).raw < 0 {
            None
        } else if in_interval(self.near_root(r), t_min, t_max) {
            Some(self.record_at(r, self.near_root(r)))
        } else if in_interval(self.far_root(r), t_min, t_max) {
            Some(self.record_at(r, self.far_root(r)))
        } else {
            None
        }
    }

    /// The smaller root is not above the larger one.
    pub proof fn lemma_roots_ordered(&self, r: &Ray)
        ensures
            self.near_root(r).raw <= self.far_root(r).raw,
    {
        let oc = r.origin.minus(self.center());
        let a = r.direction.length_squared_spec();
        let half_b = oc.dot_spec(&r.direction);
        let root = self.discriminant(r).spec_sqrt();
        lemma_sqrt_bounds(self.discriminant(r));
        lemma_length_squared_not_negative(r.direction);
        lemma_over_monotonic(half_b.negated().minus(root), half_b.negated().plus(root), a);
    }

    /// Under a smaller upper bound the intersection is the same one, where it
    /// still fits, and none where it does not.
    pub proof fn lemma_hit_narrowed(&self, r: &Ray, t_min: Scalar, t_max: Scalar, bound: Scalar)
        requires
            bound.raw <= t_max.raw,
        ensures
            self.hit_spec(r, t_min, bound) == match self.hit_spec(r, t_min, t_max) {
                Some(h) => if h.t.raw <= bound.raw {
                    Some(h)
                } else {
                    None
                },
                None => None,
            },
    {
        reveal(Sphere::hit_spec);
        self.lemma_roots_ordered(r);
    }

    /// What an intersection record holds.
    pub proof fn lemma_hit_record(&self, r: &Ray, t_min: Scalar, t_max: Scalar)
        ensures
            match self.hit_spec(r, t_min, t_max) {
                Some(h) => {
                    &&& in_interval(h.t, t_min, t_max)
                    &&& h.t == self.near_root(r) || h.t == self.far_root(r)
                    &&& h.point == r.at_spec(h.t)
                    &&& h.front_face == (r.direction.dot_spec(&self.outward_normal(h.point)).raw
                        < 0)
                    &&& h.normal == if h.front_face {
                        self.outward_normal(h.point)
                    } else {
                        self.outward_normal(h.point).negated()
                    }
                    &&& r.direction.dot_spec(&h.normal).raw <= 0
                    &&& *h.material == self.material()
                },
                None => {
                    ||| self.discriminant(r).raw < 0
                    ||| (!in_interval(self.near_root(r), t_min, t_max) && !in_interval(
                        self.far_root(r),
                        t_min,
                        t_max,
                    ))
                },
            },
    {
        reveal(Sphere::hit_spec);
        match self.hit_spec(r, t_min, t_max) {
            Some(h) => {
                let outward = self.outward_normal(h.point);
                let offset = h.point.minus(self.center());
                lemma_results_in_range(offset.x(), self.radius());
                lemma_results_in_range(offset.y(), self.radius());
                lemma_results_in_range(offset.z(), self.radius());
                lemma_dot_negated(r.direction, outward);
            },
            None => {},
        }
    }
}

impl Sphere {
    /// The normal of an intersection is one long, up to rounding, wherever
    /// the hit point is about one radius away from the center.
    pub proof fn lemma_hit_normal_length(&self, r: &Ray, t_min: Scalar, t_max: Scalar)
        requires
            self.hit_spec(r, t_min, t_max) matches Some(h) && is_near_radius(
                h.point.minus(self.center()),
                self.radius(),
            ),
        ensures
            self.hit_spec(r, t_min, t_max) matches Some(h) && fuzzy_equal_spec(
                h.normal.len_spec(),
                Scalar::one(),
            ),
    {
        self.lemma_hit_record(r, t_min, t_max);
        let h = self.hit_spec(r, t_min, t_max).unwrap();
        let offset = h.point.minus(self.center());
        let outward = self.outward_normal(h.point);
        lemma_quotient_by_radius_length(offset, self.radius());
        lemma_results_in_range(offset.x(), self.radius());
        lemma_results_in_range(offset.y(), self.radius());
        lemma_results_in_range(offset.z(), self.radius());
        lemma_length_of_opposite(outward);
    }

    /// Where a ray and a sphere of moderate size meet at a moderate
    /// parameter, the hit point lies about one radius from the center, and
    /// the normal is one long, up to rounding.
    pub proof fn lemma_hit_point_on_sphere(&self, r: &Ray, t_min: Scalar, t_max: Scalar)
        requires
            self.hit_spec(r, t_min, t_max) matches Some(h) && is_moderate_hit(
                r.origin,
                self.center(),
                r.direction,
                self.radius(),
                h.t,
            ),
        ensures
            self.hit_spec(r, t_min, t_max) matches Some(h) && is_near_radius(
                h.point.minus(self.center()),
                self.radius(),
            ) && fuzzy_equal_spec(h.normal.len_spec(), Scalar::one()),
    {
        self.lemma_hit_record(r, t_min, t_max);
        let h = self.hit_spec(r, t_min, t_max).unwrap();
        let oc = r.origin.minus(self.center());
        assert(self.discriminant(r) == equation_discriminant(oc, r.direction, self.radius()));
        assert(self.near_root(r) == equation_root(oc, r.direction, self.radius(), false));
        assert(self.far_root(r) == equation_root(oc, r.direction, self.radius(), true));
        assert(self.discriminant(r).raw >= 0) by {
            reveal(Sphere::hit_spec);
        }
        if h.t == self.near_root(r) {
            lemma_root_point_near_radius(
                r.origin,
                self.center(),
                r.direction,
                self.radius(),
                false,
            );
        } else {
            lemma_root_point_near_radius(r.origin, self.center(), r.direction, self.radius(), true);
        }
        assert(h.point == r.origin.plus(r.direction.scaled(h.t)));
        self.lemma_hit_normal_length(r, t_min, t_max);
    }
}

impl Hittable for Sphere {
    /// Solves the equation of the sphere along the ray and keeps the nearest
    /// root in `[t_min, t_max]`.
    fn hit(&self, r: &Ray, t_min: Scalar, t_max: Scalar) -> (out: Option<HitRecord>)
        ensures
            out == self.hit_spec(r, t_min, t_max),
            match out {
                Some(h) => {
                    &&& in_interval(h.t, t_min, t_max)
                    &&& h.point == r.at_spec(h.t)
                    &&& r.direction.dot_spec(&h.normal).raw <= 0
                    &&& *h.material == self.material()
                    &&& is_near_radius(h.point.minus(self.center()), self.radius())
                        ==> fuzzy_equal_spec(h.normal.len_spec(), Scalar::one())
                    &&& is_moderate_hit(r.origin, self.center(), r.direction, self.radius(), h.t)
                        ==> is_near_radius(h.point.minus(self.center()), self.radius())
                },
                None => true,
            },
    {
        reveal(Sphere::hit_spec);
        proof {
            self.lemma_hit_record(r, t_min, t_max);
            if self.hit_spec(r, t_min, t_max) matches Some(h) && is_near_radius(
                h.point.minus(self.center()),
                self.radius(),
            ) {
                self.lemma_hit_normal_length(r, t_min, t_max);
            }
            if self.hit_spec(r, t_min, t_max) matches Some(h) && is_moderate_hit(
                r.origin,
                self.center(),
                r.direction,
                self.radius(),
                h.t,
            ) {
                self.lemma_hit_point_on_sphere(r, t_min, t_max);
            }
        }
        let oc = r.origin - self.center;
        let a = r.direction.length_squared();
        let half_b = oc.dot(&r.direction);
        let c = oc.length_squared() - self.radius * self.radius;

        let discriminant = half_b * half_b - a * c;

        if discriminant.raw < 0 {
            return None;
        }
        let discriminant_sqrt = discriminant.sqrt();

        let mut root = (half_b.neg() - discriminant_sqrt) / a;

        if root.raw < t_min.raw || t_max.raw < root.raw {
            root = (half_b.neg() + discriminant_sqrt) / a;

            if root.raw < t_min.raw || t_max.raw < root.raw {
                return None;
            }
        }
        let point = r.at(root);
        let normal = (point - self.center) / self.radius;
        let front_face = r.direction.dot(&normal).raw < 0;

        Some(
            HitRecord {
                t: root,
                point,
                normal: if front_face {
                    normal
                } else {
                    normal.neg()
                },
                material: &self.material,
                front_face,
            },
        )
    }
}

/// The nearest intersection among the first spheres of a list, taken one
/// after the other: each sphere is asked for an intersection no farther than
/// the nearest one so far.
pub open spec fn hit_world_spec(
    world: Seq<Sphere>,
    r: &Ray,
    t_min: Scalar,
    t_max: Scalar,
) -> Option<HitRecord>
    decreases world.len(),
{
    if world.len() == 0 {
        None
    } else {
        let before = hit_world_spec(world.drop_last(), r, t_min, t_max);
        let closest_so_far = match before {
            Some(h) => h.t,
            None => t_max,
        };
        match world.last().hit_spec(r, t_min, closest_so_far) {
            Some(h) => Some(h),
            None => before,
        }
    }
}

/// The scan finds nothing exactly where no sphere is hit within the bounds.
/// What it finds is the intersection of one of the spheres within the bounds,
/// and no sphere is hit nearer, whatever the order of the list.
pub proof fn lemma_hit_world_nearest(world: Seq<Sphere>, r: &Ray, t_min: Scalar, t_max: Scalar)
    ensures
        match hit_world_spec(world, r, t_min, t_max) {
            Some(h) => {
                &&& exists|i: int|
                    0 <= i < world.len() && #[trigger] world[i].hit_spec(r, t_min, t_max) == Some(
                        h,
                    )
                &&& forall|j: int|
                    0 <= j < world.len() ==> match #[trigger] world[j].hit_spec(r, t_min, t_max) {
                        Some(g) => h.t.raw <= g.t.raw,
                        None => true,
                    }
            },
            None => forall|j: int|
                0 <= j < world.len() ==> #[trigger] world[j].hit_spec(r, t_min, t_max) is None,
        },
    decreases world.len(),
{
    if world.len() > 0 {
        let front = world.drop_last();
        let last = world.last();
        lemma_hit_world_nearest(front, r, t_min, t_max);
        let before = hit_world_spec(front, r, t_min, t_max);
        assert forall|j: int| 0 <= j < front.len() implies front[j] == world[j] by {}
        last.lemma_hit_record(r, t_min, t_max);
        match before {
            Some(b) => {
                let i = choose|i: int|
                    0 <= i < front.len() && #[trigger] front[i].hit_spec(r, t_min, t_max) == Some(
                        b,
                    );
                front[i].lemma_hit_record(r, t_min, t_max);
                last.lemma_hit_narrowed(r, t_min, t_max, b.t);
                match last.hit_spec(r, t_min, b.t) {
                    Some(h) => {
                        assert(world[world.len() - 1].hit_spec(r, t_min, t_max) == Some(h));
                    },
                    None => {
                        assert(world[i].hit_spec(r, t_min, t_max) == Some(b));
                    },
                }
            },
            None => {
                match last.hit_spec(r, t_min, t_max) {
                    Some(h) => {
                        assert(world[world.len() - 1].hit_spec(r, t_min, t_max) == Some(h));
                    },
                    None => {},
                }
            },
        }
    }
}

/// Two lists that hold the same spheres, in whatever order, are hit at the
/// same parameter, or both not at all.
pub proof fn lemma_hit_world_any_order(
    first: Seq<Sphere>,
    second: Seq<Sphere>,
    r: &Ray,
    t_min: Scalar,
    t_max: Scalar,
)
    requires
        forall|i: int| 0 <= i < first.len() ==> second.contains(#[trigger] first[i]),
        forall|j: int| 0 <= j < second.len() ==> first.contains(#[trigger] second[j]),
    ensures
        match (hit_world_spec(first, r, t_min, t_max), hit_world_spec(second, r, t_min, t_max)) {
            (Some(h), Some(g)) => h.t == g.t,
            (None, None) => true,
            _ => false,
        },
{
    lemma_hit_world_nearest(first, r, t_min, t_max);
    lemma_hit_world_nearest(second, r, t_min, t_max);
    match hit_world_spec(first, r, t_min, t_max) {
        Some(h) => {
            let i = choose|i: int|
                0 <= i < first.len() && #[trigger] first[i].hit_spec(r, t_min, t_max) == Some(h);
            assert(second.contains(first[i]));
            let j = choose|j: int| 0 <= j < second.len() && second[j] == first[i];
            assert(second[j].hit_spec(r, t_min, t_max) == Some(h));
        },
        None => {},
    }
    match hit_world_spec(second, r, t_min, t_max) {
        Some(g) => {
            let j = choose|j: int|
                0 <= j < second.len() && #[trigger] second[j].hit_spec(r, t_min, t_max) == Some(
                    g,
                );
            assert(first.contains(second[j]));
            let i = choose|i: int| 0 <= i < first.len() && first[i] == second[j];
            assert(first[i].hit_spec(r, t_min, t_max) == Some(g));
        },
        None => {},
    }
}

/// The nearest intersection of `r` with any sphere of `world` whose parameter
/// lies in `[t_min, t_max]`; among equally near ones, that of the last sphere.
pub fn hit_world<'material>(
    world: &'material Vec<Sphere>,
    r: &Ray,
    t_min: Scalar,
    t_max: Scalar,
) -> (out: Option<HitRecord<'material>>)
    ensures
        out == hit_world_spec(world@, r, t_min, t_max),
        match out {
            Some(h) => {
                &&& exists|i: int|
                    0 <= i < world.len() && #[trigger] world[i].hit_spec(r, t_min, t_max) == Some(
                        h,
                    )
                &&& forall|j: int|
                    0 <= j < world.len() ==> match #[trigger] world[j].hit_spec(r, t_min, t_max) {
                        Some(g) => h.t.raw <= g.t.raw,
                        None => true,
                    }
            },
            None => forall|j: int|
                0 <= j < world.len() ==> #[trigger] world[j].hit_spec(r, t_min, t_max) is None,
        },
{
    let mut closest_so_far = t_max;
    let mut hit_record: Option<HitRecord<'material>> = None;
    let mut i: usize = 0;
    while i < world.len()
        invariant
            i <= world.len(),
            hit_record == hit_world_spec(world@.take(i as int), r, t_min, t_max),
            closest_so_far == match hit_record {
                Some(h) => h.t,
                None => t_max,
            },
        decreases world.len() - i,
    {
        proof {
            assert(world@.take(i + 1).drop_last() =~= world@.take(i as int));
        }
        if let Some(hit) = world[i].hit(r, t_min, closest_so_far) {
            closest_so_far = hit.t;
            hit_record = Some(hit);
        }
        i = i + 1;
    }
    proof {
        assert(world@.take(world.len() as int) =~= world@);
        lemma_hit_world_nearest(world@, r, t_min, t_max);
    }
    hit_record
}

} // verus!
