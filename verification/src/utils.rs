//! The colour that a ray brings back, and small helpers.

use crate::material::{ScatterSample, Scatterable};
use crate::random::uniform;
use crate::ray::Ray;
use crate::scalar::{lemma_times_one, lemma_times_zero, Scalar, LIMIT, SCALE};
use crate::sphere::{hit_world, hit_world_spec, Sphere};
use crate::vector::{Vector, VectorType};
use vstd::prelude::*;

verus! {

/// Raw value of the nearest parameter at which a hit counts: 0.0001. Nearer
/// ones would let a ray hit the surface that it has just left.
pub const T_MIN: i64 = 100_000;

/// Raw value of pi, rounded to the nearest raw unit.
pub const PI: i64 = 3_141_592_654;

/// The colour of no light.
pub open spec fn black() -> Vector {
    Vector {
        data: (Scalar::zero(), Scalar::zero(), Scalar::zero()),
        data_type: VectorType::Color,
    }
}

#[verifier::opaque]
pub open spec fn sky_spec(r: &Ray) -> Vector {
    let unit_direction = r.direction.unit_spec();
    let t = Scalar::from_raw(500_000_000).times(unit_direction.y().plus(Scalar::one()));
    Vector::new(Scalar::one(), Scalar::one(), Scalar::one(), VectorType::Color).scaled(
        Scalar::one().minus(t),
    ).plus(
        Vector::new(
            Scalar::from_raw(500_000_000),
            Scalar::from_raw(700_000_000),
            Scalar::one(),
            VectorType::Color,
        ).scaled(t),
    )
}

/// The background behind the scene: white blended into sky blue
/// `(0.5, 0.7, 1.0)` by `t = 0.5 (y + 1)`, for the `y` of the unit direction.
#[verifier::when_used_as_spec(sky_spec)]
pub fn sky(r: &Ray) -> (color: Vector)
    ensures
        color == sky_spec(r),
{
    reveal(sky_spec);
    let unit_direction = r.direction.get_unit_vector();
    let t = Scalar::from_raw(500_000_000) * (unit_direction.data.1 + Scalar::one());
    (Scalar::one() - t) * Vector::new(
        Scalar::one(),
        Scalar::one(),
        Scalar::one(),
        VectorType::Color,
    ) + t * Vector::new(
        Scalar::from_raw(500_000_000),
        Scalar::from_raw(700_000_000),
        Scalar::one(),
        VectorType::Color,
    )
}

/// Straight down the background is white, straight up it is sky blue.
pub proof fn lemma_sky_extremes(r: &Ray)
    ensures
        r.direction.unit_spec().y().raw == -SCALE ==> sky_spec(r) == Vector::new(
            Scalar::one(),
            Scalar::one(),
            Scalar::one(),
            VectorType::Color,
        ),
        r.direction.unit_spec().y().raw == SCALE ==> sky_spec(r) == Vector::new(
            Scalar::from_raw(500_000_000),
            Scalar::from_raw(700_000_000),
            Scalar::one(),
            VectorType::Color,
        ),
{
    reveal(sky_spec);
    let y = r.direction.unit_spec().y();
    let half = Scalar::from_raw(500_000_000);
    let t = half.times(y.plus(Scalar::one()));
    lemma_times_one(Scalar::one());
    lemma_times_one(half);
    lemma_times_one(Scalar::from_raw(700_000_000));
    lemma_times_zero(Scalar::one());
    lemma_times_zero(half);
    lemma_times_zero(Scalar::from_raw(700_000_000));
    if y.raw == -SCALE {
        assert(y.plus(Scalar::one()) == Scalar::zero());
        assert(t == Scalar::zero());
    }
    if y.raw == SCALE {
        assert(y.plus(Scalar::one()) == Scalar::from_raw(2_000_000_000));
        assert(500_000_000int * 2_000_000_000int == 1_000_000_000int * 1_000_000_000int);
        assert(t == Scalar::one());
    }
}

/// The colour that comes back along `r` after at most `depth` scatterings,
/// when the `k`-th scattering uses the `k`-th of `samples`: black with no
/// scattering left, the background where nothing is hit, black where the
/// material absorbs the ray or the samples have run out, and else the
/// attenuation times what comes back along the scattered ray.
pub open spec fn trace_spec(
    r: Ray,
    world: Seq<Sphere>,
    depth: nat,
    samples: Seq<ScatterSample>,
) -> Vector
    decreases depth,
{
    if depth == 0 {
        black()
    } else {
        match hit_world_spec(world, &r, Scalar::from_raw(T_MIN), Scalar::from_raw(LIMIT)) {
            Some(hit_record) => if samples.len() == 0 {
                black()
            } else {
                match hit_record.material.scatter_with_spec(&r, &hit_record, samples.first()) {
                    Some((Some(scattered), albedo)) => albedo.times(
                        trace_spec(scattered, world, (depth - 1) as nat, samples.drop_first()),
                    ),
                    Some((None, albedo)) => albedo,
                    None => black(),
                }
            },
            None => sky_spec(&r),
        }
    }
}

/// Whether `samples` holds `depth` samples that the random draws may return.
pub open spec fn is_tape(samples: Seq<ScatterSample>, depth: nat) -> bool {
    samples.len() == depth && forall|i: int|
        0 <= i < samples.len() ==> (#[trigger] samples[i]).is_valid()
}

fn trace_from(
    r: &Ray,
    world: &Vec<Sphere>,
    depth: u64,
    samples: &Vec<ScatterSample>,
    next: usize,
) -> (color: Vector)
    requires
        next <= samples.len(),
    ensures
        color == trace_spec(*r, world@, depth as nat, samples@.skip(next as int)),
    decreases depth,
{
    if depth == 0 {
        return Vector::new(Scalar::zero(), Scalar::zero(), Scalar::zero(), VectorType::Color);
    }
    match hit_world(world, r, Scalar::from_raw(T_MIN), Scalar::from_raw(LIMIT)) {
        Some(hit_record) => {
            if next >= samples.len() {
                return Vector::new(
                    Scalar::zero(),
                    Scalar::zero(),
                    Scalar::zero(),
                    VectorType::Color,
                );
            }
            proof {
                assert(samples@.skip(next as int).first() == samples[next as int]);
                assert(samples@.skip(next as int).drop_first() =~= samples@.skip(next + 1));
            }
            match hit_record.material.scatter_with(r, &hit_record, samples[next]) {
                Some((scattered_ray, albedo)) => match scattered_ray {
                    Some(sr) => albedo * trace_from(&sr, world, depth - 1, samples, next + 1),
                    None => albedo,
                },
                None => Vector::new(
                    Scalar::zero(),
                    Scalar::zero(),
                    Scalar::zero(),
                    VectorType::Color,
                ),
            }
        },
        None => sky(r),
    }
}

/// The colour that comes back along `r` from the scene `world` after at most
/// `depth` scatterings, the `k`-th of which uses the `k`-th of `samples` in
/// place of random draws.
pub fn trace(
    r: &Ray,
    world: &Vec<Sphere>,
    depth: u64,
    samples: &Vec<ScatterSample>,
) -> (color: Vector)
    ensures
        color == trace_spec(*r, world@, depth as nat, samples@),
{
    proof {
        assert(samples@.skip(0) =~= samples@);
    }
    trace_from(r, world, depth, samples, 0)
}

/// The colour that comes back along `r` from the scene `world`, following the
/// ray through at most `depth` scatterings, each with random draws of its
/// own. It is the colour that `trace` returns for some samples that the
/// draws may return.
pub fn ray_color(r: &Ray, world: &Vec<Sphere>, depth: u64) -> (color: Vector)
    ensures
        exists|samples: Seq<ScatterSample>|
            is_tape(samples, depth as nat) && color == #[trigger] trace_spec(
                *r,
                world@,
                depth as nat,
                samples,
            ),
        depth == 0 ==> color == black(),
        depth > 0 && hit_world_spec(world@, r, Scalar::from_raw(T_MIN), Scalar::from_raw(LIMIT))
            is None ==> color == sky_spec(r),
        depth > 0 && world.len() == 0 ==> color == sky_spec(r),
    decreases depth,
{
    let ghost padding = Seq::new(depth as nat, |i: int| ScatterSample::origin());
    proof {
        ScatterSample::lemma_origin_is_valid();
        assert(is_tape(padding, depth as nat));
    }
    if depth == 0 {
        let color = Vector::new(Scalar::zero(), Scalar::zero(), Scalar::zero(), VectorType::Color);
        assert(color == trace_spec(*r, world@, depth as nat, padding));
        return color;
    }
    let ghost found = hit_world_spec(
        world@,
        r,
        Scalar::from_raw(T_MIN),
        Scalar::from_raw(LIMIT),
    );
    proof {
        if world.len() == 0 {
            assert(found is None);
        }
    }
    match hit_world(world, r, Scalar::from_raw(T_MIN), Scalar::from_raw(LIMIT)) {
        Some(hit_record) => {
            let scattered = hit_record.material.scatter(r, &hit_record);
            let ghost sample = choose|sample: ScatterSample|
                sample.is_valid() && scattered == #[trigger] hit_record.material.scatter_with_spec(
                    r,
                    &hit_record,
                    sample,
                );
            match scattered {
                Some((scattered_ray, albedo)) => match scattered_ray {
                    Some(sr) => {
                        let inner = ray_color(&sr, world, depth - 1);
                        let color = albedo * inner;
                        proof {
                            let rest = choose|samples: Seq<ScatterSample>|
                                is_tape(samples, (depth - 1) as nat) && inner
                                    == #[trigger] trace_spec(
                                    sr,
                                    world@,
                                    (depth - 1) as nat,
                                    samples,
                                );
                            let samples = seq![sample] + rest;
                            assert(samples.first() == sample);
                            assert(samples.drop_first() =~= rest);
                            assert(is_tape(samples, depth as nat));
                            assert(color == trace_spec(*r, world@, depth as nat, samples));
                        }
                        color
                    },
                    None => {
                        proof {
                            let samples = padding.update(0, sample);
                            assert(is_tape(samples, depth as nat));
                            assert(albedo == trace_spec(*r, world@, depth as nat, samples));
                        }
                        albedo
                    },
                },
                None => {
                    let color = Vector::new(
                        Scalar::zero(),
                        Scalar::zero(),
                        Scalar::zero(),
                        VectorType::Color,
                    );
                    proof {
                        let samples = padding.update(0, sample);
                        assert(is_tape(samples, depth as nat));
                        assert(color == trace_spec(*r, world@, depth as nat, samples));
                    }
                    color
                },
            }
        },
        None => {
            let color = sky(r);
            assert(color == trace_spec(*r, world@, depth as nat, padding));
            color
        },
    }
}

pub open spec fn clamp_spec(x: Scalar, min: Scalar, max: Scalar) -> Scalar {
    if x.raw < min.raw {
        min
    } else if x.raw > max.raw {
        max
    } else {
        x
    }
}

/// `x` where it lies between `min` and `max`, else the bound that it is
/// beyond.
#[verifier::when_used_as_spec(clamp_spec)]
pub fn clamp(x: Scalar, min: Scalar, max: Scalar) -> (r: Scalar)
    ensures
        r == clamp_spec(x, min, max),
{
    if x.raw < min.raw {
        return min;
    }
    if x.raw > max.raw {
        return max;
    }
    x
}

pub open spec fn degrees_to_radians_spec(degree: Scalar) -> Scalar {
    degree.times(Scalar::from_raw(PI)).over(Scalar::from_int(180))
}

/// The angle in radians: `degree * pi / 180`.
#[verifier::when_used_as_spec(degrees_to_radians_spec)]
pub fn degrees_to_radians(degree: Scalar) -> (r: Scalar)
    ensures
        r == degrees_to_radians_spec(degree),
{
    degree * Scalar::from_raw(PI) / Scalar::from_int(180)
}

/// A point that one draw from the square around the unit disk may give: in
/// the plane `z = 0`, with `x` and `y` in `[-1, 1)`.
pub open spec fn is_square_draw(p: Vector) -> bool {
    &&& -SCALE <= p.x().raw < SCALE
    &&& -SCALE <= p.y().raw < SCALE
    &&& p.z() == Scalar::zero()
    &&& p.data_type == VectorType::Point
}

/// Strictly inside the disk of radius one.
pub open spec fn in_unit_disk(p: Vector) -> bool {
    p.length_squared_spec().raw < SCALE
}

/// A point that `random_in_unit_disk` may return.
pub open spec fn is_disk_sample(p: Vector) -> bool {
    in_unit_disk(p) && is_square_draw(p)
}

/// The center of the disk.
pub open spec fn disk_center() -> Vector {
    Vector {
        data: (Scalar::zero(), Scalar::zero(), Scalar::zero()),
        data_type: VectorType::Point,
    }
}

/// The first of `draws` that lies strictly inside the unit disk, and the
/// center of the disk where none does.
pub open spec fn first_in_unit_disk_spec(draws: Seq<Vector>) -> Vector
    decreases draws.len(),
{
    if draws.len() == 0 {
        disk_center()
    } else if in_unit_disk(draws.first()) {
        draws.first()
    } else {
        first_in_unit_disk_spec(draws.drop_first())
    }
}

/// The first of `draws` that lies strictly inside the unit disk, and the
/// center of the disk where none does: what rejection sampling returns when
/// its draws are those of `draws`, in their order.
pub fn first_in_unit_disk(draws: &Vec<Vector>) -> (p: Vector)
    ensures
        p == first_in_unit_disk_spec(draws@),
{
    let mut i: usize = 0;
    proof {
        assert(draws@.skip(0) =~= draws@);
    }
    while i < draws.len()
        invariant
            i <= draws.len(),
            first_in_unit_disk_spec(draws@) == first_in_unit_disk_spec(draws@.skip(i as int)),
        decreases draws.len() - i,
    {
        proof {
            assert(draws@.skip(i as int).first() == draws[i as int]);
            assert(draws@.skip(i as int).drop_first() =~= draws@.skip(i + 1));
        }
        if draws[i].length_squared().raw < SCALE {
            return draws[i];
        }
        i = i + 1;
    }
    Vector::new(Scalar::zero(), Scalar::zero(), Scalar::zero(), VectorType::Point)
}

/// Whether `draws` is a run of draws that rejection sampling in the disk may
/// make: every one comes from the square, every one but the last lies
/// outside the disk or on its edge, and the run ends with the first draw
/// strictly inside the disk or, if there is none, after `u64::MAX` draws.
pub open spec fn is_disk_rejection_run(draws: Seq<Vector>) -> bool {
    &&& draws.len() <= u64::MAX
    &&& forall|i: int| 0 <= i < draws.len() ==> is_square_draw(#[trigger] draws[i])
    &&& forall|i: int| 0 <= i < draws.len() - 1 ==> !in_unit_disk(#[trigger] draws[i])
    &&& draws.len() == u64::MAX || (draws.len() > 0 && in_unit_disk(draws.last()))
}

/// Draws that are not strictly inside the disk do not count: after them, the
/// first draw inside the disk is the first one among the draws that follow.
pub proof fn lemma_first_skips_rejected_in_disk(rejected: Seq<Vector>, rest: Seq<Vector>)
    requires
        forall|i: int| 0 <= i < rejected.len() ==> !in_unit_disk(#[trigger] rejected[i]),
    ensures
        first_in_unit_disk_spec(rejected + rest) == first_in_unit_disk_spec(rest),
    decreases rejected.len(),
{
    if rejected.len() == 0 {
        assert(rejected + rest =~= rest);
    } else {
        let all = rejected + rest;
        assert(all.first() == rejected[0]);
        assert(all.drop_first() =~= rejected.drop_first() + rest);
        assert forall|i: int| 0 <= i < rejected.drop_first().len() implies !in_unit_disk(
            #[trigger] rejected.drop_first()[i],
        ) by {
            assert(rejected.drop_first()[i] == rejected[i + 1]);
        }
        lemma_first_skips_rejected_in_disk(rejected.drop_first(), rest);
    }
}

/// A point strictly inside the unit disk in the plane `z = 0`: draws from
/// the square around it until one falls inside, and returns that one. The
/// center stands in if none of `u64::MAX` draws does.
pub fn random_in_unit_disk() -> (p: Vector)
    ensures
        is_disk_sample(p),
        exists|draws: Seq<Vector>|
            is_disk_rejection_run(draws) && p == #[trigger] first_in_unit_disk_spec(draws),
{
    let low = Scalar::from_int(-1);
    let high = Scalar::from_int(1);
    let mut attempts: u64 = 0;
    let ghost mut rejected: Seq<Vector> = Seq::empty();
    while attempts < u64::MAX
        invariant
            low == Scalar::from_int(-1i64),
            high == Scalar::from_int(1),
            rejected.len() == attempts,
            forall|i: int| 0 <= i < rejected.len() ==> is_square_draw(#[trigger] rejected[i]),
            forall|i: int| 0 <= i < rejected.len() ==> !in_unit_disk(#[trigger] rejected[i]),
        decreases u64::MAX - attempts,
    {
        let p = Vector::new(
            uniform(low, high),
            uniform(low, high),
            Scalar::zero(),
            VectorType::Point,
        );
        if p.length_squared().raw < SCALE {
            proof {
                let draws = rejected.push(p);
                assert(draws =~= rejected + seq![p]);
                lemma_first_skips_rejected_in_disk(rejected, seq![p]);
                assert(seq![p].first() == p);
                assert(first_in_unit_disk_spec(seq![p]) == p);
                assert(is_disk_rejection_run(draws));
            }
            return p;
        }
        proof {
            rejected = rejected.push(p);
        }
        attempts = attempts + 1;
    }
    proof {
        lemma_first_skips_rejected_in_disk(rejected, Seq::empty());
        assert(rejected + Seq::<Vector>::empty() =~= rejected);
        assert(is_disk_rejection_run(rejected));
        lemma_times_zero(Scalar::zero());
    }
    Vector::new(Scalar::zero(), Scalar::zero(), Scalar::zero(), VectorType::Point)
}

} // verus!
