//! A scene to render: a field of small spheres around three large ones.

use crate::material::{is_unit_draw, Dielectric, Lambertian, Material, Metal};
use crate::random::uniform;
use crate::scalar::Scalar;
use crate::sphere::Sphere;
use crate::vector::{Vector, VectorType};
use vstd::prelude::*;

verus! {

/// The small spheres stand in the cells `(a, b)` with `-REACH <= a, b < REACH`.
pub const REACH: i64 = 11;

/// Number of cells along each side of the field.
pub const SIDE: i64 = 22;

/// The random values that decide the small sphere of one cell.
#[derive(Clone, Copy, Debug)]
pub struct SphereDraws {
    /// Which material the sphere is made of: diffuse below 0.8, metal below
    /// 0.95, glass from there on.
    pub choose_material: Scalar,
    /// How far into the cell the sphere stands along `x`, times 0.9.
    pub offset_x: Scalar,
    /// How far into the cell the sphere stands along `z`, times 0.9.
    pub offset_z: Scalar,
    /// The colour of a diffuse sphere is `tint` times `shade`.
    pub tint: Vector,
    /// The colour of a diffuse sphere is `tint` times `shade`.
    pub shade: Vector,
    /// The colour of a metal sphere.
    pub gloss: Vector,
    /// The fuzz of a metal sphere.
    pub fuzz: Scalar,
}

/// A colour with every channel in `[min, max)`.
pub open spec fn is_color_within(c: Vector, min: Scalar, max: Scalar) -> bool {
    c.within(min, max) && c.data_type == VectorType::Color
}

impl SphereDraws {
    /// Whether the values are ones that the random draws may return.
    pub open spec fn is_valid(self) -> bool {
        &&& is_unit_draw(self.choose_material)
        &&& is_unit_draw(self.offset_x)
        &&& is_unit_draw(self.offset_z)
        &&& is_color_within(self.tint, Scalar::zero(), Scalar::one())
        &&& is_color_within(self.shade, Scalar::zero(), Scalar::one())
        &&& is_color_within(self.gloss, Scalar::from_raw(500_000_000), Scalar::one())
        &&& is_unit_draw(self.fuzz)
    }
}

/// Where the small sphere of cell `(a, b)` stands.
pub open spec fn small_center(a: i64, b: i64, draws: SphereDraws) -> Vector {
    Vector::new(
        Scalar::from_int(a).plus(Scalar::from_raw(900_000_000).times(draws.offset_x)),
        Scalar::from_raw(200_000_000),
        Scalar::from_int(b).plus(Scalar::from_raw(900_000_000).times(draws.offset_z)),
        VectorType::Point,
    )
}

/// Whether a small sphere at `center` keeps clear of the large metal sphere:
/// farther than 0.9 from the point `(4, 0.2, 0)`.
pub open spec fn is_clear(center: Vector) -> bool {
    center.minus(
        Vector::new(
            Scalar::from_int(4),
            Scalar::from_raw(200_000_000),
            Scalar::zero(),
            VectorType::Point,
        ),
    ).len_spec().raw > 900_000_000
}

/// What the small sphere is made of.
pub open spec fn small_material(draws: SphereDraws) -> Material {
    if draws.choose_material.raw < 800_000_000 {
        Material::Lambertian(Lambertian::new(draws.tint.times(draws.shade)))
    } else if draws.choose_material.raw < 950_000_000 {
        Material::Metal(Metal::new(draws.gloss, draws.fuzz))
    } else {
        Material::Dielectric(Dielectric::new(Scalar::from_raw(1_500_000_000)))
    }
}

pub open spec fn small_sphere_spec(a: i64, b: i64, draws: SphereDraws) -> Option<Sphere> {
    if is_clear(small_center(a, b, draws)) {
        Some(
            Sphere::new(
                small_center(a, b, draws),
                Scalar::from_raw(200_000_000),
                small_material(draws),
            ),
        )
    } else {
        None
    }
}

fn center_of(a: i64, b: i64, offset_x: Scalar, offset_z: Scalar) -> (center: Vector)
    ensures
        center == Vector::new(
            Scalar::from_int(a).plus(Scalar::from_raw(900_000_000).times(offset_x)),
            Scalar::from_raw(200_000_000),
            Scalar::from_int(b).plus(Scalar::from_raw(900_000_000).times(offset_z)),
            VectorType::Point,
        ),
{
    Vector::new(
        Scalar::from_int(a) + Scalar::from_raw(900_000_000) * offset_x,
        Scalar::from_raw(200_000_000),
        Scalar::from_int(b) + Scalar::from_raw(900_000_000) * offset_z,
        VectorType::Point,
    )
}

fn keeps_clear(center: Vector) -> (clear: bool)
    ensures
        clear == is_clear(center),
{
    (center - Vector::new(
        Scalar::from_int(4),
        Scalar::from_raw(200_000_000),
        Scalar::zero(),
        VectorType::Point,
    )).len().raw > 900_000_000
}

/// The small sphere of cell `(a, b)` that the values of `draws` decide, in
/// place of random draws: a sphere of radius 0.2 at height 0.2, or none
/// where it would stand too close to the large metal sphere.
#[verifier::when_used_as_spec(small_sphere_spec)]
pub fn small_sphere(a: i64, b: i64, draws: SphereDraws) -> (out: Option<Sphere>)
    ensures
        out == small_sphere_spec(a, b, draws),
        out matches Some(sphere) ==> sphere.is_valid(),
{
    let center = center_of(a, b, draws.offset_x, draws.offset_z);
    if keeps_clear(center) {
        let material = if draws.choose_material.raw < 800_000_000 {
            Material::Lambertian(Lambertian::new(draws.tint * draws.shade))
        } else if draws.choose_material.raw < 950_000_000 {
            Material::Metal(Metal::new(draws.gloss, draws.fuzz))
        } else {
            Material::Dielectric(Dielectric::new(Scalar::from_raw(1_500_000_000)))
        };
        Some(Sphere::new(center, Scalar::from_raw(200_000_000), material))
    } else {
        None
    }
}

/// A colour with every channel drawn from `[min, max)`.
fn random_color(min: Scalar, max: Scalar) -> (c: Vector)
    requires
        min.raw < max.raw,
    ensures
        is_color_within(c, min, max),
{
    let red = uniform(min, max);
    let green = uniform(min, max);
    let blue = uniform(min, max);
    Vector::new(red, green, blue, VectorType::Color)
}

/// The small sphere of cell `(a, b)`, decided by random draws.
pub fn random_small_sphere(a: i64, b: i64) -> (out: Option<Sphere>)
    ensures
        exists|draws: SphereDraws|
            draws.is_valid() && out == #[trigger] small_sphere_spec(a, b, draws),
        out matches Some(sphere) ==> sphere.is_valid(),
{
    let half = Scalar::from_raw(500_000_000);
    let grey = Vector::new(half, half, half, VectorType::Color);
    let choose_material = uniform(Scalar::zero(), Scalar::one());
    let offset_x = uniform(Scalar::zero(), Scalar::one());
    let offset_z = uniform(Scalar::zero(), Scalar::one());
    let center = center_of(a, b, offset_x, offset_z);
    let mut draws = SphereDraws {
        choose_material,
        offset_x,
        offset_z,
        tint: grey,
        shade: grey,
        gloss: grey,
        fuzz: Scalar::zero(),
    };
    if keeps_clear(center) {
        if choose_material.raw < 800_000_000 {
            draws.tint = random_color(Scalar::zero(), Scalar::one());
            draws.shade = random_color(Scalar::zero(), Scalar::one());
        } else if choose_material.raw < 950_000_000 {
            draws.gloss = random_color(half, Scalar::one());
            draws.fuzz = uniform(Scalar::zero(), Scalar::one());
        }
    }
    small_sphere(a, b, draws)
}

/// The large diffuse sphere that the scene stands on.
pub open spec fn ground() -> Sphere {
    Sphere::new(
        Vector::new(Scalar::zero(), Scalar::from_int(-1000i64), Scalar::zero(), VectorType::Point),
        Scalar::from_int(1000),
        Material::Lambertian(
            Lambertian::new(
                Vector::new(
                    Scalar::from_raw(500_000_000),
                    Scalar::from_raw(500_000_000),
                    Scalar::from_raw(500_000_000),
                    VectorType::Color,
                ),
            ),
        ),
    )
}

/// The three large spheres: glass in the middle, diffuse behind it, polished
/// metal in front.
pub open spec fn landmarks() -> Seq<Sphere> {
    seq![
        Sphere::new(
            Vector::new(Scalar::zero(), Scalar::one(), Scalar::zero(), VectorType::Point),
            Scalar::one(),
            Material::Dielectric(Dielectric::new(Scalar::from_raw(1_500_000_000))),
        ),
        Sphere::new(
            Vector::new(Scalar::from_int(-4i64), Scalar::one(), Scalar::zero(), VectorType::Point),
            Scalar::one(),
            Material::Lambertian(
                Lambertian::new(
                    Vector::new(
                        Scalar::from_raw(400_000_000),
                        Scalar::from_raw(200_000_000),
                        Scalar::from_raw(100_000_000),
                        VectorType::Color,
                    ),
                ),
            ),
        ),
        Sphere::new(
            Vector::new(Scalar::from_int(4), Scalar::one(), Scalar::zero(), VectorType::Point),
            Scalar::one(),
            Material::Metal(
                Metal::new(
                    Vector::new(
                        Scalar::from_raw(700_000_000),
                        Scalar::from_raw(600_000_000),
                        Scalar::from_raw(600_000_000),
                        VectorType::Color,
                    ),
                    Scalar::zero(),
                ),
            ),
        ),
    ]
}

/// The small spheres of the first `cells` cells, row by row: cell `k` is
/// `(k / SIDE - REACH, k % SIDE - REACH)` and uses `draws[k]`.
pub open spec fn field(draws: Seq<SphereDraws>, cells: nat) -> Seq<Sphere>
    decreases cells,
{
    if cells == 0 {
        Seq::empty()
    } else {
        let k = (cells - 1) as int;
        let before = field(draws, (cells - 1) as nat);
        match small_sphere_spec(
            (k / (SIDE as int) - REACH) as i64,
            (k % (SIDE as int) - REACH) as i64,
            draws[k],
        ) {
            Some(sphere) => before.push(sphere),
            None => before,
        }
    }
}

/// The scene that the values of `draws` decide: the ground, the small
/// spheres of all cells, and the three large spheres.
pub open spec fn scene_spec(draws: Seq<SphereDraws>) -> Seq<Sphere> {
    seq![ground()] + field(draws, (SIDE * SIDE) as nat) + landmarks()
}

/// Whether `draws` holds values that the random draws may return for the
/// first `cells` cells.
pub open spec fn are_cell_draws(draws: Seq<SphereDraws>, cells: nat) -> bool {
    draws.len() == cells && forall|k: int| 0 <= k < draws.len() ==> (#[trigger] draws[k]).is_valid()
}

/// The field holds at most one sphere for each cell.
pub proof fn lemma_field_length(draws: Seq<SphereDraws>, cells: nat)
    ensures
        field(draws, cells).len() <= cells,
    decreases cells,
{
    if cells > 0 {
        lemma_field_length(draws, (cells - 1) as nat);
    }
}

/// A scene with random small spheres: the ground, then for each cell in
/// turn a small sphere decided by random draws, then the three large spheres.
pub fn random_scene() -> (world: Vec<Sphere>)
    ensures
        exists|draws: Seq<SphereDraws>|
            are_cell_draws(draws, (SIDE * SIDE) as nat) && world@ == #[trigger] scene_spec(draws),
        4 <= world.len() <= 4 + SIDE * SIDE,
        forall|i: int| 0 <= i < world.len() ==> (#[trigger] world[i]).is_valid(),
{
    let mut world: Vec<Sphere> = Vec::new();
    let half = Scalar::from_raw(500_000_000);
    let ground_material = Lambertian::new(Vector::new(half, half, half, VectorType::Color));
    world.push(
        Sphere::new(
            Vector::new(Scalar::zero(), Scalar::from_int(-1000), Scalar::zero(), VectorType::Point),
            Scalar::from_int(1000),
            Material::Lambertian(ground_material),
        ),
    );
    let ghost mut chosen: Seq<SphereDraws> = Seq::empty();
    let mut a: i64 = -REACH;
    while a < REACH
        invariant
            -REACH <= a <= REACH,
            are_cell_draws(chosen, ((a + REACH) * SIDE) as nat),
            world@ == seq![ground()] + field(chosen, ((a + REACH) * SIDE) as nat),
            forall|i: int| 0 <= i < world.len() ==> (#[trigger] world[i]).is_valid(),
        decreases REACH - a,
    {
        let mut b: i64 = -REACH;
        while b < REACH
            invariant
                -REACH <= a < REACH,
                -REACH <= b <= REACH,
                are_cell_draws(chosen, ((a + REACH) * SIDE + (b + REACH)) as nat),
                world@ == seq![ground()] + field(
                    chosen,
                    ((a + REACH) * SIDE + (b + REACH)) as nat,
                ),
                forall|i: int| 0 <= i < world.len() ==> (#[trigger] world[i]).is_valid(),
            decreases REACH - b,
        {
            let ghost k = (a + REACH) * SIDE + (b + REACH);
            let ghost before = world@;
            let sphere = random_small_sphere(a, b);
            proof {
                let draws = choose|draws: SphereDraws|
                    draws.is_valid() && sphere == #[trigger] small_sphere_spec(a, b, draws);
                let earlier = chosen;
                chosen = chosen.push(draws);
                lemma_field_ignores_later(earlier, chosen, k as nat);
                assert(k / (SIDE as int) - REACH == a && k % (SIDE as int) - REACH == b);
                assert(chosen[k] == draws);
            }
            if let Some(s) = sphere {
                world.push(s);
                proof {
                    assert(world@ =~= seq![ground()] + field(chosen, (k + 1) as nat));
                }
            }
            b = b + 1;
        }
        a = a + 1;
    }
    let material1 = Dielectric::new(Scalar::from_raw(1_500_000_000));
    world.push(
        Sphere::new(
            Vector::new(Scalar::zero(), Scalar::one(), Scalar::zero(), VectorType::Point),
            Scalar::one(),
            Material::Dielectric(material1),
        ),
    );
    let material2 = Lambertian::new(
        Vector::new(
            Scalar::from_raw(400_000_000),
            Scalar::from_raw(200_000_000),
            Scalar::from_raw(100_000_000),
            VectorType::Color,
        ),
    );
    world.push(
        Sphere::new(
            Vector::new(Scalar::from_int(-4), Scalar::one(), Scalar::zero(), VectorType::Point),
            Scalar::one(),
            Material::Lambertian(material2),
        ),
    );
    let material3 = Metal::new(
        Vector::new(
            Scalar::from_raw(700_000_000),
            Scalar::from_raw(600_000_000),
            Scalar::from_raw(600_000_000),
            VectorType::Color,
        ),
        Scalar::zero(),
    );
    world.push(
        Sphere::new(
            Vector::new(Scalar::from_int(4), Scalar::one(), Scalar::zero(), VectorType::Point),
            Scalar::one(),
            Material::Metal(material3),
        ),
    );
    proof {
        lemma_field_length(chosen, (SIDE * SIDE) as nat);
        assert(world@ =~= scene_spec(chosen));
    }
    world
}

/// The field of the first cells does not depend on the draws of later cells.
pub proof fn lemma_field_ignores_later(
    shorter: Seq<SphereDraws>,
    longer: Seq<SphereDraws>,
    cells: nat,
)
    requires
        cells <= shorter.len() <= longer.len(),
        forall|k: int| 0 <= k < shorter.len() ==> shorter[k] == longer[k],
    ensures
        field(shorter, cells) == field(longer, cells),
    decreases cells,
{
    if cells > 0 {
        lemma_field_ignores_later(shorter, longer, (cells - 1) as nat);
    }
}

} // verus!
