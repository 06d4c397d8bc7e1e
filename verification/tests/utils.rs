use raytracer::material::{Dielectric, Lambertian, Material, Metal, ScatterSample};
use raytracer::ray::Ray;
use raytracer::scalar::Scalar;
use raytracer::sphere::Sphere;
use raytracer::utils::{clamp, first_in_unit_disk, random_in_unit_disk, ray_color, sky, trace};
use raytracer::vector::{Vector, VectorType};

fn fx(x: f64) -> Scalar {
    Scalar::from_raw((x * 1e9).round() as i64)
}

fn value(x: Scalar) -> f64 {
    x.raw as f64 / 1e9
}

fn point(x: f64, y: f64, z: f64) -> Vector {
    Vector::new(fx(x), fx(y), fx(z), VectorType::Point)
}

fn direction(x: f64, y: f64, z: f64) -> Vector {
    Vector::new(fx(x), fx(y), fx(z), VectorType::Vector)
}

fn color(x: f64, y: f64, z: f64) -> Vector {
    Vector::new(fx(x), fx(y), fx(z), VectorType::Color)
}

fn sample(x: f64, y: f64, z: f64, draw: f64) -> ScatterSample {
    ScatterSample { point: direction(x, y, z), draw: fx(draw) }
}

fn scene() -> Vec<Sphere> {
    vec![
        Sphere::new(
            point(0.0, -100.5, -1.0),
            fx(100.0),
            Material::Lambertian(Lambertian::new(color(0.8, 0.8, 0.0))),
        ),
        Sphere::new(
            point(0.0, 0.0, -1.0),
            fx(0.5),
            Material::Lambertian(Lambertian::new(color(0.5, 0.5, 0.5))),
        ),
        Sphere::new(
            point(-1.0, 0.0, -1.0),
            fx(0.5),
            Material::Dielectric(Dielectric::new(fx(1.5))),
        ),
        Sphere::new(
            point(1.0, 0.0, -1.0),
            fx(0.5),
            Material::Metal(Metal::new(color(0.8, 0.6, 0.2), fx(0.3))),
        ),
    ]
}

#[test]
fn no_depth_left_is_black() {
    let rays = [
        Ray::new(point(0.0, 0.0, 0.0), direction(0.0, 0.0, -1.0)),
        Ray::new(point(0.0, 0.0, 0.0), direction(0.0, 1.0, 0.0)),
        Ray::new(point(3.0, -2.0, 1.0), direction(0.0, 0.0, 0.0)),
    ];
    let empty: Vec<Sphere> = vec![];
    for ray in &rays {
        for world in [&empty, &scene()] {
            let got = ray_color(ray, world, 0);
            assert_eq!(got.data, color(0.0, 0.0, 0.0).data);
            assert_eq!(got.data_type, VectorType::Color);
            assert_eq!(trace(ray, world, 0, &vec![]).data, color(0.0, 0.0, 0.0).data);
        }
    }
}

#[test]
fn empty_scene_shows_the_sky() {
    let world: Vec<Sphere> = vec![];

    let down = Ray::new(point(0.0, 0.0, 0.0), direction(0.0, -1.0, 0.0));
    assert_eq!(ray_color(&down, &world, 50).data, color(1.0, 1.0, 1.0).data);

    let up = Ray::new(point(0.0, 0.0, 0.0), direction(0.0, 1.0, 0.0));
    assert_eq!(ray_color(&up, &world, 50).data, color(0.5, 0.7, 1.0).data);

    let level = Ray::new(point(0.0, 0.0, 0.0), direction(1.0, 0.0, 0.0));
    assert_eq!(ray_color(&level, &world, 50).data, color(0.75, 0.85, 1.0).data);
    assert_eq!(ray_color(&level, &world, 1).data_type, VectorType::Color);
}

#[test]
fn sky_depends_on_the_height_of_the_direction_only() {
    let a = Ray::new(point(0.0, 0.0, 0.0), direction(3.0, 4.0, 0.0));
    let b = Ray::new(point(7.0, -2.0, 9.0), direction(0.0, 4.0, -3.0));
    let c = Ray::new(point(7.0, -2.0, 9.0), direction(0.0, 8.0, -6.0));

    assert_eq!(sky(&a).data, sky(&b).data);
    assert_eq!(sky(&b).data, sky(&c).data);
    assert_eq!(sky(&a).data, color(0.55, 0.73, 1.0).data);
}

#[test]
fn sky_for_a_long_direction_straight_down() {
    let down = Ray::new(point(1.0, 2.0, 3.0), direction(0.0, -5.0, 0.0));
    assert_eq!(sky(&down).data, color(1.0, 1.0, 1.0).data);
}

#[test]
fn trace_follows_the_samples() {
    let world = vec![Sphere::new(
        point(0.0, 0.0, -1.0),
        fx(0.5),
        Material::Lambertian(Lambertian::new(color(0.5, 0.5, 0.5))),
    )];
    let ray = Ray::new(point(0.0, 0.0, 0.0), direction(0.0, 0.0, -1.0));

    let straight = trace(&ray, &world, 2, &vec![sample(0.0, 0.0, 0.0, 0.0)]);
    assert_eq!(straight.data, color(0.375, 0.425, 0.5).data);

    let upward = trace(&ray, &world, 2, &vec![sample(0.0, 0.75, 0.0, 0.0)]);
    let height = 0.75 / (0.75f64 * 0.75 + 1.0).sqrt();
    let t = 0.5 * (height + 1.0);
    assert!((value(upward.data.0) - 0.5 * (1.0 - 0.5 * t)).abs() < 1e-8);
    assert!((value(upward.data.1) - 0.5 * (1.0 - 0.3 * t)).abs() < 1e-8);
    assert_eq!(upward.data.2, fx(0.5));
}

#[test]
fn trace_ends_in_black_without_depth_or_samples() {
    let world = vec![Sphere::new(
        point(0.0, 0.0, -1.0),
        fx(0.5),
        Material::Lambertian(Lambertian::new(color(0.5, 0.5, 0.5))),
    )];
    let ray = Ray::new(point(0.0, 0.0, 0.0), direction(0.0, 0.0, -1.0));

    let one_bounce = trace(&ray, &world, 1, &vec![sample(0.0, 0.0, 0.0, 0.0)]);
    assert_eq!(one_bounce.data, color(0.0, 0.0, 0.0).data);

    let no_samples = trace(&ray, &world, 5, &vec![]);
    assert_eq!(no_samples.data, color(0.0, 0.0, 0.0).data);
}

#[test]
fn trace_is_black_where_metal_absorbs() {
    let world = vec![Sphere::new(
        point(0.0, 0.0, -1.0),
        fx(0.5),
        Material::Metal(Metal::new(color(0.8, 0.6, 0.2), fx(1.0))),
    )];

    let grazing = Ray::new(point(0.0, 0.49, 0.0), direction(0.0, 0.0, -1.0));
    let absorbed = trace(&grazing, &world, 5, &vec![sample(0.0, -0.9, 0.0, 0.0)]);
    assert_eq!(absorbed.data, color(0.0, 0.0, 0.0).data);

    let head_on = Ray::new(point(0.0, 0.0, 0.0), direction(0.0, 0.0, -1.0));
    let back = trace(&head_on, &world, 5, &vec![sample(0.0, 0.0, 0.0, 0.0)]);
    assert_eq!(back.data, color(0.6, 0.51, 0.2).data);
}

#[test]
fn trace_multiplies_the_attenuations_along_the_path() {
    let world = vec![
        Sphere::new(
            point(0.0, 0.0, -1.0),
            fx(0.5),
            Material::Lambertian(Lambertian::new(color(0.5, 0.5, 0.5))),
        ),
        Sphere::new(
            point(0.0, 0.0, 2.0),
            fx(0.5),
            Material::Lambertian(Lambertian::new(color(0.5, 1.0, 0.25))),
        ),
    ];
    let ray = Ray::new(point(0.0, 0.0, 0.0), direction(0.0, 0.0, -1.0));
    let samples = vec![sample(0.0, 0.0, 0.0, 0.0), sample(0.0, 0.75, 0.0, 0.0)];

    assert_eq!(trace(&ray, &world, 3, &samples).data, color(0.15, 0.38, 0.125).data);
    assert_eq!(trace(&ray, &world, 50, &samples).data, color(0.15, 0.38, 0.125).data);
    assert_eq!(trace(&ray, &world, 2, &samples).data, color(0.0, 0.0, 0.0).data);
    assert_eq!(trace(&ray, &world, 1, &samples).data, color(0.0, 0.0, 0.0).data);
    assert_eq!(trace(&ray, &world, 3, &samples[..1].to_vec()).data, color(0.0, 0.0, 0.0).data);
}

#[test]
fn ray_color_stays_within_the_light_of_the_sky() {
    let world = scene();
    let rays = [
        Ray::new(point(0.0, 0.0, 0.0), direction(0.0, 0.0, -1.0)),
        Ray::new(point(0.0, 0.0, 0.0), direction(-1.0, 0.0, -1.0)),
        Ray::new(point(0.0, 0.0, 0.0), direction(1.0, 0.0, -1.0)),
        Ray::new(point(0.0, 0.0, 0.0), direction(0.0, -1.0, -1.0)),
        Ray::new(point(0.0, 0.0, 0.0), direction(0.3, 0.5, -1.0)),
    ];
    for ray in &rays {
        for _ in 0..50 {
            let got = ray_color(ray, &world, 20);
            assert_eq!(got.data_type, VectorType::Color);
            for channel in [got.data.0, got.data.1, got.data.2] {
                assert!(0 <= channel.raw && channel.raw <= 1_000_001_000);
            }
        }
    }
}

#[test]
fn clamp_keeps_values_between_the_bounds() {
    assert_eq!(clamp(fx(-0.5), fx(0.0), fx(0.9999)), fx(0.0));
    assert_eq!(clamp(fx(0.5), fx(0.0), fx(0.9999)), fx(0.5));
    assert_eq!(clamp(fx(1.5), fx(0.0), fx(0.9999)), fx(0.9999));
    assert_eq!(clamp(fx(0.0), fx(0.0), fx(0.9999)), fx(0.0));
    assert_eq!(clamp(fx(0.9999), fx(0.0), fx(0.9999)), fx(0.9999));
}

#[test]
fn points_of_the_disk_lie_in_the_plane() {
    let mut distinct = false;
    let first = random_in_unit_disk();
    for _ in 0..1000 {
        let p = random_in_unit_disk();
        assert_eq!(p.data.2, Scalar::zero());
        assert_eq!(p.data_type, VectorType::Point);
        assert!(p.length_squared().raw < 1_000_000_000);
        assert!(-1_000_000_000 <= p.data.0.raw && p.data.0.raw < 1_000_000_000);
        assert!(-1_000_000_000 <= p.data.1.raw && p.data.1.raw < 1_000_000_000);
        if p.data.0 != first.data.0 {
            distinct = true;
        }
    }
    assert!(distinct);
}

#[test]
fn first_draw_inside_the_disk_is_taken() {
    let outside = point(0.9, 0.9, 0.0);
    let on_the_edge = point(-1.0, 0.0, 0.0);
    let also_on_the_edge = point(0.6, 0.8, 0.0);
    let inside = point(0.5, -0.5, 0.0);
    let later = point(0.1, 0.2, 0.0);

    let taken = first_in_unit_disk(&vec![outside, on_the_edge, also_on_the_edge, inside, later]);
    assert_eq!(taken.data, inside.data);
    assert_eq!(taken.data_type, VectorType::Point);
    assert_eq!(first_in_unit_disk(&vec![later, inside]).data, later.data);
    assert_eq!(first_in_unit_disk(&vec![inside]).data, inside.data);
}

#[test]
fn center_stands_in_where_no_draw_is_inside_the_disk() {
    let none = first_in_unit_disk(&vec![point(0.9, 0.9, 0.0), point(-1.0, 0.0, 0.0)]);
    assert_eq!(none.data, point(0.0, 0.0, 0.0).data);
    assert_eq!(none.data_type, VectorType::Point);
    assert_eq!(first_in_unit_disk(&vec![]).data, point(0.0, 0.0, 0.0).data);
}
