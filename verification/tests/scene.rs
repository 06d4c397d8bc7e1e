use raytracer::material::Material;
use raytracer::ray::Ray;
use raytracer::scalar::{Scalar, LIMIT};
use raytracer::scene::{random_scene, random_small_sphere, small_sphere, SphereDraws};
use raytracer::sphere::{hit_world, Sphere};
use raytracer::vector::{Vector, VectorType};

fn fx(x: f64) -> Scalar {
    Scalar::from_raw((x * 1e9).round() as i64)
}

fn value(x: Scalar) -> f64 {
    x.raw as f64 / 1e9
}

fn color(x: f64, y: f64, z: f64) -> Vector {
    Vector::new(fx(x), fx(y), fx(z), VectorType::Color)
}

fn draws(choose_material: f64, offset_x: f64, offset_z: f64) -> SphereDraws {
    SphereDraws {
        choose_material: fx(choose_material),
        offset_x: fx(offset_x),
        offset_z: fx(offset_z),
        tint: color(0.5, 0.25, 1.0),
        shade: color(0.5, 0.5, 0.5),
        gloss: color(0.75, 0.5, 0.625),
        fuzz: fx(0.125),
    }
}

fn down_onto(x: f64, z: f64) -> Ray {
    Ray::new(
        Vector::new(fx(x), fx(10.0), fx(z), VectorType::Point),
        Vector::new(fx(0.0), fx(-1.0), fx(0.0), VectorType::Vector),
    )
}

fn far() -> Scalar {
    Scalar::from_raw(LIMIT)
}

#[test]
fn small_sphere_stands_in_its_cell() {
    let world = vec![small_sphere(-7, 3, draws(0.5, 0.5, 0.5)).unwrap()];

    let hit = hit_world(&world, &down_onto(-6.55, 3.45), fx(0.0001), far()).unwrap();

    assert_eq!(hit.t, fx(9.6));
    assert_eq!(hit.point.data, (fx(-6.55), fx(0.4), fx(3.45)));
    assert!(hit_world(&world, &down_onto(-6.55, 3.66), fx(0.0001), far()).is_none());
    assert!(hit_world(&world, &down_onto(-6.55, 3.64), fx(0.0001), far()).is_some());
}

#[test]
fn small_sphere_is_made_of_what_the_draw_chooses() {
    let probe = down_onto(0.0, 0.0);
    for (choose, made_of) in [
        (0.0, "diffuse"),
        (0.5, "diffuse"),
        (0.799999999, "diffuse"),
        (0.8, "metal"),
        (0.949999999, "metal"),
        (0.95, "glass"),
        (0.999, "glass"),
    ] {
        let world = vec![small_sphere(0, 0, draws(choose, 0.0, 0.0)).unwrap()];
        let hit = hit_world(&world, &probe, fx(0.0001), far()).unwrap();
        match hit.material {
            Material::Lambertian(l) => {
                assert_eq!(made_of, "diffuse");
                assert_eq!(l.albedo.data, color(0.25, 0.125, 0.5).data);
            }
            Material::Metal(m) => {
                assert_eq!(made_of, "metal");
                assert_eq!(m.roughness(), fx(0.125));
            }
            Material::Dielectric(_) => assert_eq!(made_of, "glass"),
        }
    }
}

#[test]
fn small_sphere_keeps_clear_of_the_large_metal_sphere() {
    assert!(small_sphere(4, 0, draws(0.5, 0.0, 0.0)).is_none());
    assert!(small_sphere(3, 0, draws(0.5, 0.5, 0.0)).is_none());
    assert!(small_sphere(4, -1, draws(0.5, 0.0, 0.5)).is_none());
    assert!(small_sphere(3, 0, draws(0.5, 0.12, 0.0)).is_none());
    assert!(small_sphere(3, 0, draws(0.5, 0.1, 0.0)).is_some());
    assert!(small_sphere(4, 0, draws(0.5, 0.0, 0.999)).is_none());
    assert!(small_sphere(4, 1, draws(0.5, 0.0, 0.0)).is_some());
    assert!(small_sphere(5, 0, draws(0.5, 0.0, 0.0)).is_some());
}

#[test]
fn random_small_spheres_stand_in_their_cells() {
    for a in -11..11i64 {
        for b in [-11i64, 0, 10] {
            if let Some(sphere) = random_small_sphere(a, b) {
                let world = vec![sphere];
                let mut found = false;
                for i in 0..=11 {
                    for j in 0..=11 {
                        let probe = down_onto(a as f64 + 0.1 * i as f64, b as f64 + 0.1 * j as f64);
                        if let Some(hit) = hit_world(&world, &probe, fx(0.0001), far()) {
                            found = true;
                            assert!(value(hit.point.data.1) <= 0.4 + 1e-8);
                            assert!(value(hit.point.data.1) >= 0.2 - 1e-8);
                        }
                    }
                }
                assert!(found);
            }
        }
    }
}

#[test]
fn scene_holds_the_ground_and_the_large_spheres() {
    let world: Vec<Sphere> = random_scene();

    assert!(world.len() >= 4);
    assert!(world.len() <= 4 + 22 * 22);
    assert!(world.len() > 400);

    let glass = hit_world(&world, &down_onto(0.0, 0.0), fx(0.0001), far()).unwrap();
    assert_eq!(glass.t, fx(8.0));
    assert!(matches!(glass.material, Material::Dielectric(_)));

    let diffuse = hit_world(&world, &down_onto(-4.0, 0.0), fx(0.0001), far()).unwrap();
    assert_eq!(diffuse.t, fx(8.0));
    match diffuse.material {
        Material::Lambertian(l) => assert_eq!(l.albedo.data, color(0.4, 0.2, 0.1).data),
        _ => panic!("the sphere behind the glass is diffuse"),
    }

    let metal = hit_world(&world, &down_onto(4.0, 0.0), fx(0.0001), far()).unwrap();
    assert_eq!(metal.t, fx(8.0));
    match metal.material {
        Material::Metal(m) => assert_eq!(m.roughness(), fx(0.0)),
        _ => panic!("the sphere in front of the glass is metal"),
    }

    let ground = hit_world(&world, &down_onto(100.0, 100.0), fx(0.0001), far()).unwrap();
    let depth = 1000.0 - (1000.0f64 * 1000.0 - 2.0 * 100.0 * 100.0).sqrt();
    assert!((value(ground.t) - (10.0 + depth)).abs() < 1e-6);
    match ground.material {
        Material::Lambertian(l) => assert_eq!(l.albedo.data, color(0.5, 0.5, 0.5).data),
        _ => panic!("the ground is diffuse"),
    }
}

#[test]
fn scenes_differ_from_one_another() {
    let first = random_scene();
    let second = random_scene();
    let mut differ = first.len() != second.len();
    for i in 0..60 {
        let probe = down_onto(-10.0 + 0.33 * i as f64, 5.3);
        let a = hit_world(&first, &probe, fx(0.0001), far()).unwrap();
        let b = hit_world(&second, &probe, fx(0.0001), far()).unwrap();
        if a.t != b.t {
            differ = true;
        }
    }
    assert!(differ);
}
