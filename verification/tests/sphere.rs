use raytracer::hit::Hittable;
use raytracer::material::{Lambertian, Material, Metal};
use raytracer::ray::Ray;
use raytracer::scalar::{Scalar, LIMIT};
use raytracer::sphere::{hit_world, Sphere};
use raytracer::vector::{Vector, VectorType};

fn fx(x: f64) -> Scalar {
    Scalar::from_raw((x * 1e9).round() as i64)
}

fn point(x: f64, y: f64, z: f64) -> Vector {
    Vector::new(fx(x), fx(y), fx(z), VectorType::Point)
}

fn direction(x: f64, y: f64, z: f64) -> Vector {
    Vector::new(fx(x), fx(y), fx(z), VectorType::Vector)
}

fn grey() -> Material {
    Material::Lambertian(Lambertian::new(Vector::new(fx(0.5), fx(0.5), fx(0.5), VectorType::Color)))
}

fn far() -> Scalar {
    Scalar::from_raw(LIMIT)
}

#[test]
fn ray_toward_the_sphere_hits_in_front() {
    let sphere = Sphere::new(point(0.0, 0.0, 0.0), fx(1.0), grey());
    let ray = Ray::new(point(0.0, 0.0, 5.0), direction(0.0, 0.0, -1.0));

    let hit = sphere.hit(&ray, Scalar::zero(), far()).unwrap();

    assert_eq!(hit.t, fx(4.0));
    assert_eq!(hit.point.data, point(0.0, 0.0, 1.0).data);
    assert_eq!(hit.normal.data, direction(0.0, 0.0, 1.0).data);
    assert!(hit.front_face);
}

#[test]
fn ray_away_from_the_sphere_misses() {
    let sphere = Sphere::new(point(0.0, 0.0, 0.0), fx(1.0), grey());
    let ray = Ray::new(point(0.0, 0.0, 5.0), direction(0.0, 0.0, 1.0));

    assert!(sphere.hit(&ray, Scalar::zero(), far()).is_none());
}

#[test]
fn ray_past_the_sphere_misses() {
    let sphere = Sphere::new(point(0.0, 0.0, 0.0), fx(1.0), grey());
    let ray = Ray::new(point(2.0, 0.0, 5.0), direction(0.0, 0.0, -1.0));

    assert!(sphere.hit(&ray, Scalar::zero(), far()).is_none());
}

#[test]
fn tangent_ray_has_one_root() {
    let sphere = Sphere::new(point(0.0, 0.0, 0.0), fx(1.0), grey());
    let ray = Ray::new(point(1.0, 0.0, 5.0), direction(0.0, 0.0, -1.0));

    let hit = sphere.hit(&ray, Scalar::zero(), far()).unwrap();
    assert_eq!(hit.t, fx(5.0));
    assert_eq!(hit.point.data, point(1.0, 0.0, 0.0).data);

    assert!(sphere.hit(&ray, Scalar::zero(), Scalar::from_raw(fx(5.0).raw - 1)).is_none());
    assert!(sphere.hit(&ray, Scalar::from_raw(fx(5.0).raw + 1), far()).is_none());
}

#[test]
fn roots_at_the_bounds_are_accepted() {
    let sphere = Sphere::new(point(0.0, 0.0, 0.0), fx(1.0), grey());
    let ray = Ray::new(point(0.0, 0.0, 5.0), direction(0.0, 0.0, -1.0));

    assert_eq!(sphere.hit(&ray, fx(4.0), far()).unwrap().t, fx(4.0));
    assert_eq!(sphere.hit(&ray, Scalar::zero(), fx(4.0)).unwrap().t, fx(4.0));
    assert_eq!(sphere.hit(&ray, fx(6.0), fx(6.0)).unwrap().t, fx(6.0));
}

#[test]
fn larger_root_is_taken_where_the_smaller_is_out_of_range() {
    let sphere = Sphere::new(point(0.0, 0.0, 0.0), fx(1.0), grey());
    let ray = Ray::new(point(0.0, 0.0, 5.0), direction(0.0, 0.0, -1.0));

    let hit = sphere.hit(&ray, fx(4.5), far()).unwrap();

    assert_eq!(hit.t, fx(6.0));
    assert_eq!(hit.point.data, point(0.0, 0.0, -1.0).data);
    assert!(!hit.front_face);
    assert_eq!(hit.normal.data, direction(0.0, 0.0, 1.0).data);
}

#[test]
fn no_root_in_range_is_no_hit() {
    let sphere = Sphere::new(point(0.0, 0.0, 0.0), fx(1.0), grey());
    let ray = Ray::new(point(0.0, 0.0, 5.0), direction(0.0, 0.0, -1.0));

    assert!(sphere.hit(&ray, Scalar::zero(), fx(3.9)).is_none());
    assert!(sphere.hit(&ray, fx(4.1), fx(5.9)).is_none());
    assert!(sphere.hit(&ray, fx(6.1), far()).is_none());
}

#[test]
fn ray_from_inside_meets_the_back_face() {
    let sphere = Sphere::new(point(0.0, 0.0, 0.0), fx(2.0), grey());
    let ray = Ray::new(point(0.0, 0.0, 0.0), direction(0.0, 1.0, 0.0));

    let hit = sphere.hit(&ray, fx(0.0001), far()).unwrap();

    assert_eq!(hit.t, fx(2.0));
    assert!(!hit.front_face);
    assert_eq!(hit.normal.data, direction(0.0, -1.0, 0.0).data);
}

#[test]
fn normal_opposes_the_ray() {
    let sphere = Sphere::new(point(0.3, -0.2, -3.0), fx(1.25), grey());
    let origins = [point(0.0, 0.0, 0.0), point(0.3, -0.2, -3.0), point(0.5, 0.5, -2.5)];
    let directions = [
        direction(0.0, 0.0, -1.0),
        direction(0.1, 0.05, -1.0),
        direction(-0.2, 0.3, -2.0),
        direction(0.3, -0.1, 1.0),
    ];
    let mut hits = 0;
    for origin in origins {
        for dir in directions {
            let ray = Ray::new(origin, dir);
            if let Some(hit) = sphere.hit(&ray, fx(0.0001), far()) {
                hits += 1;
                assert!(ray.direction.dot(&hit.normal).raw <= 0);
                assert!(hit.t.raw >= fx(0.0001).raw);
                assert_eq!(hit.point.data, ray.at(hit.t).data);
                assert!((hit.normal.len().raw - 1_000_000_000).abs() < 100);
            }
        }
    }
    assert!(hits >= 6);
}

#[test]
fn direction_need_not_be_a_unit_vector() {
    let sphere = Sphere::new(point(0.0, 0.0, 0.0), fx(1.0), grey());
    let ray = Ray::new(point(0.0, 0.0, 5.0), direction(0.0, 0.0, -2.0));

    let hit = sphere.hit(&ray, Scalar::zero(), far()).unwrap();

    assert_eq!(hit.t, fx(2.0));
    assert_eq!(hit.point.data, point(0.0, 0.0, 1.0).data);
}

#[test]
fn large_sphere_under_the_scene() {
    let ground = Sphere::new(point(0.0, -1000.0, 0.0), fx(1000.0), grey());
    let ray = Ray::new(point(13.0, 2.0, 3.0), direction(0.0, -1.0, 0.0));

    let hit = ground.hit(&ray, fx(0.0001), far()).unwrap();

    let want = 2.0 + 1000.0 - (1000.0f64 * 1000.0 - 13.0 * 13.0 - 3.0 * 3.0).sqrt();
    assert!((hit.t.raw as f64 / 1e9 - want).abs() < 1e-6);
    assert!(hit.front_face);
}

#[test]
fn hit_record_borrows_the_material_of_the_sphere() {
    let metal = Material::Metal(Metal::new(
        Vector::new(fx(0.7), fx(0.6), fx(0.5), VectorType::Color),
        fx(0.0),
    ));
    let sphere = Sphere::new(point(0.0, 0.0, 0.0), fx(1.0), metal);
    let ray = Ray::new(point(0.0, 0.0, 5.0), direction(0.0, 0.0, -1.0));

    let hit = sphere.hit(&ray, Scalar::zero(), far()).unwrap();

    assert!(matches!(hit.material, Material::Metal(_)));
}

#[test]
fn empty_world_has_no_hit() {
    let world: Vec<Sphere> = vec![];
    let ray = Ray::new(point(0.0, 0.0, 5.0), direction(0.0, 0.0, -1.0));

    assert!(hit_world(&world, &ray, Scalar::zero(), far()).is_none());
}

#[test]
fn nearest_sphere_wins_whatever_the_order() {
    let near = || Sphere::new(point(0.0, 0.0, 0.0), fx(1.0), grey());
    let middle = || Sphere::new(point(0.0, 0.0, -5.0), fx(1.0), grey());
    let far_one = || Sphere::new(point(0.0, 0.0, -10.0), fx(1.0), grey());
    let aside = || Sphere::new(point(10.0, 0.0, 0.0), fx(1.0), grey());
    let ray = Ray::new(point(0.0, 0.0, 5.0), direction(0.0, 0.0, -1.0));

    let orders: Vec<Vec<Sphere>> = vec![
        vec![near(), middle(), far_one(), aside()],
        vec![far_one(), middle(), near(), aside()],
        vec![aside(), middle(), far_one(), near()],
        vec![middle(), aside(), near(), far_one()],
    ];
    for world in &orders {
        let hit = hit_world(world, &ray, Scalar::zero(), far()).unwrap();
        assert_eq!(hit.t, fx(4.0));
        assert_eq!(hit.point.data, point(0.0, 0.0, 1.0).data);
    }
}

#[test]
fn world_respects_the_bounds() {
    let world = vec![
        Sphere::new(point(0.0, 0.0, 0.0), fx(1.0), grey()),
        Sphere::new(point(0.0, 0.0, -5.0), fx(1.0), grey()),
    ];
    let ray = Ray::new(point(0.0, 0.0, 5.0), direction(0.0, 0.0, -1.0));

    assert_eq!(hit_world(&world, &ray, fx(6.5), far()).unwrap().t, fx(9.0));
    assert_eq!(hit_world(&world, &ray, fx(4.5), far()).unwrap().t, fx(6.0));
    assert!(hit_world(&world, &ray, Scalar::zero(), fx(3.0)).is_none());
    assert!(hit_world(&world, &ray, fx(11.5), far()).is_none());
}

#[test]
fn equally_near_spheres_give_the_later_one() {
    let metal = Material::Metal(Metal::new(
        Vector::new(fx(0.7), fx(0.6), fx(0.5), VectorType::Color),
        fx(0.0),
    ));
    let world = vec![
        Sphere::new(point(0.0, 0.0, 0.0), fx(1.0), grey()),
        Sphere::new(point(0.0, 0.0, 0.0), fx(1.0), metal),
    ];
    let ray = Ray::new(point(0.0, 0.0, 5.0), direction(0.0, 0.0, -1.0));

    let hit = hit_world(&world, &ray, Scalar::zero(), far()).unwrap();

    assert_eq!(hit.t, fx(4.0));
    assert!(matches!(hit.material, Material::Metal(_)));
}

#[test]
fn ray_evaluates_origin_plus_t_times_direction() {
    let ray = Ray::new(point(1.0, 2.0, 3.0), direction(0.5, -1.0, 2.0));

    let at = ray.at(fx(2.0));

    assert_eq!(at.data, point(2.0, 0.0, 7.0).data);
    assert_eq!(at.data_type, VectorType::Point);
    assert_eq!(ray.at(Scalar::zero()).data, ray.origin.data);
}

#[test]
fn normal_is_one_long_where_the_point_lies_on_the_sphere() {
    let spheres = [
        (point(0.3, -0.2, -3.0), 1.25),
        (point(0.0, -1000.0, 0.0), 1000.0),
        (point(0.0, 0.0, -1.0), 0.5),
        (point(2.0, 0.2, 1.0), 0.2),
    ];
    let origins = [point(0.0, 0.0, 0.0), point(13.0, 2.0, 3.0), point(0.5, 0.5, -2.5)];
    let directions = [
        direction(0.0, 0.0, -1.0),
        direction(0.1, 0.05, -1.0),
        direction(-0.2, -0.3, -2.0),
        direction(0.0, -1.0, 0.0),
        direction(-11.0, -1.8, -2.0),
        direction(0.15, -0.03, 0.35),
    ];
    let mut hits = 0;
    for (center, radius) in spheres {
        let sphere = Sphere::new(center, fx(radius), grey());
        for origin in origins {
            for dir in directions {
                let ray = Ray::new(origin, dir);
                if let Some(hit) = sphere.hit(&ray, fx(0.0001), far()) {
                    let distance = (hit.point - center).len().raw;
                    let radius = fx(radius).raw;
                    if 40_000 * ((distance - radius).abs() + 200) <= radius {
                        hits += 1;
                        assert!((hit.normal.len().raw - 1_000_000_000).abs() <= 50_008);
                    }
                }
            }
        }
    }
    assert!(hits >= 10);
}

#[test]
fn moderate_hits_lie_on_the_sphere() {
    let spheres = [
        (point(0.0, 0.0, 0.0), 1.0),
        (point(0.3, -0.2, -3.0), 1.25),
        (point(-4.0, 1.0, 0.0), 1.0),
        (point(0.0, -1000.0, 0.0), 1000.0),
        (point(20.0, 30.0, -40.0), 25.0),
    ];
    let origins = [
        point(0.0, 0.0, 5.0),
        point(0.0, 0.5, 0.0),
        point(13.0, 2.0, 3.0),
        point(-3.9, 1.1, 0.2),
        point(1.0, 0.0, 5.0),
    ];
    let directions = [
        direction(0.0, 0.0, -1.0),
        direction(0.0, -1.0, 0.0),
        direction(-1.3, -0.1, -0.3),
        direction(0.267261241, 0.534522483, 0.801783725),
        direction(0.5, 0.0, 0.0),
        direction(-2.0, 2.0, -2.0),
        direction(0.3, -0.4, 1.9),
    ];
    let mut hits = 0;
    for (center, radius) in spheres {
        let sphere = Sphere::new(center, fx(radius), grey());
        for origin in origins {
            for dir in directions {
                let offset = origin - center;
                let near = [offset.data.0, offset.data.1, offset.data.2]
                    .iter()
                    .all(|c| c.raw.abs() <= 100_000_000_000);
                assert!(dir.length_squared().raw >= 250_000_000);
                let ray = Ray::new(origin, dir);
                for t_min in [fx(0.0001), fx(-50.0)] {
                    if let Some(hit) = sphere.hit(&ray, t_min, far()) {
                        if near && hit.t.raw.abs() <= 50_000_000_000 {
                            hits += 1;
                            let distance = (hit.point - center).len().raw;
                            let radius = fx(radius).raw;
                            assert!(40_000 * ((distance - radius).abs() + 200) <= radius);
                            assert!((hit.normal.len().raw - 1_000_000_000).abs() <= 50_008);
                        }
                    }
                }
            }
        }
    }
    assert!(hits >= 20);
}
