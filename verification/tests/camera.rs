use raytracer::camera::Camera;
use raytracer::scalar::Scalar;
use raytracer::vector::{Vector, VectorType};

fn fx(x: f64) -> Scalar {
    Scalar::from_raw((x * 1e9).round() as i64)
}

fn value(x: Scalar) -> f64 {
    x.raw as f64 / 1e9
}

fn point(x: f64, y: f64, z: f64) -> Vector {
    Vector::new(fx(x), fx(y), fx(z), VectorType::Point)
}

fn direction(x: f64, y: f64, z: f64) -> Vector {
    Vector::new(fx(x), fx(y), fx(z), VectorType::Vector)
}

fn close(got: Vector, want: (f64, f64, f64), tolerance: f64) -> bool {
    (value(got.data.0) - want.0).abs() < tolerance
        && (value(got.data.1) - want.1).abs() < tolerance
        && (value(got.data.2) - want.2).abs() < tolerance
}

fn straight_ahead(aperture: f64, focus_distance: f64) -> Camera {
    Camera::new(
        point(0.0, 0.0, 0.0),
        point(0.0, 0.0, -1.0),
        direction(0.0, 1.0, 0.0),
        fx(90.0),
        fx(2.0),
        fx(aperture),
        fx(focus_distance),
    )
}

#[test]
fn pinhole_camera_looks_through_the_corners_of_the_image() {
    let camera = straight_ahead(0.0, 1.0);
    let no_offset = point(0.0, 0.0, 0.0);

    let corner = camera.ray_through(fx(0.0), fx(0.0), no_offset);
    assert_eq!(corner.origin.data, point(0.0, 0.0, 0.0).data);
    assert!(close(corner.direction, (-2.0, -1.0, -1.0), 1e-7));

    let opposite = camera.ray_through(fx(1.0), fx(1.0), no_offset);
    assert!(close(opposite.direction, (2.0, 1.0, -1.0), 1e-7));

    let center = camera.ray_through(fx(0.5), fx(0.5), no_offset);
    assert!(close(center.direction, (0.0, 0.0, -1.0), 1e-7));
}

#[test]
fn pinhole_camera_ignores_the_lens_sample() {
    let camera = straight_ahead(0.0, 1.0);

    let a = camera.ray_through(fx(0.25), fx(0.75), point(0.0, 0.0, 0.0));
    let b = camera.ray_through(fx(0.25), fx(0.75), point(0.6, -0.7, 0.0));

    assert_eq!(a.origin.data, b.origin.data);
    assert_eq!(a.direction.data, b.direction.data);
    for _ in 0..50 {
        let r = camera.get_ray(fx(0.25), fx(0.75));
        assert_eq!(r.origin.data, a.origin.data);
        assert_eq!(r.direction.data, a.direction.data);
    }
}

#[test]
fn focus_distance_scales_the_image_plane() {
    let camera = straight_ahead(0.0, 10.0);

    let corner = camera.ray_through(fx(0.0), fx(0.0), point(0.0, 0.0, 0.0));

    assert!(close(corner.direction, (-20.0, -10.0, -10.0), 1e-6));
}

#[test]
fn lens_offsets_the_origin_and_keeps_the_focus() {
    let camera = straight_ahead(2.0, 10.0);

    let ray = camera.ray_through(fx(0.5), fx(0.5), point(0.5, -0.25, 0.0));

    assert!(close(ray.origin, (0.5, -0.25, 0.0), 1e-8));
    assert!(close(ray.direction, (-0.5, 0.25, -10.0), 1e-6));
    assert!(close(ray.at(fx(1.0)), (0.0, 0.0, -10.0), 1e-6));
}

#[test]
fn random_rays_start_on_the_lens() {
    let camera = straight_ahead(2.0, 10.0);
    let mut moved = false;
    for _ in 0..500 {
        let ray = camera.get_ray(fx(0.5), fx(0.5));
        let x = value(ray.origin.data.0);
        let y = value(ray.origin.data.1);
        assert!(x * x + y * y <= 1.0 + 1e-6);
        assert!(value(ray.origin.data.2).abs() < 1e-8);
        assert!(close(ray.at(fx(1.0)), (0.0, 0.0, -10.0), 1e-6));
        if x != 0.0 {
            moved = true;
        }
    }
    assert!(moved);
}

#[test]
fn camera_from_the_side_builds_its_own_frame() {
    let camera = Camera::new(
        point(13.0, 2.0, 3.0),
        point(0.0, 0.0, 0.0),
        direction(0.0, 1.0, 0.0),
        fx(20.0),
        fx(1.5),
        fx(0.0),
        fx(10.0),
    );

    let center = camera.ray_through(fx(0.5), fx(0.5), point(0.0, 0.0, 0.0));

    assert_eq!(center.origin.data, point(13.0, 2.0, 3.0).data);
    let length = (13.0f64 * 13.0 + 2.0 * 2.0 + 3.0 * 3.0).sqrt();
    let want = (-13.0 / length * 10.0, -2.0 / length * 10.0, -3.0 / length * 10.0);
    assert!(close(center.direction, want, 1e-6));

    let half_height = (10.0f64).to_radians().tan() * 10.0;
    let top = camera.ray_through(fx(0.5), fx(1.0), point(0.0, 0.0, 0.0));
    let rise = top.direction - center.direction;
    assert!((value(rise.len()) - half_height).abs() < 1e-6);
    let right = camera.ray_through(fx(1.0), fx(0.5), point(0.0, 0.0, 0.0));
    let run = right.direction - center.direction;
    assert!((value(run.len()) - 1.5 * half_height).abs() < 1e-6);
    assert!(value(run.dot(&rise)).abs() < 1e-6);
    assert!(value(run.data.1).abs() < 1e-6);
}
