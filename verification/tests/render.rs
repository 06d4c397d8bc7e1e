use raytracer::camera::Camera;
use raytracer::material::{Lambertian, Material};
use raytracer::material::ScatterSample;
use raytracer::render::{
    assemble, pixel_from_sum, quantize, render, render_line, sample_color, sample_coordinate,
    PixelSample,
};
use raytracer::scalar::{Scalar, LIMIT};
use raytracer::sphere::Sphere;
use raytracer::utils::trace;
use raytracer::vector::{Vector, VectorType};

fn fx(x: f64) -> Scalar {
    Scalar::from_raw((x * 1e9).round() as i64)
}

fn point(x: f64, y: f64, z: f64) -> Vector {
    Vector::new(fx(x), fx(y), fx(z), VectorType::Point)
}

fn color(x: f64, y: f64, z: f64) -> Vector {
    Vector::new(fx(x), fx(y), fx(z), VectorType::Color)
}

fn camera() -> Camera {
    Camera::new(
        point(0.0, 0.0, 0.0),
        point(0.0, 0.0, -1.0),
        Vector::new(fx(0.0), fx(1.0), fx(0.0), VectorType::Vector),
        fx(90.0),
        fx(1.0),
        fx(0.0),
        fx(1.0),
    )
}

fn byte(channel: f64) -> i32 {
    (256.0 * channel.sqrt().clamp(0.0, 0.9999)) as i32
}

fn sky_bytes(direction: (f64, f64, f64)) -> [i32; 3] {
    let length =
        (direction.0 * direction.0 + direction.1 * direction.1 + direction.2 * direction.2).sqrt();
    let t = 0.5 * (direction.1 / length + 1.0);
    [byte(1.0 - t + t * 0.5), byte(1.0 - t + t * 0.7), byte(1.0 - t + t * 1.0)]
}

#[test]
fn channels_become_bytes() {
    assert_eq!(quantize(fx(0.0)), 0);
    assert_eq!(quantize(fx(0.5)), 128);
    assert_eq!(quantize(fx(0.25)), 64);
    assert_eq!(quantize(fx(0.9999)), 255);
    assert_eq!(quantize(fx(0.99609375)), 255);
    assert_eq!(quantize(fx(0.996093749)), 254);
    assert_eq!(quantize(fx(0.00390625)), 1);
    assert_eq!(quantize(fx(0.003906249)), 0);
}

#[test]
fn channels_out_of_range_are_clamped() {
    assert_eq!(quantize(fx(1.0)), 255);
    assert_eq!(quantize(fx(17.0)), 255);
    assert_eq!(quantize(Scalar::from_raw(LIMIT)), 255);
    assert_eq!(quantize(fx(-0.5)), 0);
    assert_eq!(quantize(Scalar::from_raw(i64::MIN)), 0);
}

#[test]
fn pixel_is_the_root_of_the_mean() {
    assert_eq!(pixel_from_sum(color(4.0, 1.0, 0.25), 4), [255, 128, 64]);
    assert_eq!(pixel_from_sum(color(1.0, 0.25, 0.0625), 1), [255, 128, 64]);
    assert_eq!(pixel_from_sum(color(0.0, 0.0, 0.0), 10), [0, 0, 0]);
    assert_eq!(pixel_from_sum(color(-1.0, 2.0, 0.5), 2), [0, 255, 128]);
}

#[test]
fn pixel_of_no_samples() {
    assert_eq!(pixel_from_sum(color(0.0, 1.0, -1.0), 0), [0, 255, 0]);
}

#[test]
fn samples_lie_at_the_pixel_plus_the_jitter() {
    assert_eq!(sample_coordinate(0, fx(0.0), 2), fx(0.0));
    assert_eq!(sample_coordinate(1, fx(0.0), 2), fx(1.0));
    assert_eq!(sample_coordinate(0, fx(0.5), 3), fx(0.25));
    assert_eq!(sample_coordinate(3, fx(0.5), 8), fx(0.5));
    assert_eq!(sample_coordinate(1199, fx(0.0), 1200), fx(1.0));
}

#[test]
fn samples_of_an_image_one_pixel_wide() {
    assert_eq!(sample_coordinate(0, fx(0.0), 1), fx(0.0));
    assert_eq!(sample_coordinate(0, fx(0.5), 1), Scalar::from_raw(LIMIT));
}

#[test]
fn rows_are_stacked_from_the_top() {
    let rows = vec![vec![1u8, 2, 3, 4, 5, 6], vec![7, 8, 9, 10, 11, 12], vec![13, 14, 15, 16, 17, 18]];

    let pixels = assemble(&rows, 2, 3);

    assert_eq!(pixels, vec![13, 14, 15, 16, 17, 18, 7, 8, 9, 10, 11, 12, 1, 2, 3, 4, 5, 6]);
}

#[test]
fn image_without_rows_or_columns_is_empty() {
    let none: Vec<Vec<u8>> = vec![];
    assert_eq!(assemble(&none, 5, 0), Vec::<u8>::new());
    let narrow: Vec<Vec<u8>> = vec![vec![], vec![]];
    assert_eq!(assemble(&narrow, 0, 2), Vec::<u8>::new());
    let world: Vec<Sphere> = vec![];
    assert_eq!(render(0, 4, 1, &world, camera(), 1), Vec::<u8>::new());
    assert_eq!(render(4, 0, 1, &world, camera(), 1), Vec::<u8>::new());
}

#[test]
fn line_holds_three_bytes_for_each_pixel() {
    let world: Vec<Sphere> = vec![];
    let line = render_line(3, &world, &camera(), 7, 5, 2, 4);
    assert_eq!(line.len(), 21);
    for pixel in line.chunks(3) {
        assert_eq!(pixel[2], 255);
        assert!(181 <= pixel[0]);
        assert!(214 <= pixel[1]);
        assert!(pixel[0] <= pixel[1]);
    }
}

#[test]
fn sample_follows_the_ray_through_its_place() {
    let world = vec![Sphere::new(
        point(0.0, 0.0, -3.0),
        fx(1.0),
        Material::Lambertian(Lambertian::new(color(0.5, 0.25, 1.0))),
    )];
    let camera = Camera::new(
        point(0.0, 0.0, 0.0),
        point(0.0, 0.0, -1.0),
        Vector::new(fx(0.0), fx(1.0), fx(0.0), VectorType::Vector),
        fx(90.0),
        fx(1.0),
        fx(0.5),
        fx(2.0),
    );
    let scatter = vec![ScatterSample {
        point: Vector::new(fx(0.0), fx(0.5), fx(0.0), VectorType::Vector),
        draw: fx(0.5),
    }];
    let sample = PixelSample {
        across: fx(0.25),
        upward: fx(0.75),
        lens: point(0.3, -0.4, 0.0),
        scatter: scatter.clone(),
    };

    let got = sample_color(&camera, &world, 1, 1, 4, 4, 5, &sample);

    let u = sample_coordinate(1, fx(0.25), 4);
    let v = sample_coordinate(1, fx(0.75), 4);
    let ray = camera.ray_through(u, v, point(0.3, -0.4, 0.0));
    let want = trace(&ray, &world, 5, &scatter);
    assert_eq!(got.data, want.data);
    assert!(got.data.0.raw > 0 && got.data.0.raw < fx(0.5).raw);
    assert!(got.data.1.raw > 0 && got.data.1.raw < fx(0.25).raw);
    assert!(got.data.2.raw > fx(0.9).raw && got.data.2.raw <= fx(1.0).raw);

    let past = PixelSample { across: fx(0.0), upward: fx(0.0), lens: point(0.0, 0.0, 0.0), scatter };
    let sky = sample_color(&camera, &world, 0, 0, 4, 4, 5, &past);
    assert_eq!(sky.data.2, fx(1.0));
}

#[test]
fn samples_of_an_empty_scene_match_the_sky() {
    let world: Vec<Sphere> = vec![];
    let camera = camera();
    for y in 0..2u32 {
        for x in 0..2u32 {
            for jitter in [0.0, 0.25, 0.5, 0.999] {
                let sample = PixelSample {
                    across: fx(jitter),
                    upward: fx(jitter),
                    lens: point(0.0, 0.0, 0.0),
                    scatter: vec![],
                };
                let got = pixel_from_sum(sample_color(&camera, &world, x, y, 2, 2, 1, &sample), 1);
                let s = x as f64 + jitter;
                let t = y as f64 + jitter;
                let want = sky_bytes((-1.0 + 2.0 * s, -1.0 + 2.0 * t, -1.0));
                for k in 0..3 {
                    assert!((got[k] as i32 - want[k]).abs() <= 1, "{:?} {:?}", got, want);
                }
            }
        }
    }
}

#[test]
fn image_of_an_empty_scene_is_the_sky() {
    let world: Vec<Sphere> = vec![];

    for _ in 0..50 {
        let pixels = render(2, 2, 1, &world, camera(), 1);

        assert_eq!(pixels.len(), 12);
        for (index, pixel) in pixels.chunks(3).enumerate() {
            assert_eq!(pixel[2], 255);
            let red_low = (pixel[0] as f64 / 256.0).powi(2);
            let red_high = ((pixel[0] as f64 + 1.0) / 256.0).powi(2);
            let t_high = 2.0 * (1.0 - red_low);
            let t_low = 2.0 * (1.0 - red_high);
            assert!(t_low <= 1.0 && t_high >= 0.0);
            let green_low = byte(1.0 - 0.3 * t_high.min(1.0)) - 1;
            let green_high = byte(1.0 - 0.3 * t_low.max(0.0)) + 1;
            assert!(green_low <= pixel[1] as i32 && pixel[1] as i32 <= green_high);
            if index < 2 {
                assert!(pixel[0] <= 210);
            } else {
                assert!(pixel[0] >= 193);
            }
        }
    }
}

#[test]
fn rows_run_from_the_top_of_the_image_down() {
    let toward = 1000.01 / (1.0f64 + 0.25).sqrt();
    let world = vec![Sphere::new(
        point(0.0, -toward, -0.5 * toward),
        fx(1000.0),
        Material::Lambertian(Lambertian::new(color(0.0, 0.0, 0.0))),
    )];

    for _ in 0..20 {
        let pixels = render(3, 2, 2, &world, camera(), 5);

        assert_eq!(pixels.len(), 18);
        for pixel in pixels[..6].chunks(3) {
            assert_eq!(pixel[2], 255);
            assert!(pixel[0] >= 181);
            assert!(pixel[1] >= 214);
        }
        assert_eq!(pixels[12..], [0u8; 6]);
    }
}

#[test]
fn image_shows_the_sphere_in_front_of_the_camera() {
    let world = vec![Sphere::new(
        point(0.0, 0.0, -3.0),
        fx(1.0),
        Material::Lambertian(Lambertian::new(color(0.0, 0.0, 0.0))),
    )];
    let narrow = Camera::new(
        point(0.0, 0.0, 0.0),
        point(0.0, 0.0, -1.0),
        Vector::new(fx(0.0), fx(1.0), fx(0.0), VectorType::Vector),
        fx(10.0),
        fx(1.0),
        fx(0.0),
        fx(1.0),
    );

    let pixels = render(3, 3, 4, &world, narrow, 10);

    assert_eq!(pixels.len(), 27);
    assert_eq!(pixels, vec![0u8; 27]);
}
