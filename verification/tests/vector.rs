use raytracer::scalar::Scalar;
use raytracer::vector::{fuzzy_equal, Vector, VectorType};

fn fx(x: f64) -> Scalar {
    Scalar::from_raw((x * 1e9).round() as i64)
}

fn vector(x: f64, y: f64, z: f64, data_type: VectorType) -> Vector {
    Vector::new(fx(x), fx(y), fx(z), data_type)
}

#[test]
fn create_vector() {
    let vector = vector(0.0, 1.0, 2.0, VectorType::Vector);

    assert_eq!(vector.data.0, fx(0.0));
    assert_eq!(vector.data.1, fx(1.0));
    assert_eq!(vector.data.2, fx(2.0));
}

#[test]
fn add_two_vectors() {
    let first = vector(1.0, 2.0, 3.0, VectorType::Vector);
    let second = vector(1.0, 2.0, 3.0, VectorType::Vector);

    let result = first + second;

    assert_eq!(result.data.0, fx(2.0));
    assert_eq!(result.data.1, fx(4.0));
    assert_eq!(result.data.2, fx(6.0));
    assert_eq!(result.data_type, VectorType::Vector);
}

#[test]
fn sub_two_vectors() {
    let first = vector(1.0, 2.0, 4.0, VectorType::Vector);
    let second = vector(1.0, 2.0, 3.0, VectorType::Vector);

    let result = first - second;

    assert_eq!(result.data.0, fx(0.0));
    assert_eq!(result.data.1, fx(0.0));
    assert_eq!(result.data.2, fx(1.0));
    assert_eq!(result.data_type, VectorType::Vector);
}

#[test]
fn negate_vector() {
    let color = vector(1.0, 2.0, 3.2, VectorType::Color);
    let color = -color;

    assert_eq!(color.data.0, fx(-1.0));
    assert_eq!(color.data.1, fx(-2.0));
    assert_eq!(color.data.2, fx(-3.2));
    assert_eq!(color.data_type, VectorType::Color);
}

#[test]
fn scale_vector_by_f64() {
    let point = vector(1.0, 2.0, 3.6, VectorType::Point);

    let result = point * fx(2.0);

    assert_eq!(result.data.0, fx(2.0));
    assert_eq!(result.data.1, fx(4.0));
    assert_eq!(result.data.2, fx(7.2));
    assert_eq!(result.data_type, VectorType::Point);
}

#[test]
fn multiply_two_vectors() {
    let first = vector(1.0, 2.0, 3.0, VectorType::Vector);
    let second = vector(1.0, 2.0, 3.0, VectorType::Vector);

    let result = first * second;
    let expected_result = vector(1.0, 4.0, 9.0, VectorType::Vector);

    assert_eq!(result, expected_result);
}

#[test]
fn divide_two_vectors() {
    let first = vector(1.6, 2.4, 1.2, VectorType::Vector);
    let second = vector(2.0, 0.6, 0.2, VectorType::Vector);

    let result = first / second;
    let expected_result = vector(0.8, 4.0, 6.0, VectorType::Vector);

    assert_eq!(result, expected_result);
}

#[test]
fn divide_vector_by_f64() {
    let vector = vector(1.0, 2.0, 3.0, VectorType::Vector);

    let result = vector / fx(2.0);

    assert_eq!(result.data.0, fx(0.5));
    assert_eq!(result.data.1, fx(1.0));
    assert_eq!(result.data.2, fx(1.5));
    assert_eq!(result.data_type, VectorType::Vector);
}

#[test]
fn check_equality_of_f64() {
    assert!(fuzzy_equal(fx(0.1) + fx(0.2), fx(0.3)));
}

#[test]
fn check_fuzzy_equal_on_vectors() {
    let vector = vector(5.0, 0.9, 0.15, VectorType::Vector);
    let vector = vector / fx(3.0);
    let cpm_vector = self::vector(1.666666666666, 0.3, 0.05, VectorType::Vector);

    assert_eq!(vector, cpm_vector);
}

#[test]
fn different_types_does_not_equal() {
    let vector = vector(1.0, 2.0, 3.0, VectorType::Vector);
    let color = self::vector(1.0, 2.0, 3.0, VectorType::Color);

    assert_ne!(vector, color);
}

#[test]
fn length_of_vector() {
    let length = vector(1.0, 2.0, 3.0, VectorType::Vector).len();

    assert!(fuzzy_equal(length, fx(3.741657)));
}

#[test]
fn dot_product_of_two_vectors() {
    let first = vector(1.0, 2.0, 3.0, VectorType::Vector);
    let second = vector(2.0, 3.0, 4.0, VectorType::Vector);

    let result = first.dot(&second);

    assert_eq!(result, fx(20.0));
}

#[test]
fn cross_product_of_two_vectors() {
    let first = vector(1.0, 2.0, 3.0, VectorType::Vector);
    let second = vector(2.0, 3.0, 4.0, VectorType::Vector);

    let result = first.cross(&second);
    let expected_result = vector(-1.0, 2.0, -1.0, VectorType::Vector);

    assert_eq!(result, expected_result)
}

#[test]
fn get_unit_vector() {
    let result = vector(1.0, 2.0, 3.0, VectorType::Vector).get_unit_vector();
    let expected_result = vector(0.2672, 0.5345, 0.8017, VectorType::Vector);

    assert_eq!(result, expected_result)
}

#[test]
fn sums_do_not_depend_on_the_order() {
    let a = vector(1.5, -2.25, 3.0, VectorType::Vector);
    let b = vector(-0.5, 4.0, 0.125, VectorType::Vector);
    let c = vector(10.0, 0.001, -7.5, VectorType::Vector);

    assert_eq!((a + b).data, (b + a).data);
    assert_eq!(((a + b) + c).data, (a + (b + c)).data);
    assert_eq!((a + b).data, (fx(1.0), fx(1.75), fx(3.125)));
}

#[test]
fn sum_takes_the_tag_of_the_left_operand() {
    let point = vector(1.0, 2.0, 3.0, VectorType::Point);
    let offset = vector(0.5, 0.5, 0.5, VectorType::Vector);

    assert_eq!((point + offset).data_type, VectorType::Point);
    assert_eq!((offset + point).data_type, VectorType::Vector);
    assert_eq!((point - offset).data_type, VectorType::Point);
    assert_eq!((point * offset).data_type, VectorType::Point);
    assert_eq!((point / offset).data_type, VectorType::Point);
    assert_eq!((fx(2.0) * point).data_type, VectorType::Point);
    assert_eq!(point.cross(&offset).data_type, VectorType::Point);
    assert_eq!(offset.cross(&point).data_type, VectorType::Vector);
}

#[test]
fn vector_and_its_opposite_sum_to_zero() {
    let a = vector(1.5, -2.25, 3.0, VectorType::Color);

    let sum = a + (-a);

    assert_eq!(sum.data, (fx(0.0), fx(0.0), fx(0.0)));
    assert_eq!(sum.data_type, VectorType::Color);
}

#[test]
fn scalar_times_vector_is_vector_times_scalar() {
    let a = vector(1.5, -2.25, 3.0, VectorType::Point);

    assert_eq!((fx(0.5) * a).data, (a * fx(0.5)).data);
    assert_eq!((fx(0.5) * a).data, (fx(0.75), fx(-1.125), fx(1.5)));
}

#[test]
fn orthogonal_unit_vectors_have_no_dot_product() {
    let x = vector(1.0, 0.0, 0.0, VectorType::Vector);
    let y = vector(0.0, 1.0, 0.0, VectorType::Vector);
    let z = vector(0.0, 0.0, 1.0, VectorType::Vector);
    let slanted = vector(0.6, 0.8, 0.0, VectorType::Vector);
    let across = vector(-0.8, 0.6, 0.0, VectorType::Vector);

    assert_eq!(x.dot(&y), fx(0.0));
    assert_eq!(y.dot(&z), fx(0.0));
    assert_eq!(z.dot(&x), fx(0.0));
    assert_eq!(slanted.dot(&across), fx(0.0));
    assert_eq!(slanted.dot(&z), fx(0.0));
    assert_eq!(x.dot(&x), fx(1.0));
}

#[test]
fn dot_product_does_not_depend_on_the_order() {
    let a = vector(1.5, -2.25, 3.0, VectorType::Vector);
    let b = vector(-0.5, 4.0, 0.125, VectorType::Vector);

    assert_eq!(a.dot(&b), b.dot(&a));
    assert_eq!(a.dot(&b), fx(-9.375));
}

#[test]
fn cross_product_is_as_long_as_the_sine_says() {
    let a = vector(2.0, 0.0, 0.0, VectorType::Vector);
    for degrees in [0.0f64, 30.0, 45.0, 90.0, 120.0, 180.0] {
        let angle = degrees.to_radians();
        let b = vector(3.0 * angle.cos(), 3.0 * angle.sin(), 0.0, VectorType::Vector);
        let length = a.cross(&b).len().raw as f64 / 1e9;
        assert!((length - 2.0 * 3.0 * angle.sin()).abs() < 1e-8);
    }
}

#[test]
fn cross_product_of_whole_vectors_is_exact() {
    let a = vector(3.0, -4.0, 12.0, VectorType::Vector);
    let b = vector(-7.0, 24.0, 1.0, VectorType::Vector);

    let c = a.cross(&b);

    assert_eq!(c.data, (fx(-292.0), fx(-87.0), fx(44.0)));
    assert_eq!(c.dot(&a), fx(0.0));
    assert_eq!(c.dot(&b), fx(0.0));
    assert_eq!(
        c.length_squared(),
        a.length_squared() * b.length_squared() - a.dot(&b) * a.dot(&b)
    );
    assert_eq!(c.data, (-b.cross(&a)).data);
}

#[test]
fn unit_vectors_are_one_long() {
    let vectors = [
        vector(1.0, 2.0, 3.0, VectorType::Vector),
        vector(-0.01, 0.0, 0.0, VectorType::Vector),
        vector(0.006, -0.006, 0.006, VectorType::Vector),
        vector(10000.0, -10000.0, 10000.0, VectorType::Vector),
        vector(-13.0, -2.0, -3.0, VectorType::Vector),
        vector(0.3, 0.0, -1000.0, VectorType::Vector),
    ];
    for v in vectors {
        let unit = v.get_unit_vector();
        assert!(fuzzy_equal(unit.len(), fx(1.0)));
        let excess = unit.length_squared().raw - 1_000_000_000;
        assert!(-9 <= excess && excess <= 30_200);
        assert_eq!(unit.data_type, VectorType::Vector);
    }
}

#[test]
fn unit_vector_of_a_short_vector_is_rounded_coarsely() {
    let short = vector(0.00004, 0.0, 0.0, VectorType::Vector);
    assert_eq!(short.length_squared(), Scalar::from_raw(1));
    assert_eq!(short.len(), Scalar::from_raw(31_622));
    assert_eq!(short.get_unit_vector().data.0, Scalar::from_raw(1_264_942_128));
}

#[test]
fn unit_vector_of_the_zero_vector_is_the_zero_vector() {
    let zero = vector(0.0, 0.0, 0.0, VectorType::Vector);
    assert_eq!(zero.get_unit_vector().data, zero.data);

    let tiny = Vector::new(Scalar::from_raw(5), Scalar::from_raw(-5), fx(0.0), VectorType::Vector);
    assert_eq!(tiny.len(), fx(0.0));
    assert_eq!(
        tiny.get_unit_vector().data,
        (
            Scalar::from_raw(9_223_372_036_854_775_807),
            Scalar::from_raw(-9_223_372_036_854_775_807),
            fx(0.0)
        )
    );
}

#[test]
fn fuzzy_equality_has_a_sharp_edge() {
    assert!(fuzzy_equal(fx(1.0), fx(1.000099999)));
    assert!(!fuzzy_equal(fx(1.0), fx(1.0001)));
    assert!(fuzzy_equal(fx(-1.0), fx(-1.000099999)));
    assert!(!fuzzy_equal(fx(-1.0), fx(-0.9999)));
    let a = vector(1.0, 2.0, 3.0, VectorType::Vector);
    assert_eq!(a, vector(1.00009, 1.99991, 3.0, VectorType::Vector));
    assert_ne!(a, vector(1.0001, 2.0, 3.0, VectorType::Vector));
}

#[test]
fn squared_length_is_the_dot_product_with_itself() {
    let a = vector(1.5, -2.25, 3.0, VectorType::Vector);
    assert_eq!(a.length_squared(), a.dot(&a));
    assert_eq!(a.length_squared(), fx(16.3125));
}

#[test]
fn cross_product_obeys_the_identity_of_lagrange_up_to_rounding() {
    let components = [-10.0, -3.7, -0.000123, 0.0, 0.5, 1.0, 2.718281828, 9.999999999, 10.0];
    let mut worst = 0i64;
    for (i, &x) in components.iter().enumerate() {
        for (j, &y) in components.iter().enumerate() {
            for (k, &z) in components.iter().enumerate() {
                let a = vector(x, y, z, VectorType::Vector);
                let b = vector(
                    components[(i + 2 * j + 1) % 9],
                    components[(j + 3 * k + 4) % 9],
                    components[(k + 5 * i + 7) % 9],
                    VectorType::Vector,
                );
                let c = a.cross(&b);
                let lhs = c.length_squared().raw;
                let rhs = (a.length_squared() * b.length_squared() - a.dot(&b) * a.dot(&b)).raw;
                assert!((lhs - rhs).abs() <= 6_002);
                assert!(c.dot(&a).raw.abs() <= 62);
                assert!(c.dot(&b).raw.abs() <= 62);
                worst = worst.max((lhs - rhs).abs());
            }
        }
    }
    assert!(worst > 0);
}
