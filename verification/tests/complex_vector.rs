use complex_numbers::binary32::Binary32;
use complex_numbers::complex::Complex;
use complex_numbers::complex_vector::{CVec, CVec2};

fn complex(re: f32, im: f32) -> Complex {
    Complex::new(Binary32::from_bits(re.to_bits()), Binary32::from_bits(im.to_bits()))
}

#[test]
fn test_cvec_add() {
    let a = CVec::new(vec![complex(1.0, 1.0), complex(-2.0, -2.0), complex(3.0, 4.0)]);
    let b = CVec::new(vec![complex(1.0, 1.0), complex(-5.0, 4.0), complex(2.0, 7.0)]);
    let sum = CVec::new(vec![complex(2.0, 2.0), complex(-7.0, 2.0), complex(5.0, 11.0)]);

    assert_eq!(sum.vector, a.add(&b).vector);
}

#[test]
fn test_cvec_inverse() {
    let a = CVec::new(vec![complex(1.0, 1.0), complex(-2.0, -2.0), complex(3.0, 4.0)]);
    let inverse_a = a.inverse();
    let zero_vec = CVec::new(vec![complex(0.0, 0.0), complex(0.0, 0.0), complex(0.0, 0.0)]);
    assert_eq!(zero_vec, a.add(&inverse_a));
}

#[test]
fn test_cvec_scalar_mul() {
    let a = CVec::new(vec![complex(1.0, 1.0), complex(-2.0, -2.0), complex(3.0, 4.0)]);
    let scalar = complex(1.0, 0.0);
    let product = CVec::new(vec![complex(1.0, 1.0), complex(-2.0, -2.0), complex(3.0, 4.0)]);
    assert_eq!(product, a.scalar_mul(&scalar));

    let scalar = complex(2.0, 2.0);
    let product = CVec::new(vec![complex(0.0, 4.0), complex(0.0, -8.0), complex(-2.0, 14.0)]);
    assert_eq!(product, a.scalar_mul(&scalar));
}

#[test]
fn test_cvec2_add() {
    let a = CVec2::new(vec![vec![complex(1.0, 1.0)], vec![complex(-2.0, -2.0)], vec![complex(3.0, 4.0)]]);
    let b = CVec2::new(vec![vec![complex(1.0, 1.0)], vec![complex(-5.0, 4.0)], vec![complex(2.0, 7.0)]]);
    let sum = CVec2::new(vec![vec![complex(2.0, 2.0)], vec![complex(-7.0, 2.0)], vec![complex(5.0, 11.0)]]);
    assert_eq!(sum.vector, a.add(&b).vector);
}

#[test]
fn test_cvec2_inverse() {
    let a = CVec2::new(vec![
        vec![complex(1.0, 1.0), complex(-2.0, -2.0)],
        vec![complex(3.0, 4.0), complex(-3.0, 4.0)],
    ]);
    let inverse_a = a.inverse();
    let zero_vec = CVec2::new(vec![
        vec![complex(0.0, 0.0), complex(0.0, 0.0)],
        vec![complex(0.0, 0.0), complex(0.0, 0.0)],
    ]);
    assert_eq!(zero_vec, a.add(&inverse_a));
}

#[test]
fn test_cvec2_scalar_mul() {
    let a = CVec2::new(vec![vec![complex(1.0, 1.0)], vec![complex(-2.0, -2.0)], vec![complex(3.0, 4.0)]]);
    let scalar = complex(1.0, 0.0);
    let product = CVec2::new(vec![vec![complex(1.0, 1.0)], vec![complex(-2.0, -2.0)], vec![complex(3.0, 4.0)]]);
    assert_eq!(product, a.scalar_mul(&scalar));

    let scalar = complex(2.0, 2.0);
    let product = CVec2::new(vec![vec![complex(0.0, 4.0)], vec![complex(0.0, -8.0)], vec![complex(-2.0, 14.0)]]);
    assert_eq!(product, a.scalar_mul(&scalar));
}

#[test]
fn adding_vectors_of_different_length_stops_at_the_shorter() {
    let a = CVec::new(vec![complex(1.0, 1.0), complex(-2.0, -2.0), complex(3.0, 4.0)]);
    let b = CVec::new(vec![complex(1.0, 1.0), complex(-5.0, 4.0)]);
    let sum = a.add(&b);
    assert_eq!(sum.vector.len(), 2);
    assert_eq!(sum, CVec::new(vec![complex(2.0, 2.0), complex(-7.0, 2.0)]));

    let empty = CVec::new(vec![]);
    assert_eq!(empty.add(&b).vector.len(), 0);
}

#[test]
fn adding_nested_vectors_stops_at_the_shorter_at_both_levels() {
    let a = CVec2::new(vec![
        vec![complex(1.0, 1.0), complex(2.0, 2.0)],
        vec![complex(3.0, 3.0)],
        vec![complex(4.0, 4.0)],
    ]);
    let b = CVec2::new(vec![vec![complex(1.0, 0.0)], vec![complex(1.0, 0.0), complex(9.0, 9.0)]]);
    let sum = a.add(&b);
    assert_eq!(sum.vector.len(), 2);
    assert_eq!(sum.vector[0].len(), 1);
    assert_eq!(sum.vector[1].len(), 1);
    assert_eq!(sum, CVec2::new(vec![vec![complex(2.0, 1.0)], vec![complex(4.0, 3.0)]]));
}

#[test]
fn inverse_multiplies_by_minus_one() {
    // x * (-1 + 0i) keeps the signs that the products and sums of zeros give
    let a = CVec::new(vec![complex(1.0, 0.0), complex(0.0, 0.0)]);
    let inv = a.inverse();
    let first = (1.0f32 * -1.0 - 0.0f32 * 0.0, 1.0f32 * 0.0 + 0.0f32 * -1.0);
    assert_eq!(inv.vector[0].real.to_bits(), first.0.to_bits());
    assert_eq!(inv.vector[0].imaginary.to_bits(), first.1.to_bits());
    let second = (0.0f32 * -1.0 - 0.0f32 * 0.0, 0.0f32 * 0.0 + 0.0f32 * -1.0);
    assert_eq!(inv.vector[1].real.to_bits(), second.0.to_bits());
    assert_eq!(inv.vector[1].imaginary.to_bits(), second.1.to_bits());
}

#[test]
fn vectors_with_a_nan_are_unequal_to_themselves() {
    let a = CVec::new(vec![complex(f32::NAN, 0.0)]);
    let b = CVec::new(vec![complex(f32::NAN, 0.0)]);
    assert!(a != b);
    let c = CVec2::new(vec![vec![complex(0.0, -0.0)]]);
    let d = CVec2::new(vec![vec![complex(-0.0, 0.0)]]);
    assert!(c == d);
}

#[derive(Debug)]
struct Plain {
    #[allow(dead_code)]
    real: f32,
    #[allow(dead_code)]
    imaginary: f32,
}

#[test]
fn the_text_of_a_vector_lists_its_elements() {
    let values = [(1.0f32, 2.0f32), (-6.0, -7.0), (0.12, -0.0), (1.0e20, 3.0e-7)];
    let a = CVec::new(values.iter().map(|v| complex(v.0, v.1)).collect());
    let plain: Vec<Plain> = values.iter().map(|v| Plain { real: v.0, imaginary: v.1 }).collect();
    let expected = format!("{:?}", plain).replace("Plain", "Complex");
    assert_eq!(a.to_display_string(), expected);
    assert_eq!(
        CVec::new(vec![complex(1.0, 2.0), complex(-6.0, -7.0)]).to_display_string(),
        "[Complex { real: 1.0, imaginary: 2.0 }, Complex { real: -6.0, imaginary: -7.0 }]"
    );
    assert_eq!(CVec::new(vec![]).to_display_string(), "[]");
    assert_eq!(
        CVec::new(vec![complex(0.5, 0.0)]).to_display_string(),
        "[Complex { real: 0.5, imaginary: 0.0 }]"
    );
}
