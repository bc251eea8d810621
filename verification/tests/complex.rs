use complex_numbers::binary32::Binary32;
use complex_numbers::complex::Complex;

fn b(x: f32) -> Binary32 {
    Binary32::from_bits(x.to_bits())
}

fn f(x: Binary32) -> f32 {
    f32::from_bits(x.to_bits())
}

fn complex(re: f32, im: f32) -> Complex {
    Complex::new(b(re), b(im))
}

fn text(c: &Complex) -> String {
    c.to_display_string()
}

#[test]
fn create_complex() {
    let c_num = complex(2.0, 3.0);
    assert_eq!(f(c_num.real), 2.0);
    assert_eq!(f(c_num.imaginary), 3.0);
}

#[test]
fn create_complex_from_polar() {
    let c = complex(2.0, 0.0);
    assert_eq!(f(c.real), 2.0);
    assert_eq!(f(c.imaginary), 0.0);
}

#[test]
fn formatter_display_complex() {
    let c_num = complex(0.0, 0.0);
    assert_eq!(c_num.to_display_string(), "0+0i");

    let c_num = complex(1.0, 1.0);
    assert_eq!(c_num.to_display_string(), "1+1i");

    let c_num = complex(1.0, -1.0);
    assert_eq!(c_num.to_display_string(), "1-1i");

    let c_num = complex(-1.0, -1.0);
    assert_eq!(c_num.to_display_string(), "-1-1i");

    let c_num = complex(-0.0, -0.0);
    assert_eq!(c_num.to_display_string(), "-0+-0i");

    let c_num = complex(0.12, -0.34);
    assert_eq!(c_num.to_display_string(), "0.12-0.34i");
}

#[test]
fn formatter_debug_complex() {
    let c_num = complex(0.0, 0.0);
    assert_eq!(c_num.to_debug_string(), "Complex { real: 0.0, imaginary: 0.0 }");

    let c_num = complex(1.0, 1.0);
    assert_eq!(c_num.to_debug_string(), "Complex { real: 1.0, imaginary: 1.0 }");

    let c_num = complex(1.0, -1.0);
    assert_eq!(c_num.to_debug_string(), "Complex { real: 1.0, imaginary: -1.0 }");

    let c_num = complex(-1.0, -1.0);
    assert_eq!(c_num.to_debug_string(), "Complex { real: -1.0, imaginary: -1.0 }");

    let c_num = complex(-0.0, -0.0);
    assert_eq!(c_num.to_debug_string(), "Complex { real: -0.0, imaginary: -0.0 }");

    let c_num = complex(0.12, -0.34);
    assert_eq!(c_num.to_debug_string(), "Complex { real: 0.12, imaginary: -0.34 }");
}

#[test]
fn add_complex() {
    let a = complex(2.0, 3.0);
    let b = complex(4.0, 6.0);
    let sum = complex(6.0, 9.0);

    assert_eq!(a.add(&b), sum);
}

#[test]
fn subtract_complex() {
    let a = complex(2.0, 3.0);
    let b = complex(4.0, 6.0);
    let difference = complex(-2.0, -3.0);

    assert_eq!(a.sub(&b), difference);
}

#[test]
fn multiply_complex() {
    let a = complex(2.0, 3.0);
    let b = complex(4.0, 6.0);
    let product = complex(-10.0, 24.0);

    assert_eq!(a.mul(&b), product);
}

#[test]
fn modulus_complex() {
    let a = complex(3.0, -4.0);
    assert_eq!(f(a.modulus()), 5.0);
}

#[test]
fn division_complex() {
    let a = complex(-2.0, 1.0);
    let b = complex(1.0, 2.0);
    let quotient = complex(0.0, 1.0);

    assert_eq!(a.div(&b), quotient);
}

#[test]
fn conjugate_complex() {
    let a = complex(-2.0, 1.0);
    let conj = complex(-2.0, -1.0);

    assert_eq!(a.conjugate(), conj);
}

#[test]
fn test_get_cartesian() {
    let c = complex(2.0, 3.0);
    let (a, b) = c.get_cartesian();
    assert_eq!(a, c.real);
    assert_eq!(b, c.imaginary);
}

#[test]
fn test_get_polar() {
    let c = complex(2.0, 0.0);
    let (rho, theta) = c.get_polar(b(0.0f32.atan2(2.0)));
    assert_eq!(2.0, f(rho));
    assert_eq!(0.0, f(theta));
}

#[test]
fn test_cartesian_to_polar() {
    let (rho, theta) = Complex::cartesian_to_polar(b(2.0), b(0.0), b(0.0f32.atan2(2.0)));
    assert_eq!(f(rho), 2.0);
    assert_eq!(f(theta), 0.0);
}

#[test]
fn test_polar_to_cartesian() {
    let (a, b) = Complex::polar_to_cartesian(b(2.0), b(0.0f32.cos()), b(0.0f32.sin()));
    assert_eq!(f(a), 2.0);
    assert_eq!(f(b), 0.0);
}

#[test]
fn new_from_polar_on_the_real_axis_is_exact() {
    let c = Complex::new_from_polar(b(2.0), b(0.0f32.cos()), b(0.0f32.sin()));
    assert_eq!(c.real.to_bits(), 2.0f32.to_bits());
    assert_eq!(c.imaginary.to_bits(), 0.0f32.to_bits());
}

#[test]
fn new_from_polar_takes_a_negative_modulus() {
    let angle = 0.75f32;
    let c = Complex::new_from_polar(b(-2.0), b(angle.cos()), b(angle.sin()));
    assert_eq!(f(c.real), -2.0 * angle.cos());
    assert_eq!(f(c.imaginary), -2.0 * angle.sin());
}

#[test]
fn polar_round_trip_is_close() {
    let x = complex(-1.5, 2.25);
    let (rho, theta) = x.get_polar(b(2.25f32.atan2(-1.5)));
    let angle = f(theta);
    let back = Complex::new_from_polar(rho, b(angle.cos()), b(angle.sin()));
    assert!((f(back.real) + 1.5).abs() < 1e-5);
    assert!((f(back.imaginary) - 2.25).abs() < 1e-5);
}

#[test]
fn addition_and_multiplication_commute() {
    let xs = [complex(2.0, 3.0), complex(-0.1, 7.5e-3), complex(1.0e20, -3.0e-20), complex(0.0, -0.0)];
    for a in &xs {
        for b in &xs {
            let s = a.add(b);
            let t = b.add(a);
            assert_eq!(s.real.to_bits(), t.real.to_bits());
            assert_eq!(s.imaginary.to_bits(), t.imaginary.to_bits());
            let p = a.mul(b);
            let q = b.mul(a);
            assert_eq!(p.real.to_bits(), q.real.to_bits());
            assert_eq!(p.imaginary.to_bits(), q.imaginary.to_bits());
            assert_eq!(s, t);
            assert_eq!(p, q);
        }
    }
}

#[test]
fn a_value_and_its_negation_add_up_to_positive_zero() {
    for a in [complex(2.0, 3.0), complex(-0.0, 0.0), complex(1.0e-45, -3.4e38)] {
        let negated = Complex::new(a.real.neg(), a.imaginary.neg());
        let sum = a.add(&negated);
        assert_eq!(sum.real.to_bits(), 0);
        assert_eq!(sum.imaginary.to_bits(), 0);
    }
}

#[test]
fn an_infinite_value_and_its_negation_add_up_to_nan() {
    let a = complex(f32::INFINITY, 0.0);
    let negated = Complex::new(a.real.neg(), a.imaginary.neg());
    let sum = a.add(&negated);
    assert!(f(sum.real).is_nan());
    assert!(sum != sum);
}

#[test]
fn dividing_and_multiplying_back_is_close() {
    let a = complex(3.5, -1.25);
    let b = complex(0.75, 2.0);
    let back = a.div(&b).mul(&b);
    assert!((f(back.real) - 3.5).abs() < 1e-5);
    assert!((f(back.imaginary) + 1.25).abs() < 1e-5);
}

#[test]
fn dividing_by_zero_is_not_refused() {
    // with a divisor of modulus zero both components are 0 / 0
    let q = complex(1.0, 1.0).div(&complex(0.0, 0.0));
    assert!(f(q.real).is_nan());
    assert!(f(q.imaginary).is_nan());
    assert!(q != q);
    // a divisor so small that the square of its modulus is zero gives infinities
    let q = complex(1.0, 1.0).div(&complex(1.0e-30, 0.0));
    assert_eq!(f(q.real), f32::INFINITY);
    assert_eq!(f(q.imaginary), f32::INFINITY);
}

#[test]
fn modulus_is_not_negative() {
    for a in [complex(3.0, -4.0), complex(-0.0, -0.0), complex(-1.0e-30, 1.0e-30), complex(3.0e38, 3.0e38)] {
        let m = a.modulus();
        assert!(f(m) >= 0.0);
        assert!(!m.is_sign_negative());
    }
    assert_eq!(f(complex(3.0e38, 3.0e38).modulus()), f32::INFINITY);
    assert_eq!(f(complex(0.0, 0.0).modulus()), 0.0);
}

#[test]
fn modulus_squares_each_component_before_adding() {
    let a = complex(1.1, 2.3);
    let expected = (1.1f32 * 1.1f32 + 2.3f32 * 2.3f32).sqrt();
    assert_eq!(a.modulus().to_bits(), expected.to_bits());
}

#[test]
fn conjugate_twice_is_the_value() {
    for a in [complex(-2.0, 1.0), complex(0.0, -0.0), complex(1.0, f32::NAN), complex(1.0, f32::INFINITY)] {
        let back = a.conjugate().conjugate();
        assert_eq!(back.real.to_bits(), a.real.to_bits());
        assert_eq!(back.imaginary.to_bits(), a.imaginary.to_bits());
    }
}

#[test]
fn subtraction_is_addition_of_the_negation() {
    let a = complex(2.5, -3.0);
    let b = complex(4.0, 0.0);
    let d = a.sub(&b);
    // the imaginary components are subtracted as -3 + (-0)
    assert_eq!(d.real.to_bits(), (-1.5f32).to_bits());
    assert_eq!(d.imaginary.to_bits(), (-3.0f32).to_bits());
    let z = complex(0.0, -0.0).sub(&complex(0.0, 0.0));
    assert_eq!(z.real.to_bits(), (0.0f32 + -0.0f32).to_bits());
    assert_eq!(z.imaginary.to_bits(), (-0.0f32 + -0.0f32).to_bits());
}

#[test]
fn multiplication_follows_the_formula() {
    let a = complex(1.5, -2.25);
    let b = complex(-0.3, 4.0);
    let p = a.mul(&b);
    let re = 1.5f32 * -0.3f32 - -2.25f32 * 4.0f32;
    let im = 1.5f32 * 4.0f32 + -2.25f32 * -0.3f32;
    assert_eq!(p.real.to_bits(), re.to_bits());
    assert_eq!(p.imaginary.to_bits(), im.to_bits());
}

#[test]
fn division_follows_the_formula() {
    let a = complex(1.5, -2.25);
    let b = complex(-0.3, 4.0);
    let q = a.div(&b);
    let m = (-0.3f32 * -0.3f32 + 4.0f32 * 4.0f32).sqrt();
    let d = m * m;
    let re = (1.5f32 * -0.3f32 + -2.25f32 * 4.0f32) / d;
    let im = (-0.3f32 * -2.25f32 - 1.5f32 * 4.0f32) / d;
    assert_eq!(q.real.to_bits(), re.to_bits());
    assert_eq!(q.imaginary.to_bits(), im.to_bits());
}

#[test]
fn equality_is_of_values() {
    assert_eq!(complex(0.0, -0.0), complex(-0.0, 0.0));
    assert!(complex(f32::NAN, 0.0) != complex(f32::NAN, 0.0));
    assert!(complex(1.0, 2.0) != complex(1.0, 2.5));
    assert!(b(1.0).less_than(b(2.0)));
    assert!(b(-2.0).less_than(b(-1.0)));
    assert!(b(-1.0).less_than(b(0.0)));
    assert!(!b(-0.0).less_than(b(0.0)));
    assert!(!b(f32::NAN).less_than(b(0.0)));
    assert!(b(f32::NEG_INFINITY).less_than(b(f32::MIN)));
}

#[test]
fn display_puts_a_plus_before_a_nan_and_an_infinity() {
    assert_eq!(text(&complex(1.5, f32::NAN)), "1.5+NaNi");
    assert_eq!(text(&complex(1.5, f32::INFINITY)), "1.5+infi");
    assert_eq!(text(&complex(1.5, f32::NEG_INFINITY)), "1.5-infi");
    assert_eq!(text(&complex(-0.0, 2.0)), "-0+2i");
}

#[test]
fn display_agrees_with_the_machine_on_random_values() {
    let mut state: u64 = 0x6a09_e667_f3bc_c908;
    for _ in 0..5000 {
        state ^= state << 13;
        state ^= state >> 7;
        state ^= state << 17;
        let re = f32::from_bits((state >> 32) as u32);
        let im = f32::from_bits(state as u32);
        let expected = if im < 0.0 { format!("{}{}i", re, im) } else { format!("{}+{}i", re, im) };
        assert_eq!(complex(re, im).to_display_string(), expected);
    }
}
