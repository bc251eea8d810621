//! Complex numbers in cartesian form, with binary32 components.
//!
//! A value is its pair of components and nothing else; the polar form is
//! computed when asked for. Every operation is total: where a component
//! overflows or is undefined, the infinity or NaN of the component
//! arithmetic comes out.
use crate::binary32::Binary32;
use vstd::prelude::*;
use vstd::string::StringExecFns;

verus! {

/// A complex number: a real and an imaginary component.
#[derive(Clone, Copy, Debug)]
pub struct Complex {
    pub real: Binary32,
    pub imaginary: Binary32,
}

impl Complex {
    /// The sum: component by component.
    pub open spec fn sum_of(a: Complex, b: Complex) -> Complex {
        Complex {
            real: Binary32::sum_of(a.real, b.real),
            imaginary: Binary32::sum_of(a.imaginary, b.imaginary),
        }
    }

    /// The value with both components negated.
    pub open spec fn negated(self) -> Complex {
        Complex { real: self.real.negated(), imaginary: self.imaginary.negated() }
    }

    /// The difference: the sum of the first and the negated second.
    pub open spec fn difference_of(a: Complex, b: Complex) -> Complex {
        Complex::sum_of(a, b.negated())
    }

    /// The product `(ar * br - ai * bi, ar * bi + ai * br)`, each product and
    /// each sum rounded on its own.
    pub open spec fn product_of(a: Complex, b: Complex) -> Complex {
        Complex {
            real: Binary32::difference_of(
                Binary32::product_of(a.real, b.real),
                Binary32::product_of(a.imaginary, b.imaginary),
            ),
            imaginary: Binary32::sum_of(
                Binary32::product_of(a.real, b.imaginary),
                Binary32::product_of(a.imaginary, b.real),
            ),
        }
    }

    /// The modulus: the root of the sum of the squares of the components.
    pub open spec fn modulus_of(a: Complex) -> Binary32 {
        Binary32::root_of(
            Binary32::sum_of(
                Binary32::product_of(a.real, a.real),
                Binary32::product_of(a.imaginary, a.imaginary),
            ),
        )
    }

    /// The quotient `((ar * br + ai * bi) / d, (br * ai - ar * bi) / d)`,
    /// where `d` is the square of the modulus of `b`. A divisor of modulus
    /// zero is not refused: the components then are what dividing by zero
    /// gives.
    pub open spec fn quotient_of(a: Complex, b: Complex) -> Complex {
        let modulus = Complex::modulus_of(b);
        let divisor = Binary32::product_of(modulus, modulus);
        Complex {
            real: Binary32::quotient_of(
                Binary32::sum_of(
                    Binary32::product_of(a.real, b.real),
                    Binary32::product_of(a.imaginary, b.imaginary),
                ),
                divisor,
            ),
            imaginary: Binary32::quotient_of(
                Binary32::difference_of(
                    Binary32::product_of(b.real, a.imaginary),
                    Binary32::product_of(a.real, b.imaginary),
                ),
                divisor,
            ),
        }
    }

    /// The conjugate: the imaginary component negated.
    pub open spec fn conjugate_of(a: Complex) -> Complex {
        Complex { real: a.real, imaginary: a.imaginary.negated() }
    }

    /// The cartesian components of the point at distance `modulus` from the
    /// origin in the direction whose cosine and sine are given.
    pub open spec fn cartesian_of(modulus: Binary32, cosine: Binary32, sine: Binary32) -> (
        Binary32,
        Binary32,
    ) {
        (Binary32::product_of(modulus, cosine), Binary32::product_of(modulus, sine))
    }

    /// The canonical text of the value: the texts of the two components,
    /// joined by a `+` unless the imaginary component is below zero, and
    /// closed by an `i`. A negative zero is not below zero, so its text
    /// follows the `+` with its own sign.
    pub open spec fn display_of(self) -> Seq<char> {
        if self.imaginary.below(Binary32::zero(false)) {
            self.real.text_of() + self.imaginary.text_of() + seq!['i']
        } else {
            self.real.text_of() + seq!['+'] + self.imaginary.text_of() + seq!['i']
        }
    }

    /// The structural text of the value: the name of the type and of each
    /// component, each component in its longer rendering.
    pub open spec fn debug_of(self) -> Seq<char> {
        "Complex { real: "@ + self.real.verbose_text_of() + ", imaginary: "@
            + self.imaginary.verbose_text_of() + " }"@
    }

    /// Equality of values: both components equal as values, so that a NaN
    /// component makes a value unequal to itself.
    pub open spec fn same_value(self, other: Complex) -> bool {
        self.real.same_value(other.real) && self.imaginary.same_value(other.imaginary)
    }

    /// Whether either component is a NaN.
    pub open spec fn has_nan(self) -> bool {
        self.real.is_nan() || self.imaginary.is_nan()
    }

    /// Whether both components are finite.
    pub open spec fn is_finite(self) -> bool {
        self.real.is_finite() && self.imaginary.is_finite()
    }

    /// The value with the given components.
    pub fn new(r: Binary32, i: Binary32) -> (c: Complex)
        ensures
            c.real == r,
            c.imaginary == i,
    {
        Complex { real: r, imaginary: i }
    }

    /// The value at distance `modulus` from the origin in the direction whose
    /// cosine and sine are given. A negative modulus gives the point opposite.
    pub fn new_from_polar(modulus: Binary32, cosine: Binary32, sine: Binary32) -> (c: Complex)
        ensures
            (c.real, c.imaginary) == Complex::cartesian_of(modulus, cosine, sine),
    {
        let (a, b) = Complex::polar_to_cartesian(modulus, cosine, sine);
        Complex::new(a, b)
    }

    /// The sum of the two values.
    pub fn add(&self, b: &Complex) -> (c: Complex)
        ensures
            c == Complex::sum_of(*self, *b),
    {
        let re = self.real.add(b.real);
        let im = self.imaginary.add(b.imaginary);
        Complex::new(re, im)
    }

    /// The difference, taken as the sum with the negated second value.
    pub fn sub(&self, b: &Complex) -> (c: Complex)
        ensures
            c == Complex::difference_of(*self, *b),
    {
        let neg_b = Complex::new(b.real.neg(), b.imaginary.neg());
        self.add(&neg_b)
    }

    /// The product of the two values.
    pub fn mul(&self, b: &Complex) -> (c: Complex)
        ensures
            c == Complex::product_of(*self, *b),
    {
        let re = self.real.mul(b.real).sub(self.imaginary.mul(b.imaginary));
        let im = self.real.mul(b.imaginary).add(self.imaginary.mul(b.real));
        Complex::new(re, im)
    }

    /// The quotient of the value by `b`. A `b` of modulus zero is not refused:
    /// the components are then infinities or NaN.
    pub fn div(&self, b: &Complex) -> (c: Complex)
        ensures
            c == Complex::quotient_of(*self, *b),
    {
        let modulus = b.modulus();
        let divisor = modulus.mul(modulus);
        let re = self.real.mul(b.real).add(self.imaginary.mul(b.imaginary)).div(divisor);
        let im = b.real.mul(self.imaginary).sub(self.real.mul(b.imaginary)).div(divisor);
        Complex::new(re, im)
    }

    /// The distance of the value from the origin.
    pub fn modulus(&self) -> (m: Binary32)
        ensures
            m == Complex::modulus_of(*self),
    {
        self.real.mul(self.real).add(self.imaginary.mul(self.imaginary)).sqrt()
    }

    /// The value mirrored at the real axis.
    pub fn conjugate(&self) -> (c: Complex)
        ensures
            c == Complex::conjugate_of(*self),
    {
        Complex::new(self.real, self.imaginary.neg())
    }

    /// The two components, real first.
    pub fn get_cartesian(&self) -> (r: (Binary32, Binary32))
        ensures
            r == (self.real, self.imaginary),
    {
        (self.real, self.imaginary)
    }

    /// The polar form of the value: its modulus, and with it the angle that
    /// the two-argument arctangent gives for its components.
    pub fn get_polar(&self, angle: Binary32) -> (r: (Binary32, Binary32))
        ensures
            r == (Complex::modulus_of(*self), angle),
    {
        Complex::cartesian_to_polar(self.real, self.imaginary, angle)
    }

    /// The polar form of the point `(a, b)`: its distance from the origin, and
    /// with it the angle that the two-argument arctangent gives for `b` and `a`.
    pub fn cartesian_to_polar(a: Binary32, b: Binary32, angle: Binary32) -> (r: (
        Binary32,
        Binary32,
    ))
        ensures
            r == (Complex::modulus_of(Complex { real: a, imaginary: b }), angle),
    {
        let c = Complex::new(a, b);
        (c.modulus(), angle)
    }

    /// The cartesian components of the point at distance `modulus` from the
    /// origin in the direction whose cosine and sine are given.
    pub fn polar_to_cartesian(modulus: Binary32, cosine: Binary32, sine: Binary32) -> (r: (
        Binary32,
        Binary32,
    ))
        ensures
            r == Complex::cartesian_of(modulus, cosine, sine),
    {
        (modulus.mul(cosine), modulus.mul(sine))
    }

    /// The structural text of the value.
    pub fn to_debug_string(&self) -> (text: String)
        ensures
            text@ == self.debug_of(),
    {
        let mut text = String::from_str("Complex { real: ");
        let re = self.real.to_verbose_text();
        text.append(re.as_str());
        text.append(", imaginary: ");
        let im = self.imaginary.to_verbose_text();
        text.append(im.as_str());
        text.append(" }");
        text
    }

    /// The canonical text of the value.
    pub fn to_display_string(&self) -> (text: String)
        ensures
            text@ == self.display_of(),
    {
        let mut text = self.real.to_text();
        if !self.imaginary.less_than(Binary32::pack(false, 0)) {
            text.append("+");
        }
        let im = self.imaginary.to_text();
        text.append(im.as_str());
        text.append("i");
        proof {
            reveal_strlit("+");
            reveal_strlit("i");
            assert("+"@ =~= seq!['+']);
            assert("i"@ =~= seq!['i']);
        }
        text
    }
}

} // verus!
