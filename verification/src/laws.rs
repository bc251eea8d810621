//! What holds of the arithmetic for all operands.
//!
//! The laws are stated of the encodings that the operations return, which is
//! more than equality of values: equal encodings are equal values wherever no
//! NaN is involved, and a NaN result is one and the same encoding whichever
//! way it came about.
use crate::binary32::{lemma_magnitude_increases, magnitude_of, Binary32};
use crate::complex::Complex;
use crate::powers::lemma_pow2_values;
use crate::rounding::{
    lemma_nearest_exact, lemma_nearest_exists, lemma_nearest_rescale, lemma_round_is,
    twice_midpoint,
};
use crate::square_root::{lemma_root_exists, lemma_round_root_is};
use vstd::arithmetic::power2::{lemma_pow2_pos, pow2};
use vstd::prelude::*;

verus! {

/// An encoding that is no NaN equals itself as a value.
pub proof fn lemma_same_value_reflexive(a: Binary32)
    ensures
        a.same_value(a) <==> !a.is_nan(),
{
}

/// Addition of components commutes.
pub proof fn lemma_sum_commutes(a: Binary32, b: Binary32)
    ensures
        Binary32::sum_of(a, b) == Binary32::sum_of(b, a),
{
}

/// Multiplication of components commutes.
pub proof fn lemma_product_commutes(a: Binary32, b: Binary32)
    ensures
        Binary32::product_of(a, b) == Binary32::product_of(b, a),
{
    assert(a.magnitude() * b.magnitude() == b.magnitude() * a.magnitude()) by (nonlinear_arith);
}

/// Negating twice gives the encoding back.
pub proof fn lemma_negated_twice(a: Binary32)
    ensures
        a.negated().negated() == a,
{
}

/// A finite component and its negation add up to +0.
pub proof fn lemma_sum_with_negated(a: Binary32)
    requires
        a.is_finite(),
    ensures
        Binary32::sum_of(a, a.negated()) == Binary32::zero(false),
{
}

/// The sum, product, quotient and root of components that are no NaN have an
/// ordinal up to that of infinity wherever the operation rounds.
pub proof fn lemma_product_of_finite(a: Binary32, b: Binary32)
    requires
        a.is_finite(),
        b.is_finite(),
    ensures
        !Binary32::product_of(a, b).is_nan(),
        Binary32::product_of(a, b).sign() == (a.sign() != b.sign()),
{
    lemma_pow2_pos(149);
    lemma_nearest_exists(a.magnitude() * b.magnitude(), pow2(149));
}

/// The sum of two components without a sign bit, neither a NaN, is such a
/// component again.
pub proof fn lemma_sum_of_positive(a: Binary32, b: Binary32)
    requires
        !a.is_nan(),
        !b.is_nan(),
        !a.sign(),
        !b.sign(),
    ensures
        !Binary32::sum_of(a, b).is_nan(),
        !Binary32::sum_of(a, b).sign(),
{
    let exact = a.scaled() + b.scaled();
    if a.is_finite() && b.is_finite() && exact != 0 {
        lemma_nearest_exists(crate::arithmetic::distance(exact), 1);
    }
}

/// The root of a component without a sign bit that is no NaN is such a
/// component again.
pub proof fn lemma_root_of_positive(a: Binary32)
    requires
        !a.is_nan(),
        !a.sign(),
    ensures
        !Binary32::root_of(a).is_nan(),
        !Binary32::root_of(a).sign(),
{
    lemma_root_exists(a.magnitude() * pow2(149));
}

/// Addition commutes: the two sums are one encoding, and so equal as values
/// wherever neither component of the sum is a NaN.
pub proof fn lemma_add_commutes(a: Complex, b: Complex)
    ensures
        Complex::sum_of(a, b) == Complex::sum_of(b, a),
        !Complex::sum_of(a, b).has_nan() ==> Complex::sum_of(a, b).same_value(
            Complex::sum_of(b, a),
        ),
{
    lemma_sum_commutes(a.real, b.real);
    lemma_sum_commutes(a.imaginary, b.imaginary);
    lemma_same_value_reflexive(Complex::sum_of(a, b).real);
    lemma_same_value_reflexive(Complex::sum_of(a, b).imaginary);
}

/// Multiplication commutes: the two products are one encoding, and so equal
/// as values wherever neither component of the product is a NaN.
pub proof fn lemma_mul_commutes(a: Complex, b: Complex)
    ensures
        Complex::product_of(a, b) == Complex::product_of(b, a),
        !Complex::product_of(a, b).has_nan() ==> Complex::product_of(a, b).same_value(
            Complex::product_of(b, a),
        ),
{
    lemma_product_commutes(a.real, b.real);
    lemma_product_commutes(a.imaginary, b.imaginary);
    lemma_product_commutes(a.real, b.imaginary);
    lemma_product_commutes(a.imaginary, b.real);
    lemma_sum_commutes(
        Binary32::product_of(a.real, b.imaginary),
        Binary32::product_of(a.imaginary, b.real),
    );
}

/// A value with finite components and its negation add up to +0 + 0i, bit for bit.
pub proof fn lemma_additive_inverse(a: Complex)
    requires
        a.is_finite(),
    ensures
        Complex::sum_of(a, a.negated()) == (Complex {
            real: Binary32::zero(false),
            imaginary: Binary32::zero(false),
        }),
{
    lemma_sum_with_negated(a.real);
    lemma_sum_with_negated(a.imaginary);
}

/// The conjugate of the conjugate is the value itself, bit for bit, and so
/// equal to it as a value wherever neither component is a NaN.
pub proof fn lemma_conjugate_involution(a: Complex)
    ensures
        Complex::conjugate_of(Complex::conjugate_of(a)) == a,
        !a.has_nan() ==> Complex::conjugate_of(Complex::conjugate_of(a)).same_value(a),
{
    lemma_negated_twice(a.imaginary);
}

/// The modulus of a value with finite components is not below zero: it is
/// no NaN and carries no sign, though it may be infinite where the squares
/// overflow.
pub proof fn lemma_modulus_not_negative(a: Complex)
    requires
        a.is_finite(),
    ensures
        Binary32::zero(false).at_most(Complex::modulus_of(a)),
        !Complex::modulus_of(a).sign(),
{
    let p = Binary32::product_of(a.real, a.real);
    let q = Binary32::product_of(a.imaginary, a.imaginary);
    lemma_product_of_finite(a.real, a.real);
    lemma_product_of_finite(a.imaginary, a.imaginary);
    lemma_sum_of_positive(p, q);
    lemma_root_of_positive(Binary32::sum_of(p, q));
    lemma_pow2_values();
    assert(magnitude_of(0) == 0);
}

/// Where the exact sum of two finite components is a value of the format
/// other than zero, the sum is that value: nothing is rounded.
pub proof fn lemma_sum_exact(a: Binary32, b: Binary32, r: Binary32)
    requires
        a.is_finite(),
        b.is_finite(),
        r.is_finite(),
        r.scaled() == a.scaled() + b.scaled(),
        r.scaled() != 0,
    ensures
        Binary32::sum_of(a, b) == r,
{
    lemma_nearest_exact(r.ordinal());
    lemma_round_is(r.magnitude(), 1, r.ordinal());
}

/// Where the exact product of two finite components is a value of the
/// format, the product is that value with the sign that the two signs give.
pub proof fn lemma_product_exact(a: Binary32, b: Binary32, r: Binary32)
    requires
        a.is_finite(),
        b.is_finite(),
        r.is_finite(),
        r.magnitude() * pow2(149) == a.magnitude() * b.magnitude(),
        r.sign() == (a.sign() != b.sign()),
    ensures
        Binary32::product_of(a, b) == r,
{
    lemma_pow2_pos(149);
    lemma_nearest_exact(r.ordinal());
    lemma_nearest_rescale(
        r.magnitude(),
        1,
        a.magnitude() * b.magnitude(),
        pow2(149),
        r.ordinal(),
    );
    lemma_round_is(a.magnitude() * b.magnitude(), pow2(149), r.ordinal());
}

/// Where the exact quotient of two finite components, the second not zero,
/// is a value of the format, the quotient is that value with the sign that
/// the two signs give.
pub proof fn lemma_quotient_exact(a: Binary32, b: Binary32, r: Binary32)
    requires
        a.is_finite(),
        b.is_finite(),
        !b.is_zero(),
        r.is_finite(),
        r.magnitude() * b.magnitude() == a.magnitude() * pow2(149),
        r.sign() == (a.sign() != b.sign()),
    ensures
        Binary32::quotient_of(a, b) == r,
{
    lemma_pow2_values();
    assert(magnitude_of(0) == 0);
    lemma_magnitude_increases(0, b.ordinal());
    lemma_nearest_exact(r.ordinal());
    lemma_nearest_rescale(
        r.magnitude(),
        1,
        a.magnitude() * pow2(149),
        b.magnitude(),
        r.ordinal(),
    );
    lemma_round_is(a.magnitude() * pow2(149), b.magnitude(), r.ordinal());
}

/// Where the exact root of a finite component above zero is a value of the
/// format, the root is that value.
pub proof fn lemma_root_exact(a: Binary32, r: Binary32)
    requires
        a.is_finite(),
        !a.is_zero(),
        !a.sign(),
        r.is_finite(),
        !r.sign(),
        r.magnitude() * r.magnitude() == a.magnitude() * pow2(149),
    ensures
        Binary32::root_of(a) == r,
{
    let k = r.ordinal();
    let v: int = r.magnitude() as int;
    if k > 0 {
        lemma_magnitude_increases((k - 1) as nat, k);
        let h: int = twice_midpoint((k - 1) as nat) as int;
        assert(h * h < 4 * (v * v)) by (nonlinear_arith)
            requires
                0 <= h < 2 * v,
        ;
    }
    lemma_magnitude_increases(k, k + 1);
    let h: int = twice_midpoint(k) as int;
    assert(4 * (v * v) < h * h) by (nonlinear_arith)
        requires
            0 <= 2 * v < h,
    ;
    lemma_round_root_is(a.magnitude() * pow2(149), k);
}

} // verus!
