//! Correctly rounded arithmetic on binary32 encodings.
//!
//! Each operation is stated as a function of its operands' exact values: the
//! result is the encoding nearest to the exact sum, product, quotient or root,
//! ties going to the even neighbour, with the sign and the special values
//! that IEEE-754 prescribes. Every NaN result is the one quiet NaN of
//! [`Binary32::nan`].
use crate::binary32::{
    decompose, magnitude_of, Binary32, BINADE, INFINITY_ORDINAL, NAN_ORDINAL,
};
use crate::powers::{lemma_pow2_split, lemma_pow2_values, lemma_scaled_product};
use crate::rounding::{
    lemma_nearest_exact, lemma_round_is, lemma_rounds_quotient, round_nearest_even, round_scaled,
    ticks, twice_midpoint, unit_ticks,
};
use vstd::arithmetic::power2::{lemma_pow2_pos, pow2};
use vstd::prelude::*;

verus! {

/// Zero rounds to zero.
pub proof fn lemma_round_zero(d: nat)
    requires
        d > 0,
    ensures
        round_nearest_even(0, d) == 0,
{
    lemma_pow2_values();
    assert(magnitude_of(0) == 0);
    assert(magnitude_of(1) == 1);
    assert(twice_midpoint(0) * d > 0) by (nonlinear_arith)
        requires
            twice_midpoint(0) == 1,
            d > 0,
    ;
    lemma_round_is(0, d, 0);
}

impl Binary32 {
    /// The product of two values: NaN where either is NaN or one is zero and
    /// the other infinite; else the exact product, rounded, with the sign that
    /// the two signs give.
    pub open spec fn product_of(a: Binary32, b: Binary32) -> Binary32 {
        let sign = a.sign() != b.sign();
        if a.is_nan() || b.is_nan() {
            Binary32::nan()
        } else if a.is_infinite() || b.is_infinite() {
            if a.is_zero() || b.is_zero() {
                Binary32::nan()
            } else {
                Binary32::infinity(sign)
            }
        } else {
            Binary32::from_parts(
                sign,
                round_nearest_even(a.magnitude() * b.magnitude(), pow2(149)),
            )
        }
    }

    /// Multiplies two values.
    pub fn mul(self, rhs: Binary32) -> (r: Binary32)
        ensures
            r == Binary32::product_of(self, rhs),
    {
        let sign = self.is_sign_negative() != rhs.is_sign_negative();
        let ka = self.ordinal_bits();
        let kb = rhs.ordinal_bits();
        if ka > INFINITY_ORDINAL || kb > INFINITY_ORDINAL {
            return Binary32::pack(false, NAN_ORDINAL);
        }
        if ka == INFINITY_ORDINAL || kb == INFINITY_ORDINAL {
            if ka == 0 || kb == 0 {
                return Binary32::pack(false, NAN_ORDINAL);
            }
            return Binary32::pack(sign, INFINITY_ORDINAL);
        }
        if ka == 0 || kb == 0 {
            proof {
                lemma_pow2_pos(149);
                lemma_round_zero(pow2(149));
                assert(magnitude_of(0) == 0);
                assert(self.magnitude() * rhs.magnitude() == 0) by (nonlinear_arith)
                    requires
                        self.magnitude() == 0 || rhs.magnitude() == 0,
                ;
            }
            return Binary32::pack(sign, 0);
        }
        let (ma, ea) = decompose(ka);
        let (mb, eb) = decompose(kb);
        proof {
            lemma_pow2_values();
            assert(ma * mb < 0x100_0000 * 0x100_0000) by (nonlinear_arith)
                requires
                    0 < ma < 0x100_0000,
                    0 < mb < 0x100_0000,
            ;
            assert(ma * mb > 0) by (nonlinear_arith)
                requires
                    0 < ma,
                    0 < mb,
            ;
        }
        let m: u128 = (ma as u128) * (mb as u128);
        let e: i32 = ea + eb;
        let k = round_scaled(m, e, false);
        proof {
            let n: nat = self.magnitude() * rhs.magnitude();
            let d: nat = pow2(149);
            lemma_pow2_pos(149);
            // both sides are ma * mb * 2^(ea + eb + 810)
            lemma_scaled_product(ma as int, (ea + 149) as nat, mb as int, (eb + 149) as nat);
            lemma_scaled_product(ma * mb, (ea + eb + 298) as nat, 1, 512);
            lemma_scaled_product(ma * mb, (e + 661) as nat, 1, 149);
            assert(m * ticks(e as int) * d == n * unit_ticks());
            lemma_rounds_quotient(m as nat, e as int, false, k as nat, n, d);
            lemma_round_is(n, d, k as nat);
        }
        Binary32::pack(sign, k)
    }
}

/// The absolute value of an exact sum.
pub open spec fn distance(s: int) -> nat {
    if s < 0 {
        (-s) as nat
    } else {
        s as nat
    }
}

impl Binary32 {
    /// The sum of two values: NaN where either is NaN or the two are
    /// infinities of opposite sign; an infinite operand otherwise; else the
    /// exact sum, rounded. An exact sum of zero is +0, unless both operands
    /// are negative, which only two zeros can then be.
    pub open spec fn sum_of(a: Binary32, b: Binary32) -> Binary32 {
        if a.is_nan() || b.is_nan() {
            Binary32::nan()
        } else if a.is_infinite() {
            if b.is_infinite() && a.sign() != b.sign() {
                Binary32::nan()
            } else {
                Binary32::infinity(a.sign())
            }
        } else if b.is_infinite() {
            Binary32::infinity(b.sign())
        } else {
            let exact = a.scaled() + b.scaled();
            if exact == 0 {
                Binary32::zero(a.sign() && b.sign())
            } else {
                Binary32::from_parts(exact < 0, round_nearest_even(distance(exact), 1))
            }
        }
    }

    /// The difference of two values: the sum of the first and the negated second.
    pub open spec fn difference_of(a: Binary32, b: Binary32) -> Binary32 {
        Binary32::sum_of(a, b.negated())
    }

    /// Adds two finite values that are not zero, the first of which has the
    /// larger exponent or the same.
    fn add_ordered(sa: bool, ma: u32, ea: i32, sb: bool, mb: u32, eb: i32) -> (r: Binary32)
        requires
            0 < ma < 2 * BINADE,
            0 < mb < 2 * BINADE,
            -149 <= eb <= ea <= 104,
            ea > -149 ==> ma >= BINADE,
        ensures
            ({
                let va: int = ma * pow2((ea + 149) as nat);
                let vb: int = mb * pow2((eb + 149) as nat);
                let exact: int = (if sa { -va } else { va }) + (if sb { -vb } else { vb });
                if exact == 0 {
                    r == Binary32::zero(false)
                } else {
                    r == Binary32::from_parts(exact < 0, round_nearest_even(distance(exact), 1))
                }
            }),
    {
        let ghost va: int = ma * pow2((ea + 149) as nat);
        let ghost vb: int = mb * pow2((eb + 149) as nat);
        let ghost exact: int = (if sa { -va } else { va }) + (if sb { -vb } else { vb });
        let ghost unit: int = pow2((eb + 149) as nat) as int;
        let diff: i32 = ea - eb;
        proof {
            lemma_pow2_values();
            lemma_pow2_pos((eb + 149) as nat);
            lemma_pow2_pos((ea + 149) as nat);
        }
        if diff <= 64 {
            let scale: u128 = crate::powers::pow2_u128(diff as u32);
            proof {
                crate::powers::lemma_pow2_monotone(diff as nat, 64);
                assert(ma * scale < 0x100_0000 * 0x1_0000_0000_0000_0000) by (nonlinear_arith)
                    requires
                        0 < ma < 0x100_0000,
                        0 < scale <= 0x1_0000_0000_0000_0000,
                ;
                assert(ma * scale > 0) by (nonlinear_arith)
                    requires
                        0 < ma,
                        0 < scale,
                ;
                // the first operand in units of the second's exponent
                lemma_pow2_split(diff as nat, (eb + 149) as nat);
                assert(va == (ma * scale) * unit) by (nonlinear_arith)
                    requires
                        va == ma * (scale * unit),
                ;
            }
            let wide: u128 = (ma as u128) * scale;
            let small: u128 = mb as u128;
            let sign: bool;
            let m: u128;
            if sa == sb {
                sign = sa;
                m = wide + small;
            } else if wide > small {
                sign = sa;
                m = wide - small;
            } else if wide < small {
                sign = sb;
                m = small - wide;
            } else {
                proof {
                    assert(exact == 0);
                }
                return Binary32::pack(false, 0);
            }
            proof {
                assert(m * unit == distance(exact) && (exact < 0) == sign && exact != 0)
                    by (nonlinear_arith)
                    requires
                        va == wide * unit,
                        vb == small * unit,
                        unit > 0,
                        exact == (if sa { -va } else { va }) + (if sb { -vb } else { vb }),
                        distance(exact) == if exact < 0 { -exact } else { exact },
                        m > 0,
                        (sa == sb && sign == sa && m == wide + small)
                            || (sa != sb && wide > small && sign == sa && m == wide - small)
                            || (sa != sb && wide < small && sign == sb && m == small - wide),
                        wide > 0,
                        small > 0,
                ;
            }
            let k = round_scaled(m, eb, false);
            proof {
                let n: nat = distance(exact);
                let c: int = unit_ticks() as int;
                let f: int = ticks(eb as int) as int;
                lemma_scaled_product(m as int, (eb + 149) as nat, 1, 512);
                assert((m * unit) * (1 * c) == (m * 1) * f);
                assert(m * f * 1 == n * c) by (nonlinear_arith)
                    requires
                        (m * unit) * (1 * c) == (m * 1) * f,
                        n == m * unit,
                ;
                lemma_rounds_quotient(m as nat, eb as int, false, k as nat, n, 1);
                lemma_round_is(n, 1, k as nat);
            }
            Binary32::pack(sign, k)
        } else {
            // the second operand is less than one part in 2^40 of the first
            let wide: u128 = (ma as u128) * 0x4000_0000;
            let m: u128 = if sa == sb {
                wide
            } else {
                (wide - 1) as u128
            };
            let e: i32 = ea - 30;
            let k = round_scaled(m, e, true);
            proof {
                let n: nat = distance(exact);
                let f: int = pow2((e + 149) as nat) as int;
                lemma_pow2_pos((e + 149) as nat);
                lemma_pow2_split(30, (e + 149) as nat);
                assert(va == wide * f) by (nonlinear_arith)
                    requires
                        va == ma * (0x4000_0000 * f),
                        wide == ma * 0x4000_0000,
                ;
                // 0 < vb < 2^24 * 2^(eb + 149) <= f
                lemma_pow2_split(24, (eb + 149) as nat);
                crate::powers::lemma_pow2_monotone((eb + 173) as nat, (e + 149) as nat);
                assert(0 < vb < f) by (nonlinear_arith)
                    requires
                        vb == mb * unit,
                        0 < mb < 0x100_0000,
                        unit > 0,
                        0x100_0000 * unit <= f,
                ;
                assert((exact < 0) == sa && m * f < n < (m + 1) * f) by (nonlinear_arith)
                    requires
                        va == wide * f,
                        0 < vb < f,
                        wide > 1,
                        exact == (if sa { -va } else { va }) + (if sb { -vb } else { vb }),
                        n == if exact < 0 { -exact } else { exact },
                        m == if sa == sb { wide as int } else { wide - 1 },
                ;
                let c: int = unit_ticks() as int;
                lemma_pow2_pos(512);
                lemma_pow2_split((e + 149) as nat, 512);
                assert(ticks(e as int) == f * c);
                assert(m * ticks(e as int) * 1 < n * c < (m + 1) * ticks(e as int) * 1)
                    by (nonlinear_arith)
                    requires
                        ticks(e as int) == f * c,
                        m * f < n < (m + 1) * f,
                        c > 0,
                {
                    assert((m * f) * c < n * c);
                    assert(n * c < ((m + 1) * f) * c);
                }
                lemma_rounds_quotient(m as nat, e as int, true, k as nat, n, 1);
                lemma_round_is(n, 1, k as nat);
            }
            Binary32::pack(sa, k)
        }
    }

    /// Adds two values.
    pub fn add(self, rhs: Binary32) -> (r: Binary32)
        ensures
            r == Binary32::sum_of(self, rhs),
    {
        let sa = self.is_sign_negative();
        let sb = rhs.is_sign_negative();
        let ka = self.ordinal_bits();
        let kb = rhs.ordinal_bits();
        if ka > INFINITY_ORDINAL || kb > INFINITY_ORDINAL {
            return Binary32::pack(false, NAN_ORDINAL);
        }
        if ka == INFINITY_ORDINAL {
            if kb == INFINITY_ORDINAL && sa != sb {
                return Binary32::pack(false, NAN_ORDINAL);
            }
            return Binary32::pack(sa, INFINITY_ORDINAL);
        }
        if kb == INFINITY_ORDINAL {
            return Binary32::pack(sb, INFINITY_ORDINAL);
        }
        proof {
            lemma_pow2_values();
            assert(magnitude_of(0) == 0);
            if ka > 0 {
                crate::binary32::lemma_magnitude_increases(0, ka as nat);
            }
            if kb > 0 {
                crate::binary32::lemma_magnitude_increases(0, kb as nat);
            }
        }
        if ka == 0 && kb == 0 {
            return Binary32::pack(sa && sb, 0);
        }
        if ka == 0 {
            proof {
                lemma_nearest_exact(kb as nat);
                lemma_round_is(magnitude_of(kb as nat), 1, kb as nat);
            }
            return Binary32::pack(sb, kb);
        }
        if kb == 0 {
            proof {
                lemma_nearest_exact(ka as nat);
                lemma_round_is(magnitude_of(ka as nat), 1, ka as nat);
            }
            return Binary32::pack(sa, ka);
        }
        let (ma, ea) = decompose(ka);
        let (mb, eb) = decompose(kb);
        if ea >= eb {
            Binary32::add_ordered(sa, ma, ea, sb, mb, eb)
        } else {
            Binary32::add_ordered(sb, mb, eb, sa, ma, ea)
        }
    }

    /// Subtracts the second value from the first.
    pub fn sub(self, rhs: Binary32) -> (r: Binary32)
        ensures
            r == Binary32::difference_of(self, rhs),
    {
        self.add(rhs.neg())
    }
}

impl Binary32 {
    /// The quotient of two values: NaN where either is NaN, both are zero or
    /// both are infinite; an infinity where the first is infinite or the
    /// second is zero; else the exact quotient, rounded. The sign is what the
    /// two signs give.
    pub open spec fn quotient_of(a: Binary32, b: Binary32) -> Binary32 {
        let sign = a.sign() != b.sign();
        if a.is_nan() || b.is_nan() {
            Binary32::nan()
        } else if a.is_infinite() {
            if b.is_infinite() {
                Binary32::nan()
            } else {
                Binary32::infinity(sign)
            }
        } else if b.is_infinite() {
            Binary32::zero(sign)
        } else if b.is_zero() {
            if a.is_zero() {
                Binary32::nan()
            } else {
                Binary32::infinity(sign)
            }
        } else {
            Binary32::from_parts(
                sign,
                round_nearest_even(a.magnitude() * pow2(149), b.magnitude()),
            )
        }
    }

    /// Divides the first value by the second.
    pub fn div(self, rhs: Binary32) -> (r: Binary32)
        ensures
            r == Binary32::quotient_of(self, rhs),
    {
        let sign = self.is_sign_negative() != rhs.is_sign_negative();
        let ka = self.ordinal_bits();
        let kb = rhs.ordinal_bits();
        if ka > INFINITY_ORDINAL || kb > INFINITY_ORDINAL {
            return Binary32::pack(false, NAN_ORDINAL);
        }
        if ka == INFINITY_ORDINAL {
            if kb == INFINITY_ORDINAL {
                return Binary32::pack(false, NAN_ORDINAL);
            }
            return Binary32::pack(sign, INFINITY_ORDINAL);
        }
        if kb == INFINITY_ORDINAL {
            return Binary32::pack(sign, 0);
        }
        if kb == 0 {
            if ka == 0 {
                return Binary32::pack(false, NAN_ORDINAL);
            }
            return Binary32::pack(sign, INFINITY_ORDINAL);
        }
        proof {
            lemma_pow2_values();
            assert(magnitude_of(0) == 0);
            crate::binary32::lemma_magnitude_increases(0, kb as nat);
        }
        if ka == 0 {
            proof {
                lemma_round_zero(rhs.magnitude());
                assert(self.magnitude() * pow2(149) == 0) by (nonlinear_arith)
                    requires
                        self.magnitude() == 0,
                ;
            }
            return Binary32::pack(sign, 0);
        }
        let (ma, ea) = decompose(ka);
        let (mb, eb) = decompose(kb);
        let wide: u128 = (ma as u128) * 0x1_0000_0000_0000_0000;
        let q: u128 = wide / (mb as u128);
        let rem: u128 = wide % (mb as u128);
        let inexact: bool = rem != 0;
        let e: i32 = ea - eb - 64;
        proof {
            vstd::arithmetic::div_mod::lemma_fundamental_div_mod(wide as int, mb as int);
            assert(q >= 0x400_0000 && q < 0x100_0000_0000_0000_0000_0000_0000_0000 && q > 0)
                by (nonlinear_arith)
                requires
                    wide == mb * q + rem,
                    0 <= rem < mb,
                    0 < mb < 0x100_0000,
                    0x1_0000_0000_0000_0000 <= wide < 0x100_0000 * 0x1_0000_0000_0000_0000,
                    q >= 0,
            ;
        }
        let k = round_scaled(q, e, inexact);
        proof {
            let n: nat = self.magnitude() * pow2(149);
            let d: nat = rhs.magnitude();
            let c: int = unit_ticks() as int;
            let f: int = ticks(e as int) as int;
            let g: int = pow2((ea + 746) as nat) as int;
            lemma_pow2_pos((ea + 746) as nat);
            // n * c = wide * g
            lemma_scaled_product(ma as int, (ea + 149) as nat, 1, 149);
            lemma_scaled_product(ma as int, (ea + 298) as nat, 1, 512);
            lemma_scaled_product(ma as int, 64, 1, (ea + 746) as nat);
            assert(n * c == wide * g);
            // f * d = mb * g
            lemma_scaled_product(1, (e + 661) as nat, mb as int, (eb + 149) as nat);
            assert(f * d == mb * g);
            assert(!inexact ==> q * f * d == n * c) by (nonlinear_arith)
                requires
                    n * c == wide * g,
                    f * d == mb * g,
                    wide == mb * q + rem,
                    inexact == (rem != 0),
            {
                assert(q * f * d == q * (f * d));
                assert(q * (mb * g) == (mb * q) * g);
            }
            assert(inexact ==> q * f * d < n * c < (q + 1) * f * d) by (nonlinear_arith)
                requires
                    n * c == wide * g,
                    f * d == mb * g,
                    wide == mb * q + rem,
                    0 <= rem < mb,
                    inexact == (rem != 0),
                    g > 0,
            {
                assert(q * f * d == q * (f * d));
                assert((q + 1) * f * d == (q + 1) * (f * d));
                assert(q * (mb * g) == (mb * q) * g);
                assert((q + 1) * (mb * g) == (mb * q + mb) * g);
                if inexact {
                    assert((mb * q) * g < (mb * q + rem) * g);
                    assert((mb * q + rem) * g < (mb * q + mb) * g);
                }
            }
            lemma_rounds_quotient(q as nat, e as int, inexact, k as nat, n, d);
            lemma_round_is(n, d, k as nat);
        }
        Binary32::pack(sign, k)
    }
}

} // verus!
