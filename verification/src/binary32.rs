//! The IEEE-754 binary32 format, read off its 32-bit encoding.
//!
//! An encoding splits into a sign bit and 31 further bits, here called its
//! ordinal: the nonnegative values, from zero through the subnormal and normal
//! numbers up to infinity, are exactly the ordinals 0 to `INFINITY_ORDINAL`
//! in increasing order, and every larger ordinal is a NaN. All values are
//! measured in units of 2^-149, the smallest subnormal, so that the magnitude
//! of every finite encoding is a natural number.
use crate::powers::lemma_pow2_values;
use vstd::arithmetic::power2::{lemma_pow2_pos, lemma_pow2_unfold, pow2};
use vstd::prelude::*;

verus! {

/// The sign bit of an encoding.
pub const SIGN_BIT: u32 = 0x8000_0000;

/// The number of encodings with one exponent: two to the width of the fraction field.
pub const BINADE: u32 = 0x80_0000;

/// The ordinal of infinity; the finite ordinals lie below it and the NaNs above.
pub const INFINITY_ORDINAL: u32 = 0x7f80_0000;

/// The ordinal of the NaN that arithmetic returns.
pub const NAN_ORDINAL: u32 = 0x7fc0_0000;

/// A binary32 value, held as its encoding.
#[derive(Clone, Copy, Debug)]
pub struct Binary32 {
    pub bits: u32,
}

/// The magnitude, in units of 2^-149, of the value with ordinal `k`.
/// Infinity's ordinal is read as 2^128, the value that would follow the
/// largest finite one.
pub open spec fn magnitude_of(k: nat) -> nat {
    let exponent = k / (BINADE as nat);
    let fraction = k % (BINADE as nat);
    if exponent == 0 {
        fraction
    } else {
        ((BINADE + fraction) * pow2((exponent - 1) as nat)) as nat
    }
}

/// The exponent, over 2^-149, of the distance from the value with ordinal `k`
/// to the next one.
pub open spec fn gap_exponent(k: nat) -> nat {
    let exponent = k / (BINADE as nat);
    if exponent == 0 {
        0
    } else {
        (exponent - 1) as nat
    }
}

/// The step from one ordinal to the next is one unit in the last place.
pub proof fn lemma_magnitude_step(k: nat)
    ensures
        magnitude_of(k + 1) == magnitude_of(k) + pow2(gap_exponent(k)),
{
    let e: nat = k / (BINADE as nat);
    let f: nat = k % (BINADE as nat);
    lemma_pow2_values();
    if f + 1 < BINADE {
        assert((k + 1) / (BINADE as nat) == e);
        assert((k + 1) % (BINADE as nat) == f + 1);
        if e > 0 {
            let p = pow2((e - 1) as nat);
            assert((BINADE + f + 1) * p == (BINADE + f) * p + p) by (nonlinear_arith);
        }
    } else {
        assert((k + 1) / (BINADE as nat) == e + 1);
        assert((k + 1) % (BINADE as nat) == 0);
        if e > 0 {
            let p = pow2((e - 1) as nat);
            lemma_pow2_unfold(e);
            assert(pow2(e) == 2 * p);
            assert((BINADE + f) * p + p == BINADE * (2 * p)) by (nonlinear_arith)
                requires
                    f + 1 == BINADE,
            ;
        }
    }
}

/// Magnitudes grow strictly with the ordinal.
pub proof fn lemma_magnitude_increases(j: nat, k: nat)
    requires
        j < k,
    ensures
        magnitude_of(j) < magnitude_of(k),
    decreases k - j,
{
    lemma_magnitude_step(j);
    lemma_pow2_pos(gap_exponent(j));
    if j + 1 < k {
        lemma_magnitude_increases(j + 1, k);
    }
}

/// The ordinal whose significand, counted in units of `2^gap`, is `significand`.
pub open spec fn ordinal_of(gap: nat, significand: nat) -> nat {
    gap * (BINADE as nat) + significand
}

/// The magnitude of the ordinal built from a gap exponent and a significand.
/// The significand may be a full `2 * BINADE`, where the ordinal is the first
/// of the next exponent.
pub proof fn lemma_magnitude_of_parts(gap: nat, significand: nat)
    requires
        significand <= 2 * BINADE,
        gap > 0 ==> significand >= BINADE,
    ensures
        magnitude_of(ordinal_of(gap, significand)) == significand * pow2(gap),
        significand < 2 * BINADE ==> gap_exponent(ordinal_of(gap, significand)) == gap,
{
    let k: nat = ordinal_of(gap, significand);
    let b: nat = BINADE as nat;
    lemma_pow2_values();
    if significand < BINADE {
        assert(gap == 0);
        assert(k == significand);
        assert(k / b == 0);
        assert(k % b == k);
        assert(significand * 1 == significand);
    } else if significand < 2 * BINADE {
        let f = (significand - BINADE) as nat;
        assert(k == (gap + 1) * b + f) by (nonlinear_arith)
            requires
                k == gap * b + significand,
                f == significand - b,
        ;
        vstd::arithmetic::div_mod::lemma_fundamental_div_mod_converse(
            k as int,
            b as int,
            (gap + 1) as int,
            f as int,
        );
        assert(k / b == gap + 1);
        assert(k % b == f);
    } else {
        assert(k == (gap + 2) * b) by (nonlinear_arith)
            requires
                k == gap * b + significand,
                significand == 2 * b,
        ;
        vstd::arithmetic::div_mod::lemma_fundamental_div_mod_converse(
            k as int,
            b as int,
            (gap + 2) as int,
            0,
        );
        assert(k / b == gap + 2);
        assert(k % b == 0);
        lemma_pow2_unfold(gap + 1);
        let p = pow2(gap);
        assert(b * (2 * p) == (2 * b) * p) by (nonlinear_arith);
    }
}

impl Binary32 {
    /// Whether the sign bit is set.
    pub open spec fn sign(self) -> bool {
        self.bits >= SIGN_BIT
    }

    /// The encoding without its sign bit.
    pub open spec fn ordinal(self) -> nat {
        (self.bits % SIGN_BIT) as nat
    }

    /// Whether the encoding is one of a NaN.
    pub open spec fn is_nan(self) -> bool {
        self.ordinal() > INFINITY_ORDINAL
    }

    /// Whether the value is an infinity.
    pub open spec fn is_infinite(self) -> bool {
        self.ordinal() == INFINITY_ORDINAL
    }

    /// Whether the value is a number, zero included.
    pub open spec fn is_finite(self) -> bool {
        self.ordinal() < INFINITY_ORDINAL
    }

    /// Whether the value is a zero, of either sign.
    pub open spec fn is_zero(self) -> bool {
        self.ordinal() == 0
    }

    /// The absolute value in units of 2^-149; meant for encodings that are no NaN.
    pub open spec fn magnitude(self) -> nat {
        magnitude_of(self.ordinal())
    }

    /// The value in units of 2^-149; meant for encodings that are no NaN.
    pub open spec fn scaled(self) -> int {
        if self.sign() {
            -(self.magnitude() as int)
        } else {
            self.magnitude() as int
        }
    }

    /// The encoding with the given sign and ordinal.
    pub open spec fn from_parts(sign: bool, ordinal: nat) -> Binary32 {
        Binary32 {
            bits: if sign {
                (ordinal + SIGN_BIT) as u32
            } else {
                ordinal as u32
            },
        }
    }

    /// Zero with the given sign.
    pub open spec fn zero(sign: bool) -> Binary32 {
        Binary32::from_parts(sign, 0)
    }

    /// Infinity with the given sign.
    pub open spec fn infinity(sign: bool) -> Binary32 {
        Binary32::from_parts(sign, INFINITY_ORDINAL as nat)
    }

    /// The NaN that arithmetic returns.
    pub open spec fn nan() -> Binary32 {
        Binary32::from_parts(false, NAN_ORDINAL as nat)
    }

    /// The value with the opposite sign bit.
    pub open spec fn negated(self) -> Binary32 {
        Binary32::from_parts(!self.sign(), self.ordinal())
    }
}

impl Binary32 {
    /// The value with the given encoding.
    pub fn from_bits(bits: u32) -> (r: Binary32)
        ensures
            r.bits == bits,
    {
        Binary32 { bits }
    }

    /// The encoding of the value.
    pub fn to_bits(self) -> (bits: u32)
        ensures
            bits == self.bits,
    {
        self.bits
    }

    /// Whether the sign bit is set, which it may be on a zero and on a NaN too.
    pub fn is_sign_negative(self) -> (r: bool)
        ensures
            r == self.sign(),
    {
        self.bits >= SIGN_BIT
    }

    /// The encoding without its sign bit.
    pub fn ordinal_bits(self) -> (k: u32)
        ensures
            k == self.ordinal(),
            k < SIGN_BIT,
    {
        if self.bits >= SIGN_BIT {
            self.bits - SIGN_BIT
        } else {
            self.bits
        }
    }

    /// Puts a sign and an ordinal together.
    pub fn pack(sign: bool, ordinal: u32) -> (r: Binary32)
        requires
            ordinal < SIGN_BIT,
        ensures
            r == Binary32::from_parts(sign, ordinal as nat),
            r.sign() == sign,
            r.ordinal() == ordinal,
    {
        if sign {
            Binary32 { bits: ordinal + SIGN_BIT }
        } else {
            Binary32 { bits: ordinal }
        }
    }

    /// The value with the opposite sign bit. Nothing else changes, whatever the value is.
    pub fn neg(self) -> (r: Binary32)
        ensures
            r == self.negated(),
    {
        Binary32::pack(!self.is_sign_negative(), self.ordinal_bits())
    }
}

/// The significand and exponent of a finite ordinal, whose value is
/// `significand * 2^exponent`. The significand has 24 digits, the leading one
/// set, but for the subnormal values, which share the least exponent.
pub fn decompose(ordinal: u32) -> (r: (u32, i32))
    requires
        ordinal < INFINITY_ORDINAL,
    ensures
        magnitude_of(ordinal as nat) == r.0 * pow2((r.1 + 149) as nat),
        r.0 < 2 * BINADE,
        -149 <= r.1 <= 104,
        r.1 > -149 ==> r.0 >= BINADE,
        ordinal > 0 ==> r.0 > 0,
        gap_exponent(ordinal as nat) == r.1 + 149,
        ordinal > 0 ==> gap_exponent((ordinal - 1) as nat) == if r.0 == BINADE && r.1 > -149 {
            r.1 + 148
        } else {
            r.1 + 149
        },
{
    let exponent: u32 = ordinal / BINADE;
    let fraction: u32 = ordinal % BINADE;
    proof {
        lemma_pow2_values();
    }
    if exponent == 0 {
        assert(fraction * pow2(0) == fraction);
        (fraction, -149)
    } else {
        let e: i32 = (exponent as i32) - 150;
        assert((e + 149) as nat == (exponent - 1) as nat);
        (BINADE + fraction, e)
    }
}

impl Binary32 {
    /// Equality of values: no NaN equals anything, and the two zeros are equal.
    pub open spec fn same_value(self, other: Binary32) -> bool {
        !self.is_nan() && !other.is_nan() && self.scaled() == other.scaled()
    }

    /// The order of values: no NaN is below or above anything, and neither
    /// zero is below the other.
    pub open spec fn below(self, other: Binary32) -> bool {
        !self.is_nan() && !other.is_nan() && self.scaled() < other.scaled()
    }

    /// Below or equal.
    pub open spec fn at_most(self, other: Binary32) -> bool {
        !self.is_nan() && !other.is_nan() && self.scaled() <= other.scaled()
    }

    /// Two encodings that are no NaN stand for one value only where they are
    /// the same encoding or both are zeros.
    pub proof fn lemma_same_value(self, other: Binary32)
        requires
            !self.is_nan(),
            !other.is_nan(),
        ensures
            self.scaled() == other.scaled() <==> (self == other || (self.is_zero()
                && other.is_zero())),
    {
        let j = self.ordinal();
        let k = other.ordinal();
        lemma_pow2_values();
        assert(magnitude_of(0) == 0);
        if j > 0 {
            lemma_magnitude_increases(0, j);
        }
        if k > 0 {
            lemma_magnitude_increases(0, k);
        }
        if j < k {
            lemma_magnitude_increases(j, k);
        }
        if k < j {
            lemma_magnitude_increases(k, j);
        }
    }

    /// Whether the two are equal as values.
    pub fn equals(self, other: Binary32) -> (r: bool)
        ensures
            r == self.same_value(other),
    {
        let j = self.ordinal_bits();
        let k = other.ordinal_bits();
        if j > INFINITY_ORDINAL || k > INFINITY_ORDINAL {
            return false;
        }
        proof {
            self.lemma_same_value(other);
        }
        self.bits == other.bits || (j == 0 && k == 0)
    }

    /// Whether the first is below the second.
    pub fn less_than(self, other: Binary32) -> (r: bool)
        ensures
            r == self.below(other),
    {
        let j = self.ordinal_bits();
        let k = other.ordinal_bits();
        if j > INFINITY_ORDINAL || k > INFINITY_ORDINAL {
            return false;
        }
        proof {
            lemma_pow2_values();
            assert(magnitude_of(0) == 0);
            if j > 0 {
                lemma_magnitude_increases(0, j as nat);
            }
            if k > 0 {
                lemma_magnitude_increases(0, k as nat);
            }
            if j < k {
                lemma_magnitude_increases(j as nat, k as nat);
            }
            if k < j {
                lemma_magnitude_increases(k as nat, j as nat);
            }
        }
        if self.is_sign_negative() {
            if other.is_sign_negative() {
                j > k
            } else {
                j != 0 || k != 0
            }
        } else {
            if other.is_sign_negative() {
                false
            } else {
                j < k
            }
        }
    }
}

} // verus!
