//! Powers of two: the facts about `pow2` that the arithmetic proofs share,
//! and the executable shifts that compute with them.
use vstd::arithmetic::power2::{
    lemma2_to64, lemma2_to64_rest, lemma_pow2_adds, lemma_pow2_pos,
    lemma_pow2_strictly_increases, lemma_pow2_unfold, pow2,
};
use vstd::prelude::*;

verus! {

/// `2^(a+b) = 2^a * 2^b`, and both factors are positive.
pub proof fn lemma_pow2_split(a: nat, b: nat)
    ensures
        pow2(a + b) == pow2(a) * pow2(b),
        pow2(a) > 0,
        pow2(b) > 0,
{
    lemma_pow2_adds(a, b);
    lemma_pow2_pos(a);
    lemma_pow2_pos(b);
}

/// The product of two scaled numbers.
pub proof fn lemma_scaled_product(x: int, a: nat, y: int, b: nat)
    ensures
        (x * pow2(a)) * (y * pow2(b)) == (x * y) * pow2(a + b),
{
    lemma_pow2_adds(a, b);
    let pa: int = pow2(a) as int;
    let pb: int = pow2(b) as int;
    assert((x * pa) * (y * pb) == (x * y) * (pa * pb)) by (nonlinear_arith);
}

/// `pow2` is monotone.
pub proof fn lemma_pow2_monotone(a: nat, b: nat)
    requires
        a <= b,
    ensures
        0 < pow2(a) <= pow2(b),
{
    lemma_pow2_pos(a);
    if a < b {
        lemma_pow2_strictly_increases(a, b);
    }
}

/// The values of the powers of two that bound the integer types in use.
pub proof fn lemma_pow2_values()
    ensures
        pow2(0) == 1,
        pow2(1) == 2,
        pow2(23) == 0x80_0000,
        pow2(24) == 0x100_0000,
        pow2(26) == 0x400_0000,
        pow2(30) == 0x4000_0000,
        pow2(31) == 0x8000_0000,
        pow2(32) == 0x1_0000_0000,
        pow2(64) == 0x1_0000_0000_0000_0000,
        pow2(120) == 0x100_0000_0000_0000_0000_0000_0000_0000,
        pow2(127) == 0x8000_0000_0000_0000_0000_0000_0000_0000,
        pow2(128) == 0x1_0000_0000_0000_0000_0000_0000_0000_0000,
{
    lemma2_to64();
    lemma2_to64_rest();
    lemma_pow2_adds(64, 56);
    lemma_pow2_adds(64, 63);
    lemma_pow2_adds(64, 64);
}

/// Shifting one to the left computes a power of two.
pub proof fn lemma_one_shl(s: u128)
    requires
        s < 128,
    ensures
        (1u128 << s) == pow2(s as nat),
    decreases s,
{
    if s == 0 {
        assert(1u128 << 0u128 == 1) by (bit_vector);
        lemma2_to64();
    } else {
        let t: u128 = (s - 1) as u128;
        lemma_one_shl(t);
        assert((1u128 << s) == 2 * (1u128 << t)) by (bit_vector)
            requires
                0 < s < 128,
                t == s - 1,
        ;
        lemma_pow2_unfold(s as nat);
    }
}

/// `2^s` as a machine integer.
pub fn pow2_u128(s: u32) -> (r: u128)
    requires
        s < 128,
    ensures
        r == pow2(s as nat),
        r > 0,
{
    proof {
        lemma_one_shl(s as u128);
        lemma_pow2_pos(s as nat);
    }
    1u128 << (s as u128)
}

} // verus!
