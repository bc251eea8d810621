//! The correctly rounded square root of a binary32 encoding.
use crate::binary32::{decompose, Binary32, INFINITY_ORDINAL, NAN_ORDINAL};
use crate::powers::{lemma_pow2_split, lemma_pow2_values, lemma_scaled_product};
use crate::rounding::{
    lemma_midpoint_increases, round_scaled, rounds_from, ticks, twice_midpoint, unit_ticks,
};
use vstd::arithmetic::power2::{lemma_pow2_pos, pow2};
use vstd::prelude::*;

verus! {

/// Whether `k` is the ordinal nearest to the square root of `n`, taken in
/// units of 2^-149, the tie between two neighbours going to the even one. A
/// midpoint is compared with the root by comparing their squares.
pub open spec fn is_nearest_root(n: nat, k: nat) -> bool {
    &&& k <= INFINITY_ORDINAL
    &&& k > 0 ==> {
        let below = twice_midpoint((k - 1) as nat);
        below * below < 4 * n || (below * below == 4 * n && k % 2 == 0)
    }
    &&& k < INFINITY_ORDINAL ==> {
        let above = twice_midpoint(k);
        4 * n < above * above || (4 * n == above * above && k % 2 == 0)
    }
}

/// The ordinal to which the square root of `n` rounds.
pub open spec fn round_root(n: nat) -> nat {
    choose|k: nat| is_nearest_root(n, k)
}

/// Squaring keeps the order of natural numbers.
proof fn lemma_square_order(a: int, b: int)
    by (nonlinear_arith)
    requires
        0 <= a,
        0 <= b,
    ensures
        a < b <==> a * a < b * b,
        a == b <==> a * a == b * b,
{
}

/// Of two ordinals nearest to one root the first is not the smaller.
proof fn lemma_root_not_below(n: nat, j: nat, k: nat)
    requires
        is_nearest_root(n, j),
        is_nearest_root(n, k),
    ensures
        j >= k,
{
    let above: int = twice_midpoint(j) as int;
    let below: int = twice_midpoint((k - 1) as nat) as int;
    if j < k - 1 {
        lemma_midpoint_increases(j, (k - 1) as nat);
        lemma_square_order(above, below);
    }
}

/// Some ordinal from `k` upwards is nearest to the root, if what lies below `k` is not.
proof fn lemma_root_from(n: nat, k: nat)
    requires
        k <= INFINITY_ORDINAL,
        k > 0 ==> {
            let below = twice_midpoint((k - 1) as nat);
            below * below < 4 * n || (below * below == 4 * n && k % 2 == 0)
        },
    ensures
        exists|r: nat| is_nearest_root(n, r),
    decreases INFINITY_ORDINAL - k,
{
    if is_nearest_root(n, k) {
    } else {
        lemma_root_from(n, k + 1);
    }
}

/// Every root rounds to an ordinal that is no NaN.
pub proof fn lemma_root_exists(n: nat)
    ensures
        is_nearest_root(n, round_root(n)),
        round_root(n) <= INFINITY_ORDINAL,
{
    lemma_root_from(n, 0);
}

/// The ordinal nearest to a root, once found, is the rounded one.
pub proof fn lemma_round_root_is(n: nat, k: nat)
    requires
        is_nearest_root(n, k),
    ensures
        round_root(n) == k,
{
    lemma_root_not_below(n, round_root(n), k);
    lemma_root_not_below(n, k, round_root(n));
}

/// The largest `r` whose square does not exceed `m`.
pub fn integer_root(m: u128) -> (r: u128)
    requires
        m < 0x4000_0000_0000_0000_0000,
    ensures
        r * r <= m < (r + 1) * (r + 1),
        r < 0x80_0000_0000,
{
    let mut low: u128 = 0;
    let mut high: u128 = 0x80_0000_0000;
    while high - low > 1
        invariant
            low < high <= 0x80_0000_0000,
            low * low <= m < high * high,
        decreases high - low,
    {
        let mid: u128 = low + (high - low) / 2;
        assert(mid * mid < 0x80_0000_0000 * 0x80_0000_0000) by (nonlinear_arith)
            requires
                0 <= mid < 0x80_0000_0000,
        ;
        if mid * mid <= m {
            low = mid;
        } else {
            high = mid;
        }
    }
    low
}

/// From the rounding of an integer root to the rounding of the root itself:
/// `m` is the radicand with root `r`, and `n` the value in the units of
/// [`is_nearest_root`] that it stands for.
proof fn lemma_rounds_root(m: nat, r: nat, e: int, inexact: bool, k: nat, n: nat)
    requires
        rounds_from(r, e, inexact, k),
        r * r <= m < (r + 1) * (r + 1),
        inexact == (r * r != m),
        m * (ticks(e) * ticks(e)) == n * (unit_ticks() * unit_ticks()),
    ensures
        is_nearest_root(n, k),
{
    let c: int = unit_ticks() as int;
    let f: int = ticks(e) as int;
    lemma_pow2_pos(512);
    lemma_pow2_pos((e + 661) as nat);
    let low: int = r * f;
    let high: int = (r + 1) * f;
    assert(low * low == (r * r) * (f * f)) by (nonlinear_arith)
        requires
            low == r * f,
    ;
    assert(high * high == ((r + 1) * (r + 1)) * (f * f)) by (nonlinear_arith)
        requires
            high == (r + 1) * f,
    ;
    let mff: int = m * (f * f);
    assert(low * low <= mff < high * high && (inexact ==> low * low < mff) && (!inexact
        ==> low * low == mff)) by (nonlinear_arith)
        requires
            low * low == (r * r) * (f * f),
            high * high == ((r + 1) * (r + 1)) * (f * f),
            r * r <= m < (r + 1) * (r + 1),
            inexact == (r * r != m),
            mff == m * (f * f),
            f > 0,
    {
        assert(f * f > 0);
    }
    if k > 0 {
        let h: int = twice_midpoint((k - 1) as nat) as int;
        lemma_square_order(h * c, 2 * low);
        assert((h * c) * (h * c) == (h * h) * (c * c)) by (nonlinear_arith);
        assert((2 * low) * (2 * low) == 4 * (low * low)) by (nonlinear_arith);
        assert(h * h < 4 * n || (h * h == 4 * n && k % 2 == 0)) by (nonlinear_arith)
            requires
                (h * h) * (c * c) < 4 * (n * (c * c)) || ((h * h) * (c * c) == 4 * (n * (c * c))
                    && k % 2 == 0),
                c > 0,
        {
            assert(c * c > 0);
            assert(4 * (n * (c * c)) == (4 * n) * (c * c));
        }
    }
    if k < INFINITY_ORDINAL {
        let h: int = twice_midpoint(k) as int;
        lemma_square_order(2 * low, h * c);
        lemma_square_order(2 * high, h * c);
        assert((h * c) * (h * c) == (h * h) * (c * c)) by (nonlinear_arith);
        assert((2 * low) * (2 * low) == 4 * (low * low)) by (nonlinear_arith);
        assert((2 * high) * (2 * high) == 4 * (high * high)) by (nonlinear_arith);
        assert(4 * n < h * h || (h * h == 4 * n && k % 2 == 0)) by (nonlinear_arith)
            requires
                4 * (n * (c * c)) < (h * h) * (c * c) || ((h * h) * (c * c) == 4 * (n * (c * c))
                    && k % 2 == 0),
                c > 0,
        {
            assert(c * c > 0);
            assert(4 * (n * (c * c)) == (4 * n) * (c * c));
        }
    }
}

impl Binary32 {
    /// The square root of a value: NaN of a NaN and of anything below zero, a
    /// zero of either sign and infinity unchanged, else the exact root, rounded.
    pub open spec fn root_of(a: Binary32) -> Binary32 {
        if a.is_nan() {
            Binary32::nan()
        } else if a.is_zero() {
            a
        } else if a.sign() {
            Binary32::nan()
        } else if a.is_infinite() {
            a
        } else {
            Binary32::from_parts(false, round_root(a.magnitude() * pow2(149)))
        }
    }

    /// Takes the square root.
    pub fn sqrt(self) -> (r: Binary32)
        ensures
            r == Binary32::root_of(self),
    {
        let k = self.ordinal_bits();
        if k > INFINITY_ORDINAL {
            return Binary32::pack(false, NAN_ORDINAL);
        }
        if k == 0 {
            return self;
        }
        if self.is_sign_negative() {
            return Binary32::pack(false, NAN_ORDINAL);
        }
        if k == INFINITY_ORDINAL {
            return self;
        }
        let (ms, es) = decompose(k);
        // an even exponent below the radicand, which then has 53 digits or more
        let odd: bool = (es + 150) % 2 == 1;
        let wide: u128 = if odd {
            (ms as u128) * 0x20_0000_0000_0000
        } else {
            (ms as u128) * 0x10_0000_0000_0000
        };
        let e: i32 = if odd {
            (es - 53) / 2
        } else {
            (es - 52) / 2
        };
        let root = integer_root(wide);
        let inexact: bool = root * root != wide;
        proof {
            lemma_pow2_values();
            assert(root >= 0x400_0000) by (nonlinear_arith)
                requires
                    wide >= 0x10_0000_0000_0000,
                    wide < (root + 1) * (root + 1),
                    root >= 0,
            ;
        }
        let found = round_scaled(root, e, inexact);
        proof {
            let n: nat = self.magnitude() * pow2(149);
            let c: int = unit_ticks() as int;
            let f: int = ticks(e as int) as int;
            let lift: nat = if odd { 53 } else { 52 };
            vstd::arithmetic::power2::lemma2_to64_rest();
            assert(wide == ms * pow2(lift));
            assert(es == 2 * e + lift);
            // both sides are ms * 2^(es + 1322)
            lemma_pow2_split((e + 661) as nat, (e + 661) as nat);
            lemma_pow2_split(512, 512);
            lemma_scaled_product(ms as int, lift, 1, (2 * e + 1322) as nat);
            lemma_scaled_product(ms as int, (es + 149) as nat, 1, 149);
            lemma_scaled_product(ms as int, (es + 298) as nat, 1, 1024);
            assert(wide * (f * f) == n * (c * c));
            lemma_rounds_root(wide as nat, root as nat, e as int, inexact, found as nat, n);
            lemma_round_root_is(n, found as nat);
            assert(Binary32::from_parts(self.sign(), self.ordinal()) == self);
        }
        Binary32::pack(false, found)
    }
}

} // verus!
