//! Rounding to nearest, ties to even: what it means for an ordinal to be the
//! correctly rounded image of an exact value, and the one executable function
//! through which every arithmetic operation produces its result.
use crate::binary32::{
    lemma_magnitude_increases, lemma_magnitude_of_parts, lemma_magnitude_step, magnitude_of,
    ordinal_of, BINADE, INFINITY_ORDINAL,
};
use crate::powers::{lemma_pow2_monotone, lemma_pow2_split, lemma_pow2_values, pow2_u128};
use vstd::arithmetic::power2::{lemma_pow2_pos, lemma_pow2_unfold, pow2};
use vstd::prelude::*;

verus! {

/// Twice the midpoint between the values with ordinals `k` and `k + 1`.
pub open spec fn twice_midpoint(k: nat) -> nat {
    magnitude_of(k) + magnitude_of(k + 1)
}

/// Whether `k` is the ordinal nearest to the exact magnitude `n / d` (in units
/// of 2^-149), the tie between two neighbours going to the even one. What lies
/// at or beyond the midpoint between the largest finite value and 2^128 rounds
/// to infinity.
pub open spec fn is_nearest_even(n: nat, d: nat, k: nat) -> bool {
    &&& k <= INFINITY_ORDINAL
    &&& k > 0 ==> {
        let below = twice_midpoint((k - 1) as nat) * d;
        below < 2 * n || (below == 2 * n && k % 2 == 0)
    }
    &&& k < INFINITY_ORDINAL ==> {
        let above = twice_midpoint(k) * d;
        2 * n < above || (2 * n == above && k % 2 == 0)
    }
}

/// The ordinal to which the exact magnitude `n / d` rounds.
pub open spec fn round_nearest_even(n: nat, d: nat) -> nat {
    choose|k: nat| is_nearest_even(n, d, k)
}

/// Midpoints grow with the ordinal.
pub proof fn lemma_midpoint_increases(j: nat, k: nat)
    requires
        j < k,
    ensures
        twice_midpoint(j) < twice_midpoint(k),
{
    lemma_magnitude_increases(j, k);
    lemma_magnitude_increases(j + 1, k + 1);
}

/// At most one ordinal is nearest to a given exact magnitude.
pub proof fn lemma_nearest_unique(n: nat, d: nat, j: nat, k: nat)
    requires
        d > 0,
        is_nearest_even(n, d, j),
        is_nearest_even(n, d, k),
    ensures
        j == k,
{
    lemma_nearest_not_below(n, d, j, k);
    lemma_nearest_not_below(n, d, k, j);
}

/// Of two nearest ordinals the first is not the smaller.
proof fn lemma_nearest_not_below(n: nat, d: nat, j: nat, k: nat)
    requires
        d > 0,
        is_nearest_even(n, d, j),
        is_nearest_even(n, d, k),
    ensures
        j >= k,
{
    let above: int = twice_midpoint(j) as int;
    let below: int = twice_midpoint((k - 1) as nat) as int;
    if j < k - 1 {
        lemma_midpoint_increases(j, (k - 1) as nat);
        assert(above * d < below * d) by (nonlinear_arith)
            requires
                above < below,
                d > 0,
        ;
    }
}

/// Some ordinal from `k` upwards is nearest, if what lies below `k` is not.
proof fn lemma_nearest_from(n: nat, d: nat, k: nat)
    requires
        d > 0,
        k <= INFINITY_ORDINAL,
        k > 0 ==> {
            let below = twice_midpoint((k - 1) as nat) * d;
            below < 2 * n || (below == 2 * n && k % 2 == 0)
        },
    ensures
        exists|r: nat| is_nearest_even(n, d, r),
    decreases INFINITY_ORDINAL - k,
{
    if is_nearest_even(n, d, k) {
    } else {
        lemma_nearest_from(n, d, k + 1);
    }
}

/// Every exact magnitude rounds to an ordinal that is no NaN.
pub proof fn lemma_nearest_exists(n: nat, d: nat)
    requires
        d > 0,
    ensures
        is_nearest_even(n, d, round_nearest_even(n, d)),
        round_nearest_even(n, d) <= INFINITY_ORDINAL,
{
    lemma_nearest_from(n, d, 0);
}

/// The nearest ordinal, once found, is the rounded one.
pub proof fn lemma_round_is(n: nat, d: nat, k: nat)
    requires
        d > 0,
        is_nearest_even(n, d, k),
    ensures
        round_nearest_even(n, d) == k,
{
    lemma_nearest_unique(n, d, round_nearest_even(n, d), k);
}

/// A representable magnitude rounds to its own ordinal.
pub proof fn lemma_nearest_exact(k: nat)
    requires
        k <= INFINITY_ORDINAL,
    ensures
        is_nearest_even(magnitude_of(k), 1, k),
{
    if k > 0 {
        lemma_magnitude_increases((k - 1) as nat, k);
    }
    lemma_magnitude_increases(k, k + 1);
}

/// Being nearest depends on the quotient only.
pub proof fn lemma_nearest_rescale(n1: nat, d1: nat, n2: nat, d2: nat, k: nat)
    requires
        d1 > 0,
        d2 > 0,
        n1 * d2 == n2 * d1,
        is_nearest_even(n1, d1, k),
    ensures
        is_nearest_even(n2, d2, k),
{
    if k > 0 {
        lemma_cross(twice_midpoint((k - 1) as nat) as int, n1 as int, d1 as int, n2 as int, d2 as int);
    }
    if k < INFINITY_ORDINAL {
        lemma_cross(twice_midpoint(k) as int, n1 as int, d1 as int, n2 as int, d2 as int);
    }
}

/// Comparing `h` with `2 * n1 / d1` is comparing it with `2 * n2 / d2` when the two quotients agree.
proof fn lemma_cross(h: int, n1: int, d1: int, n2: int, d2: int)
    by (nonlinear_arith)
    requires
        d1 > 0,
        d2 > 0,
        n1 * d2 == n2 * d1,
    ensures
        h * d1 < 2 * n1 <==> h * d2 < 2 * n2,
        h * d1 == 2 * n1 <==> h * d2 == 2 * n2,
        h * d1 > 2 * n1 <==> h * d2 > 2 * n2,
{
    assert((h * d1) * d2 == (h * d2) * d1);
    assert((2 * n1) * d2 == (2 * n2) * d1);
    if h * d1 < 2 * n1 {
        assert((h * d1) * d2 < (2 * n1) * d2);
        assert((h * d2) * d1 < (2 * n2) * d1);
    }
    if h * d1 > 2 * n1 {
        assert((h * d1) * d2 > (2 * n1) * d2);
        assert((h * d2) * d1 > (2 * n2) * d1);
    }
    if h * d2 < 2 * n2 {
        assert((h * d2) * d1 < (2 * n2) * d1);
    }
    if h * d2 > 2 * n2 {
        assert((h * d2) * d1 > (2 * n2) * d1);
    }
}

/// The value `2^e` in ticks of 2^-661, fine enough to hold every bound that
/// the operations hand to [`round_scaled`] as a whole number.
pub open spec fn ticks(e: int) -> nat {
    pow2((e + 661) as nat)
}

/// One unit of 2^-149 in ticks.
pub open spec fn unit_ticks() -> nat {
    pow2(512)
}

/// Whether `k` is the rounded ordinal of the value that `m`, `e` and `inexact`
/// describe: `m * 2^e` itself where `inexact` is false, and otherwise any
/// value strictly between `m * 2^e` and `(m + 1) * 2^e`, none of which lies
/// on or across a midpoint.
pub open spec fn rounds_from(m: nat, e: int, inexact: bool, k: nat) -> bool {
    let low = m * ticks(e);
    let high = (m + 1) * ticks(e);
    if inexact {
        &&& k <= INFINITY_ORDINAL
        &&& k > 0 ==> twice_midpoint((k - 1) as nat) * unit_ticks() <= 2 * low
        &&& k < INFINITY_ORDINAL ==> 2 * high <= twice_midpoint(k) * unit_ticks()
    } else {
        is_nearest_even(low as nat, unit_ticks(), k)
    }
}

/// An exact quotient `n / d` that the triple `m`, `e`, `inexact` describes
/// rounds to the ordinal that the triple rounds to.
pub proof fn lemma_rounds_quotient(m: nat, e: int, inexact: bool, k: nat, n: nat, d: nat)
    requires
        rounds_from(m, e, inexact, k),
        d > 0,
        !inexact ==> m * ticks(e) * d == n * unit_ticks(),
        inexact ==> m * ticks(e) * d < n * unit_ticks() < (m + 1) * ticks(e) * d,
    ensures
        is_nearest_even(n, d, k),
{
    let c: int = unit_ticks() as int;
    let low: int = (m * ticks(e)) as int;
    let high: int = ((m + 1) * ticks(e)) as int;
    lemma_pow2_pos(512);
    if inexact {
        if k > 0 {
            let h: int = twice_midpoint((k - 1) as nat) as int;
            assert(h * d < 2 * n) by (nonlinear_arith)
                requires
                    h * c <= 2 * low,
                    low * d < n * c,
                    c > 0,
                    d > 0,
            {
                assert((h * c) * d <= (2 * low) * d);
                assert((h * d) * c < (2 * n) * c);
            }
        }
        if k < INFINITY_ORDINAL {
            let h: int = twice_midpoint(k) as int;
            assert(2 * n < h * d) by (nonlinear_arith)
                requires
                    2 * high <= h * c,
                    n * c < high * d,
                    c > 0,
                    d > 0,
            {
                assert((2 * high) * d <= (h * c) * d);
                assert((2 * n) * c < (h * d) * c);
            }
        }
    } else {
        assert(low * d == n * c);
        lemma_nearest_rescale(low as nat, c as nat, n, d, k);
    }
}

/// The number of binary digits of `m`.
pub fn bit_length(m: u128) -> (len: u32)
    requires
        0 < m < pow2(120),
    ensures
        1 <= len <= 120,
        pow2((len - 1) as nat) <= m < pow2(len as nat),
{
    let mut len: u32 = 1;
    let mut bound: u128 = 2;
    proof {
        lemma_pow2_values();
    }
    while bound <= m
        invariant
            1 <= len <= 120,
            bound == pow2(len as nat),
            pow2((len - 1) as nat) <= m < pow2(120),
        decreases 120 - len,
    {
        proof {
            if len >= 120 {
                lemma_pow2_monotone(120, len as nat);
            }
            lemma_pow2_unfold((len + 1) as nat);
            lemma_pow2_monotone((len + 1) as nat, 120);
            lemma_pow2_values();
        }
        bound = bound * 2;
        len = len + 1;
    }
    len
}

/// What lies at or above 2^128 rounds to infinity.
proof fn lemma_rounds_to_infinity(m: nat, e: int, len: nat, inexact: bool)
    requires
        len >= 1,
        pow2((len - 1) as nat) <= m,
        -600 <= e,
        e + len - 1 >= 128,
    ensures
        rounds_from(m, e, inexact, INFINITY_ORDINAL as nat),
{
    let top: nat = INFINITY_ORDINAL as nat;
    let f: int = ticks(e) as int;
    let c: int = unit_ticks() as int;
    lemma_pow2_values();
    lemma_magnitude_of_parts(253, 2 * (BINADE as nat));
    assert(ordinal_of(253, 2 * (BINADE as nat)) == top);
    lemma_pow2_unfold(254);
    let big: int = magnitude_of(top) as int;
    assert(big == pow2(277)) by {
        lemma_pow2_split(24, 253);
    }
    lemma_magnitude_increases((top - 1) as nat, top);
    let h: int = twice_midpoint((top - 1) as nat) as int;
    assert(h < 2 * big);
    // m * 2^e is at least 2^128
    lemma_pow2_split((len - 1) as nat, (e + 661) as nat);
    lemma_pow2_monotone(789, (len - 1 + e + 661) as nat);
    lemma_pow2_split(277, 512);
    let least: int = pow2((len - 1) as nat) as int;
    assert(least * f >= big * c);
    assert(m * f >= least * f) by (nonlinear_arith)
        requires
            m >= least,
            f >= 0,
    ;
    assert(h * c < 2 * (m * f)) by (nonlinear_arith)
        requires
            h < 2 * big,
            m * f >= big * c,
            c > 0,
    ;
}

/// What lies below 2^-151 rounds to zero.
proof fn lemma_rounds_to_zero(m: nat, e: int, inexact: bool)
    requires
        m < pow2(120),
        -600 <= e <= -271,
    ensures
        rounds_from(m, e, inexact, 0),
{
    let f: int = ticks(e) as int;
    let c: int = unit_ticks() as int;
    lemma_pow2_values();
    assert(magnitude_of(0) == 0);
    assert(magnitude_of(1) == 1);
    assert(twice_midpoint(0) == 1);
    lemma_pow2_split(121, (e + 661) as nat);
    lemma_pow2_unfold(121);
    lemma_pow2_monotone((121 + e + 661) as nat, 512);
    let cap: int = pow2(121) as int;
    assert(cap * f <= c);
    assert(2 * ((m + 1) * f) <= cap * f) by (nonlinear_arith)
        requires
            2 * (m + 1) <= cap,
            f >= 0,
    ;
    lemma_pow2_pos((e + 661) as nat);
    assert(2 * (m * f) < 2 * ((m + 1) * f)) by (nonlinear_arith)
        requires
            f > 0,
    ;
}

/// A value that needs no rounding: `m * 2^e` is the magnitude of the ordinal
/// with significand `m * 2^lift` at gap exponent `gap`.
proof fn lemma_rounds_exactly(m: nat, e: int, gap: nat, lift: nat, sig: nat)
    requires
        -600 <= e,
        gap + lift == e + 149,
        gap <= 253,
        sig == m * pow2(lift),
        sig < 2 * BINADE,
        gap > 0 ==> sig >= BINADE,
    ensures
        ordinal_of(gap, sig) < INFINITY_ORDINAL,
        rounds_from(m, e, false, ordinal_of(gap, sig)),
{
    let k = ordinal_of(gap, sig);
    lemma_magnitude_of_parts(gap, sig);
    assert(k < INFINITY_ORDINAL) by (nonlinear_arith)
        requires
            k == gap * 0x80_0000 + sig,
            gap <= 253,
            sig < 0x100_0000,
    ;
    lemma_nearest_exact(k);
    let f: int = ticks(e) as int;
    let c: int = unit_ticks() as int;
    lemma_pow2_pos(512);
    // 2^(e+661) = 2^lift * 2^gap * 2^512
    lemma_pow2_split(lift, gap + 512);
    lemma_pow2_split(gap, 512);
    let pl: int = pow2(lift) as int;
    let pg: int = pow2(gap) as int;
    assert(f == pl * (pg * c));
    assert((m * f) * 1 == (sig * pg) * c) by (nonlinear_arith)
        requires
            f == pl * (pg * c),
            sig == m * pl,
    ;
    lemma_nearest_rescale(magnitude_of(k), 1, (m * f) as nat, c as nat, k);
}

/// How twice the bounds of the interval lie to the midpoints of the quantum
/// that holds it: `g` is the quantum in ticks, `f` the width of the interval.
proof fn lemma_quantum_bounds(sig: int, rem: int, half: int, f: int)
    by (nonlinear_arith)
    requires
        0 <= sig,
        0 <= rem < 2 * half,
        f > 0,
    ensures
        ({
            let g = (2 * half) * f;
            let low2 = 2 * ((sig * (2 * half) + rem) * f);
            let high2 = 2 * ((sig * (2 * half) + rem + 1) * f);
            &&& low2 >= 2 * (sig * g)
            &&& high2 <= 2 * (sig * g) + 2 * g
            &&& low2 < high2
            &&& rem < half ==> high2 <= 2 * (sig * g) + g
            &&& rem >= half ==> 2 * (sig * g) + g <= low2
            &&& rem > half ==> 2 * (sig * g) + g < low2
            &&& rem == half ==> 2 * (sig * g) + g == low2
            &&& rem < half ==> low2 < 2 * (sig * g) + g
        }),
{
    let g = (2 * half) * f;
    assert((sig * (2 * half) + rem) * f == sig * g + rem * f);
    assert((sig * (2 * half) + rem + 1) * f == sig * g + rem * f + f);
    assert(rem * f + f <= g) by {
        assert((rem + 1) * f <= (2 * half) * f);
    }
    if rem < half {
        assert((rem + 1) * f <= half * f);
        assert(2 * (half * f) == g);
    }
    if rem >= half {
        assert(rem * f >= half * f);
        assert(2 * (half * f) == g);
    }
    if rem > half {
        assert(rem * f >= (half + 1) * f);
        assert(2 * (half * f) == g);
    }
}

/// The rounding decision: with `sig` the digits kept, `rem` the digits
/// dropped and `half` half the weight of the last digit kept, the value goes
/// up exactly when `up` says so.
proof fn lemma_rounds_by_remainder(
    m: nat,
    e: int,
    inexact: bool,
    gap: nat,
    shift: nat,
    sig: nat,
    rem: nat,
    up: bool,
)
    requires
        -600 <= e,
        shift > 0,
        gap == shift + e + 149,
        gap <= 253,
        m == sig * pow2(shift) + rem,
        rem < pow2(shift),
        sig < 2 * BINADE,
        gap > 0 ==> sig >= BINADE,
        up == (rem > pow2((shift - 1) as nat) || (rem == pow2((shift - 1) as nat) && (inexact
            || sig % 2 == 1))),
    ensures
        ordinal_of(gap, sig) < INFINITY_ORDINAL,
        rounds_from(m, e, inexact, if up { ordinal_of(gap, sig) + 1 } else { ordinal_of(gap, sig) }),
{
    let k0 = ordinal_of(gap, sig);
    let f: int = ticks(e) as int;
    let c: int = unit_ticks() as int;
    let half: int = pow2((shift - 1) as nat) as int;
    let pg: int = pow2(gap) as int;
    lemma_pow2_unfold(shift);
    lemma_pow2_pos(512);
    lemma_pow2_pos((e + 661) as nat);
    lemma_pow2_pos(gap);
    lemma_pow2_values();
    assert(k0 < INFINITY_ORDINAL) by (nonlinear_arith)
        requires
            k0 == gap * 0x80_0000 + sig,
            gap <= 253,
            sig < 0x100_0000,
    ;
    // one quantum, 2^gap units, is 2^shift intervals
    let g: int = (2 * half) * f;
    assert(pg * c == g) by {
        lemma_pow2_split(gap, 512);
        lemma_pow2_split(shift, (e + 661) as nat);
    }
    lemma_quantum_bounds(sig as int, rem as int, half, f);
    let low2: int = 2 * (m * f);
    let high2: int = 2 * ((m + 1) * f);
    assert(m == sig * (2 * half) + rem);
    // the magnitudes around the interval, in ticks
    lemma_magnitude_of_parts(gap, sig);
    lemma_magnitude_step(k0);
    lemma_magnitude_of_parts(gap, sig + 1);
    assert(ordinal_of(gap, sig + 1) == k0 + 1);
    let m0: int = magnitude_of(k0) as int;
    let m1: int = magnitude_of(k0 + 1) as int;
    assert(m0 == sig * pg);
    assert(m1 == m0 + pg);
    assert(m0 * c == sig * g) by (nonlinear_arith)
        requires
            m0 == sig * pg,
            pg * c == g,
    ;
    assert(m1 * c == sig * g + g) by (nonlinear_arith)
        requires
            m1 == sig * pg + pg,
            pg * c == g,
    ;
    assert(twice_midpoint(k0) * c == 2 * (sig * g) + g) by (nonlinear_arith)
        requires
            twice_midpoint(k0) == m0 + m1,
            m0 * c == sig * g,
            m1 * c == sig * g + g,
    ;
    if up {
        let k = k0 + 1;
        if k < INFINITY_ORDINAL {
            lemma_magnitude_increases(k, k + 1);
            let m2: int = magnitude_of(k + 1) as int;
            assert(twice_midpoint(k) * c > 2 * (sig * g) + 2 * g) by (nonlinear_arith)
                requires
                    twice_midpoint(k) == m1 + m2,
                    m2 > m1,
                    m1 * c == sig * g + g,
                    c > 0,
            {
                assert(m2 * c > m1 * c);
            }
        }
        assert(rounds_from(m, e, inexact, k));
    } else {
        if k0 > 0 {
            lemma_magnitude_increases((k0 - 1) as nat, k0);
            let mb: int = magnitude_of((k0 - 1) as nat) as int;
            assert(twice_midpoint((k0 - 1) as nat) * c < 2 * (sig * g)) by (nonlinear_arith)
                requires
                    twice_midpoint((k0 - 1) as nat) == mb + m0,
                    mb < m0,
                    m0 * c == sig * g,
                    c > 0,
            {
                assert(mb * c < m0 * c);
            }
        }
        assert(k0 % 2 == sig % 2) by (nonlinear_arith)
            requires
                k0 == gap * 0x80_0000 + sig,
        ;
        assert(rounds_from(m, e, inexact, k0));
    }
}

/// Rounds the value that `m`, `e` and `inexact` describe to the nearest
/// ordinal: `m * 2^e` where `inexact` is false, and otherwise a value strictly
/// between `m * 2^e` and `(m + 1) * 2^e`, of which `m` must then hold at least
/// 27 digits, three more than a significand.
pub fn round_scaled(m: u128, e: i32, inexact: bool) -> (k: u32)
    requires
        0 < m < pow2(120),
        -600 <= e <= 600,
        inexact ==> m >= pow2(26),
    ensures
        rounds_from(m as nat, e as int, inexact, k as nat),
{
    let len = bit_length(m);
    let top: i32 = e + (len as i32) - 1;
    if top > 127 {
        proof {
            lemma_rounds_to_infinity(m as nat, e as int, len as nat, inexact);
        }
        return INFINITY_ORDINAL;
    }
    let q: i32 = if top - 23 > -149 {
        top - 23
    } else {
        -149
    };
    let gap: u32 = (q + 149) as u32;
    let shift: i32 = q - e;
    proof {
        lemma_pow2_values();
        if inexact {
            if len < 27 {
                lemma_pow2_monotone(len as nat, 26);
            }
        }
    }
    if shift <= 0 {
        let lift: u32 = (-shift) as u32;
        let scale: u128 = pow2_u128(lift);
        proof {
            // the digits of m, moved up by lift places, fill at most a significand
            lemma_pow2_split(len as nat, lift as nat);
            lemma_pow2_split((len - 1) as nat, lift as nat);
            lemma_pow2_monotone((len + lift) as nat, 24);
            let bound: int = pow2(len as nat) as int;
            let least: int = pow2((len - 1) as nat) as int;
            assert(m * scale < bound * scale) by (nonlinear_arith)
                requires
                    m < bound,
                    scale > 0,
            ;
            assert(m * scale >= least * scale) by (nonlinear_arith)
                requires
                    m >= least,
                    scale > 0,
            ;
            if gap > 0 {
                assert(len + lift == 24);
            }
        }
        let sig: u32 = (m * scale) as u32;
        proof {
            lemma_rounds_exactly(m as nat, e as int, gap as nat, lift as nat, sig as nat);
        }
        gap * BINADE + sig
    } else if shift >= 122 {
        proof {
            lemma_rounds_to_zero(m as nat, e as int, inexact);
        }
        0
    } else {
        let scale: u128 = pow2_u128(shift as u32);
        let sig_wide: u128 = m / scale;
        let rem: u128 = m % scale;
        let half: u128 = scale / 2;
        proof {
            lemma_pow2_unfold(shift as nat);
            assert(m == sig_wide * scale + rem) by {
                vstd::arithmetic::div_mod::lemma_fundamental_div_mod(m as int, scale as int);
                assert(scale * sig_wide == sig_wide * scale) by (nonlinear_arith);
            }
            // at most 24 digits are kept, and all 24 above the subnormal range
            lemma_pow2_split(shift as nat, 24);
            lemma_pow2_monotone(len as nat, (shift + 24) as nat);
            let cap: int = pow2(24) as int;
            assert(sig_wide < cap) by (nonlinear_arith)
                requires
                    sig_wide * scale + rem == m,
                    m < scale * cap,
                    rem >= 0,
                    scale > 0,
            ;
            if gap > 0 {
                lemma_pow2_split(shift as nat, 23);
                let floor: int = pow2(23) as int;
                assert(sig_wide >= floor) by (nonlinear_arith)
                    requires
                        sig_wide * scale + rem == m,
                        m >= scale * floor,
                        rem < scale,
                        scale > 0,
                ;
            }
        }
        let sig: u32 = sig_wide as u32;
        let up: bool = rem > half || (rem == half && (inexact || sig % 2 == 1));
        proof {
            lemma_rounds_by_remainder(
                m as nat,
                e as int,
                inexact,
                gap as nat,
                shift as nat,
                sig as nat,
                rem as nat,
                up,
            );
        }
        let below: u32 = gap * BINADE + sig;
        if up {
            below + 1
        } else {
            below
        }
    }
}

} // verus!
