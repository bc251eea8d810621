//! The shortest decimal of a binary32 value: the decimal number with the
//! fewest digits that still reads back as the same encoding, and among those
//! the one closest to the value.
//!
//! A decimal is `c * 10^g`, a whole number of grains; it reads as the ordinal
//! to which it rounds. The shortest decimal of an ordinal has the coarsest
//! grain of which some multiple reads as that ordinal.
use crate::binary32::{
    decompose, gap_exponent, lemma_magnitude_increases, lemma_magnitude_step, magnitude_of, BINADE,
    INFINITY_ORDINAL,
};
use crate::powers::{lemma_pow2_monotone, lemma_pow2_split, lemma_pow2_values, pow2_u128};
use crate::rounding::{is_nearest_even, lemma_nearest_rescale, twice_midpoint};
use crate::wide::{half_weight, Wide};
use vstd::arithmetic::power2::{lemma_pow2_pos, lemma_pow2_unfold, pow2};
use vstd::prelude::*;

verus! {

/// Ten to the power `n`.
pub open spec fn pow10(n: nat) -> nat
    decreases n,
{
    if n == 0 {
        1
    } else {
        10 * pow10((n - 1) as nat)
    }
}

/// `10^(a+b) = 10^a * 10^b`, and powers of ten are positive.
pub proof fn lemma_pow10_split(a: nat, b: nat)
    ensures
        pow10(a + b) == pow10(a) * pow10(b),
        pow10(a) > 0,
        pow10(b) > 0,
    decreases a,
{
    if a == 0 {
        assert(pow10(0) == 1);
        assert(1 * pow10(b) == pow10(b));
        lemma_pow10_positive(b);
    } else {
        lemma_pow10_split((a - 1) as nat, b);
        let x = pow10((a - 1) as nat);
        let y = pow10(b);
        assert(pow10(a) == 10 * x);
        assert(pow10(a + b) == 10 * pow10((a - 1 + b) as nat));
        assert(10 * (x * y) == (10 * x) * y) by (nonlinear_arith);
    }
}

/// Powers of ten are positive.
pub proof fn lemma_pow10_positive(n: nat)
    ensures
        pow10(n) > 0,
    decreases n,
{
    if n > 0 {
        lemma_pow10_positive((n - 1) as nat);
    }
}

/// A power of ten is at least the same power of two.
pub proof fn lemma_pow10_above_pow2(n: nat)
    ensures
        pow10(n) >= pow2(n),
    decreases n,
{
    lemma_pow2_values();
    if n > 0 {
        lemma_pow10_above_pow2((n - 1) as nat);
        lemma_pow2_unfold(n);
    }
}

/// The powers of ten at which the search for a decimal starts.
pub proof fn lemma_pow10_values()
    ensures
        pow10(0) == 1,
        pow10(1) == 10,
        pow10(8) == 100_000_000,
        pow10(9) == 1_000_000_000,
        pow10(38) == 100_000_000_000_000_000_000_000_000_000_000_000_000,
        pow10(39) == 1_000_000_000_000_000_000_000_000_000_000_000_000_000,
        pow10(40) == 10_000_000_000_000_000_000_000_000_000_000_000_000_000,
{
    assert(pow10(1) == 10) by {
        assert(pow10(0) == 1);
    }
    lemma_pow10_split(1, 1);
    lemma_pow10_split(2, 2);
    lemma_pow10_split(4, 4);
    lemma_pow10_split(8, 1);
    lemma_pow10_split(8, 8);
    lemma_pow10_split(16, 16);
    lemma_pow10_split(32, 4);
    lemma_pow10_split(36, 2);
    lemma_pow10_split(38, 1);
    lemma_pow10_split(39, 1);
}

/// The grain `10^g` as a quotient, in units of 2^-149: its numerator.
pub open spec fn grain_numerator(g: int) -> nat {
    if g >= 0 {
        pow10(g as nat) * pow2(149)
    } else {
        pow2(149)
    }
}

/// The grain `10^g` as a quotient, in units of 2^-149: its denominator.
pub open spec fn grain_denominator(g: int) -> nat {
    if g >= 0 {
        1
    } else {
        pow10((-g) as nat)
    }
}

/// Whether the decimal `c * 10^g` reads as the ordinal `k`: whether `k` is
/// what it rounds to.
pub open spec fn reads_as(c: nat, g: int, k: nat) -> bool {
    is_nearest_even(c * grain_numerator(g), grain_denominator(g), k)
}

/// The distance of the decimal `c * 10^g` from the value with ordinal `k`,
/// in units of 2^-149 over the grain's denominator.
pub open spec fn decimal_distance(c: nat, g: int, k: nat) -> nat {
    let offset = c * grain_numerator(g) - magnitude_of(k) * grain_denominator(g);
    if offset < 0 {
        (-offset) as nat
    } else {
        offset as nat
    }
}

/// Whether `c * 10^g` is the shortest decimal of the ordinal `k`: it reads as
/// `k`, no multiple of a coarser grain does, and no other multiple of its own
/// grain that reads as `k` is closer to the value, or as close and larger.
pub open spec fn is_shortest_decimal(k: nat, c: nat, g: int) -> bool {
    &&& reads_as(c, g, k)
    &&& forall|b: nat, h: int| h > g ==> !#[trigger] reads_as(b, h, k)
    &&& forall|b: nat| #[trigger]
        reads_as(b, g, k) ==> decimal_distance(c, g, k) < decimal_distance(b, g, k) || (
        decimal_distance(c, g, k) == decimal_distance(b, g, k) && b <= c)
}

/// The shortest decimal of the ordinal `k`, as the pair of `c` and `g`.
pub open spec fn shortest_decimal_of(k: nat) -> (nat, int) {
    choose|p: (nat, int)| is_shortest_decimal(k, p.0, p.1)
}

/// An ordinal has one shortest decimal at most.
pub proof fn lemma_shortest_unique(k: nat, c: nat, g: int, b: nat, h: int)
    requires
        is_shortest_decimal(k, c, g),
        is_shortest_decimal(k, b, h),
    ensures
        c == b,
        g == h,
{
    if g < h {
        assert(!reads_as(b, h, k));
    }
    if h < g {
        assert(!reads_as(c, g, k));
    }
    assert(reads_as(b, g, k));
    assert(reads_as(c, h, k));
}

/// The shortest decimal, once found, is the one that the ordinal has.
pub proof fn lemma_shortest_is(k: nat, c: nat, g: int)
    requires
        is_shortest_decimal(k, c, g),
    ensures
        shortest_decimal_of(k) == (c, g),
{
    let p = shortest_decimal_of(k);
    let q: (nat, int) = (c, g);
    assert(is_shortest_decimal(k, q.0, q.1));
    lemma_shortest_unique(k, p.0, p.1, c, g);
}

/// Going one grain finer: the quotient that stands for `10^(g-1)` against
/// the one for `10^g`.
pub proof fn lemma_grain_step(g: int)
    ensures
        grain_numerator(g) * grain_denominator(g - 1) == 10 * (grain_numerator(g - 1)
            * grain_denominator(g)),
        grain_numerator(g) > 0,
        grain_denominator(g) > 0,
        g > 0 ==> grain_numerator(g) == 10 * grain_numerator(g - 1) && grain_denominator(g - 1)
            == 1 && grain_denominator(g) == 1,
        g <= 0 ==> grain_numerator(g - 1) == pow2(149) && grain_denominator(g - 1) == 10
            * grain_denominator(g),
        g < 0 ==> grain_numerator(g) == pow2(149),
        g == 0 ==> grain_numerator(g) == pow2(149) && grain_denominator(g) == 1,
{
    lemma_pow2_pos(149);
    let w = pow2(149);
    if g > 0 {
        let p = pow10((g - 1) as nat);
        lemma_pow10_positive((g - 1) as nat);
        assert(pow10(g as nat) == 10 * p);
        assert((10 * p) * w == 10 * (p * w)) by (nonlinear_arith);
        assert(p * w > 0) by (nonlinear_arith)
            requires
                p > 0,
                w > 0,
        ;
        assert(grain_numerator(g) == 10 * (p * w));
        assert(grain_numerator(g - 1) == p * w);
        assert((10 * (p * w)) * 1 == 10 * ((p * w) * 1)) by (nonlinear_arith);
    } else {
        let p = pow10((-g) as nat);
        lemma_pow10_positive((-g) as nat);
        assert(pow10((-(g - 1)) as nat) == 10 * p);
        if g == 0 {
            assert(pow10(0) == 1);
            assert(1 * w == w);
        }
        assert(w * (10 * p) == 10 * (w * p)) by (nonlinear_arith);
        assert(grain_numerator(g) == w);
        assert(grain_numerator(g - 1) == w);
        assert(grain_denominator(g) == p);
        assert(grain_denominator(g - 1) == 10 * p);
    }
}

/// A multiple of a grain is a multiple of every finer grain: what reads as
/// `k` at the grain `10^h` does so at `10^g` for `g <= h`.
pub proof fn lemma_finer_grain(c: nat, h: int, g: int, k: nat)
    requires
        g <= h,
        reads_as(c, h, k),
    ensures
        reads_as(c * pow10((h - g) as nat), g, k),
    decreases h - g,
{
    if g == h {
        assert(pow10(0) == 1);
        assert(c * 1 == c);
    } else {
        // first from h to h - 1, then on to g
        lemma_grain_step(h);
        let n1 = c * grain_numerator(h);
        let d1 = grain_denominator(h);
        let n2 = (c * 10) * grain_numerator(h - 1);
        let d2 = grain_denominator(h - 1);
        lemma_grain_step(h - 1);
        assert(n1 * d2 == n2 * d1) by (nonlinear_arith)
            requires
                n1 == c * grain_numerator(h),
                n2 == (c * 10) * grain_numerator(h - 1),
                d1 == grain_denominator(h),
                d2 == grain_denominator(h - 1),
                grain_numerator(h) * grain_denominator(h - 1) == 10 * (grain_numerator(h - 1)
                    * grain_denominator(h)),
        ;
        lemma_nearest_rescale(n1, d1, n2, d2, k);
        assert(reads_as(c * 10, h - 1, k));
        lemma_finer_grain(c * 10, h - 1, g, k);
        let p = pow10((h - 1 - g) as nat);
        assert(pow10((h - g) as nat) == 10 * p);
        assert((c * 10) * p == c * (10 * p)) by (nonlinear_arith);
    }
}

/// Whether `x` lies between `low` and `high`, the ends counting where `closed` is set.
spec fn lies_within(x: int, low: int, high: int, closed: bool) -> bool {
    &&& low < x || (low == x && closed)
    &&& x < high || (x == high && closed)
}

/// The search's own scale at the grain `10^g`: `s` stands for the grain,
/// `t` for the value, `t - below` and `t + above` for the midpoints towards
/// the neighbours of the ordinal `k`; `kp` and `f` are the two factors that
/// take these numbers and the exact ones, all doubled, to a common scale.
spec fn level_holds(
    k: nat,
    g: int,
    s: int,
    t: int,
    below: int,
    above: int,
    kp: int,
    f: int,
) -> bool {
    &&& 0 < k < INFINITY_ORDINAL
    &&& kp > 0
    &&& f > 0
    &&& s > 0
    &&& (2 * grain_numerator(g)) * kp == f * s
    &&& (2 * magnitude_of(k) * grain_denominator(g)) * kp == f * t
    &&& (twice_midpoint((k - 1) as nat) * grain_denominator(g)) * kp == f * (t - below)
    &&& (twice_midpoint(k) * grain_denominator(g)) * kp == f * (t + above)
}

/// Numbers on a common scale compare as their scaled images do.
proof fn lemma_scaled_order(a: int, b: int, kp: int, f: int, x: int, y: int)
    by (nonlinear_arith)
    requires
        kp > 0,
        f > 0,
        a * kp == f * x,
        b * kp == f * y,
    ensures
        a < b <==> x < y,
        a == b <==> x == y,
{
    if a < b {
        assert(a * kp < b * kp);
        assert(f * x < f * y);
    }
    if a > b {
        assert(a * kp > b * kp);
        assert(f * x > f * y);
    }
    if x < y {
        assert(f * x < f * y);
    }
    if x > y {
        assert(f * x > f * y);
    }
}

/// On the search's scale a decimal reads as `k` where it lies between the
/// midpoints, and its distance from the value is what separates it from `t`.
proof fn lemma_reads_scaled(
    c: nat,
    k: nat,
    g: int,
    s: int,
    t: int,
    below: int,
    above: int,
    kp: int,
    f: int,
)
    requires
        level_holds(k, g, s, t, below, above, kp, f),
    ensures
        reads_as(c, g, k) <==> lies_within(c * s, t - below, t + above, k % 2 == 0),
        (2 * decimal_distance(c, g, k)) * kp == f * (if c * s < t {
            t - c * s
        } else {
            c * s - t
        }),
{
    let n: int = (c * grain_numerator(g)) as int;
    let d: int = grain_denominator(g) as int;
    let v: int = magnitude_of(k) as int;
    let lo: int = (twice_midpoint((k - 1) as nat) * grain_denominator(g)) as int;
    let hi: int = (twice_midpoint(k) * grain_denominator(g)) as int;
    let gn: int = grain_numerator(g) as int;
    assert((2 * n) * kp == f * (c * s)) by (nonlinear_arith)
        requires
            n == c * gn,
            (2 * gn) * kp == f * s,
    ;
    lemma_scaled_order(lo, 2 * n, kp, f, t - below, c * s);
    lemma_scaled_order(2 * n, hi, kp, f, c * s, t + above);
    lemma_scaled_order(2 * n, 2 * v * d, kp, f, c * s, t);
    let offset: int = n - v * d;
    assert((2 * offset) * kp == f * (c * s - t)) by (nonlinear_arith)
        requires
            offset == n - v * d,
            (2 * n) * kp == f * (c * s),
            (2 * v * d) * kp == f * t,
    ;
    assert((2 * (-offset)) * kp == f * (t - c * s)) by (nonlinear_arith)
        requires
            (2 * offset) * kp == f * (c * s - t),
    ;
    assert(2 * v * d == 2 * (v * d)) by (nonlinear_arith);
    assert(offset < 0 <==> c * s < t);
    if offset < 0 {
        assert(decimal_distance(c, g, k) == -offset);
    } else {
        assert(decimal_distance(c, g, k) == offset);
    }
}

/// One grain finer, everything on the search's scale is ten times as large
/// against the grain.
proof fn lemma_level_step(
    k: nat,
    g: int,
    s: int,
    t: int,
    below: int,
    above: int,
    kp: int,
    f: int,
)
    requires
        level_holds(k, g, s, t, below, above, kp, f),
    ensures
        level_holds(
            k,
            g - 1,
            s,
            10 * t,
            10 * below,
            10 * above,
            if g > 0 {
                10 * kp
            } else {
                kp
            },
            f,
        ),
{
    lemma_grain_step(g);
    let gn: int = grain_numerator(g) as int;
    let gm: int = grain_numerator(g - 1) as int;
    let d: int = grain_denominator(g) as int;
    let dm: int = grain_denominator(g - 1) as int;
    let v: int = magnitude_of(k) as int;
    let lo: int = twice_midpoint((k - 1) as nat) as int;
    let hi: int = twice_midpoint(k) as int;
    if g > 0 {
        assert((2 * gm) * (10 * kp) == f * s) by (nonlinear_arith)
            requires
                gn == 10 * gm,
                (2 * gn) * kp == f * s,
        ;
        assert((2 * v * dm) * (10 * kp) == f * (10 * t)) by (nonlinear_arith)
            requires
                d == 1,
                dm == 1,
                (2 * v * d) * kp == f * t,
        ;
        assert((lo * dm) * (10 * kp) == f * (10 * t - 10 * below)) by (nonlinear_arith)
            requires
                d == 1,
                dm == 1,
                (lo * d) * kp == f * (t - below),
        ;
        assert((hi * dm) * (10 * kp) == f * (10 * t + 10 * above)) by (nonlinear_arith)
            requires
                d == 1,
                dm == 1,
                (hi * d) * kp == f * (t + above),
        ;
    } else {
        assert(gm == gn);
        assert((2 * v * dm) * kp == f * (10 * t)) by (nonlinear_arith)
            requires
                dm == 10 * d,
                (2 * v * d) * kp == f * t,
        ;
        assert((lo * dm) * kp == f * (10 * t - 10 * below)) by (nonlinear_arith)
            requires
                dm == 10 * d,
                (lo * d) * kp == f * (t - below),
        ;
        assert((hi * dm) * kp == f * (10 * t + 10 * above)) by (nonlinear_arith)
            requires
                dm == 10 * d,
                (hi * d) * kp == f * (t + above),
        ;
    }
}

/// How a multiple of the grain lies to the two multiples around the value.
proof fn lemma_multiple_bounds(b: int, c: int, s: int, r: int)
    by (nonlinear_arith)
    requires
        0 <= b,
        0 <= c,
        s > 0,
        0 <= r < s,
    ensures
        b <= c ==> b * s <= c * s,
        b < c ==> b * s + s <= c * s,
        b >= c + 1 ==> b * s >= c * s + s,
        b > c + 1 ==> b * s >= c * s + s + s,
{
}

/// With no multiple of the grain between the midpoints, none reads as `k`.
proof fn lemma_none_reads(
    k: nat,
    g: int,
    s: int,
    c: int,
    r: int,
    below: int,
    above: int,
    kp: int,
    f: int,
)
    requires
        level_holds(k, g, s, c * s + r, below, above, kp, f),
        0 <= c,
        0 <= r < s,
        0 < below <= above,
        c == 0 ==> r > below,
        !lies_within(c * s, c * s + r - below, c * s + r + above, k % 2 == 0),
        !lies_within((c + 1) * s, c * s + r - below, c * s + r + above, k % 2 == 0),
    ensures
        forall|b: nat| !#[trigger] reads_as(b, g, k),
        above < s,
{
    let t = c * s + r;
    assert((c + 1) * s == c * s + s) by (nonlinear_arith);
    assert forall|b: nat| !#[trigger] reads_as(b, g, k) by {
        lemma_reads_scaled(b, k, g, s, t, below, above, kp, f);
        lemma_multiple_bounds(b as int, c, s, r);
    }
}

/// The multiple of the grain chosen between the two around the value is the
/// closest that reads as `k`.
proof fn lemma_chosen_is_closest(
    k: nat,
    g: int,
    s: int,
    c: int,
    r: int,
    below: int,
    above: int,
    kp: int,
    f: int,
    up: bool,
)
    requires
        level_holds(k, g, s, c * s + r, below, above, kp, f),
        0 <= c,
        0 <= r < s,
        0 < below <= above,
        c == 0 ==> r > below,
        ({
            let low_ok = lies_within(c * s, c * s + r - below, c * s + r + above, k % 2 == 0);
            let high_ok = lies_within(
                (c + 1) * s,
                c * s + r - below,
                c * s + r + above,
                k % 2 == 0,
            );
            &&& low_ok || high_ok
            &&& up == (high_ok && (!low_ok || r >= s - r))
        }),
    ensures
        ({
            let chosen: nat = if up {
                (c + 1) as nat
            } else {
                c as nat
            };
            &&& reads_as(chosen, g, k)
            &&& forall|b: nat| #[trigger]
                reads_as(b, g, k) ==> decimal_distance(chosen, g, k) < decimal_distance(b, g, k)
                    || (decimal_distance(chosen, g, k) == decimal_distance(b, g, k) && b <= chosen)
        }),
{
    let t = c * s + r;
    let chosen: nat = if up {
        (c + 1) as nat
    } else {
        c as nat
    };
    assert((c + 1) * s == c * s + s) by (nonlinear_arith);
    lemma_reads_scaled(chosen, k, g, s, t, below, above, kp, f);
    let gap = |x: int| if x < t { t - x } else { x - t };
    assert forall|b: nat| #[trigger] reads_as(b, g, k) implies decimal_distance(chosen, g, k)
        < decimal_distance(b, g, k) || (decimal_distance(chosen, g, k) == decimal_distance(b, g, k)
        && b <= chosen) by {
        lemma_reads_scaled(b, k, g, s, t, below, above, kp, f);
        lemma_multiple_bounds(b as int, c, s, r);
        let far: int = gap(b * s);
        let near: int = gap(chosen * s);
        assert(near < far || (near == far && b <= chosen));
        lemma_scaled_order(
            (2 * decimal_distance(chosen, g, k)) as int,
            (2 * decimal_distance(b, g, k)) as int,
            kp,
            f,
            near,
            far,
        );
    }
}

/// What `decompose` tells of an ordinal and its two neighbours.
spec fn decomposed(k: nat, m: int, e: int) -> bool {
    &&& 0 < k < INFINITY_ORDINAL
    &&& 0 < m < 2 * BINADE
    &&& -149 <= e <= 104
    &&& magnitude_of(k) == m * pow2((e + 149) as nat)
    &&& gap_exponent(k) == e + 149
    &&& gap_exponent((k - 1) as nat) == if m == BINADE && e > -149 {
        e + 148
    } else {
        e + 149
    }
}

/// The midpoints around a decomposed ordinal, against the gap above it.
proof fn lemma_midpoints(k: nat, m: int, e: int)
    requires
        decomposed(k, m, e),
    ensures
        ({
            let gap: int = pow2((e + 149) as nat) as int;
            let narrow = m == BINADE && e > -149;
            &&& gap > 0
            &&& magnitude_of(k) == m * gap
            &&& twice_midpoint(k) == 2 * (m * gap) + gap
            &&& !narrow ==> twice_midpoint((k - 1) as nat) == 2 * (m * gap) - gap
            &&& narrow ==> 2 * twice_midpoint((k - 1) as nat) == 4 * (m * gap) - gap
            &&& twice_midpoint((k - 1) as nat) > 0
        }),
{
    lemma_magnitude_step(k);
    lemma_magnitude_step((k - 1) as nat);
    lemma_pow2_pos((e + 149) as nat);
    if m == BINADE && e > -149 {
        lemma_pow2_unfold((e + 149) as nat);
    }
    lemma_magnitude_increases(0, k);
}

/// The search's scale at its first grain for a value of 2^23 or more: the
/// grain is `10^39`, above every finite value.
proof fn lemma_start_large(k: nat, m: int, e: int)
    requires
        decomposed(k, m, e),
        e >= 0,
    ensures
        ({
            let pe: int = pow2(e as nat) as int;
            let below: int = if m == BINADE {
                pe
            } else {
                2 * pe
            };
            &&& level_holds(
                k,
                39,
                (4 * pow10(39)) as int,
                4 * (m * pe),
                below,
                2 * pe,
                4,
                (2 * pow2(149)) as int,
            )
            &&& 2 * pe < 4 * pow10(39)
            &&& 4 * (m * pe) < 4 * pow10(39)
            &&& m * pe < half_weight()
            &&& 0 < pe
        }),
        forall|b: nat| !#[trigger] reads_as(b, 40, k),
{
    let pe: int = pow2(e as nat) as int;
    let w: int = pow2(149) as int;
    let gap: int = pow2((e + 149) as nat) as int;
    let below: int = if m == BINADE {
        pe
    } else {
        2 * pe
    };
    let ten39: int = pow10(39) as int;
    let ten40: int = pow10(40) as int;
    lemma_midpoints(k, m, e);
    lemma_pow2_split(e as nat, 149);
    lemma_pow10_values();
    lemma_pow2_values();
    lemma_pow2_monotone(e as nat, 104);
    crate::powers::lemma_pow2_split(104, 24);
    assert(gap == pe * w);
    assert(m * pe < 0x100_0000 * pow2(104)) by (nonlinear_arith)
        requires
            0 < m < 0x100_0000,
            0 < pe <= pow2(104),
    ;
    assert(pow2(104) * 0x100_0000 == pow2(128));
    let v: int = magnitude_of(k) as int;
    let lo: int = twice_midpoint((k - 1) as nat) as int;
    let hi: int = twice_midpoint(k) as int;
    assert(grain_numerator(39) == ten39 * w);
    assert(grain_denominator(39) == 1);
    assert((2 * (ten39 * w)) * 4 == (2 * w) * (4 * ten39)) by (nonlinear_arith);
    assert((2 * v * 1) * 4 == (2 * w) * (4 * (m * pe))) by (nonlinear_arith)
        requires
            v == m * gap,
            gap == pe * w,
    ;
    assert((hi * 1) * 4 == (2 * w) * (4 * (m * pe) + 2 * pe)) by (nonlinear_arith)
        requires
            hi == 2 * (m * gap) + gap,
            gap == pe * w,
    ;
    assert((lo * 1) * 4 == (2 * w) * (4 * (m * pe) - below)) by (nonlinear_arith)
        requires
            m == BINADE ==> 2 * lo == 4 * (m * gap) - gap,
            m != BINADE ==> lo == 2 * (m * gap) - gap,
            gap == pe * w,
            below == if m == BINADE { pe } else { 2 * pe },
    ;
    // no multiple of 10^40 is as small as the midpoint above
    assert(hi < 2 * (ten40 * w)) by (nonlinear_arith)
        requires
            hi == 2 * (m * gap) + gap,
            gap == pe * w,
            m * pe < 0x1_0000_0000_0000_0000_0000_0000_0000_0000,
            0 < pe <= 0x1_0000_0000_0000_0000_0000_0000_0000_0000,
            ten40 == 10_000_000_000_000_000_000_000_000_000_000_000_000_000,
            w > 0,
    {
        assert(hi == (2 * (m * pe) + pe) * w);
        assert((2 * (m * pe) + pe) * w < (2 * ten40) * w);
    }
    assert(pe <= half_weight()) by {
        lemma_pow2_monotone(104, 128);
    }
    assert forall|b: nat| !#[trigger] reads_as(b, 40, k) by {
        let n: int = (b * grain_numerator(40)) as int;
        assert(grain_numerator(40) == ten40 * w);
        assert(grain_denominator(40) == 1);
        if b >= 1 {
            assert(n >= ten40 * w) by (nonlinear_arith)
                requires
                    n == b * (ten40 * w),
                    b >= 1,
                    ten40 * w >= 0,
            ;
            assert(hi * 1 == hi);
        } else {
            assert(n == 0);
            assert(lo * 1 == lo);
        }
    }
}

/// The search's scale at its first grain for a value below 2^23: the grain
/// is `10^8`, above every such value.
proof fn lemma_start_small(k: nat, m: int, e: int)
    requires
        decomposed(k, m, e),
        e < 0,
    ensures
        ({
            let pa: int = pow2((-e) as nat) as int;
            let below: int = if m == BINADE && e > -149 {
                1
            } else {
                2
            };
            &&& level_holds(
                k,
                8,
                (4 * pow10(8)) * pa,
                4 * m,
                below,
                2,
                4 * pa,
                (2 * pow2(149)) as int,
            )
            &&& 4 * m < (4 * pow10(8)) * pa
            &&& 0 < pa
            &&& (4 * pow10(8)) * pa < pow2(180)
        }),
        forall|b: nat| !#[trigger] reads_as(b, 9, k),
{
    let a: nat = (-e) as nat;
    let pa: int = pow2(a) as int;
    let w: int = pow2(149) as int;
    let gap: int = pow2((e + 149) as nat) as int;
    let below: int = if m == BINADE && e > -149 {
        1
    } else {
        2
    };
    let ten8: int = pow10(8) as int;
    let ten9: int = pow10(9) as int;
    lemma_midpoints(k, m, e);
    lemma_pow2_split(a, (e + 149) as nat);
    lemma_pow10_values();
    lemma_pow2_values();
    lemma_pow2_pos(a);
    assert(pa * gap == w);
    assert(pa >= 2) by {
        lemma_pow2_monotone(1, a);
    }
    let v: int = magnitude_of(k) as int;
    let lo: int = twice_midpoint((k - 1) as nat) as int;
    let hi: int = twice_midpoint(k) as int;
    assert(grain_numerator(8) == ten8 * w);
    assert(grain_denominator(8) == 1);
    assert((2 * (ten8 * w)) * (4 * pa) == (2 * w) * ((4 * ten8) * pa)) by (nonlinear_arith);
    assert((2 * v * 1) * (4 * pa) == (2 * w) * (4 * m)) by (nonlinear_arith)
        requires
            v == m * gap,
            pa * gap == w,
    {
        assert((m * gap) * pa == m * (pa * gap));
    }
    assert((hi * 1) * (4 * pa) == (2 * w) * (4 * m + 2)) by (nonlinear_arith)
        requires
            hi == 2 * (m * gap) + gap,
            pa * gap == w,
    {
        assert((m * gap) * pa == m * (pa * gap));
    }
    assert((lo * 1) * (4 * pa) == (2 * w) * (4 * m - below)) by (nonlinear_arith)
        requires
            (m == BINADE && e > -149) ==> 2 * lo == 4 * (m * gap) - gap,
            !(m == BINADE && e > -149) ==> lo == 2 * (m * gap) - gap,
            pa * gap == w,
            below == if m == BINADE && e > -149 { 1int } else { 2int },
    {
        assert((m * gap) * pa == m * (pa * gap));
    }
    assert(4 * m < (4 * ten8) * pa) by (nonlinear_arith)
        requires
            m < 0x100_0000,
            ten8 == 100_000_000,
            pa >= 2,
    ;
    assert((4 * ten8) * pa < pow2(180)) by {
        lemma_pow2_monotone(a, 149);
        lemma_pow2_split(31, 149);
        vstd::arithmetic::power2::lemma2_to64();
        let top: int = pow2(149) as int;
        assert((4 * ten8) * pa < 0x8000_0000 * top) by (nonlinear_arith)
            requires
                ten8 == 100_000_000,
                0 < pa <= top,
        ;
        assert(pow2(180) == 0x8000_0000 * top);
    }
    // no multiple of 10^9 is as small as the midpoint above
    assert(hi < 2 * (ten9 * w)) by (nonlinear_arith)
        requires
            hi == 2 * (m * gap) + gap,
            pa * gap == w,
            pa >= 2,
            gap > 0,
            0 < m < 0x100_0000,
            ten9 == 1_000_000_000,
    {
        assert(hi == (2 * m + 1) * gap);
        assert((2 * m + 1) * gap < (2 * ten9) * gap);
        assert(gap <= w);
        assert((2 * ten9) * gap <= (2 * ten9) * w);
    }
    assert forall|b: nat| !#[trigger] reads_as(b, 9, k) by {
        let n: int = (b * grain_numerator(9)) as int;
        assert(grain_numerator(9) == ten9 * w);
        assert(grain_denominator(9) == 1);
        if b >= 1 {
            assert(n >= ten9 * w) by (nonlinear_arith)
                requires
                    n == b * (ten9 * w),
                    b >= 1,
                    ten9 * w >= 0,
            ;
            assert(hi * 1 == hi);
        } else {
            assert(n == 0);
            assert(lo * 1 == lo);
        }
    }
}

/// The numbers of the search leave room for a hundred times the grain.
proof fn lemma_wide_room()
    ensures
        100 * pow2(180) < half_weight() * half_weight(),
        pow2(184) == 16 * pow2(180),
{
    lemma_pow2_values();
    vstd::arithmetic::power2::lemma2_to64();
    lemma_pow2_split(128, 128);
    lemma_pow2_split(180, 76);
    lemma_pow2_split(64, 12);
    lemma_pow2_split(180, 4);
    let p: int = pow2(180) as int;
    let q: int = pow2(76) as int;
    lemma_pow2_pos(180);
    assert(100 * p < p * q) by (nonlinear_arith)
        requires
            p > 0,
            q > 100,
    ;
}

/// One grain finer: the count of grains takes the next digit, and what is
/// left of the value and the distances to the midpoints are ten times as
/// large against the grain.
proof fn lemma_next_digit(c: int, digit: int, s: int, r: int, r2: int, m: int, above: int)
    by (nonlinear_arith)
    requires
        r2 + digit * s == 10 * r,
        c * s + r == 2 * m * above,
        0 < above < s,
        r2 >= 0,
        m > 0,
    ensures
        (10 * c + digit) * s + r2 == 10 * (c * s + r),
        (10 * c + digit) * s + r2 == 2 * m * (10 * above),
        10 * c + digit <= 20 * m,
{
    let c2 = 10 * c + digit;
    assert(c2 * s + r2 == 10 * (c * s + r));
    assert(10 * (2 * m * above) == 2 * m * (10 * above));
    assert(2 * m * (10 * above) <= 2 * m * (10 * s));
    assert(c2 * s <= (20 * m) * s);
}

/// The grain at which the search for a value below 2^23 starts, on the
/// search's scale: `4 * 10^8 * 2^a`.
fn small_start_grain(a: u32) -> (grain: Wide)
    requires
        1 <= a <= 149,
    ensures
        grain.value() == (4 * pow10(8)) * pow2(a as nat),
{
    let mut grain = Wide::from_u128(400_000_000);
    let mut i: u32 = 0;
    proof {
        lemma_pow10_values();
        lemma_pow2_values();
    }
    while i < a
        invariant
            i <= a <= 149,
            grain.value() == 400_000_000 * pow2(i as nat),
        decreases a - i,
    {
        proof {
            lemma_pow2_unfold((i + 1) as nat);
            lemma_pow2_monotone((i + 1) as nat, 149);
            lemma_pow2_split(149, 31);
            lemma_pow2_monotone(180, 255);
            lemma_pow2_split(128, 127);
            lemma_pow2_values();
            let p: int = pow2(i as nat) as int;
            assert(2 * (400_000_000 * p) < 0x8000_0000 * pow2(149)) by (nonlinear_arith)
                requires
                    0 < 2 * p <= pow2(149),
            ;
        }
        grain = grain.doubled();
        i = i + 1;
    }
    grain
}

/// The shortest decimal `c * 10^g` of a finite ordinal other than zero, as
/// the pair of `c` and `g`.
pub fn shortest_decimal(k: u32) -> (r: (u64, i32))
    requires
        0 < k < INFINITY_ORDINAL,
    ensures
        is_shortest_decimal(k as nat, r.0 as nat, r.1 as int),
        shortest_decimal_of(k as nat) == (r.0 as nat, r.1 as int),
        r.0 <= 0x2000_0000,
        -200 <= r.1 <= 39,
{
    let (m, e) = decompose(k);
    let even: bool = k % 2 == 0;
    let grain: Wide;
    let mut rest: Wide;
    let mut above: Wide;
    let mut below: Wide;
    let mut g: i32;
    let ghost mut kp: int;
    let ghost f: int = (2 * pow2(149)) as int;
    proof {
        lemma_pow2_values();
        lemma_pow10_values();
        lemma_pow2_split(128, 52);
        lemma_pow2_monotone(180, 250);
        lemma_pow2_split(128, 122);
    }
    if e >= 0 {
        proof {
            lemma_start_large(k as nat, m as int, e as int);
            lemma_pow2_monotone(e as nat, 104);
            lemma_pow2_monotone(104, 120);
        }
        let pe: u128 = pow2_u128(e as u32);
        rest = Wide::from_u128((m as u128) * pe).doubled().doubled();
        above = Wide::from_u128(2 * pe);
        below = if m == BINADE {
            Wide::from_u128(pe)
        } else {
            Wide::from_u128(2 * pe)
        };
        grain = Wide::from_u128(
            100_000_000_000_000_000_000_000_000_000_000_000_000,
        ).times_ten().doubled().doubled();
        g = 39;
        proof {
            kp = 4;
            assert(grain.value() < pow2(180)) by {
                lemma_pow2_monotone(132, 180);
                lemma_pow2_split(128, 4);
                vstd::arithmetic::power2::lemma2_to64();
            }
        }
    } else {
        proof {
            lemma_start_small(k as nat, m as int, e as int);
        }
        grain = small_start_grain((-e) as u32);
        rest = Wide::from_u128(4 * (m as u128));
        above = Wide::from_u128(2);
        below = if m == BINADE && e > -149 {
            Wide::from_u128(1)
        } else {
            Wide::from_u128(2)
        };
        g = 8;
        proof {
            kp = (4 * pow2((-e) as nat)) as int;
        }
    }
    let mut c: u64 = 0;
    let ghost mut steps: nat = 0;
    let ghost first: int = g as int;
    proof {
        assert(0 * grain.value() + rest.value() == rest.value());
        assert(pow10(0) == 1);
        if e >= 0 {
            let pe: int = pow2(e as nat) as int;
            assert(4 * (m * pe) == 2 * m * (2 * pe)) by (nonlinear_arith);
        }
    }
    loop
        invariant
            0 < k < INFINITY_ORDINAL,
            0 < m < 2 * BINADE,
            even == (k % 2 == 0),
            f == 2 * pow2(149),
            level_holds(
                k as nat,
                g as int,
                grain.value(),
                c * grain.value() + rest.value(),
                below.value(),
                above.value(),
                kp,
                f,
            ),
            0 <= rest.value() < grain.value() < pow2(180),
            0 < below.value() <= above.value() <= 10 * grain.value(),
            c * grain.value() + rest.value() == 2 * m * above.value(),
            c <= 20 * m,
            forall|b: nat| !#[trigger] reads_as(b, g + 1, k as nat),
            8 <= first <= 39,
            g == first - steps,
            steps <= 184,
            above.value() >= pow10(steps),
        decreases 10 * grain.value() - above.value(),
    {
        let ghost s: int = grain.value();
        let ghost r: int = rest.value();
        let ghost t: int = c * s + r;
        let room = grain.minus(rest);
        let low_ok: bool = c >= 1 && (rest.less(below) || (even && rest.same(below)));
        let high_ok: bool = room.less(above) || (even && room.same(above));
        proof {
            assert((c + 1) * s == c * s + s) by (nonlinear_arith);
            if c == 0 {
                assert(r > below.value()) by (nonlinear_arith)
                    requires
                        0 * s + r == 2 * m * above.value(),
                        m >= 1,
                        0 < below.value() <= above.value(),
                ;
            }
            assert(low_ok == lies_within(
                c * s,
                t - below.value(),
                t + above.value(),
                k % 2 == 0,
            ));
            assert(high_ok == lies_within(
                (c + 1) * s,
                t - below.value(),
                t + above.value(),
                k % 2 == 0,
            ));
        }
        if low_ok || high_ok {
            let up: bool = high_ok && (!low_ok || !rest.less(room));
            let chosen: u64 = if up {
                c + 1
            } else {
                c
            };
            proof {
                lemma_chosen_is_closest(
                    k as nat,
                    g as int,
                    s,
                    c as int,
                    r,
                    below.value(),
                    above.value(),
                    kp,
                    f,
                    up,
                );
                assert forall|b: nat, h: int| h > g implies !#[trigger] reads_as(b, h, k as nat) by {
                    if reads_as(b, h, k as nat) {
                        lemma_finer_grain(b, h, g + 1, k as nat);
                    }
                }
                lemma_shortest_is(k as nat, chosen as nat, g as int);
            }
            return (chosen, g);
        }
        proof {
            lemma_none_reads(
                k as nat,
                g as int,
                s,
                c as int,
                r,
                below.value(),
                above.value(),
                kp,
                f,
            );
            lemma_level_step(k as nat, g as int, s, t, below.value(), above.value(), kp, f);
            // the powers of ten passed stay below the grain
            lemma_wide_room();
            if steps >= 184 {
                lemma_pow10_above_pow2(steps);
                lemma_pow2_monotone(184, steps);
            }
        }
        let mut widened = rest.times_ten();
        let mut digit: u64 = 0;
        while !widened.less(grain)
            invariant
                widened.value() + digit * grain.value() == 10 * rest.value(),
                0 <= rest.value() < grain.value(),
                digit <= 9,
            decreases widened.value(),
        {
            proof {
                assert(digit < 9) by (nonlinear_arith)
                    requires
                        widened.value() + digit * grain.value() == 10 * rest.value(),
                        rest.value() < grain.value(),
                        widened.value() >= grain.value(),
                        digit <= 9,
                ;
                assert((digit + 1) * grain.value() == digit * grain.value() + grain.value())
                    by (nonlinear_arith);
            }
            widened = widened.minus(grain);
            digit = digit + 1;
        }
        proof {
            lemma_next_digit(
                c as int,
                digit as int,
                s,
                r,
                widened.value(),
                m as int,
                above.value(),
            );
            assert(pow10(steps + 1) == 10 * pow10(steps));
            if g > 0 {
                kp = 10 * kp;
            }
            steps = steps + 1;
        }
        c = 10 * c + digit;
        rest = widened;
        above = above.times_ten();
        below = below.times_ten();
        g = g - 1;
    }
}

} // verus!
