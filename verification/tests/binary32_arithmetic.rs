use complex_numbers::binary32::Binary32;

fn same(ours: Binary32, theirs: f32) -> bool {
    if theirs.is_nan() {
        ours.to_bits() & 0x7fff_ffff > 0x7f80_0000
    } else {
        ours.to_bits() == theirs.to_bits()
    }
}

fn next(state: &mut u64) -> u32 {
    *state ^= *state << 13;
    *state ^= *state >> 7;
    *state ^= *state << 17;
    (*state >> 16) as u32
}

/// An encoding whose exponent field lies within `spread` of `centre`.
fn near(state: &mut u64, centre: u32, spread: u32) -> u32 {
    let raw = next(state);
    let exponent = (centre + next(state) % (2 * spread + 1)).saturating_sub(spread).min(255);
    (raw & 0x807f_ffff) | (exponent << 23)
}

fn check_all(a: u32, b: u32) {
    let x = Binary32::from_bits(a);
    let y = Binary32::from_bits(b);
    let p = f32::from_bits(a);
    let q = f32::from_bits(b);
    assert!(same(x.add(y), p + q), "{:#x} + {:#x}: {:#x} vs {:#x}", a, b, x.add(y).to_bits(), (p + q).to_bits());
    assert!(same(x.sub(y), p - q), "{:#x} - {:#x}: {:#x} vs {:#x}", a, b, x.sub(y).to_bits(), (p - q).to_bits());
    assert!(same(x.mul(y), p * q), "{:#x} * {:#x}: {:#x} vs {:#x}", a, b, x.mul(y).to_bits(), (p * q).to_bits());
    assert!(same(x.div(y), p / q), "{:#x} / {:#x}: {:#x} vs {:#x}", a, b, x.div(y).to_bits(), (p / q).to_bits());
    assert!(same(x.sqrt(), p.sqrt()), "sqrt {:#x}: {:#x} vs {:#x}", a, x.sqrt().to_bits(), p.sqrt().to_bits());
}

#[test]
fn arithmetic_agrees_with_the_machine_on_random_encodings() {
    let mut state: u64 = 0x9e37_79b9_7f4a_7c15;
    for _ in 0..20_000 {
        let a = next(&mut state);
        let b = next(&mut state);
        check_all(a, b);
    }
}

#[test]
fn arithmetic_agrees_with_the_machine_on_close_exponents() {
    let mut state: u64 = 0x1234_5678_9abc_def1;
    for _ in 0..20_000 {
        let a = near(&mut state, 127, 30);
        let b = near(&mut state, 127, 30);
        check_all(a, b);
    }
}

#[test]
fn arithmetic_agrees_with_the_machine_near_underflow() {
    let mut state: u64 = 0x0fed_cba9_8765_4321;
    for _ in 0..20_000 {
        let a = near(&mut state, 2, 2);
        let b = near(&mut state, 2, 2);
        check_all(a, b);
        let c = near(&mut state, 64, 10);
        let d = near(&mut state, 64, 10);
        check_all(c, d);
        check_all(a, near(&mut state, 127, 26));
    }
}

#[test]
fn arithmetic_agrees_with_the_machine_near_overflow() {
    let mut state: u64 = 0x0bad_cafe_dead_beef;
    for _ in 0..20_000 {
        let a = near(&mut state, 253, 2);
        let b = near(&mut state, 253, 2);
        check_all(a, b);
        let c = near(&mut state, 190, 10);
        let d = near(&mut state, 190, 10);
        check_all(c, d);
        check_all(a, near(&mut state, 127, 26));
    }
}

#[test]
fn arithmetic_agrees_with_the_machine_on_special_values() {
    let special: [u32; 16] = [
        0x0000_0000, 0x8000_0000, 0x0000_0001, 0x8000_0001, 0x007f_ffff, 0x0080_0000,
        0x3f80_0000, 0xbf80_0000, 0x7f7f_ffff, 0xff7f_ffff, 0x7f80_0000, 0xff80_0000,
        0x7fc0_0000, 0xffc0_0001, 0x3400_0000, 0x4b80_0000,
    ];
    for a in special {
        for b in special {
            check_all(a, b);
        }
    }
}

#[test]
fn ties_go_to_the_even_neighbour() {
    // 1 + 2^-24 lies halfway between 1 and the next value: it rounds down to 1
    let one = Binary32::from_bits(0x3f80_0000);
    let half_ulp = Binary32::from_bits(0x3380_0000);
    assert_eq!(one.add(half_ulp).to_bits(), 0x3f80_0000);
    // (1 + 2^-23) + 2^-24 lies halfway too, and rounds up to the even 1 + 2^-22
    let next_up = Binary32::from_bits(0x3f80_0001);
    assert_eq!(next_up.add(half_ulp).to_bits(), 0x3f80_0002);
}

#[test]
fn addition_agrees_with_the_machine_across_exponent_distances() {
    let mut state: u64 = 0x5bd1_e995_0f0f_0f0f;
    for distance in 0u32..80 {
        for _ in 0..500 {
            let low = 1 + next(&mut state) % (253 - distance);
            let a = (next(&mut state) & 0x807f_ffff) | ((low + distance) << 23);
            let b = (next(&mut state) & 0x807f_ffff) | (low << 23);
            check_all(a, b);
            check_all(b, a);
            // operands whose low digits are all set or all clear sit on the ties
            check_all(a | 0x007f_ffff, b & 0xff80_0000);
            check_all(a & 0xff80_0000, b | 0x007f_ffff);
            check_all(a & 0xff80_0000, b & 0xff80_0000);
        }
    }
}

#[test]
fn subnormal_operands_agree_with_the_machine() {
    let mut state: u64 = 0x7f4a_7c15_9e37_79b9;
    for _ in 0..20_000 {
        let a = next(&mut state) & 0x807f_ffff;
        let b = near(&mut state, 12, 12);
        check_all(a, b);
        check_all(b, a);
        check_all(a, next(&mut state) & 0x807f_ffff);
        check_all(a, near(&mut state, 150, 30));
        check_all(near(&mut state, 150, 30), a);
    }
}

#[test]
fn comparisons_agree_with_the_machine() {
    let special: [u32; 12] = [
        0x0000_0000, 0x8000_0000, 0x0000_0001, 0x8000_0001, 0x3f80_0000, 0xbf80_0000,
        0x7f7f_ffff, 0xff7f_ffff, 0x7f80_0000, 0xff80_0000, 0x7fc0_0000, 0xffc0_0001,
    ];
    for a in special {
        for b in special {
            let x = Binary32::from_bits(a);
            let y = Binary32::from_bits(b);
            assert_eq!(x == y, f32::from_bits(a) == f32::from_bits(b));
            assert_eq!(x.equals(y), f32::from_bits(a) == f32::from_bits(b));
            assert_eq!(x.less_than(y), f32::from_bits(a) < f32::from_bits(b));
        }
    }
    let mut state: u64 = 0x1357_9bdf_2468_ace0;
    for _ in 0..20_000 {
        let a = next(&mut state);
        let b = next(&mut state);
        assert_eq!(
            Binary32::from_bits(a).less_than(Binary32::from_bits(b)),
            f32::from_bits(a) < f32::from_bits(b)
        );
        assert_eq!(Binary32::from_bits(a).neg().to_bits(), (-f32::from_bits(a)).to_bits());
    }
}

#[test]
fn sums_and_products_have_their_exact_values() {
    let b = |x: f32| Binary32::from_bits(x.to_bits());
    assert_eq!(b(2.0).add(b(3.0)).to_bits(), 5.0f32.to_bits());
    assert_eq!(b(2.0).sub(b(3.0)).to_bits(), (-1.0f32).to_bits());
    assert_eq!(b(2.0).mul(b(3.0)).to_bits(), 6.0f32.to_bits());
    assert_eq!(b(3.0).div(b(2.0)).to_bits(), 1.5f32.to_bits());
    assert_eq!(b(9.0).sqrt().to_bits(), 3.0f32.to_bits());
    assert_eq!(b(2.0).sqrt().to_bits(), 0x3fb5_04f3);
    assert_eq!(b(1.0).div(b(3.0)).to_bits(), 0x3eaa_aaab);
    assert_eq!(b(-4.0).sqrt().to_bits(), 0x7fc0_0000);
    assert_eq!(b(-0.0).sqrt().to_bits(), 0x8000_0000);
    assert_eq!(b(0.0).add(b(-0.0)).to_bits(), 0);
    assert_eq!(b(-0.0).add(b(-0.0)).to_bits(), 0x8000_0000);
    assert_eq!(b(f32::MAX).add(b(f32::MAX)).to_bits(), 0x7f80_0000);
    assert_eq!(b(f32::MAX).mul(b(-2.0)).to_bits(), 0xff80_0000);
    assert_eq!(b(1.0e-30).mul(b(1.0e-30)).to_bits(), 0);
}
