use complex_numbers::binary32::Binary32;
use complex_numbers::decimal::shortest_decimal;

fn next(state: &mut u64) -> u32 {
    *state ^= *state << 13;
    *state ^= *state >> 7;
    *state ^= *state << 17;
    (*state >> 16) as u32
}

/// The digits and the exponent of ten that the machine's own shortest form holds.
fn expected(x: f32) -> (u64, i32) {
    let text = format!("{:e}", x);
    let (mantissa, exponent) = text.split_once('e').unwrap();
    let digits: String = mantissa.chars().filter(|c| *c != '.').collect();
    let exponent: i32 = exponent.parse().unwrap();
    (digits.parse().unwrap(), exponent - (digits.len() as i32 - 1))
}

fn check(k: u32) {
    let x = f32::from_bits(k);
    assert_eq!(shortest_decimal(k), expected(x), "{:#x} {:e}", k, x);
    assert_eq!(Binary32::from_bits(k).to_text(), format!("{}", x));
    assert_eq!(Binary32::from_bits(k | 0x8000_0000).to_text(), format!("{}", -x));
    assert_eq!(Binary32::from_bits(k).to_verbose_text(), format!("{:?}", x));
    assert_eq!(Binary32::from_bits(k | 0x8000_0000).to_verbose_text(), format!("{:?}", -x));
}

#[test]
fn shortest_decimal_agrees_with_the_machine_on_random_encodings() {
    let mut state: u64 = 0x2545_f491_4f6c_dd1d;
    for _ in 0..30_000 {
        let k = next(&mut state) & 0x7fff_ffff;
        if k > 0 && k < 0x7f80_0000 {
            check(k);
        }
    }
}

#[test]
fn shortest_decimal_agrees_with_the_machine_at_the_ends_of_each_binade() {
    for exponent in 0u32..255 {
        for offset in [0u32, 1, 2, 3, 0x7f_fffd, 0x7f_fffe, 0x7f_ffff, 0x40_0000] {
            let k = (exponent << 23) | offset;
            if k > 0 {
                check(k);
            }
        }
    }
}

#[test]
fn shortest_decimal_agrees_with_the_machine_on_small_subnormals() {
    for k in 1u32..5000 {
        check(k);
    }
}

#[test]
fn shortest_decimal_agrees_with_the_machine_on_whole_numbers_and_fractions() {
    for n in 1u32..3000 {
        check((n as f32).to_bits());
        check((n as f32 / 100.0).to_bits());
        check((n as f32 * 1.0e-3).to_bits());
        check((n as f32 * 1.0e7).to_bits());
    }
}

#[test]
fn shortest_decimal_of_familiar_values() {
    assert_eq!(shortest_decimal(1.0f32.to_bits()), (1, 0));
    assert_eq!(shortest_decimal(0.12f32.to_bits()), (12, -2));
    assert_eq!(shortest_decimal(0.34f32.to_bits()), (34, -2));
    assert_eq!(shortest_decimal(1.0e10f32.to_bits()), (1, 10));
    assert_eq!(shortest_decimal(f32::MAX.to_bits()), (34028235, 31));
    assert_eq!(shortest_decimal(1), (1, -45));
    assert_eq!(shortest_decimal(16777216.0f32.to_bits()), (16777216, 0));
}

#[test]
fn text_of_special_values() {
    assert_eq!(Binary32::from_bits(0).to_text(), "0");
    assert_eq!(Binary32::from_bits(0x8000_0000).to_text(), "-0");
    assert_eq!(Binary32::from_bits(0x7f80_0000).to_text(), "inf");
    assert_eq!(Binary32::from_bits(0xff80_0000).to_text(), "-inf");
    assert_eq!(Binary32::from_bits(0x7fc0_0000).to_text(), "NaN");
    assert_eq!(Binary32::from_bits(0xffc0_0001).to_text(), "NaN");
}

#[test]
fn text_is_written_out_without_an_exponent() {
    assert_eq!(Binary32::from_bits(1.0e10f32.to_bits()).to_text(), "10000000000");
    assert_eq!(Binary32::from_bits(1.5f32.to_bits()).to_text(), "1.5");
    assert_eq!(Binary32::from_bits(0.001f32.to_bits()).to_text(), "0.001");
    assert_eq!(Binary32::from_bits(123.456f32.to_bits()).to_text(), "123.456");
    assert_eq!(Binary32::from_bits(f32::MAX.to_bits()).to_text(), "340282350000000000000000000000000000000");
    assert_eq!(
        Binary32::from_bits(1).to_text(),
        "0.000000000000000000000000000000000000000000001"
    );
}

#[test]
fn verbose_text_of_special_values() {
    assert_eq!(Binary32::from_bits(0).to_verbose_text(), "0.0");
    assert_eq!(Binary32::from_bits(0x8000_0000).to_verbose_text(), "-0.0");
    assert_eq!(Binary32::from_bits(0x7f80_0000).to_verbose_text(), "inf");
    assert_eq!(Binary32::from_bits(0xff80_0000).to_verbose_text(), "-inf");
    assert_eq!(Binary32::from_bits(0x7fc0_0000).to_verbose_text(), "NaN");
    assert_eq!(Binary32::from_bits(0xffc0_0001).to_verbose_text(), "NaN");
}

#[test]
fn verbose_text_turns_to_an_exponent_at_the_same_values_as_the_machine() {
    for centre in [1.0e-4f32, 1.0e16f32, 1.0e-5f32, 1.0e15f32, 1.0e17f32, 1.0e-3f32] {
        let k = centre.to_bits();
        for offset in 0..200u32 {
            check(k - 100 + offset);
        }
    }
    assert_eq!(Binary32::from_bits(1.0e-4f32.to_bits()).to_verbose_text(), "0.0001");
    assert_eq!(Binary32::from_bits(1.0e-5f32.to_bits()).to_verbose_text(), "1e-5");
    assert_eq!(Binary32::from_bits(1.5e-5f32.to_bits()).to_verbose_text(), "1.5e-5");
    assert_eq!(Binary32::from_bits(1.0e15f32.to_bits()).to_verbose_text(), "1000000000000000.0");
    assert_eq!(Binary32::from_bits(1.0e16f32.to_bits()).to_verbose_text(), "1e16");
    assert_eq!(Binary32::from_bits(f32::MAX.to_bits()).to_verbose_text(), "3.4028235e38");
    assert_eq!(Binary32::from_bits(1).to_verbose_text(), "1e-45");
    assert_eq!(Binary32::from_bits(2.5f32.to_bits()).to_verbose_text(), "2.5");
    assert_eq!(Binary32::from_bits(3.0f32.to_bits()).to_verbose_text(), "3.0");
}
