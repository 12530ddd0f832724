use polynomial::Fixed;

fn decode(x: f32) -> i64 {
    Fixed::from_binary32(x.to_bits()).raw()
}

/// The nearest count of millionths by floating-point arithmetic: the product
/// is exact in double precision, and `round` sends a tie away from zero.
fn nearest(x: f32) -> i64 {
    Fixed::from_raw((x as f64 * 1_000_000.0).round() as i64).raw()
}

#[test]
fn whole_numbers_and_fractions() {
    assert_eq!(decode(0.0), 0);
    assert_eq!(decode(-0.0), 0);
    assert_eq!(decode(1.0), 1_000_000);
    assert_eq!(decode(-13.0), -13_000_000);
    assert_eq!(decode(161.0), 161_000_000);
    assert_eq!(decode(100000.0), 100_000_000_000);
    assert_eq!(decode(0.5), 500_000);
    assert_eq!(decode(-0.125), -125_000);
    assert_eq!(decode(1.1), 1_100_000);
    assert_eq!(decode(-1.1), -1_100_000);
    assert_eq!(decode(7.167), 7_167_000);
    assert_eq!(decode(0.001), 1_000);
    assert_eq!(decode(0.1), 100_000);
}

#[test]
fn small_numbers_round_to_the_nearest() {
    assert_eq!(decode(0.000001), 1);
    assert_eq!(decode(0.0000004), 0);
    assert_eq!(decode(0.0000006), 1);
    assert_eq!(decode(-0.0000006), -1);
    assert_eq!(decode(0.0000014), 1);
    assert_eq!(decode(0.0000016), 2);
    assert_eq!(decode(1.0e-30), 0);
    assert_eq!(decode(f32::MIN_POSITIVE), 0);
    // the smallest number above zero
    assert_eq!(Fixed::from_binary32(1).raw(), 0);
    assert_eq!(Fixed::from_binary32(0x8000_0001).raw(), 0);
}

#[test]
fn a_tie_goes_away_from_zero() {
    // 1/128 is 7812.5 millionths
    assert_eq!(decode(0.0078125), 7_813);
    assert_eq!(decode(-0.0078125), -7_813);
    // 3/128 is 23437.5 millionths
    assert_eq!(decode(0.0234375), 23_438);
    // 1/64 is 15625 millionths
    assert_eq!(decode(0.015625), 15_625);
}

#[test]
fn large_numbers_saturate() {
    assert_eq!(decode(f32::MAX), i64::MAX);
    assert_eq!(decode(f32::MIN), -i64::MAX);
    assert_eq!(decode(1.0e13), i64::MAX);
    assert_eq!(decode(-1.0e13), -i64::MAX);
    assert_eq!(decode(f32::INFINITY), i64::MAX);
    assert_eq!(decode(f32::NEG_INFINITY), -i64::MAX);
    // the largest single-precision number below 2^43 is within the range
    assert_eq!(decode(8796092497920.0), 8_796_092_497_920_000_000);
    // 2^43 millionths of a million is 8796093022208, which is within it too
    assert_eq!(decode(8796093022208.0), 8_796_093_022_208_000_000);
    // 2^44 is beyond it
    assert_eq!(decode(17592186044416.0), i64::MAX);
}

#[test]
fn what_is_no_number_gives_zero() {
    assert_eq!(decode(f32::NAN), 0);
    assert_eq!(Fixed::from_binary32(0x7fc0_0001).raw(), 0);
    assert_eq!(Fixed::from_binary32(0xff80_0001).raw(), 0);
    assert_eq!(Fixed::from_binary32(0x7fff_ffff).raw(), 0);
}

#[test]
fn decoding_agrees_with_floating_point_arithmetic() {
    let mut bits: u32 = 0;
    let mut count: u32 = 0;
    loop {
        let x = f32::from_bits(bits);
        assert_eq!(decode(x), nearest(x), "pattern {:#010x}", bits);
        count += 1;
        match bits.checked_add(104_729) {
            Some(next) => bits = next,
            None => break,
        }
    }
    assert!(count > 40_000);
    for bits in [
        0x0000_0000u32,
        0x0000_0001,
        0x007f_ffff,
        0x0080_0000,
        0x3f80_0000,
        0x7f7f_ffff,
        0x7f80_0000,
        0x8000_0000,
        0xff7f_ffff,
        0xff80_0000,
        0xffff_ffff,
    ] {
        let x = f32::from_bits(bits);
        assert_eq!(decode(x), nearest(x), "pattern {:#010x}", bits);
    }
    // around each power of two from 2^-30 to 2^50
    for exponent in 97u32..=177 {
        for fraction in [0u32, 1, 2, 0x3f_ffff, 0x40_0000, 0x40_0001, 0x7f_fffe, 0x7f_ffff] {
            for sign in [0u32, 0x8000_0000] {
                let bits = sign | (exponent << 23) | fraction;
                let x = f32::from_bits(bits);
                assert_eq!(decode(x), nearest(x), "pattern {:#010x}", bits);
            }
        }
    }
}
