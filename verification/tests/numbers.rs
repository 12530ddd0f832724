use polynomial::Fixed;

fn raw(v: i64) -> Fixed {
    Fixed::from_raw(v)
}

#[test]
fn constants_and_whole_numbers() {
    assert_eq!(Fixed::zero().raw(), 0);
    assert_eq!(Fixed::one().raw(), 1_000_000);
    assert_eq!(Fixed::from_int(11).raw(), 11_000_000);
    assert_eq!(Fixed::from_int(-3).raw(), -3_000_000);
    assert_eq!(Fixed::from_int(i64::MAX).raw(), i64::MAX);
    assert_eq!(Fixed::from_int(i64::MIN).raw(), -i64::MAX);
}

#[test]
fn signs() {
    assert!(raw(0).is_zero());
    assert!(!raw(1).is_zero());
    assert!(raw(1).is_positive());
    assert!(!raw(0).is_positive());
    assert!(raw(-1).is_negative());
    assert!(!raw(0).is_negative());
}

#[test]
fn sum_and_difference_saturate() {
    assert_eq!(raw(1_500_000).add(raw(2_250_000)).raw(), 3_750_000);
    assert_eq!(raw(1_500_000).sub(raw(2_250_000)).raw(), -750_000);
    assert_eq!(raw(i64::MAX).add(raw(1)).raw(), i64::MAX);
    assert_eq!(raw(i64::MIN).add(raw(-1)).raw(), -i64::MAX);
    assert_eq!(raw(i64::MIN).sub(raw(1)).raw(), -i64::MAX);
    assert_eq!(raw(i64::MAX).sub(raw(-1)).raw(), i64::MAX);
    assert_eq!(raw(i64::MAX).add(raw(-i64::MAX)).raw(), 0);
}

#[test]
fn negation_is_exact() {
    assert_eq!(raw(5).neg().raw(), -5);
    assert_eq!(raw(-5).neg().raw(), 5);
    assert_eq!(raw(0).neg().raw(), 0);
    assert_eq!(raw(i64::MAX).neg().raw(), -i64::MAX);
    assert_eq!(raw(-i64::MAX).neg().raw(), i64::MAX);
    assert_eq!(raw(i64::MAX).neg().neg().raw(), i64::MAX);
}

#[test]
fn the_range_is_the_same_on_both_sides() {
    assert_eq!(raw(i64::MAX).raw(), i64::MAX);
    assert_eq!(raw(-i64::MAX).raw(), -i64::MAX);
    assert_eq!(raw(i64::MIN).raw(), -i64::MAX);
    assert_eq!(raw(i64::MIN), raw(-i64::MAX));
}

#[test]
fn product_rounds_toward_zero() {
    // 1.5 * 2.5 = 3.75
    assert_eq!(raw(1_500_000).mul(raw(2_500_000)).raw(), 3_750_000);
    // 0.000001 * 0.5 = 0.0000005, which rounds to 0
    assert_eq!(raw(1).mul(raw(500_000)).raw(), 0);
    assert_eq!(raw(-1).mul(raw(500_000)).raw(), 0);
    // 0.000003 * 0.5 = 0.0000015, which rounds to 0.000001
    assert_eq!(raw(3).mul(raw(500_000)).raw(), 1);
    assert_eq!(raw(-3).mul(raw(500_000)).raw(), -1);
    assert_eq!(raw(3).mul(raw(-500_000)).raw(), -1);
    assert_eq!(raw(-3).mul(raw(-500_000)).raw(), 1);
    assert_eq!(raw(7_000_000).mul(raw(0)).raw(), 0);
}

#[test]
fn product_saturates() {
    assert_eq!(raw(i64::MAX).mul(raw(2_000_000)).raw(), i64::MAX);
    assert_eq!(raw(i64::MAX).mul(raw(-2_000_000)).raw(), -i64::MAX);
    assert_eq!(raw(i64::MIN).mul(raw(-2_000_000)).raw(), i64::MAX);
    assert_eq!(raw(i64::MIN).mul(raw(i64::MIN)).raw(), i64::MAX);
    assert_eq!(raw(i64::MAX).mul(raw(1_000_000)).raw(), i64::MAX);
}

#[test]
fn quotient_rounds_toward_zero() {
    // 6 / 2 = 3
    assert_eq!(raw(6_000_000).div(raw(2_000_000)).raw(), 3_000_000);
    // 1 / 3 = 0.333333
    assert_eq!(raw(1_000_000).div(raw(3_000_000)).raw(), 333_333);
    assert_eq!(raw(-1_000_000).div(raw(3_000_000)).raw(), -333_333);
    assert_eq!(raw(1_000_000).div(raw(-3_000_000)).raw(), -333_333);
    assert_eq!(raw(-1_000_000).div(raw(-3_000_000)).raw(), 333_333);
    // 2 / 3 = 0.666666, not 0.666667
    assert_eq!(raw(2_000_000).div(raw(3_000_000)).raw(), 666_666);
    assert_eq!(raw(0).div(raw(5)).raw(), 0);
}

#[test]
fn quotient_saturates() {
    // largest / 0.5
    assert_eq!(raw(i64::MAX).div(raw(500_000)).raw(), i64::MAX);
    assert_eq!(raw(i64::MAX).div(raw(-500_000)).raw(), -i64::MAX);
    assert_eq!(raw(i64::MIN).div(raw(-1_000_000)).raw(), i64::MAX);
    assert_eq!(raw(i64::MIN).div(raw(1)).raw(), -i64::MAX);
}

#[test]
fn whole_multiples_and_parts() {
    assert_eq!(raw(-10_000_000).times(2).raw(), -20_000_000);
    assert_eq!(raw(123).times(0).raw(), 0);
    assert_eq!(raw(0).times(usize::MAX).raw(), 0);
    assert_eq!(raw(1).times(usize::MAX).raw(), i64::MAX);
    assert_eq!(raw(-1).times(usize::MAX).raw(), -i64::MAX);
    assert_eq!(raw(i64::MAX).times(2).raw(), i64::MAX);
    assert_eq!(raw(i64::MIN).times(3).raw(), -i64::MAX);
    assert_eq!(raw(10_000_000).over(3).raw(), 3_333_333);
    assert_eq!(raw(-10_000_000).over(3).raw(), -3_333_333);
    assert_eq!(raw(-3_000_000).over(3).raw(), -1_000_000);
    assert_eq!(raw(5).over(usize::MAX).raw(), 0);
    assert_eq!(raw(i64::MIN).over(1).raw(), -i64::MAX);
}

#[test]
fn share_of_one() {
    assert_eq!(Fixed::ratio(0, 49).raw(), 0);
    assert_eq!(Fixed::ratio(49, 49).raw(), 1_000_000);
    assert_eq!(Fixed::ratio(1, 3).raw(), 333_333);
    assert_eq!(Fixed::ratio(2, 3).raw(), 666_666);
    assert_eq!(Fixed::ratio(usize::MAX, usize::MAX).raw(), 1_000_000);
    assert_eq!(Fixed::ratio(usize::MAX - 1, usize::MAX).raw(), 999_999);
}

#[test]
fn powers_by_repeated_product() {
    assert_eq!(raw(3_000_000).pow(0).raw(), 1_000_000);
    assert_eq!(raw(0).pow(0).raw(), 1_000_000);
    assert_eq!(raw(0).pow(3).raw(), 0);
    assert_eq!(raw(3_000_000).pow(5).raw(), 243_000_000);
    assert_eq!(raw(-2_000_000).pow(3).raw(), -8_000_000);
    assert_eq!(raw(1_500_000).pow(2).raw(), 2_250_000);
    // 0.001 ^ 2 = 0.000001, and the third power rounds to zero
    assert_eq!(raw(1_000).pow(2).raw(), 1);
    assert_eq!(raw(1_000).pow(3).raw(), 0);
    // 1000 ^ 5 lies beyond the range
    assert_eq!(raw(1_000_000_000).pow(5).raw(), i64::MAX);
    assert_eq!(raw(-1_000_000_000).pow(5).raw(), -i64::MAX);
}

#[test]
fn zero_between_two_numbers() {
    assert!(raw(-1).brackets_zero_with(raw(1)));
    assert!(raw(1).brackets_zero_with(raw(-1)));
    assert!(raw(0).brackets_zero_with(raw(5)));
    assert!(raw(-5).brackets_zero_with(raw(0)));
    assert!(raw(0).brackets_zero_with(raw(0)));
    assert!(!raw(1).brackets_zero_with(raw(2)));
    assert!(!raw(-1).brackets_zero_with(raw(-2)));
    // the product of the two values would round to zero; the signs decide
    assert!(!raw(1).brackets_zero_with(raw(1)));
}

#[test]
fn numbers_as_text() {
    assert_eq!(raw(5_000_000).render(), "5");
    assert_eq!(raw(-12_000_000).render(), "-12");
    assert_eq!(raw(1_100_000).render(), "1.1");
    assert_eq!(raw(7_167_000).render(), "7.167");
    assert_eq!(raw(-500_000).render(), "-0.5");
    assert_eq!(raw(1).render(), "0.000001");
    assert_eq!(raw(-1_000_001).render(), "-1.000001");
    assert_eq!(raw(10_050_000).render(), "10.05");
    assert_eq!(raw(0).render(), "0");
    assert_eq!(raw(i64::MAX).render(), "9223372036854.775807");
    assert_eq!(raw(i64::MIN).render(), "-9223372036854.775807");
}
