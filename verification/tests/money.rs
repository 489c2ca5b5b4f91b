use financial_planner::money::{Money, Rate};

#[test]
fn zero_is_zero() {
    assert!(Money::zero().is_zero());
    assert!(!Money::zero().is_negative());
    assert_eq!(Money::zero(), Money::from_i32(0));
    assert_eq!(Money::zero().to_string(), "$0.00");
}

#[test]
fn whole_units_have_six_decimals() {
    assert_eq!(Money::from_i32(100), Money::from_units(100_000_000));
    assert_eq!(Money::from_u32(7), Money::from_units(7_000_000));
    assert_eq!(Money::from_i32(-3), Money::from_units(-3_000_000));
    assert_eq!(Money::from_i32(i32::MIN), Money::from_units(-2_147_483_648_000_000));
    assert_eq!(Money::from_u32(u32::MAX), Money::from_units(4_294_967_295_000_000));
}

#[test]
fn addition_carries() {
    let a = Money::from_units(999_999);
    let b = Money::from_units(1);
    assert_eq!(a.add(b), Money::from_i32(1));
    assert_eq!(Money::from_i32(5).add(Money::from_i32(-5)), Money::zero());
    assert_eq!(Money::from_i32(5).add(Money::from_i32(-7)), Money::from_i32(-2));
    assert_eq!(Money::from_i32(-5).add(Money::from_i32(7)), Money::from_i32(2));
    assert_eq!(Money::from_i32(-5).add(Money::from_i32(-7)), Money::from_i32(-12));
}

#[test]
fn subtraction_borrows() {
    assert_eq!(Money::from_i32(1).sub(Money::from_units(1)), Money::from_units(999_999));
    assert_eq!(Money::from_i32(3).sub(Money::from_i32(10)), Money::from_i32(-7));
    assert_eq!(Money::from_i32(-3).sub(Money::from_i32(-10)), Money::from_i32(7));
    assert_eq!(Money::from_i32(1000).sub(Money::from_i32(999)), Money::from_i32(1));
}

#[test]
fn negation_turns_the_sign() {
    assert_eq!(Money::from_i32(4).neg(), Money::from_i32(-4));
    assert_eq!(Money::from_i32(-4).neg(), Money::from_i32(4));
    assert_eq!(Money::zero().neg(), Money::zero());
    assert!(!Money::zero().neg().is_negative());
}

#[test]
fn assignment_forms_change_in_place() {
    let mut m = Money::from_i32(10);
    m.add_assign(Money::from_i32(5));
    assert_eq!(m, Money::from_i32(15));
    m.sub_assign(Money::from_i32(20));
    assert_eq!(m, Money::from_i32(-5));
}

#[test]
fn amounts_grow_past_machine_integers() {
    let mut m = Money::from_units(i64::MAX);
    m.add_assign(Money::from_units(i64::MAX));
    m.add_assign(Money::from_units(2));
    // 2 * (2^63 - 1) + 2 = 2^64 millionths
    assert_eq!(m.format(6), "$18446744073709.551616");
    let back = m.sub(Money::from_units(i64::MAX)).sub(Money::from_units(i64::MAX));
    assert_eq!(back, Money::from_units(2));
    assert_eq!(Money::from_units(i64::MIN).format(6), "$-9223372036854.775808");
}

#[test]
fn ten_percent_of_two_hundred_is_twenty() {
    let share = Money::from_i32(200).mul_percent(Rate::from_percent(10));
    assert_eq!(share, Money::from_i32(20));
}

#[test]
fn percentages_are_cut_toward_zero() {
    // half of one millionth is nothing
    assert_eq!(Money::from_units(1).mul_percent(Rate::from_percent(50)), Money::zero());
    assert_eq!(Money::from_units(-1).mul_percent(Rate::from_percent(50)), Money::zero());
    // a third of a billionth-rate: 1.000000 * 0.333333333 = 0.333333 (cut)
    assert_eq!(
        Money::from_i32(1).mul_percent(Rate::new(333_333_333)),
        Money::from_units(333_333)
    );
    assert_eq!(
        Money::from_i32(-1).mul_percent(Rate::new(333_333_333)),
        Money::from_units(-333_333)
    );
    assert_eq!(
        Money::from_i32(1).mul_percent(Rate::new(-333_333_333)),
        Money::from_units(-333_333)
    );
    assert_eq!(
        Money::from_i32(-1).mul_percent(Rate::new(-999_999_999)),
        Money::from_units(999_999)
    );
}

#[test]
fn percentages_of_large_rates() {
    assert_eq!(
        Money::from_i32(3).mul_percent(Rate::new(i64::MAX)),
        Money::from_units(27_670_116_110_564_327)
    );
    assert_eq!(
        Money::from_i32(3).mul_percent(Rate::new(i64::MIN)),
        Money::from_units(-27_670_116_110_564_327)
    );
    assert_eq!(Money::from_i32(12).mul_percent(Rate::new(0)), Money::zero());
    assert_eq!(Money::zero().mul_percent(Rate::from_percent(10)), Money::zero());
}

#[test]
fn rate_of_percent() {
    assert_eq!(Rate::from_percent(10), Rate::new(100_000_000));
    assert_eq!(Rate::from_percent(100).billionths, 1_000_000_000);
    assert_eq!(Rate::from_percent(-5).billionths, -50_000_000);
}

#[test]
fn order_of_amounts() {
    let small = Money::from_i32(-3);
    let mid = Money::from_units(5);
    let big = Money::from_i32(12);
    assert!(small.less_than(&mid));
    assert!(mid.less_than(&big));
    assert!(small.less_than(&big));
    assert!(!big.less_than(&small));
    assert!(!mid.less_than(&mid));
    assert!(Money::from_i32(-12).less_than(&small));
    assert!(!small.less_than(&Money::from_i32(-12)));
    assert!(Money::from_i32(9).less_than(&Money::from_i32(10)));
    assert!(mid.equals(&Money::from_units(5)));
    assert!(!mid.equals(&Money::from_units(-5)));
    assert!(!mid.equals(&big));
}

#[test]
fn text_with_two_decimals() {
    assert_eq!(Money::from_i32(100).to_string(), "$100.00");
    assert_eq!(Money::from_units(1_500_000).to_string(), "$1.50");
    assert_eq!(Money::from_units(-1_500_000).to_string(), "$-1.50");
    assert_eq!(Money::from_units(50_000).to_string(), "$0.05");
    assert_eq!(Money::from_units(1_234_567_890).to_string(), "$1234.57");
}

#[test]
fn text_rounds_half_away_from_zero() {
    assert_eq!(Money::from_units(1_005_000).to_string(), "$1.01");
    assert_eq!(Money::from_units(1_004_999).to_string(), "$1.00");
    assert_eq!(Money::from_units(-1_005_000).to_string(), "$-1.01");
    assert_eq!(Money::from_units(999_999).to_string(), "$1.00");
    assert_eq!(Money::from_units(9_995_000).to_string(), "$10.00");
    assert_eq!(Money::from_units(4_999).to_string(), "$0.00");
    assert_eq!(Money::from_units(-4_999).to_string(), "$-0.00");
}

#[test]
fn text_with_other_precisions() {
    let m = Money::from_units(12_345_678);
    assert_eq!(m.format(0), "$12");
    assert_eq!(m.format(1), "$12.3");
    assert_eq!(m.format(3), "$12.346");
    assert_eq!(m.format(5), "$12.34568");
    assert_eq!(m.format(6), "$12.345678");
    assert_eq!(m.format(8), "$12.34567800");
    assert_eq!(Money::from_units(500_000).format(0), "$1");
    assert_eq!(Money::from_units(499_999).format(0), "$0");
    assert_eq!(Money::zero().format(0), "$0");
    assert_eq!(Money::zero().format(7), "$0.0000000");
}

#[test]
fn a_copy_of_an_amount_is_equal() {
    let m = Money::from_units(-123_456_789);
    assert_eq!(m.clone(), m);
}

#[test]
fn rates_as_decimal_numbers() {
    assert_eq!(Rate::from_percent(10).to_string(), "0.1");
    assert_eq!(Rate::from_percent(100).to_string(), "1");
    assert_eq!(Rate::from_percent(250).to_string(), "2.5");
    assert_eq!(Rate::new(0).to_string(), "0");
    assert_eq!(Rate::new(1).to_string(), "0.000000001");
    assert_eq!(Rate::new(-1_000_000_010).to_string(), "-1.00000001");
    assert_eq!(Rate::new(123_456_789_000).to_string(), "123.456789");
    assert_eq!(Rate::new(i64::MIN).to_string(), "-9223372036.854775808");
    assert_eq!(Rate::new(i64::MAX).to_string(), "9223372036.854775807");
}

#[test]
fn rates_in_hundredths() {
    assert_eq!(Rate::from_percent(10).percent(), "10.00");
    assert_eq!(Rate::new(4_166_666).percent(), "0.42");
    assert_eq!(Rate::new(50_000).percent(), "0.01");
    assert_eq!(Rate::new(49_999).percent(), "0.00");
    assert_eq!(Rate::new(-49_999).percent(), "-0.00");
    assert_eq!(Rate::new(-1_234_567_890).percent(), "-123.46");
    assert_eq!(Rate::new(0).percent(), "0.00");
    assert_eq!(Rate::new(i64::MAX).percent(), "922337203685.48");
    assert_eq!(Rate::new(i64::MIN).percent(), "-922337203685.48");
}

#[test]
fn the_sum_of_amounts() {
    assert_eq!(Money::sum(vec![]), Money::zero());
    assert_eq!(Money::sum(vec![Money::from_i32(5)]), Money::from_i32(5));
    assert_eq!(
        Money::sum(vec![Money::from_i32(5), Money::from_i32(-7), Money::from_units(1)]),
        Money::from_units(-1_999_999)
    );
}
