use arb_engine::decimal::{Decimal, DecimalExt};
use arb_engine::math::{calculate_profit_percent, calculate_sell_order_amounts};
use std::str::FromStr;

fn d(s: &str) -> Decimal {
    let x = rust_decimal::Decimal::from_str(s).unwrap();
    Decimal::from_parts(x.mantissa(), x.scale()).unwrap()
}

fn rd(x: Decimal) -> rust_decimal::Decimal {
    rust_decimal::Decimal::from_i128_with_scale(x.mantissa(), x.scale())
}

fn lit(s: &str) -> rust_decimal::Decimal {
    rust_decimal::Decimal::from_str(s).unwrap()
}

#[test]
fn test_truncate_to_dp_down() {
    let val = d("0.12345678").truncate_to_dp(5);
    assert_eq!(rd(val) + lit("0.00000001"), lit("0.12345001"));
}

#[test]
fn test_truncate_to_dp_up() {
    let val = d("0.12345678").truncate_to_dp(10);
    assert_eq!(rd(val) + lit("0.0000000001"), lit("0.1234567801"));
}

#[test]
fn truncate_to_dp_is_floor_at_step() {
    // law: a non-negative value cut to dp digits is floor(x * 10^dp) / 10^dp
    let x = d("4.1625000000000000000000000000");
    assert_eq!(rd(x.truncate_to_dp(3)), lit("4.162"));
    assert_eq!(rd(d("0.99999").truncate_to_dp(0)), lit("0"));
    assert_eq!(rd(d("12.5").truncate_to_dp(3)), lit("12.5"));
    assert_eq!(rd(d("-1.98765").truncate_to_dp(2)), lit("-1.98"));
}

#[test]
fn parts_and_constructors() {
    assert!(Decimal::from_parts(79228162514264337593543950335, 28).is_some());
    assert!(Decimal::from_parts(79228162514264337593543950336, 0).is_none());
    assert!(Decimal::from_parts(1, 29).is_none());
    let x = Decimal::new(-3141, 3);
    assert_eq!(x.mantissa(), -3141);
    assert_eq!(x.scale(), 3);
    assert_eq!(rd(Decimal::one()), lit("1"));
    assert_eq!(rd(Decimal::zero()), lit("0"));
}

#[test]
fn truncation_matches_floor_on_samples() {
    // cutting to k digits is floor(x * 10^k) / 10^k for non-negative values and
    // toward zero for negative ones, whatever the scale of x
    let samples = [
        "0", "1", "-1", "0.001", "0.0047571428571428571428571429", "4.1625", "105000",
        "-2.5", "123456789.987654321", "0.0000000001", "99999999999999", "7.0000",
        "0.9999999999999999999999999999", "-0.3333333333333333333333333333",
    ];
    for a in samples.iter() {
        let x = d(a);
        for k in 0..10u32 {
            let cut = rd(x.truncate_to_dp(k));
            let expected = lit(a).trunc_with_scale(k);
            assert_eq!(cut, expected, "{} cut to {} digits", a, k);
        }
    }
}

#[test]
fn truncation_keeps_shorter_values() {
    assert_eq!(rd(d("12.5").truncate_to_dp(8)), lit("12.5"));
    assert_eq!(rd(d("0.00000001").truncate_to_dp(8)), lit("0.00000001"));
    assert_eq!(rd(d("0.000000019").truncate_to_dp(8)), lit("0.00000001"));
}

#[test]
fn subtraction_division_and_rounding_through_the_formulas() {
    // (990 - 1000) / 1000 * 100.0
    assert_eq!(rd(calculate_profit_percent(d("1000"), d("990"))), lit("-1"));
    // 0.12345 * 3 * 0.999 = 0.36997965 (8 digits kept); 0.0000078 of the base is dust
    let (order, quote, dust) = calculate_sell_order_amounts(d("0.1234578"), d("3"), 5, d("0.001"));
    assert_eq!(rd(order), lit("0.12345"));
    assert_eq!(rd(quote), lit("0.36997965"));
    assert_eq!(rd(dust), lit("0.0000078"));
}

#[test]
fn truncation_of_zero_and_of_up_to_eighteen_digits() {
    // a zero with decimals multiplied by 10^k is zero at scale 0
    assert_eq!(rd(d("0.00").truncate_to_dp(5)), lit("0"));
    assert_eq!(rd(d("-0.000").truncate_to_dp(0)), lit("0"));
    // cutting to more than nine digits is exact as well
    assert_eq!(rd(d("0.12345678").truncate_to_dp(10)), lit("0.12345678"));
    assert_eq!(rd(d("1.123456789012345678999").truncate_to_dp(18)), lit("1.123456789012345678"));
    assert_eq!(rd(d("-7.99999999999").truncate_to_dp(10)), lit("-7.9999999999"));
}

#[test]
fn truncation_moves_less_than_one_step_toward_zero() {
    let samples = ["0.0047619047619047619047619048", "-3.75", "105000.123", "0.000000999", "-0.5"];
    for a in samples.iter() {
        let x = lit(a);
        for k in 0..=18u32 {
            let r = rd(d(a).truncate_to_dp(k));
            let step = rust_decimal::Decimal::new(1, k);
            assert!((x - r).abs() < step, "{} cut to {}", a, k);
            assert!(r.abs() <= x.abs());
            assert!(r.is_zero() || r.is_sign_negative() == x.is_sign_negative());
            assert_eq!(rd(d(&r.to_string()).truncate_to_dp(k)), r);
        }
    }
}

#[test]
fn truncation_when_only_the_value_fits() {
    // 7 * 10^26 at scale 1: its mantissa times 10^2 overflows 96 bits, the value times 10^2
    // does not
    let x = Decimal::from_parts(7_000_000_000_000_000_000_000_000_000, 1).unwrap();
    assert_eq!(rd(x.truncate_to_dp(2)), lit("700000000000000000000000000"));
}
