use order_book::decimal::{MAX_MANTISSA, MAX_SCALE};
use order_book::Decimal;

fn dec(mantissa: i128, scale: u32) -> Decimal {
    Decimal { mantissa, scale }
}

#[test]
fn compare_orders_by_value_across_scales() {
    assert_eq!(dec(10, 1).compare(&dec(100, 2)), 0);
    assert_eq!(dec(1, 0).compare(&dec(1_0000000000_0000000000_00000000, 28)), 0);
    assert_eq!(dec(95, 1).compare(&dec(960, 2)), -1);
    assert_eq!(dec(960, 2).compare(&dec(95, 1)), 1);
    assert_eq!(dec(-1, 0).compare(&dec(1, 3)), -1);
    assert_eq!(dec(-5, 1).compare(&dec(-1, 2)), -1);
    assert_eq!(dec(0, 5).compare(&dec(0, 0)), 0);
    assert_eq!(dec(MAX_MANTISSA, 0).compare(&dec(MAX_MANTISSA, 28)), 1);
    assert_eq!(dec(-MAX_MANTISSA, 0).compare(&dec(MAX_MANTISSA, 28)), -1);
}

#[test]
fn same_value_ignores_trailing_zeros() {
    assert!(dec(1000, 2).same_value(&dec(10, 0)));
    assert!(!dec(1000, 2).same_value(&dec(1001, 2)));
    assert_ne!(dec(1000, 2), dec(10, 0));
}

#[test]
fn parse_reads_mantissa_and_scale() {
    assert_eq!(Decimal::parse("12.50"), Some(dec(1250, 2)));
    assert_eq!(Decimal::parse("-0.125"), Some(dec(-125, 3)));
    assert_eq!(Decimal::parse("7"), Some(dec(7, 0)));
    assert_eq!(Decimal::parse("abc"), None);
    assert_eq!(Decimal::parse(""), None);
    assert_eq!(Decimal::parse("1.2.3"), None);
}

#[test]
fn parsed_decimals_are_in_range() {
    let d = Decimal::parse("79228162514264337593543950335").unwrap();
    assert!(d.is_wf());
    assert_eq!(d, dec(MAX_MANTISSA, 0));
    let small = Decimal::parse("0.0000000000000000000000000001").unwrap();
    assert_eq!(small, dec(1, 28));
    assert!(small.is_wf());
}

#[test]
fn from_parts_checks_both_bounds() {
    assert_eq!(Decimal::from_parts(5, 2), Some(dec(5, 2)));
    assert_eq!(Decimal::from_parts(MAX_MANTISSA, MAX_SCALE), Some(dec(MAX_MANTISSA, 28)));
    assert_eq!(Decimal::from_parts(-MAX_MANTISSA, 0), Some(dec(-MAX_MANTISSA, 0)));
    assert_eq!(Decimal::from_parts(MAX_MANTISSA + 1, 0), None);
    assert_eq!(Decimal::from_parts(-MAX_MANTISSA - 1, 0), None);
    assert_eq!(Decimal::from_parts(1, 29), None);
    assert!(!dec(1, 29).is_wf());
    assert!(dec(1, 28).is_wf());
}

#[test]
fn whole_numbers_and_zero() {
    assert_eq!(Decimal::from_i64(-42), dec(-42, 0));
    assert_eq!(Decimal::from_i64(i64::MAX), dec(i64::MAX as i128, 0));
    assert_eq!(Decimal::zero(), dec(0, 0));
    assert!(Decimal::from_i64(i64::MIN).is_wf());
}
