use matching_engine::errors::EngineError;
use matching_engine::price::Price;
use rust_decimal::Decimal;

#[test]
fn whole_number_prices_scale_up() {
    assert_eq!(Price::new(500, 0).unwrap().units, 50_000_000);
    assert_eq!(Price::new(1, 0).unwrap().units, 100_000);
}

#[test]
fn fractional_prices_are_exact() {
    // 1.23 at five fractional digits is 123000 units.
    assert_eq!(Price::new(123, 2).unwrap().units, 123_000);
    // 0.00001 is the smallest representable price.
    assert_eq!(Price::new(1, 5).unwrap().units, 1);
    // Trailing zeros beyond the scale trim away without loss.
    assert_eq!(Price::new(1_234_500, 7).unwrap().units, 12_345);
}

#[test]
fn equal_decimal_inputs_give_identical_prices() {
    // 1.2 written three ways: same units, so equality and hashing are stable.
    let a = Price::new(12, 1).unwrap();
    let b = Price::new(120, 2).unwrap();
    let c = Price::new(1_200_000, 6).unwrap();
    assert_eq!(a, b);
    assert_eq!(b, c);
}

#[test]
fn invalid_prices_are_rejected() {
    // Not positive.
    assert_eq!(Price::new(0, 0), Err(EngineError::InvalidPrice));
    assert_eq!(Price::new(-5, 2), Err(EngineError::InvalidPrice));
    // More precision than the fixed scale keeps.
    assert_eq!(Price::new(123, 7), Err(EngineError::InvalidPrice));
    // Too large for the internal representation.
    assert_eq!(Price::new(i128::MAX, 0), Err(EngineError::InvalidPrice));
}

#[test]
fn from_decimal_scales_the_mantissa() {
    // 1.23 becomes 123000 units, not the raw mantissa 123.
    let p = Price::from_decimal(&Decimal::new(123, 2)).unwrap();
    assert_eq!(p.units, 123_000);

    let q = Price::from_decimal(&Decimal::new(10_000, 0)).unwrap();
    assert_eq!(q.units, 1_000_000_000);

    assert_eq!(
        Price::from_decimal(&Decimal::new(-1, 0)),
        Err(EngineError::InvalidPrice)
    );
    // 0.0000001 carries more precision than the scale keeps.
    assert_eq!(
        Price::from_decimal(&Decimal::new(1, 7)),
        Err(EngineError::InvalidPrice)
    );
}

#[test]
fn prices_order_by_value() {
    let a = Price::new(99, 0).unwrap();
    let b = Price::new(100, 0).unwrap();
    assert!(a.units < b.units);
}
