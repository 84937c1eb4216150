use crypto_arbitrage::decimal::{parse_size, parse_units, read_decimal, Reading};
use crypto_arbitrage::market::Ticker;

#[test]
fn decimal_forms() {
    assert_eq!(parse_units("1"), Some(100_000_000));
    assert_eq!(parse_units("1.01"), Some(101_000_000));
    assert_eq!(parse_units("60123.45000000"), Some(6_012_345_000_000));
    assert_eq!(parse_units("0.00000001"), Some(1));
    assert_eq!(parse_units(".5"), Some(50_000_000));
    assert_eq!(parse_units("7."), Some(700_000_000));
    assert_eq!(parse_units("0"), Some(0));
}

#[test]
fn decimal_extra_fraction_digits_round_down() {
    assert_eq!(parse_units("0.123456789"), Some(12_345_678));
    assert_eq!(parse_units("2.999999999999"), Some(299_999_999));
}

#[test]
fn decimal_rejects_other_text() {
    assert_eq!(parse_units(""), None);
    assert_eq!(parse_units("."), None);
    assert_eq!(parse_units("abc"), None);
    assert_eq!(parse_units("1.2.3"), None);
    assert_eq!(parse_units("-1"), None);
    assert_eq!(parse_units(" 1"), None);
    assert_eq!(parse_units("1.x"), None);
}

#[test]
fn decimal_sign_and_exponent_forms() {
    assert_eq!(parse_units("+1.5"), Some(150_000_000));
    assert_eq!(parse_units("1e5"), Some(10_000_000_000_000));
    assert_eq!(parse_units("1E-5"), Some(1_000));
    assert_eq!(parse_units("2.5e+2"), Some(25_000_000_000));
    assert_eq!(parse_units("1.23456789e-3"), Some(123_456));
    assert_eq!(parse_units(".5e1"), Some(500_000_000));
    assert_eq!(parse_units("1.5e-9"), Some(0));
    assert_eq!(parse_units("0e999999999999999999999999999999"), Some(0));
    assert_eq!(parse_units("7e-999999999999999999999999999999999999999"), Some(0));
    assert_eq!(parse_units("1e999999999999999999999999999999"), None);
    assert_eq!(parse_units("1e11"), Some(10_000_000_000_000_000_000));
}

#[test]
fn decimal_malformed_exponents() {
    assert_eq!(read_decimal("1e"), Reading::Invalid);
    assert_eq!(read_decimal("e5"), Reading::Invalid);
    assert_eq!(read_decimal("1e+"), Reading::Invalid);
    assert_eq!(read_decimal("1e5e2"), Reading::Invalid);
    assert_eq!(read_decimal("1e2.5"), Reading::Invalid);
    assert_eq!(read_decimal("++1"), Reading::Invalid);
    assert_eq!(read_decimal("+"), Reading::Invalid);
    assert_eq!(read_decimal("1e20"), Reading::TooLarge);
    assert_eq!(read_decimal("2.5"), Reading::Units(250_000_000));
}

#[test]
fn sizes_beyond_range_are_held_at_the_largest() {
    assert_eq!(parse_size("1e30"), Some(u64::MAX));
    assert_eq!(parse_size("500000000000"), Some(u64::MAX));
    assert_eq!(parse_size("12.5"), Some(1_250_000_000));
    assert_eq!(parse_size("abc"), None);
}

#[test]
fn decimal_largest_value() {
    assert_eq!(parse_units("184467440737.09551615"), Some(u64::MAX));
    assert_eq!(parse_units("184467440737.09551616"), None);
    assert_eq!(parse_units("184467440738"), None);
    assert_eq!(parse_units("99999999999999999999999"), None);
}

#[test]
fn quote_from_feed_fields() {
    let t = Ticker::from_fields(
        "BTCUSDT".to_string(),
        "BTC".to_string(),
        "USDT".to_string(),
        "60000.5",
        "60001",
        "0.25",
        "1.5",
        42,
    )
    .expect("all fields parse");
    assert_eq!(t.symbol, "BTCUSDT");
    assert_eq!((t.base_currency.as_str(), t.quote_currency.as_str()), ("BTC", "USDT"));
    assert_eq!(t.bid_price, 6_000_050_000_000);
    assert_eq!(t.ask_price, 6_000_100_000_000);
    assert_eq!(t.bid_qty, 25_000_000);
    assert_eq!(t.ask_qty, 150_000_000);
    assert_eq!(t.timestamp, 42);
}

#[test]
fn quote_with_bad_field_is_left_out() {
    let make = |bid: &str, ask: &str, bq: &str, aq: &str| {
        Ticker::from_fields("XY".to_string(), "X".to_string(), "Y".to_string(), bid, ask, bq, aq, 0)
    };
    assert!(make("1", "1", "1", "1").is_some());
    assert!(make("n/a", "1", "1", "1").is_none());
    assert!(make("1", "", "1", "1").is_none());
    assert!(make("1", "1", "x", "1").is_none());
    assert!(make("1", "1", "1", "-2").is_none());
    assert!(make("1", "0", "1", "1").is_none());
    assert!(make("1", "0.000000001", "1", "1").is_none());
    assert!(make("0", "1", "0", "0").is_some());
    assert!(make("92233720368.54775807", "92233720368.54775807", "1", "1").is_some());
    assert!(make("92233720368.54775808", "1", "1", "1").is_none());
    assert!(make("1", "92233720368.54775808", "1", "1").is_none());
    assert!(make("1", "1", "184467440737.09551615", "1").is_some());
    let big = make("1e-3", "+2E-3", "3e20", "1e12").expect("sizes are held, not dropped");
    assert_eq!((big.bid_price, big.ask_price), (100_000, 200_000));
    assert_eq!((big.bid_qty, big.ask_qty), (u64::MAX, u64::MAX));
}
