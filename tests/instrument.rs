use option_board::instrument::decimal_to_price_units;
use option_board::{parse_instrument, InstrumentId, OptionType};

#[test]
fn parses_a_call() {
    assert_eq!(
        parse_instrument("BTC-10MAR23-22500-C"),
        Some(InstrumentId { maturity: 1_678_435_200, strike: 225_000_000, option_type: OptionType::Call })
    );
}

#[test]
fn parses_a_put_with_fractional_strike() {
    let id = parse_instrument("ETH-1JAN24-1.5-P").unwrap();
    assert_eq!(id.maturity, 1_704_096_000);
    assert_eq!(id.strike, 15_000);
    assert_eq!(id.option_type, OptionType::Put);
}

#[test]
fn rejects_malformed_names() {
    assert_eq!(parse_instrument(""), None);
    assert_eq!(parse_instrument("BTC-PERPETUAL"), None);
    assert_eq!(parse_instrument("BTC-10MAR23-22500-X"), None);
    assert_eq!(parse_instrument("BTC-10MAR23-22500-CC"), None);
    assert_eq!(parse_instrument("BTC-31FEB23-22500-C"), None);
    assert_eq!(parse_instrument("BTC-10MAR23--C"), None);
    assert_eq!(parse_instrument("BTC-10MAR23-0-C"), None);
    assert_eq!(parse_instrument("BTC-10MAR23--100-C"), None);
    assert_eq!(parse_instrument("BTC-10MAR23-22500-C-1"), None);
}

#[test]
fn converts_decimals_to_price_units() {
    assert_eq!(decimal_to_price_units(22500, 0), Some(225_000_000));
    assert_eq!(decimal_to_price_units(15, 1), Some(15_000));
    assert_eq!(decimal_to_price_units(123_400, 6), Some(1_234));
    assert_eq!(decimal_to_price_units(123_456, 6), None);
    assert_eq!(decimal_to_price_units(0, 2), None);
    assert_eq!(decimal_to_price_units(-5, 0), None);
    assert_eq!(decimal_to_price_units(i64::MAX as i128, 0), None);
    assert_eq!(decimal_to_price_units(i64::MAX as i128, 4), Some(i64::MAX));
}
