use order_book_server::error::ServerError;
use order_book_server::order_book::fixed::{format_fixed, parse_fixed};
use order_book_server::order_book::types::{Coin, Oid, Px, Side, Sz};

#[test]
fn parses_whole_and_fractional_prices() {
    assert_eq!(Px::parse_from_str("105.5"), Ok(Px(10_550_000_000)));
    assert_eq!(Px::parse_from_str("0.0012"), Ok(Px(120_000)));
    assert_eq!(Sz::parse_from_str("3"), Ok(Sz(300_000_000)));
    assert_eq!(Sz::parse_from_str("0.00000001"), Ok(Sz(1)));
    assert_eq!(Px::parse_from_str("007.50"), Ok(Px(750_000_000)));
}

#[test]
fn refuses_malformed_numbers() {
    for s in ["", ".", "1.", ".5", "1.123456789", "abc", "1.2.3", "-1", "1e5", " 1", "1,5"] {
        assert_eq!(Px::parse_from_str(s), Err(ServerError::InvalidNumber), "text {:?}", s);
        assert_eq!(Sz::parse_from_str(s), Err(ServerError::InvalidNumber), "text {:?}", s);
    }
}

#[test]
fn parse_stops_at_the_u64_range() {
    assert_eq!(parse_fixed("184467440737.09551615"), Some(u64::MAX));
    assert_eq!(parse_fixed("184467440737.09551616"), None);
    assert_eq!(parse_fixed("184467440738"), None);
    assert_eq!(parse_fixed("99999999999999999999999999"), None);
    assert_eq!(parse_fixed("184467440737"), Some(184_467_440_737 * 100_000_000));
}

#[test]
fn formats_without_trailing_zeros() {
    assert_eq!(Px(10_550_000_000).to_str(), "105.5");
    assert_eq!(Px(0).to_str(), "0");
    assert_eq!(Sz(100_000_000).to_str(), "1");
    assert_eq!(Sz(1).to_str(), "0.00000001");
    assert_eq!(Sz(120_000).to_str(), "0.0012");
    assert_eq!(format_fixed(u64::MAX), "184467440737.09551615");
}

#[test]
fn format_then_parse_gives_the_value_back() {
    for v in [0u64, 1, 9, 10, 99_999_999, 100_000_000, 123_456_789_012, 10_550_000_000, u64::MAX, u64::MAX - 1] {
        assert_eq!(parse_fixed(&format_fixed(v)), Some(v), "value {}", v);
    }
}

#[test]
fn size_decrement() {
    let mut s = Sz::new(500);
    s.decrement_sz(200);
    assert_eq!(s.value(), 300);
}

#[test]
fn spot_coins() {
    assert!(Coin::new("@107").is_spot());
    assert!(Coin::new("PURR/USDC").is_spot());
    assert!(!Coin::new("BTC").is_spot());
    assert!(!Coin::new("").is_spot());
    assert!(!Coin::new("E@TH").is_spot());
}

#[test]
fn coin_names() {
    let c = Coin::new("ETH");
    assert_eq!(c.value(), "ETH");
    assert!(c.same(&Coin::from_string("ETH".to_string())));
    assert!(!c.same(&Coin::new("BTC")));
    assert_eq!(Oid::new(7), Oid(7));
    assert_eq!(Px::new(3).value(), 3);
    assert_ne!(Side::Ask, Side::Bid);
}
