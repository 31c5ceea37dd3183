use prefix_miner::digits::{parse_u32, render_dec};
use prefix_miner::locate::ts_value;
use prefix_miner::SearchError;

#[test]
fn render_dec_exact_values() {
    assert_eq!(render_dec(0), b"0".to_vec());
    assert_eq!(render_dec(7), b"7".to_vec());
    assert_eq!(render_dec(10), b"10".to_vec());
    assert_eq!(render_dec(999), b"999".to_vec());
    assert_eq!(render_dec(1000000000), b"1000000000".to_vec());
    assert_eq!(render_dec(u64::MAX), b"18446744073709551615".to_vec());
}

#[test]
fn parse_u32_round_trips() {
    assert_eq!(parse_u32("0"), Some(0));
    assert_eq!(parse_u32("1000000000"), Some(1_000_000_000));
    assert_eq!(parse_u32("4294967295"), Some(u32::MAX));
}

#[test]
fn parse_u32_rejects_overflow() {
    assert_eq!(parse_u32("4294967296"), None);
    assert_eq!(parse_u32("99999999999"), None);
}

#[test]
fn parse_u32_rejects_non_digits() {
    assert_eq!(parse_u32(""), None);
    assert_eq!(parse_u32("12a"), None);
    assert_eq!(parse_u32("-5"), None);
    assert_eq!(parse_u32(" 5"), None);
}

#[test]
fn parse_u32_accepts_leading_zeros() {
    assert_eq!(parse_u32("0123"), Some(123));
}

#[test]
fn ts_value_accepts_canonical() {
    assert_eq!(ts_value("0").unwrap(), 0);
    assert_eq!(ts_value("1000000000").unwrap(), 1_000_000_000);
}

#[test]
fn ts_value_rejects_leading_zero() {
    assert!(matches!(ts_value("0123"), Err(SearchError::InvalidInput)));
    assert!(matches!(ts_value("00"), Err(SearchError::InvalidInput)));
}

#[test]
fn ts_value_rejects_non_digits_and_overflow() {
    assert!(matches!(ts_value(""), Err(SearchError::InvalidInput)));
    assert!(matches!(ts_value("12a"), Err(SearchError::InvalidInput)));
    assert!(matches!(ts_value("4294967296"), Err(SearchError::InvalidInput)));
}
