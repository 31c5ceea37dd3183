use prefix_miner::pattern::{hex_check, PrefixPattern};
use prefix_miner::SearchError;

#[test]
fn parse_even_prefix_decodes_bytes() {
    let p = PrefixPattern::parse("0a1F").unwrap();
    assert_eq!(p.bytes, vec![0x0a, 0x1f]);
    assert!(!p.trailing_half);
}

#[test]
fn parse_odd_prefix_pads_low_nibble() {
    let p = PrefixPattern::parse("abc").unwrap();
    assert_eq!(p.bytes, vec![0xab, 0xc0]);
    assert!(p.trailing_half);
}

#[test]
fn parse_rejects_non_hex() {
    assert!(matches!(PrefixPattern::parse("0g"), Err(SearchError::InvalidInput)));
    assert!(matches!(PrefixPattern::parse("zz"), Err(SearchError::InvalidInput)));
}

#[test]
fn parse_empty_matches_everything() {
    let p = PrefixPattern::parse("").unwrap();
    assert_eq!(p.bytes, Vec::<u8>::new());
    assert!(!p.trailing_half);
    assert!(p.matches(&[0u8; 20]));
    assert!(p.matches(&[0xffu8; 20]));
}

#[test]
fn matches_even_prefix_exactly() {
    let p = PrefixPattern::parse("0a1f").unwrap();
    let mut d = [0u8; 20];
    d[0] = 0x0a;
    d[1] = 0x1f;
    assert!(p.matches(&d));
    d[1] = 0x20;
    assert!(!p.matches(&d));
    d[1] = 0x1f;
    d[2] = 0x77;
    assert!(p.matches(&d));
}

#[test]
fn matches_odd_prefix_ignores_low_nibble() {
    let p = PrefixPattern::parse("a").unwrap();
    for low in 0u8..16 {
        let mut d = [0u8; 20];
        d[0] = 0xa0 | low;
        assert!(p.matches(&d));
    }
    let mut d = [0u8; 20];
    d[0] = 0xb0;
    assert!(!p.matches(&d));
}

#[test]
fn matches_odd_prefix_constrains_full_bytes_first() {
    let p = PrefixPattern::parse("0a1").unwrap();
    let mut d = [0u8; 20];
    d[0] = 0x0a;
    d[1] = 0x1c;
    assert!(p.matches(&d));
    d[0] = 0x0b;
    assert!(!p.matches(&d));
}

#[test]
fn matches_is_case_insensitive_at_parse() {
    let lower = PrefixPattern::parse("beef").unwrap();
    let upper = PrefixPattern::parse("BEEF").unwrap();
    assert_eq!(lower.bytes, upper.bytes);
}

#[test]
fn hex_check_accepts_hex() {
    assert_eq!(hex_check("0123456789abcdefABCDEF").unwrap(), "0123456789abcdefABCDEF");
    assert_eq!(hex_check("").unwrap(), "");
}

#[test]
fn hex_check_rejects_non_hex() {
    assert_eq!(hex_check("0x12").unwrap_err(), "Prefix must be a hex string");
    assert_eq!(hex_check("hello world").unwrap_err(), "Prefix must be a hex string");
}
