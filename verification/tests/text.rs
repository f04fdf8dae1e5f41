use tribalwars::names::{decode_name, plus_to_space};
use tribalwars::text::{chars_of, decimal_text, eq_ignore_ascii_case, parse_u32, text_of};

#[test]
fn parse_u32_like_std() {
    assert_eq!(parse_u32("0"), Some(0));
    assert_eq!(parse_u32("007"), Some(7));
    assert_eq!(parse_u32("+12"), Some(12));
    assert_eq!(parse_u32("4294967295"), Some(4294967295));
    assert_eq!(parse_u32("4294967296"), None);
    assert_eq!(parse_u32("99999999999999999999"), None);
    assert_eq!(parse_u32(""), None);
    assert_eq!(parse_u32("+"), None);
    assert_eq!(parse_u32("-1"), None);
    assert_eq!(parse_u32("1 "), None);
    assert_eq!(parse_u32("١٢"), None);
    for s in ["0", "+5", "12a", "", "+", "-0", "4294967295", "4294967296"] {
        assert_eq!(parse_u32(s), s.parse::<u32>().ok(), "{}", s);
    }
}

#[test]
fn decimal_reads_back() {
    for n in [0u32, 7, 10, 99, 100, 12345, u32::MAX] {
        let text = decimal_text(n as u64);
        assert_eq!(text, n.to_string());
        assert_eq!(parse_u32(&text), Some(n));
    }
    assert_eq!(decimal_text(u64::MAX), u64::MAX.to_string());
}

#[test]
fn ascii_case_comparison() {
    assert!(eq_ignore_ascii_case("Camelot", "cAMELOT"));
    assert!(!eq_ignore_ascii_case("Camelot", "Camelo"));
    assert!(!eq_ignore_ascii_case("Ärger", "ärger"));
    assert!(eq_ignore_ascii_case("Ärger", "äRGER") == "Ärger".eq_ignore_ascii_case("äRGER"));
    assert!(eq_ignore_ascii_case("", ""));
    assert!(!eq_ignore_ascii_case("[a]", "{a}"));
}

#[test]
fn characters_and_slices() {
    let v = chars_of("héllo");
    assert_eq!(v, vec!['h', 'é', 'l', 'l', 'o']);
    assert_eq!(text_of(&v, 1, 4), "éll");
}

#[test]
fn plus_becomes_space() {
    assert_eq!(plus_to_space("a+b++c"), "a b  c");
    assert_eq!(plus_to_space(""), "");
}

#[test]
fn names_decode() {
    assert_eq!(decode_name("Hello+World"), Some("Hello World".to_string()));
    assert_eq!(decode_name("100%25+sure"), Some("100% sure".to_string()));
    assert_eq!(decode_name("%C3%A9t%C3%A9"), Some("été".to_string()));
    assert_eq!(decode_name("odd%2"), Some("odd%2".to_string()));
    assert_eq!(decode_name("%FF"), None);
}
