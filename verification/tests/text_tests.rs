use rush::store::StringMap;
use rush::text::{from_chars, parse_usize, to_chars, trim};
use rush::history::lines_of;

#[test]
fn parses_decimal_numbers() {
    assert_eq!(parse_usize("42"), Some(42));
    assert_eq!(parse_usize("+7"), Some(7));
    assert_eq!(parse_usize("007"), Some(7));
    assert_eq!(parse_usize("-1"), None);
    assert_eq!(parse_usize(""), None);
    assert_eq!(parse_usize("+"), None);
    assert_eq!(parse_usize("0x1"), None);
    assert_eq!(parse_usize("99999999999999999999999"), None);
    assert_eq!(parse_usize(&usize::MAX.to_string()), Some(usize::MAX));
}

#[test]
fn trims_white_space() {
    let t = trim(&to_chars("  \t echo hi \r\n"));
    assert_eq!(from_chars(&t), "echo hi");
    let t = trim(&to_chars(" \u{3000} "));
    assert_eq!(from_chars(&t), "");
}

#[test]
fn lines_of_text() {
    assert_eq!(lines_of("a\nb\n"), vec!["a".to_string(), "b".to_string()]);
    assert_eq!(lines_of("a\r\n\n\nb"), vec!["a".to_string(), "b".to_string()]);
    assert_eq!(lines_of("a\r"), vec!["a\r".to_string()]);
    assert_eq!(lines_of(""), Vec::<String>::new());
}

#[test]
fn string_map_reads_back_writes() {
    let mut m = StringMap::new();
    assert_eq!(m.get("x"), None);
    m.insert("x".to_string(), "1".to_string());
    m.insert("y".to_string(), "2".to_string());
    m.insert("x".to_string(), "3".to_string());
    assert_eq!(m.get("x"), Some(&"3".to_string()));
    assert_eq!(m.get("y"), Some(&"2".to_string()));
    assert!(m.contains_key("y"));
    m.remove("x");
    assert_eq!(m.get("x"), None);
    assert!(!m.contains_key("x"));
    assert_eq!(m.get("y"), Some(&"2".to_string()));
}
