use caro::config::{parse_board_size, parse_origins, Config};
use caro::text::{is_whitespace, parse_unsigned_exec, split_commas_exec, str_eq, str_le, trim};

#[test]
fn trim_removes_surrounding_white_space() {
    assert_eq!(trim("  Bob \t\n"), "Bob");
    assert_eq!(trim("Bob"), "Bob");
    assert_eq!(trim("   "), "");
    assert_eq!(trim(""), "");
    assert_eq!(trim(" a b "), "a b");
    assert_eq!(trim("\u{3000}x\u{a0}"), "x");
    assert_eq!(trim(" a b "), " a b ".trim());
}

#[test]
fn whitespace_matches_std() {
    for c in ['\t', '\n', ' ', '\u{85}', '\u{a0}', '\u{2003}', '\u{3000}', 'a', '_', '\u{200b}'] {
        assert_eq!(is_whitespace(c), c.is_whitespace());
    }
}

#[test]
fn split_at_commas_keeps_empty_pieces() {
    assert_eq!(split_commas_exec("a,,b"), vec!["a", "", "b"]);
    assert_eq!(split_commas_exec(""), vec![""]);
    assert_eq!(split_commas_exec(","), vec!["", ""]);
    assert_eq!(split_commas_exec("x"), vec!["x"]);
}

#[test]
fn parse_unsigned_follows_str_parse() {
    assert_eq!(parse_unsigned_exec("3001", 65535), Some(3001));
    assert_eq!(parse_unsigned_exec("+12", 65535), Some(12));
    assert_eq!(parse_unsigned_exec("007", 65535), Some(7));
    assert_eq!(parse_unsigned_exec("65535", 65535), Some(65535));
    assert_eq!(parse_unsigned_exec("65536", 65535), None);
    assert_eq!(parse_unsigned_exec("", 65535), None);
    assert_eq!(parse_unsigned_exec("+", 65535), None);
    assert_eq!(parse_unsigned_exec("-1", 65535), None);
    assert_eq!(parse_unsigned_exec(" 1", 65535), None);
    assert_eq!(parse_unsigned_exec("12a", 65535), None);
    assert_eq!(parse_unsigned_exec("99999999999999999999", 65535), None);
    for s in ["0", "+0", "123", "65536", "abc", "1_0"] {
        assert_eq!(parse_unsigned_exec(s, 65535), s.parse::<u16>().ok().map(|v| v as u64));
    }
}

#[test]
fn board_size_defaults_to_fifteen() {
    assert_eq!(parse_board_size(None), 15);
    assert_eq!(parse_board_size(Some("19".to_string())), 19);
    assert_eq!(parse_board_size(Some("big".to_string())), 15);
}

#[test]
fn origins_are_trimmed_and_empty_ones_dropped() {
    assert_eq!(parse_origins(" http://a , ,http://b,"), vec!["http://a", "http://b"]);
    assert_eq!(parse_origins(""), Vec::<String>::new());
}

#[test]
fn config_defaults_and_values() {
    let c = Config::from_vars(None, None, None);
    assert_eq!(c.port, 3001);
    assert!(c.allowed_origins.is_empty());
    assert_eq!(c.board_size, 15);
    let c = Config::from_vars(
        Some("8080".to_string()),
        Some("x.com,y.com".to_string()),
        Some("10".to_string()),
    );
    assert_eq!(c.port, 8080);
    assert_eq!(c.allowed_origins, vec!["x.com", "y.com"]);
    assert_eq!(c.board_size, 10);
    let c = Config::from_vars(Some("70000".to_string()), None, Some("-3".to_string()));
    assert_eq!(c.port, 3001);
    assert_eq!(c.board_size, 15);
}

#[test]
fn string_comparisons() {
    assert!(str_eq("abc", "abc"));
    assert!(!str_eq("abc", "abd"));
    assert!(str_le("abc", "abd"));
    assert!(str_le("ab", "abc"));
    assert!(!str_le("b", "abc"));
    assert!(str_le("", ""));
}
