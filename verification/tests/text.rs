use git_ai_core::decode::parse_usize;
use git_ai_core::text::{split_lines, split_whitespace, trim_str};

#[test]
fn trim_uses_unicode_whitespace() {
    assert_eq!(trim_str("\u{A0} x y \u{3000}\n"), "x y");
    assert_eq!(trim_str("   "), "");
}

#[test]
fn lines_drop_a_final_empty_piece() {
    assert_eq!(split_lines("a\n\nb\n"), vec!["a", "", "b"]);
    assert_eq!(split_lines("a"), vec!["a"]);
    assert!(split_lines("").is_empty());
}

#[test]
fn whitespace_tokens() {
    assert_eq!(split_whitespace("  a \t bc\u{2003}d  "), vec!["a", "bc", "d"]);
    assert!(split_whitespace(" \n ").is_empty());
}

#[test]
fn parse_usize_follows_from_str() {
    assert_eq!(parse_usize("42"), Some(42));
    assert_eq!(parse_usize("+7"), Some(7));
    assert_eq!(parse_usize("007"), Some(7));
    for bad in ["", "+", "-1", " 1", "1 ", "1a", "++1", "99999999999999999999999"] {
        assert_eq!(parse_usize(bad), None, "{:?}", bad);
        assert_eq!(bad.parse::<usize>().ok(), None);
    }
    assert_eq!(parse_usize(&usize::MAX.to_string()), Some(usize::MAX));
}
