use httplogger::number::{
    decimal_text, hex4_text, padded_decimal_text, parse_u16, signed_decimal_text,
};
use httplogger::paths::{file_name_of, join_path, parent_of};
use httplogger::text::{
    contains, ends_with, first_word, is_white_space, joined, same_ignoring_ascii_case, split_char,
    starts_with, to_ascii_lower, trimmed, with_char_replaced, without_trailing,
};
use std::path::Path;

#[test]
fn white_space_is_the_unicode_property() {
    for n in 0..=0x10ffffu32 {
        if let Some(c) = char::from_u32(n) {
            assert_eq!(is_white_space(c), c.is_whitespace(), "U+{n:04X}");
        }
    }
}

#[test]
fn trimming_and_words() {
    assert_eq!(trimmed(" \t a b \u{3000}"), "a b");
    assert_eq!(trimmed("   "), "");
    assert_eq!(without_trailing("line\r\r", '\r'), "line");
    assert_eq!(without_trailing("\r", '\r'), "");
    assert_eq!(
        first_word("  CONNECT host:443 HTTP/1.1"),
        Some(("CONNECT".to_string(), " host:443 HTTP/1.1".to_string()))
    );
    assert_eq!(first_word(" \n "), None);
}

#[test]
fn splitting_and_joining() {
    assert_eq!(split_char("a,,b", ','), vec!["a", "", "b"]);
    assert_eq!(split_char("", ','), vec![""]);
    let parts = vec!["x".to_string(), "".to_string(), "y".to_string()];
    assert_eq!(joined(&parts, "--"), "x----y");
    assert_eq!(joined(&[], "--"), "");
    assert_eq!(with_char_replaced("a'b''", '\'', "<>"), "a<>b<><>");
}

#[test]
fn prefixes_suffixes_and_parts() {
    assert!(starts_with("https://x", "https://"));
    assert!(!starts_with("http", "http:"));
    assert!(starts_with("x", ""));
    assert!(ends_with("a.desktop", ".desktop"));
    assert!(!ends_with("desktop", ".desktop"));
    assert!(contains("abcabd", "abd"));
    assert!(contains("abc", ""));
    assert!(!contains("abc", "abd"));
}

#[test]
fn ascii_case_only() {
    assert_eq!(to_ascii_lower("ÄBC-Z"), "Äbc-z");
    assert!(same_ignoring_ascii_case("WebSocket", "websocket"));
    assert!(!same_ignoring_ascii_case("Ä", "ä"));
}

#[test]
fn numbers_as_text() {
    assert_eq!(decimal_text(0), "0");
    assert_eq!(decimal_text(u64::MAX), u64::MAX.to_string());
    for n in [i64::MIN, -100_000, -1, 0, 7, 12_345, 123_456, i64::MAX] {
        assert_eq!(signed_decimal_text(n), n.to_string());
        assert_eq!(padded_decimal_text(n, 5), format!("{n:05}"));
    }
    assert_eq!(hex4_text(0x0a0f), "0a0f");
    assert_eq!(hex4_text(0xffff), "ffff");
}

#[test]
fn reading_ports_and_statuses() {
    for s in ["0", "443", "00443", "65535", "+80", "", "+", "65536", "99999999999", "-1", "4 4", "4a"] {
        assert_eq!(parse_u16(s), s.parse::<u16>().ok(), "{s:?}");
    }
}

#[test]
fn paths_like_the_standard_library() {
    let paths = [
        "", "/", "a", "a/", "a/b", "/a", "/a/b/", "a/.", "a/./", "./a", ".", "..", "a/..", "a//b",
        "/a//", "./", "//", "a/b/.", "../x", "x.pem",
    ];
    for p in paths {
        let want = Path::new(p);
        assert_eq!(
            file_name_of(p).as_deref(),
            want.file_name().and_then(|n| n.to_str()),
            "file name of {p:?}"
        );
        assert_eq!(
            parent_of(p).as_deref().map(Path::new),
            want.parent(),
            "parent of {p:?}"
        );
        for q in ["x", "/x", "", "x/y"] {
            assert_eq!(
                join_path(p, q),
                want.join(q).to_str().unwrap(),
                "{p:?} with {q:?}"
            );
        }
    }
}
