use memlyzer::number::parse_unsigned_chars;
use memlyzer::text::{chars_of, lex_less, remove_all_chars, split_chars, trim_range};

fn chars(s: &str) -> Vec<char> {
    s.chars().collect()
}

#[test]
fn numbers_are_read_as_from_str_radix_reads_them() {
    assert_eq!(parse_unsigned_chars(&chars("+1f"), 16, u64::MAX), Some(31));
    assert_eq!(parse_unsigned_chars(&chars("1F"), 16, u64::MAX), Some(31));
    assert_eq!(parse_unsigned_chars(&chars("+"), 16, u64::MAX), None);
    assert_eq!(parse_unsigned_chars(&chars(""), 10, u64::MAX), None);
    assert_eq!(parse_unsigned_chars(&chars("-1"), 10, u64::MAX), None);
    assert_eq!(parse_unsigned_chars(&chars("4294967295"), 10, u32::MAX as u64), Some(4294967295));
    assert_eq!(parse_unsigned_chars(&chars("4294967296"), 10, u32::MAX as u64), None);
    assert_eq!(parse_unsigned_chars(&chars("18446744073709551616"), 10, u64::MAX), None);
    assert_eq!(parse_unsigned_chars(&chars("12a"), 10, u64::MAX), None);
}

#[test]
fn split_and_trim_follow_str() {
    let parts = split_chars(&chars("a,,b,"), &chars(","));
    assert_eq!(parts, vec![chars("a"), chars(""), chars("b"), chars("")]);
    let padded = chars("\u{3000} x y\t\n");
    assert_eq!(trim_range(&padded, 0, padded.len()), chars("x y"));
    assert_eq!(trim_range(&padded, 2, 3), chars("x"));
    assert_eq!(chars_of("héllo"), chars("héllo"));
    assert_eq!(remove_all_chars(&chars("aa a b"), &chars("a ")), chars("ab"));
}

#[test]
fn lexicographic_order_matches_str() {
    assert!(lex_less(&chars("ab"), &chars("b")));
    assert!(lex_less(&chars("a"), &chars("ab")));
    assert!(!lex_less(&chars("ab"), &chars("ab")));
    assert!(!lex_less(&chars("b"), &chars("ab")));
}
