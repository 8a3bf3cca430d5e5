use ophelia::text::{parse_u64, split_after_last, split_before_first, starts_with};

#[test]
fn parse_u64_follows_std() {
    for s in ["0", "42", "+7", "007", "18446744073709551615", "18446744073709551616", "", "+", "-1", " 1", "1 ", "1a", "++1"] {
        assert_eq!(parse_u64(s), s.parse::<u64>().ok(), "input {:?}", s);
    }
}

#[test]
fn split_helpers_follow_std() {
    for s in ["a/b/c", "abc", "a/", "/", "", "x?y?z", "?q"] {
        assert_eq!(split_after_last(s, '/'), s.split('/').last().unwrap());
        assert_eq!(split_before_first(s, '?'), s.split('?').next().unwrap());
    }
}

#[test]
fn prefixes() {
    assert!(starts_with("https://x", "https://"));
    assert!(!starts_with("http", "https://"));
    assert!(starts_with("abc", ""));
}
