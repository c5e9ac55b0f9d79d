use ckourse::text::{
    after_last_char, decimal_of, find_str, parse_u64, segments_of, split_once_str, trim_end_matches,
    trim_start_matches, trimmed,
};

#[test]
fn agrees_with_the_standard_library() {
    for s in ["", "/", "//a//b/", " \u{a0}x y\u{3000}\n", "a.b.c", "ü://ß/", "::", "+5"] {
        assert_eq!(trimmed(s), s.trim());
        assert_eq!(trim_start_matches(s, '/'), s.trim_start_matches('/'));
        assert_eq!(trim_end_matches(s, '/'), s.trim_end_matches('/'));
        assert_eq!(after_last_char(s, '/'), s.rsplit('/').next().unwrap());
        assert_eq!(split_once_str(s, "://"), s.split_once("://"));
        let parts: Vec<String> = s
            .split('/')
            .filter(|p| !p.is_empty())
            .map(|p| p.to_string())
            .collect();
        assert_eq!(segments_of(s, '/'), parts);
    }
    assert_eq!(find_str("aab", "ab"), Some(1));
    assert_eq!(find_str("aab", "c"), None);
}

#[test]
fn numbers() {
    for s in [
        "",
        "0",
        "007",
        "+5",
        "+",
        "-1",
        "1 ",
        "18446744073709551615",
        "18446744073709551616",
        "99999999999999999999999999",
        "٣",
    ] {
        assert_eq!(parse_u64(s), s.parse::<u64>().ok());
    }
    for n in [0, 9, 10, 1_048_576, u64::MAX] {
        assert_eq!(decimal_of(n), n.to_string());
        assert_eq!(parse_u64(&decimal_of(n)), Some(n));
    }
}
