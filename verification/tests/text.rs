use llmkeyrotator::text::{
    after_prefix, characters, containing, dropping_all, dropping_prefix, joined, part_before,
    same_text, text_between, trimmed_between, whitespace, without_trailing_char,
    without_trailing_whitespace,
};

#[test]
fn whitespace_is_what_unicode_lists() {
    let mut n: u32 = 0;
    while n <= 0x10FFFF {
        if let Some(c) = char::from_u32(n) {
            assert_eq!(whitespace(c), c.is_whitespace(), "{:x}", n);
        }
        n += 1;
    }
}

#[test]
fn texts_are_compared() {
    assert!(same_text("", ""));
    assert!(same_text("aé", "aé"));
    assert!(!same_text("a", "b"));
    assert!(!same_text("a", "aa"));
}

#[test]
fn texts_are_cut() {
    let chars = characters(" aé\tb ");
    assert_eq!(chars, vec![' ', 'a', 'é', '\t', 'b', ' ']);
    assert_eq!(text_between(&chars, 1, 3), "aé");
    assert_eq!(text_between(&chars, 2, 2), "");
    assert_eq!(trimmed_between(&chars, 0, 6), "aé\tb");
    assert_eq!(trimmed_between(&chars, 3, 4), "");
}

#[test]
fn ends_are_trimmed() {
    assert_eq!(without_trailing_whitespace(" a b \n\t"), " a b");
    assert_eq!(without_trailing_whitespace(" \n"), "");
    assert_eq!(without_trailing_char("http://h///", '/'), "http://h");
    assert_eq!(without_trailing_char("//", '/'), "");
    assert_eq!(without_trailing_char("a", '/'), "a");
}

#[test]
fn prefixes_are_dropped() {
    assert_eq!(after_prefix("/v1/x", "/v1"), Some("/x".to_string()));
    assert_eq!(after_prefix("/v1", "/v1"), Some("".to_string()));
    assert_eq!(after_prefix("/v", "/v1"), None);
    assert_eq!(after_prefix("x/v1", "/v1"), None);
    assert_eq!(dropping_prefix("/v1/x", "/v1"), "/x");
    assert_eq!(dropping_prefix("/x", "/v1"), "/x");
    assert_eq!(dropping_prefix("/v1/v1", "/v1"), "/v1");
}

#[test]
fn needles_are_found() {
    assert!(containing("abcabd", "abd"));
    assert!(containing("aab", "ab"));
    assert!(containing("", ""));
    assert!(containing("a", ""));
    assert!(!containing("ab", "abc"));
    assert!(!containing("abab", "aa"));
}

#[test]
fn needles_are_dropped_as_they_are_met() {
    let cases = [
        ("http://h", "http://"),
        ("http://http://h", "http://"),
        ("hthttp://tp://h", "http://"),
        ("aaaa", "aa"),
        ("aaaaa", "aa"),
        ("abcab", "ab"),
        ("", "ab"),
        ("xyz", "ab"),
    ];
    for (s, needle) in cases {
        assert_eq!(dropping_all(s, needle), s.replace(needle, ""));
    }
    assert_eq!(dropping_all("hthttp://tp://h", "http://"), "http://h");
}

#[test]
fn parts_are_taken_and_joined() {
    assert_eq!(part_before("a/b/c", '/'), "a");
    assert_eq!(part_before("/a", '/'), "");
    assert_eq!(part_before("a", '/'), "a");
    let parts = vec!["a".to_string(), "".to_string(), "b".to_string()];
    assert_eq!(joined(&parts, "\n"), "a\n\nb");
    assert_eq!(joined(&vec!["a".to_string()], "\n"), "a");
    assert_eq!(joined(&vec![], "\n"), "");
}
