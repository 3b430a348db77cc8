use cursor_api::text::{
    chars, contains, equal, is_whitespace, join, replace, split, split_once, starts_with,
    strip_prefix, text, trim,
};

#[test]
fn texts_are_compared() {
    assert!(equal("grüße", "grüße"));
    assert!(!equal("a", "b"));
    assert!(!equal("a", "ab"));
    assert!(starts_with("abc", "ab"));
    assert!(!starts_with("ab", "abc"));
    assert!(starts_with("abc", ""));
    assert!(contains("abcabd", "abd"));
    assert!(!contains("abcab", "abd"));
}

#[test]
fn texts_are_cut() {
    assert_eq!(strip_prefix("Bearer x", "Bearer "), Some("x".to_owned()));
    assert_eq!(strip_prefix("Bearer", "Bearer "), None);
    assert_eq!(
        split_once("a::b::c", "::"),
        Some(("a".to_owned(), "b::c".to_owned()))
    );
    assert_eq!(split_once("abc", "::"), None);
    assert_eq!(split("a,,b,", ","), vec!["a", "", "b", ""]);
    assert_eq!(split("", ","), vec![""]);
    assert_eq!(split("a:::b", "::"), "a:::b".split("::").collect::<Vec<&str>>());
    assert_eq!(text(&chars("grüße"), 2, 4), "üß");
}

#[test]
fn texts_are_replaced_and_joined() {
    assert_eq!(replace("aaaa", "aa", "b"), "bb");
    assert_eq!(replace("a\r\nb\rc", "\r\n", "\n"), "a\nb\rc");
    assert_eq!(join(&vec!["a".to_owned(), String::new(), "b".to_owned()], ", "), "a, , b");
    assert_eq!(join(&vec![], ", "), "");
}

#[test]
fn white_space_is_that_of_unicode() {
    for u in 0..0x11_0000u32 {
        if let Some(c) = char::from_u32(u) {
            assert_eq!(is_whitespace(c), c.is_whitespace());
        }
    }
    assert_eq!(trim("\u{3000} a b \t\n"), "a b");
    assert_eq!(trim(" \n"), "");
    assert_eq!(trim(""), "");
}
