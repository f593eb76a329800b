use tagger::is_valid_tag;
use tagger::text_util::{str_eq, truncate};

#[test]
fn valid_tag_names_are_accepted() {
    assert!(is_valid_tag("abc_12"));
    assert!(is_valid_tag("Z9"));
    assert!(is_valid_tag("_"));
}

#[test]
fn invalid_tag_names_are_refused() {
    assert!(!is_valid_tag(""));
    assert!(!is_valid_tag("a b"));
    assert!(!is_valid_tag("a-b"));
    assert!(!is_valid_tag("caf\u{e9}"));
    assert!(!is_valid_tag("a,b"));
}

#[test]
fn short_text_is_kept() {
    assert_eq!(truncate("hello", 10), "hello");
    assert_eq!(truncate("abcdefg", 8), "abcdefg");
}

#[test]
fn long_text_is_cut_with_dots() {
    assert_eq!(truncate("abcdefghij", 8), "abcd...");
    assert_eq!(truncate("abcdefgh", 8), "abcd...");
    assert_eq!(truncate("abcdef", 5), "a...");
}

#[test]
fn text_is_cut_by_bytes() {
    // "é" takes two bytes, so "ééé" is six bytes long.
    assert_eq!(truncate("\u{e9}\u{e9}\u{e9}", 6), "\u{e9}...");
}

#[test]
fn strings_compare_by_content() {
    assert!(str_eq("tag", "tag"));
    assert!(!str_eq("tag", "tags"));
    assert!(!str_eq("tag", "tab"));
    assert!(str_eq("", ""));
}
