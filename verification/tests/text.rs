use tutu::text::{
    contains_str, find_str, join_spaces, remove_all_str, split_ws_str, trim_str, u64_to_string,
};

#[test]
fn find_reports_the_leftmost_occurrence() {
    assert_eq!(find_str("abcabc", "bc"), Some(1));
    assert_eq!(find_str("abcabc", "cb"), None);
    assert_eq!(find_str("", ""), Some(0));
    assert_eq!(find_str("图片图片", "片"), Some(1));
}

#[test]
fn contains_matches_find() {
    assert!(contains_str("hello world", "lo w"));
    assert!(!contains_str("hello", "world"));
}

#[test]
fn remove_all_deletes_every_occurrence() {
    assert_eq!(remove_all_str("[@9] a [@9] b [@9] ", "[@9] "), "a b ");
    assert_eq!(remove_all_str("aaa", "aa"), "a");
    assert_eq!(remove_all_str("nothing", "xyz"), "nothing");
}

#[test]
fn trim_strips_both_ends_only() {
    assert_eq!(trim_str("  a b \t"), "a b");
    assert_eq!(trim_str("\u{3000}全角\u{3000}"), "全角");
    assert_eq!(trim_str("   "), "");
}

#[test]
fn split_yields_the_whitespace_free_runs() {
    assert_eq!(split_ws_str(" a  bb\tc "), vec!["a", "bb", "c"]);
    assert!(split_ws_str(" \t ").is_empty());
}

#[test]
fn join_puts_single_spaces_between_words() {
    let words = vec!["a".to_string(), "bb".to_string(), "c".to_string()];
    assert_eq!(join_spaces(&words), "a bb c");
    assert_eq!(join_spaces(&Vec::new()), "");
}

#[test]
fn decimal_rendering_is_exact() {
    assert_eq!(u64_to_string(0), "0");
    assert_eq!(u64_to_string(7), "7");
    assert_eq!(u64_to_string(12034), "12034");
    assert_eq!(u64_to_string(u64::MAX), "18446744073709551615");
}
