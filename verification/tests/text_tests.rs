use gitlet::text::{compare_str, is_whitespace, starts_with, strip_prefix, trim_str, Order};

#[test]
fn trim_removes_surrounding_white_space() {
    assert_eq!(trim_str("  refs/heads/master\n"), "refs/heads/master");
    assert_eq!(trim_str("\t\u{3000}x y\u{a0}"), "x y");
    assert_eq!(trim_str("   "), "");
    assert_eq!(trim_str(""), "");
}

#[test]
fn whitespace_follows_unicode() {
    assert!(is_whitespace(' '));
    assert!(is_whitespace('\u{2028}'));
    assert!(!is_whitespace('x'));
    assert!(!is_whitespace('\u{200b}'));
}

#[test]
fn compare_orders_lexicographically() {
    assert!(compare_str("abc", "abd") == Order::Less);
    assert!(compare_str("ab", "abc") == Order::Less);
    assert!(compare_str("b", "abc") == Order::Greater);
    assert!(compare_str("same", "same") == Order::Equal);
    assert!(compare_str("", "") == Order::Equal);
}

#[test]
fn prefixes() {
    assert!(starts_with("refs/heads/master", "refs/heads/"));
    assert!(!starts_with("refs", "refs/heads/"));
    assert_eq!(strip_prefix("refs/heads/dev", "refs/heads/"), Some("dev"));
    assert_eq!(strip_prefix("dev", "refs/heads/"), None);
}
