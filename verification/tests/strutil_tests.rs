use naming_listener::strutil::{join_strings_comma, parse_u32, sort_strings, str_le, str_rfind};

#[test]
fn lexicographic_order_on_slices() {
    assert!(str_le("", "a"));
    assert!(str_le("a", "a"));
    assert!(str_le("abc", "abd"));
    assert!(!str_le("abd", "abc"));
    assert!(str_le("ab", "abc"));
    assert!(!str_le("abc", "ab"));
}

#[test]
fn sorting_and_joining() {
    let v = vec!["pear".to_string(), "apple".to_string(), "fig".to_string()];
    let sorted = sort_strings(v);
    let joined = join_strings_comma(&sorted);
    assert_eq!(joined.as_str(), "apple,fig,pear");
    assert_eq!(join_strings_comma(&Vec::new()).as_str(), "");
    assert_eq!(join_strings_comma(&vec!["one".to_string()]).as_str(), "one");
}

#[test]
fn decimal_parsing_bounds() {
    assert_eq!(parse_u32("0"), Some(0));
    assert_eq!(parse_u32("123"), Some(123));
    assert_eq!(parse_u32("4294967295"), Some(u32::MAX));
    // one past the largest value no longer fits
    assert_eq!(parse_u32("4294967296"), None);
    assert_eq!(parse_u32(""), None);
    assert_eq!(parse_u32("12a"), None);
    assert_eq!(parse_u32("-1"), None);
}

#[test]
fn rfind_locates_the_last_occurrence() {
    assert_eq!(str_rfind("a_b_c", '_'), Some(3));
    assert_eq!(str_rfind("abc", '_'), None);
    assert_eq!(str_rfind("_", '_'), Some(0));
}
