use fanout::topic::{
    is_joined, joined_group_id, owner_pattern, parse_group_id, split_dots_str, Pattern,
};

#[test]
fn split_plain_instance() {
    let segs = split_dots_str("groups.42.expenses.7");
    assert_eq!(segs, vec!["groups", "42", "expenses", "7"]);
}

#[test]
fn split_empty_string_is_one_empty_segment() {
    let segs = split_dots_str("");
    assert_eq!(segs, vec![""]);
}

#[test]
fn split_keeps_empty_middle_segments() {
    let segs = split_dots_str("a..b.");
    assert_eq!(segs, vec!["a", "", "b", ""]);
}

#[test]
fn parse_group_id_plain() {
    assert_eq!(parse_group_id("42"), Some(42));
    assert_eq!(parse_group_id("0"), Some(0));
    assert_eq!(parse_group_id("007"), Some(7));
}

#[test]
fn parse_group_id_limits() {
    assert_eq!(parse_group_id("2147483647"), Some(i32::MAX));
    assert_eq!(parse_group_id("2147483648"), None);
    assert_eq!(parse_group_id("99999999999999999999"), None);
}

#[test]
fn parse_group_id_rejects_non_digits() {
    assert_eq!(parse_group_id(""), None);
    assert_eq!(parse_group_id("x4"), None);
    assert_eq!(parse_group_id("4x"), None);
    assert_eq!(parse_group_id("-4"), None);
}

#[test]
fn owner_of_group_instance() {
    let p = owner_pattern("groups.42.expenses.7").unwrap();
    assert!(matches!(p, Pattern::Group { gid: 42 }));
}

#[test]
fn owner_of_user_instance() {
    let p = owner_pattern("users.bob.notifications").unwrap();
    match p {
        Pattern::User { uid } => assert_eq!(uid, "bob"),
        _ => panic!("expected a user pattern"),
    }
}

#[test]
fn owner_needs_namespace_id_and_facet() {
    assert!(owner_pattern("groups.42").is_none());
    assert!(owner_pattern("groups").is_none());
    assert!(owner_pattern("").is_none());
}

#[test]
fn owner_rejects_unknown_namespace_and_bad_id() {
    assert!(owner_pattern("events.foo.bar").is_none());
    assert!(owner_pattern("groups.nope.config").is_none());
    assert!(owner_pattern("groups.9999999999.config").is_none());
}

#[test]
fn joined_suffix_is_recognized() {
    assert!(is_joined("users.bob.groups.5.joined"));
    assert!(!is_joined("groups.1.config"));
    assert!(!is_joined("joined"));
}

#[test]
fn joined_group_id_reads_segment_after_groups() {
    assert_eq!(joined_group_id("users.bob.groups.5.joined"), Some(5));
    assert_eq!(joined_group_id("users.bob.joined"), None);
    assert_eq!(joined_group_id("users.bob.groups.x.joined"), None);
}
