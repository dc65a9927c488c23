use fanout::util::{gen_random_string, remove_cookie};

#[test]
fn remove_cookie_expires_the_named_cookie() {
    assert_eq!(
        remove_cookie("access_token"),
        "access_token=; expires=Thu, 01 Jan 1970 00:00:00 UTC; path=/"
    );
    assert_eq!(remove_cookie(""), "=; expires=Thu, 01 Jan 1970 00:00:00 UTC; path=/");
}

#[test]
fn random_string_is_thirty_alphanumerics() {
    let s = gen_random_string();
    assert_eq!(s.chars().count(), 30);
    assert!(s.chars().all(|c| c.is_ascii_alphanumeric()));
}
