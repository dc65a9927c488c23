use fanout::router::{classify_channel, ChannelKind, Router};
use fanout::topic::{owner_pattern, Pattern};

fn group(p: &Pattern) -> Option<i32> {
    match p {
        Pattern::Group { gid } => Some(*gid),
        _ => None,
    }
}

fn user(p: &Pattern) -> Option<&str> {
    match p {
        Pattern::User { uid } => Some(uid.as_str()),
        _ => None,
    }
}

#[test]
fn login_subscribes_groups_and_own_channel() {
    let mut r = Router::new();
    let fresh = r.on_login("ada", &vec![1, 2]);
    assert_eq!(fresh.len(), 3);
    assert_eq!(group(&fresh[0]), Some(1));
    assert_eq!(group(&fresh[1]), Some(2));
    assert_eq!(user(&fresh[2]), Some("ada"));
}

#[test]
fn shared_group_needs_no_second_subscription() {
    let mut r = Router::new();
    r.on_login("ada", &vec![1, 2]);
    let fresh = r.on_login("bob", &vec![1]);
    assert_eq!(fresh.len(), 1);
    assert_eq!(user(&fresh[0]), Some("bob"));
}

#[test]
fn repeated_login_is_idempotent() {
    let mut r = Router::new();
    r.on_login("ada", &vec![1]);
    let fresh = r.on_login("ada", &vec![1]);
    assert!(fresh.is_empty());
    let owner = owner_pattern("groups.1.expenses.9").unwrap();
    let recips = r.route_event(&owner, "bob");
    assert_eq!(recips, vec!["ada"]);
}

#[test]
fn fanout_reaches_subscribers_but_not_the_author() {
    let mut r = Router::new();
    r.on_login("ada", &vec![1, 2]);
    r.on_login("bob", &vec![1]);
    r.on_login("eve", &vec![3]);
    let owner = owner_pattern("groups.1.expenses.5").unwrap();
    let recips = r.route_event(&owner, "bob");
    // ada gets it; the author does not; eve watches only group 3
    assert_eq!(recips, vec!["ada"]);
}

#[test]
fn fanout_on_unwatched_pattern_reaches_nobody() {
    let mut r = Router::new();
    r.on_login("ada", &vec![1]);
    let owner = owner_pattern("groups.9.expenses.5").unwrap();
    assert!(r.route_event(&owner, "bob").is_empty());
}

#[test]
fn author_alone_receives_nothing() {
    let mut r = Router::new();
    r.on_login("ada", &vec![2]);
    let owner = owner_pattern("groups.2.config").unwrap();
    assert!(r.route_event(&owner, "ada").is_empty());
}

#[test]
fn membership_change_grows_a_live_session() {
    let mut r = Router::new();
    r.on_login("ada", &vec![1]);
    let fresh = r.on_membership_joined("ada", 7);
    assert_eq!(fresh.len(), 1);
    assert_eq!(group(&fresh[0]), Some(7));
    let owner = owner_pattern("groups.7.expenses.1").unwrap();
    assert_eq!(r.route_event(&owner, "bob"), vec!["ada"]);
}

#[test]
fn already_watched_group_is_not_resubscribed() {
    let mut r = Router::new();
    r.on_login("ada", &vec![1]);
    r.on_login("bob", &vec![]);
    let fresh = r.on_membership_joined("bob", 1);
    assert!(fresh.is_empty());
    let owner = owner_pattern("groups.1.config").unwrap();
    let recips = r.route_event(&owner, "eve");
    assert_eq!(recips, vec!["ada", "bob"]);
}

#[test]
fn logout_releases_only_patterns_nobody_else_needs() {
    let mut r = Router::new();
    r.on_login("ada", &vec![1, 2]);
    r.on_login("bob", &vec![1]);
    let emptied = r.on_logout("ada");
    // group 1 still has bob; group 2 and ada's own channel die
    assert_eq!(emptied.len(), 2);
    assert_eq!(group(&emptied[0]), Some(2));
    assert_eq!(user(&emptied[1]), Some("ada"));
    let owner1 = owner_pattern("groups.1.expenses.1").unwrap();
    assert_eq!(r.route_event(&owner1, "eve"), vec!["bob"]);
    let owner2 = owner_pattern("groups.2.expenses.1").unwrap();
    assert!(r.route_event(&owner2, "eve").is_empty());
}

#[test]
fn logout_of_unknown_user_changes_nothing() {
    let mut r = Router::new();
    r.on_login("ada", &vec![1]);
    let emptied = r.on_logout("ghost");
    assert!(emptied.is_empty());
    let owner = owner_pattern("groups.1.expenses.1").unwrap();
    assert_eq!(r.route_event(&owner, "bob"), vec!["ada"]);
}

#[test]
fn relogin_after_logout_restores_subscriptions() {
    let mut r = Router::new();
    r.on_login("ada", &vec![4]);
    r.on_logout("ada");
    let fresh = r.on_login("ada", &vec![4]);
    assert_eq!(fresh.len(), 2);
    let owner = owner_pattern("groups.4.notes.1").unwrap();
    assert_eq!(r.route_event(&owner, "bob"), vec!["ada"]);
}

#[test]
fn control_channels_are_recognized_exactly() {
    assert!(matches!(classify_channel("activity.login"), ChannelKind::ActivityLogin));
    assert!(matches!(classify_channel("activity.logout"), ChannelKind::ActivityLogout));
    assert!(matches!(classify_channel("groups.1.config"), ChannelKind::Published));
    assert!(matches!(classify_channel("activity.login.x"), ChannelKind::Published));
}
