use fanout::sync::{normalize_event, normalize_events, SyncEvent};

fn strings(xs: &[&str]) -> Vec<String> {
    xs.iter().map(|s| s.to_string()).collect()
}

#[test]
fn group_instance_normalizes_to_its_group() {
    assert_eq!(normalize_event("groups.5.expenses.2"), Some(SyncEvent::Group { id: 5 }));
    assert_eq!(normalize_event("groups.5.config"), Some(SyncEvent::Group { id: 5 }));
}

#[test]
fn user_instance_normalizes_to_a_notification() {
    assert_eq!(normalize_event("users.bob.notifications"), Some(SyncEvent::Notification));
}

#[test]
fn membership_bookkeeping_is_not_reported() {
    assert_eq!(normalize_event("users.bob.groups.5.joined"), None);
}

#[test]
fn malformed_topics_are_dropped() {
    assert_eq!(normalize_event("garbage"), None);
    assert_eq!(normalize_event("groups.x.y"), None);
    assert_eq!(normalize_event("events.1.2"), None);
    assert_eq!(normalize_event(""), None);
}

#[test]
fn three_events_on_one_group_collapse_to_one_entry() {
    let batch = strings(&["groups.7.expenses.1", "groups.7.config", "groups.7.members.ada"]);
    let out = normalize_events(&batch);
    assert_eq!(out, vec![SyncEvent::Group { id: 7 }]);
}

#[test]
fn distinct_resources_stay_distinct() {
    let batch = strings(&[
        "groups.1.expenses.4",
        "users.bob.notifications",
        "groups.2.config",
        "groups.1.members.eve",
        "users.bob.notifications",
    ]);
    let out = normalize_events(&batch);
    assert_eq!(
        out,
        vec![
            SyncEvent::Group { id: 1 },
            SyncEvent::Notification,
            SyncEvent::Group { id: 2 },
        ]
    );
}

#[test]
fn empty_batch_yields_the_empty_set() {
    let out = normalize_events(&Vec::new());
    assert!(out.is_empty());
}

#[test]
fn unknown_entries_do_not_reach_the_client() {
    let batch = strings(&["nonsense", "groups.3.expenses.1", "also.nonsense"]);
    let out = normalize_events(&batch);
    assert_eq!(out, vec![SyncEvent::Group { id: 3 }]);
}
