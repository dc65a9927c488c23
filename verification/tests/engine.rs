//! End-to-end scenarios over the whole engine: presence, routing and
//! normalization chained as the workers and the endpoint chain them,
//! with a plain vector standing in for a per-user durable queue.

use fanout::presence::Presence;
use fanout::router::Router;
use fanout::sync::{normalize_events, SyncEvent};
use fanout::topic::owner_pattern;
use fanout::IDLE_THRESHOLD_SECS;

#[test]
fn published_expense_reaches_the_other_member_once() {
    let mut router = Router::new();
    let mut queue_a: Vec<String> = Vec::new();

    // user A logs in with groups 1 and 2
    router.on_login("a@x", &vec![1, 2]);

    // user B publishes an expense change in group 1
    let topic = "groups.1.expenses.9";
    let owner = owner_pattern(topic).unwrap();
    for recip in router.route_event(&owner, "b@x") {
        assert_eq!(recip, "a@x");
        queue_a.push(topic.to_string());
    }

    // A's next poll drains the queue and sees exactly one group event
    let drained: Vec<String> = queue_a.drain(..).collect();
    let out = normalize_events(&drained);
    assert_eq!(out, vec![SyncEvent::Group { id: 1 }]);

    // an immediate second poll finds the queue empty
    let drained_again: Vec<String> = queue_a.drain(..).collect();
    let out2 = normalize_events(&drained_again);
    assert!(out2.is_empty());
}

#[test]
fn joining_a_group_mid_session_starts_its_deliveries() {
    let mut router = Router::new();
    router.on_login("a@x", &vec![1]);

    // the membership-change instance announces the joined group;
    // the router widens the live session without a fresh login
    let topic = "users.a@x.groups.5.joined";
    assert!(fanout::topic::is_joined(topic));
    let gid = fanout::topic::joined_group_id(topic).unwrap();
    router.on_membership_joined("a@x", gid);

    // the bookkeeping instance itself reaches no one else
    let owner = owner_pattern(topic).unwrap();
    assert!(router.route_event(&owner, "a@x").is_empty());

    // but events in the joined group now do
    let owner5 = owner_pattern("groups.5.expenses.2").unwrap();
    assert_eq!(router.route_event(&owner5, "b@x"), vec!["a@x"]);
}

#[test]
fn heartbeats_drive_login_and_logout_around_the_router() {
    let mut presence = Presence::new();
    let mut router = Router::new();

    // the first poll opens the session; the worker reacts with a login
    if presence.on_heartbeat("a@x", 100) {
        router.on_login("a@x", &vec![1]);
    }
    let owner = owner_pattern("groups.1.config").unwrap();
    assert_eq!(router.route_event(&owner, "b@x"), vec!["a@x"]);

    // a long silence: the sweep closes the session and the worker
    // cleans the tables up
    for gone in presence.sweep(100 + IDLE_THRESHOLD_SECS + 1, IDLE_THRESHOLD_SECS) {
        assert_eq!(gone, "a@x");
        router.on_logout(&gone);
    }
    assert!(router.route_event(&owner, "b@x").is_empty());
}
