use fanout::presence::Presence;
use fanout::IDLE_THRESHOLD_SECS;

#[test]
fn first_heartbeat_opens_a_session() {
    let mut p = Presence::new();
    assert!(p.on_heartbeat("ada", 100));
    assert!(!p.on_heartbeat("ada", 110));
}

#[test]
fn each_user_gets_their_own_session() {
    let mut p = Presence::new();
    assert!(p.on_heartbeat("ada", 100));
    assert!(p.on_heartbeat("bob", 100));
    assert!(!p.on_heartbeat("ada", 130));
}

#[test]
fn gap_at_threshold_is_not_stale() {
    let mut p = Presence::new();
    p.on_heartbeat("ada", 0);
    let out = p.sweep(IDLE_THRESHOLD_SECS, IDLE_THRESHOLD_SECS);
    assert!(out.is_empty());
    assert!(!p.on_heartbeat("ada", IDLE_THRESHOLD_SECS));
}

#[test]
fn gap_beyond_threshold_logs_out_once_and_relogin_is_fresh() {
    let mut p = Presence::new();
    p.on_heartbeat("ada", 0);
    let out = p.sweep(IDLE_THRESHOLD_SECS + 1, IDLE_THRESHOLD_SECS);
    assert_eq!(out, vec!["ada"]);
    // a second sweep finds no session left to close
    let again = p.sweep(IDLE_THRESHOLD_SECS + 2, IDLE_THRESHOLD_SECS);
    assert!(again.is_empty());
    // the next heartbeat opens a fresh session
    assert!(p.on_heartbeat("ada", IDLE_THRESHOLD_SECS + 3));
}

#[test]
fn steady_polling_survives_every_sweep() {
    let mut p = Presence::new();
    let mut t: u64 = 0;
    p.on_heartbeat("ada", t);
    for _ in 0..10 {
        t += 15;
        assert!(!p.on_heartbeat("ada", t));
        let out = p.sweep(t + 10, IDLE_THRESHOLD_SECS);
        assert!(out.is_empty());
    }
}

#[test]
fn sweep_separates_stale_from_live() {
    let mut p = Presence::new();
    p.on_heartbeat("ada", 0);
    p.on_heartbeat("bob", 50);
    let out = p.sweep(70, 60);
    assert_eq!(out, vec!["ada"]);
    assert!(!p.on_heartbeat("bob", 75));
    assert!(p.on_heartbeat("ada", 80));
}

#[test]
fn refresh_keeps_the_session_alive() {
    let mut p = Presence::new();
    p.on_heartbeat("ada", 0);
    p.on_heartbeat("ada", 55);
    // stale relative to the first heartbeat, fresh relative to the second
    let out = p.sweep(80, 60);
    assert!(out.is_empty());
}
