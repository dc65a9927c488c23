//! Presence tracking.
//!
//! Session liveness is inferred from heartbeat recency: a heartbeat for
//! an untracked user opens a session (a login is reported), and a
//! periodic sweep closes every session whose last heartbeat is older
//! than the idle threshold (a logout is reported for each).  No explicit
//! logout signal exists.

use vstd::prelude::*;

verus! {

/// One tracked session: the user and the time of their last heartbeat,
/// in seconds.
pub struct PresenceEntry {
    pub user: String,
    pub last_heartbeat: u64,
}

/// The presence tracker.  It owns the session table alone; heartbeats
/// and sweeps must be serialized by the caller's event loop.
pub struct Presence {
    entries: Vec<PresenceEntry>,
}

/// Whether a session whose last heartbeat was at `t` has gone stale by
/// `now`: the gap strictly exceeds the idle threshold.
pub open spec fn stale(t: u64, now: u64, idle_threshold: u64) -> bool {
    t + idle_threshold < now
}

/// What a sweep at `now` leaves of the session map: exactly the
/// sessions that are not stale, with their timestamps unchanged.
pub open spec fn spec_sweep(m: Map<Seq<char>, u64>, now: u64, idle_threshold: u64) -> Map<
    Seq<char>,
    u64,
> {
    Map::new(
        |u: Seq<char>| m.dom().contains(u) && !stale(m[u], now, idle_threshold),
        |u: Seq<char>| m[u],
    )
}

/// No user appears twice in a session table.
spec fn unique_users(es: Seq<PresenceEntry>) -> bool {
    forall|k1: int, k2: int| 0 <= k1 < k2 < es.len() ==> es[k1].user@ != es[k2].user@
}

/// The session map a table denotes: each user to their last heartbeat.
spec fn model_of(es: Seq<PresenceEntry>) -> Map<Seq<char>, u64> {
    Map::new(
        |u: Seq<char>| exists|k: int| 0 <= k < es.len() && es[k].user@ == u,
        |u: Seq<char>| es[choose|k: int| 0 <= k < es.len() && es[k].user@ == u].last_heartbeat,
    )
}

/// The entries a sweep keeps, in order: the ones that are not stale.
spec fn live_seq(es: Seq<PresenceEntry>, now: u64, idle_threshold: u64) -> Seq<
    PresenceEntry,
>
    decreases es.len(),
{
    if es.len() == 0 {
        Seq::empty()
    } else {
        let pre = live_seq(es.drop_last(), now, idle_threshold);
        if stale(es.last().last_heartbeat, now, idle_threshold) {
            pre
        } else {
            pre.push(es.last())
        }
    }
}

/// The users a sweep logs out, in order: the ones whose entry is stale.
spec fn stale_seq(es: Seq<PresenceEntry>, now: u64, idle_threshold: u64) -> Seq<
    Seq<char>,
>
    decreases es.len(),
{
    if es.len() == 0 {
        Seq::empty()
    } else {
        let pre = stale_seq(es.drop_last(), now, idle_threshold);
        if stale(es.last().last_heartbeat, now, idle_threshold) {
            pre.push(es.last().user@)
        } else {
            pre
        }
    }
}

/// The entry at index `k` is what the denoted map reports for its user.
proof fn lemma_model_of_at(es: Seq<PresenceEntry>, k: int)
    requires
        unique_users(es),
        0 <= k < es.len(),
    ensures
        model_of(es).dom().contains(es[k].user@),
        model_of(es)[es[k].user@] == es[k].last_heartbeat,
{
    let u = es[k].user@;
    assert(exists|j: int| 0 <= j < es.len() && es[j].user@ == u);
    let j = choose|j: int| 0 <= j < es.len() && es[j].user@ == u;
    assert(j == k);
}

/// A non-empty table denotes its prefix's map plus its last entry, whose
/// user the prefix does not know.
proof fn lemma_model_of_last(es: Seq<PresenceEntry>)
    requires
        unique_users(es),
        es.len() > 0,
    ensures
        !model_of(es.drop_last()).dom().contains(es.last().user@),
        model_of(es) =~= model_of(es.drop_last()).insert(
            es.last().user@,
            es.last().last_heartbeat,
        ),
{
    let pre = es.drop_last();
    let n = es.len() - 1;
    let ue = es.last().user@;
    if model_of(pre).dom().contains(ue) {
        let k = choose|k: int| 0 <= k < pre.len() && pre[k].user@ == ue;
        assert(es[k].user@ == ue);
        assert(false);
    }
    assert forall|u: Seq<char>|
        model_of(es).dom().contains(u) == model_of(pre).insert(
            ue,
            es.last().last_heartbeat,
        ).dom().contains(u) by {
        if model_of(es).dom().contains(u) {
            let k = choose|k: int| 0 <= k < es.len() && es[k].user@ == u;
            if k < n {
                assert(pre[k].user@ == u);
            }
        }
        if model_of(pre).dom().contains(u) {
            let k = choose|k: int| 0 <= k < pre.len() && pre[k].user@ == u;
            assert(es[k].user@ == u);
        }
        if u == ue {
            assert(es[n].user@ == u);
        }
    }
    assert forall|u: Seq<char>| model_of(es).dom().contains(u) implies model_of(es)[u] == model_of(
        pre,
    ).insert(ue, es.last().last_heartbeat)[u] by {
        let k = choose|k: int| 0 <= k < es.len() && es[k].user@ == u;
        lemma_model_of_at(es, k);
        if u == ue {
            assert(k == n);
        } else {
            assert(k < n);
            assert(pre[k].user@ == u);
            lemma_model_of_at(pre, k);
        }
    }
}

/// What a sweep's kept entries and logout list mean: the kept entries
/// denote exactly the swept map, the logout list names exactly the
/// stale users, and neither repeats a user.
proof fn lemma_sweep_decomposition(es: Seq<PresenceEntry>, now: u64, idle_threshold: u64)
    requires
        unique_users(es),
    ensures
        unique_users(live_seq(es, now, idle_threshold)),
        model_of(live_seq(es, now, idle_threshold)) =~= spec_sweep(
            model_of(es),
            now,
            idle_threshold,
        ),
        forall|j1: int, j2: int|
            0 <= j1 < j2 < stale_seq(es, now, idle_threshold).len() ==> stale_seq(
                es,
                now,
                idle_threshold,
            )[j1] != stale_seq(es, now, idle_threshold)[j2],
        forall|u: Seq<char>|
            #[trigger] stale_seq(es, now, idle_threshold).contains(u) <==> (model_of(
                es,
            ).dom().contains(u) && stale(model_of(es)[u], now, idle_threshold)),
    decreases es.len(),
{
    let live = live_seq(es, now, idle_threshold);
    let outs = stale_seq(es, now, idle_threshold);
    if es.len() == 0 {
        assert(model_of(live) =~= spec_sweep(model_of(es), now, idle_threshold));
        assert forall|u: Seq<char>| !(#[trigger] outs.contains(u)) by {
            if outs.contains(u) {
                let j = choose|j: int| 0 <= j < outs.len() && outs[j] == u;
            }
        }
    } else {
        let pre = es.drop_last();
        let e = es.last();
        let ue = e.user@;
        let te = e.last_heartbeat;
        assert(unique_users(pre)) by {
            assert(forall|k1: int, k2: int|
                0 <= k1 < k2 < pre.len() ==> es[k1].user@ != es[k2].user@);
        }
        lemma_sweep_decomposition(pre, now, idle_threshold);
        lemma_model_of_last(es);
        let mpre = model_of(pre);
        let lpre = live_seq(pre, now, idle_threshold);
        let opre = stale_seq(pre, now, idle_threshold);
        if stale(te, now, idle_threshold) {
            // the kept entries are unchanged and the swept maps agree
            assert(model_of(live) =~= spec_sweep(model_of(es), now, idle_threshold));
            // the logout list gains exactly this user
            assert(outs =~= opre.push(ue));
            assert forall|u: Seq<char>| #[trigger]
                outs.contains(u) == (model_of(es).dom().contains(u) && stale(
                    model_of(es)[u],
                    now,
                    idle_threshold,
                )) by {
                if outs.contains(u) {
                    let j = choose|j: int| 0 <= j < outs.len() && outs[j] == u;
                    if j < opre.len() {
                        assert(opre[j] == u);
                        assert(opre.contains(u));
                    } else {
                        assert(u == ue);
                    }
                }
                if opre.contains(u) {
                    let j = choose|j: int| 0 <= j < opre.len() && opre[j] == u;
                    assert(outs[j] == u);
                }
                if u == ue {
                    assert(outs[opre.len() as int] == u);
                }
            }
            assert forall|j1: int, j2: int|
                0 <= j1 < j2 < outs.len() implies outs[j1] != outs[j2] by {
                if j2 == opre.len() {
                    assert(opre[j1] == outs[j1]);
                    assert(opre.contains(outs[j1]));
                    assert(mpre.dom().contains(outs[j1]));
                }
            }
        } else {
            // this entry stays: the kept entries gain it at the end
            assert(live =~= lpre.push(e));
            assert forall|k1: int, k2: int|
                0 <= k1 < k2 < live.len() implies live[k1].user@ != live[k2].user@ by {
                if k2 == lpre.len() {
                    assert(lpre[k1] == live[k1]);
                    lemma_model_of_at(lpre, k1);
                    assert(model_of(lpre).dom().contains(live[k1].user@));
                }
            }
            assert(live.drop_last() =~= lpre);
            lemma_model_of_last(live);
            assert(model_of(live) =~= spec_sweep(model_of(es), now, idle_threshold));
            assert(outs =~= opre);
            assert forall|u: Seq<char>| #[trigger]
                outs.contains(u) == (model_of(es).dom().contains(u) && stale(
                    model_of(es)[u],
                    now,
                    idle_threshold,
                )) by {
                if u == ue && outs.contains(u) {
                    assert(opre.contains(u));
                    assert(mpre.dom().contains(u));
                }
            }
        }
    }
}

// ---- the tracker as a state machine over its session map ----

/// One step the tracker takes: a heartbeat consumed, or a periodic sweep.
pub enum TrackerStep {
    Heartbeat { user: Seq<char>, now: u64 },
    Sweep { now: u64 },
}

/// The time a step happens at.
pub open spec fn step_time(s: TrackerStep) -> u64 {
    match s {
        TrackerStep::Heartbeat { user: _, now } => now,
        TrackerStep::Sweep { now } => now,
    }
}

/// Whether a step is a heartbeat of user `u`.
pub open spec fn is_heartbeat_of(s: TrackerStep, u: Seq<char>) -> bool {
    match s {
        TrackerStep::Heartbeat { user, now: _ } => user == u,
        TrackerStep::Sweep { .. } => false,
    }
}

/// The session map after one step, exactly as [`Presence::on_heartbeat`]
/// and [`Presence::sweep`] change it.
pub open spec fn step_map(m: Map<Seq<char>, u64>, s: TrackerStep, idle_threshold: u64) -> Map<
    Seq<char>,
    u64,
> {
    match s {
        TrackerStep::Heartbeat { user, now } => m.insert(user, now),
        TrackerStep::Sweep { now } => spec_sweep(m, now, idle_threshold),
    }
}

/// The session map after a whole trace of steps.
pub open spec fn run_map(
    m: Map<Seq<char>, u64>,
    trace: Seq<TrackerStep>,
    idle_threshold: u64,
) -> Map<Seq<char>, u64>
    decreases trace.len(),
{
    if trace.len() == 0 {
        m
    } else {
        step_map(run_map(m, trace.drop_last(), idle_threshold), trace.last(), idle_threshold)
    }
}

/// Whether a step, taken in state `m`, reports a login of `u`.
pub open spec fn emits_login(m: Map<Seq<char>, u64>, s: TrackerStep, u: Seq<char>) -> bool {
    is_heartbeat_of(s, u) && !m.dom().contains(u)
}

/// Whether a step, taken in state `m`, reports a logout of `u`.
pub open spec fn emits_logout(
    m: Map<Seq<char>, u64>,
    s: TrackerStep,
    u: Seq<char>,
    idle_threshold: u64,
) -> bool {
    match s {
        TrackerStep::Heartbeat { .. } => false,
        TrackerStep::Sweep { now } => m.dom().contains(u) && stale(m[u], now, idle_threshold),
    }
}

/// How many logins of `u` a trace reports.
pub open spec fn login_count(
    m: Map<Seq<char>, u64>,
    trace: Seq<TrackerStep>,
    u: Seq<char>,
    idle_threshold: u64,
) -> nat
    decreases trace.len(),
{
    if trace.len() == 0 {
        0
    } else {
        login_count(m, trace.drop_last(), u, idle_threshold) + if emits_login(
            run_map(m, trace.drop_last(), idle_threshold),
            trace.last(),
            u,
        ) {
            1nat
        } else {
            0nat
        }
    }
}

/// How many logouts of `u` a trace reports.
pub open spec fn logout_count(
    m: Map<Seq<char>, u64>,
    trace: Seq<TrackerStep>,
    u: Seq<char>,
    idle_threshold: u64,
) -> nat
    decreases trace.len(),
{
    if trace.len() == 0 {
        0
    } else {
        logout_count(m, trace.drop_last(), u, idle_threshold) + if emits_logout(
            run_map(m, trace.drop_last(), idle_threshold),
            trace.last(),
            u,
            idle_threshold,
        ) {
            1nat
        } else {
            0nat
        }
    }
}

/// A heartbeat sequence with no gap exceeding the idle threshold never
/// produces a logout for that user: whenever a sweep runs after some
/// heartbeat of `u`, some heartbeat of `u` lies within the threshold
/// before it, so `u` is never evicted.  Moreover the tracker keeps `u`'s
/// session at least as fresh as every heartbeat seen so far.
pub proof fn lemma_no_spurious_logout(
    m0: Map<Seq<char>, u64>,
    trace: Seq<TrackerStep>,
    u: Seq<char>,
    idle_threshold: u64,
)
    requires
        !m0.dom().contains(u),
        forall|i: int, j: int|
            0 <= i < j < trace.len() ==> step_time(#[trigger] trace[i]) <= step_time(
                #[trigger] trace[j],
            ),
        forall|i: int|
            0 <= i < trace.len() && (#[trigger] trace[i]) is Sweep ==> ((exists|j: int|
                0 <= j < i && is_heartbeat_of(#[trigger] trace[j], u)) ==> (exists|j: int|
                0 <= j < i && is_heartbeat_of(#[trigger] trace[j], u) && step_time(trace[i])
                    <= step_time(trace[j]) + idle_threshold)),
    ensures
        logout_count(m0, trace, u, idle_threshold) == 0,
        (exists|j: int| 0 <= j < trace.len() && is_heartbeat_of(#[trigger] trace[j], u)) ==> (
        run_map(m0, trace, idle_threshold).dom().contains(u) && forall|j: int|
            0 <= j < trace.len() && is_heartbeat_of(#[trigger] trace[j], u) ==> run_map(
                m0,
                trace,
                idle_threshold,
            )[u] >= step_time(trace[j])),
        !(exists|j: int| 0 <= j < trace.len() && is_heartbeat_of(#[trigger] trace[j], u))
            ==> !run_map(m0, trace, idle_threshold).dom().contains(u),
    decreases trace.len(),
{
    if trace.len() == 0 {
    } else {
        let pre = trace.drop_last();
        let s = trace.last();
        let n = trace.len() - 1;
        assert(forall|j: int| 0 <= j < pre.len() ==> pre[j] == trace[j]);
        lemma_no_spurious_logout(m0, pre, u, idle_threshold);
        let mp = run_map(m0, pre, idle_threshold);
        match s {
            TrackerStep::Heartbeat { user, now } => {
                if user == u {
                    assert(is_heartbeat_of(trace[n], u));
                    assert forall|j: int|
                        0 <= j < trace.len() && is_heartbeat_of(#[trigger] trace[j], u) implies
                        run_map(m0, trace, idle_threshold)[u] >= step_time(trace[j]) by {
                        if j < n {
                            assert(step_time(trace[j]) <= step_time(trace[n]));
                        }
                    }
                } else {
                    if exists|j: int| 0 <= j < pre.len() && is_heartbeat_of(#[trigger] pre[j], u) {
                        let j0 = choose|j: int|
                            0 <= j < pre.len() && is_heartbeat_of(#[trigger] pre[j], u);
                        assert(is_heartbeat_of(trace[j0], u));
                        assert forall|j: int|
                            0 <= j < trace.len() && is_heartbeat_of(#[trigger] trace[j], u) implies
                            run_map(m0, trace, idle_threshold)[u] >= step_time(trace[j]) by {
                            assert(j < n);
                            assert(is_heartbeat_of(pre[j], u));
                        }
                    } else {
                        if exists|j: int|
                            0 <= j < trace.len() && is_heartbeat_of(#[trigger] trace[j], u) {
                            let j0 = choose|j: int|
                                0 <= j < trace.len() && is_heartbeat_of(#[trigger] trace[j], u);
                            assert(j0 < n);
                            assert(is_heartbeat_of(pre[j0], u));
                            assert(false);
                        }
                    }
                }
            },
            TrackerStep::Sweep { now } => {
                if exists|j: int| 0 <= j < pre.len() && is_heartbeat_of(#[trigger] pre[j], u) {
                    let jw = choose|j: int|
                        0 <= j < pre.len() && is_heartbeat_of(#[trigger] pre[j], u);
                    assert(is_heartbeat_of(trace[jw], u));
                    assert(trace[n] is Sweep);
                    let j0 = choose|j: int|
                        0 <= j < n && is_heartbeat_of(#[trigger] trace[j], u) && step_time(
                            trace[n],
                        ) <= step_time(trace[j]) + idle_threshold;
                    assert(is_heartbeat_of(pre[j0], u));
                    assert(mp[u] >= step_time(trace[j0]));
                    assert(!stale(mp[u], now, idle_threshold));
                    assert forall|j: int|
                        0 <= j < trace.len() && is_heartbeat_of(#[trigger] trace[j], u) implies
                        run_map(m0, trace, idle_threshold)[u] >= step_time(trace[j]) by {
                        assert(j < n);
                        assert(is_heartbeat_of(pre[j], u));
                    }
                } else {
                    assert(!mp.dom().contains(u));
                    if exists|j: int|
                        0 <= j < trace.len() && is_heartbeat_of(#[trigger] trace[j], u) {
                        let j0 = choose|j: int|
                            0 <= j < trace.len() && is_heartbeat_of(#[trigger] trace[j], u);
                        assert(j0 < n);
                        assert(is_heartbeat_of(pre[j0], u));
                        assert(false);
                    }
                }
            },
        }
    }
}

/// Traces compose: running a concatenation is running the parts in turn,
/// and the reported login/logout counts add up.
pub proof fn lemma_trace_concat(
    m: Map<Seq<char>, u64>,
    a: Seq<TrackerStep>,
    b: Seq<TrackerStep>,
    u: Seq<char>,
    idle_threshold: u64,
)
    ensures
        run_map(m, a + b, idle_threshold) == run_map(
            run_map(m, a, idle_threshold),
            b,
            idle_threshold,
        ),
        login_count(m, a + b, u, idle_threshold) == login_count(m, a, u, idle_threshold)
            + login_count(run_map(m, a, idle_threshold), b, u, idle_threshold),
        logout_count(m, a + b, u, idle_threshold) == logout_count(m, a, u, idle_threshold)
            + logout_count(run_map(m, a, idle_threshold), b, u, idle_threshold),
    decreases b.len(),
{
    if b.len() == 0 {
        assert(a + b =~= a);
    } else {
        lemma_trace_concat(m, a, b.drop_last(), u, idle_threshold);
        assert((a + b).drop_last() =~= a + b.drop_last());
        assert((a + b).last() == b.last());
    }
}

/// A user with no session stays absent through any steps that are not
/// their own heartbeat — sweeps and other users' heartbeats alike — and
/// none of those steps reports a login or logout for them.
pub proof fn lemma_absent_stays_absent(
    m: Map<Seq<char>, u64>,
    mids: Seq<TrackerStep>,
    u: Seq<char>,
    idle_threshold: u64,
)
    requires
        !m.dom().contains(u),
        forall|i: int| 0 <= i < mids.len() ==> !is_heartbeat_of(#[trigger] mids[i], u),
    ensures
        !run_map(m, mids, idle_threshold).dom().contains(u),
        login_count(m, mids, u, idle_threshold) == 0,
        logout_count(m, mids, u, idle_threshold) == 0,
    decreases mids.len(),
{
    if mids.len() > 0 {
        let pre = mids.drop_last();
        assert(forall|j: int| 0 <= j < pre.len() ==> pre[j] == mids[j]);
        lemma_absent_stays_absent(m, pre, u, idle_threshold);
        assert(!is_heartbeat_of(mids[mids.len() - 1], u));
    }
}

/// A gap strictly exceeding the idle threshold produces exactly one
/// logout, and the next heartbeat after it exactly one login: the first
/// sweep after the gap evicts the user, nothing in between — later
/// sweeps, other users' heartbeats — touches the closed session, and
/// the user's next heartbeat opens a fresh one.
pub proof fn lemma_idle_gap_logout_then_login(
    m0: Map<Seq<char>, u64>,
    u: Seq<char>,
    idle_threshold: u64,
    sweep_time: u64,
    mids: Seq<TrackerStep>,
    hb_time: u64,
)
    requires
        m0.dom().contains(u),
        stale(m0[u], sweep_time, idle_threshold),
        forall|i: int| 0 <= i < mids.len() ==> !is_heartbeat_of(#[trigger] mids[i], u),
    ensures
        ({
            let trace = seq![TrackerStep::Sweep { now: sweep_time }] + mids + seq![
                TrackerStep::Heartbeat { user: u, now: hb_time },
            ];
            &&& logout_count(m0, trace, u, idle_threshold) == 1
            &&& login_count(m0, trace, u, idle_threshold) == 1
            &&& run_map(m0, trace, idle_threshold).dom().contains(u)
            &&& run_map(m0, trace, idle_threshold)[u] == hb_time
        }),
{
    let first = seq![TrackerStep::Sweep { now: sweep_time }];
    let last = seq![TrackerStep::Heartbeat { user: u, now: hb_time }];
    let trace = first + mids + last;
    assert(first.len() == 1);
    assert(first.last() == TrackerStep::Sweep { now: sweep_time });
    assert(first.drop_last() =~= Seq::<TrackerStep>::empty());
    assert(logout_count(m0, Seq::<TrackerStep>::empty(), u, idle_threshold) == 0);
    assert(login_count(m0, Seq::<TrackerStep>::empty(), u, idle_threshold) == 0);
    assert(run_map(m0, first.drop_last(), idle_threshold) == m0);
    assert(emits_logout(m0, first.last(), u, idle_threshold));
    assert(logout_count(m0, first, u, idle_threshold) == 1);
    assert(login_count(m0, first, u, idle_threshold) == 0);
    let m1 = run_map(m0, first, idle_threshold);
    assert(!m1.dom().contains(u));
    lemma_absent_stays_absent(m1, mids, u, idle_threshold);
    let m2 = run_map(m1, mids, idle_threshold);
    assert(last.len() == 1);
    assert(last.last() == TrackerStep::Heartbeat { user: u, now: hb_time });
    assert(last.drop_last() =~= Seq::<TrackerStep>::empty());
    assert(logout_count(m2, Seq::<TrackerStep>::empty(), u, idle_threshold) == 0);
    assert(login_count(m2, Seq::<TrackerStep>::empty(), u, idle_threshold) == 0);
    assert(emits_login(m2, last.last(), u));
    assert(login_count(m2, last, u, idle_threshold) == 1);
    assert(logout_count(m2, last, u, idle_threshold) == 0);
    lemma_trace_concat(m0, first, mids, u, idle_threshold);
    lemma_trace_concat(m0, first + mids, last, u, idle_threshold);
    assert(run_map(m0, first + mids, idle_threshold) == m2);
    assert(run_map(m0, trace, idle_threshold) == m2.insert(u, hb_time));
}

impl Presence {
    /// The entries never track the same user twice.
    pub closed spec fn wf(self) -> bool {
        unique_users(self.entries@)
    }

    /// The session map: each tracked user to their last heartbeat time.
    pub closed spec fn model(self) -> Map<Seq<char>, u64> {
        model_of(self.entries@)
    }

    pub fn new() -> (r: Presence)
        ensures
            r.wf(),
            r.model() == Map::<Seq<char>, u64>::empty(),
    {
        let r = Presence { entries: Vec::new() };
        proof {
            assert(r.model() =~= Map::<Seq<char>, u64>::empty());
        }
        r
    }

    /// Creates or refreshes the user's session.  The result says whether
    /// the heartbeat opened a session, i.e. whether a login must be
    /// reported; a refresh reports nothing.
    pub fn on_heartbeat(&mut self, user: &str, now: u64) -> (fresh: bool)
        requires
            old(self).wf(),
        ensures
            final(self).wf(),
            fresh == !old(self).model().dom().contains(user@),
            final(self).model() == old(self).model().insert(user@, now),
    {
        let n = self.entries.len();
        let mut i: usize = 0;
        while i < n
            invariant
                0 <= i <= n,
                n == self.entries@.len(),
                self == old(self),
                old(self).wf(),
                forall|k: int| 0 <= k < i ==> self.entries@[k].user@ != user@,
            decreases n - i,
        {
            if crate::topic::str_eq(self.entries[i].user.as_str(), user) {
                proof {
                    lemma_model_of_at(old(self).entries@, i as int);
                }
                self.entries[i] = PresenceEntry { user: user.to_owned(), last_heartbeat: now };
                proof {
                    assert forall|u: Seq<char>|
                        model_of(self.entries@).dom().contains(u) == old(self).model().insert(
                            user@,
                            now,
                        ).dom().contains(u) by {
                        assert(forall|k: int|
                            0 <= k < self.entries@.len() ==> self.entries@[k].user@ == old(
                                self,
                            ).entries@[k].user@);
                    }
                    assert forall|u: Seq<char>|
                        model_of(self.entries@).dom().contains(u) implies model_of(
                        self.entries@,
                    )[u] == old(self).model().insert(user@, now)[u] by {
                        let j = choose|j: int|
                            0 <= j < self.entries@.len() && self.entries@[j].user@ == u;
                        if u == user@ {
                            assert(j == i);
                        } else {
                            assert(j != i);
                            lemma_model_of_at(self.entries@, j);
                            lemma_model_of_at(old(self).entries@, j);
                        }
                    }
                    assert(self.model() =~= old(self).model().insert(user@, now));
                }
                return false;
            }
            i = i + 1;
        }
        proof {
            assert(!old(self).model().dom().contains(user@));
        }
        self.entries.push(PresenceEntry { user: user.to_owned(), last_heartbeat: now });
        proof {
            assert(self.entries@.drop_last() =~= old(self).entries@);
            assert(self.entries@.last().user@ == user@);
            assert(unique_users(self.entries@)) by {
                assert forall|k1: int, k2: int|
                    0 <= k1 < k2 < self.entries@.len() implies self.entries@[k1].user@
                    != self.entries@[k2].user@ by {
                    if k2 == self.entries@.len() - 1 {
                        assert(self.entries@[k1].user@ == old(self).entries@[k1].user@);
                    }
                }
            }
            lemma_model_of_last(self.entries@);
        }
        true
    }

    /// Closes every stale session.  The result lists the users logged
    /// out by this sweep, each exactly once.
    pub fn sweep(&mut self, now: u64, idle_threshold: u64) -> (out: Vec<String>)
        requires
            old(self).wf(),
        ensures
            final(self).wf(),
            final(self).model() == spec_sweep(old(self).model(), now, idle_threshold),
            forall|j1: int, j2: int| 0 <= j1 < j2 < out@.len() ==> out@[j1]@ != out@[j2]@,
            forall|u: Seq<char>|
                #[trigger] out.deep_view().contains(u) <==> (old(self).model().dom().contains(u)
                    && stale(old(self).model()[u], now, idle_threshold)),
    {
        let n = self.entries.len();
        let mut kept: Vec<PresenceEntry> = Vec::new();
        let mut out: Vec<String> = Vec::new();
        let mut i: usize = 0;
        proof {
            assert(self.entries@.take(0) =~= Seq::<PresenceEntry>::empty());
            assert(kept@ =~= live_seq(self.entries@.take(0), now, idle_threshold));
            assert(out.deep_view() =~= stale_seq(self.entries@.take(0), now, idle_threshold));
        }
        while i < n
            invariant
                0 <= i <= n,
                n == self.entries@.len(),
                self == old(self),
                old(self).wf(),
                kept@ == live_seq(self.entries@.take(i as int), now, idle_threshold),
                out.deep_view() == stale_seq(self.entries@.take(i as int), now, idle_threshold),
            decreases n - i,
        {
            let ghost taken = self.entries@.take(i as int);
            let ghost dv0 = out.deep_view();
            let is_stale = (self.entries[i].last_heartbeat as u128) + (idle_threshold as u128) < (
            now as u128);
            proof {
                assert(self.entries@.take(i + 1).drop_last() =~= taken);
                assert(self.entries@.take(i + 1).last() == self.entries@[i as int]);
            }
            if is_stale {
                out.push(self.entries[i].user.clone());
                proof {
                    assert(out.deep_view() =~= dv0.push(self.entries@[i as int].user@));
                    assert(out.deep_view() =~= stale_seq(
                        self.entries@.take(i + 1),
                        now,
                        idle_threshold,
                    ));
                    assert(kept@ =~= live_seq(self.entries@.take(i + 1), now, idle_threshold));
                }
            } else {
                let user = self.entries[i].user.clone();
                let t = self.entries[i].last_heartbeat;
                kept.push(PresenceEntry { user, last_heartbeat: t });
                proof {
                    assert(kept@.last().user@ == self.entries@[i as int].user@);
                    assert(kept@.last().last_heartbeat == self.entries@[i as int].last_heartbeat);
                    assert(kept@ =~= live_seq(taken, now, idle_threshold).push(kept@.last()));
                    assert(live_seq(self.entries@.take(i + 1), now, idle_threshold) =~= live_seq(
                        taken,
                        now,
                        idle_threshold,
                    ).push(self.entries@[i as int]));
                    assert(out.deep_view() =~= stale_seq(
                        self.entries@.take(i + 1),
                        now,
                        idle_threshold,
                    ));
                }
            }
            i = i + 1;
        }
        proof {
            assert(self.entries@.take(n as int) =~= self.entries@);
        }
        self.entries = kept;
        proof {
            lemma_sweep_decomposition(old(self).entries@, now, idle_threshold);
            assert forall|j1: int, j2: int|
                0 <= j1 < j2 < out@.len() implies out@[j1]@ != out@[j2]@ by {
                assert(out.deep_view()[j1] == out@[j1]@);
                assert(out.deep_view()[j2] == out@[j2]@);
            }
        }
        out
    }
}

} // verus!
