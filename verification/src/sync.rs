//! Normalization for the long-poll endpoint.
//!
//! A `/sync` call drains a batch of raw topic-instance strings from the
//! caller's queue and reports them as a de-duplicated set of logical
//! events: any event on one of the caller's groups collapses to that
//! group's id, any event addressed to the caller personally to a bare
//! notification.  The client refetches the resource; it gets no diffs,
//! so three changes to one group are one entry.

use vstd::prelude::*;

use crate::topic::{
    is_joined, owner_pattern, spec_is_joined, spec_owner_pattern, Pattern, PatternView,
};

verus! {

/// One logical event a `/sync` response reports.
#[derive(Clone, Copy, Debug, PartialEq, Eq, Structural)]
pub enum SyncEvent {
    Group { id: i32 },
    Notification,
}

/// What one raw queue entry means to the client: a changed group, a
/// personal notification, or — for malformed, unknown or
/// membership-bookkeeping topics — nothing at all.
pub open spec fn spec_normalize(s: Seq<char>) -> Option<SyncEvent> {
    match spec_owner_pattern(s) {
        Some(PatternView::Group { gid }) => Some(SyncEvent::Group { id: gid as i32 }),
        Some(PatternView::User { uid: _ }) => if spec_is_joined(s) {
            None
        } else {
            Some(SyncEvent::Notification)
        },
        None => None,
    }
}

/// Normalizes one raw queue entry.
pub fn normalize_event(s: &str) -> (r: Option<SyncEvent>)
    ensures
        r == spec_normalize(s@),
{
    match owner_pattern(s) {
        Some(Pattern::Group { gid }) => Some(SyncEvent::Group { id: gid }),
        Some(Pattern::User { uid: _ }) => if is_joined(s) {
            None
        } else {
            Some(SyncEvent::Notification)
        },
        None => None,
    }
}

/// Whether the batch built so far already reports the event.
fn contains_event(v: &Vec<SyncEvent>, e: SyncEvent) -> (r: bool)
    ensures
        r == v@.contains(e),
{
    let n = v.len();
    let mut i: usize = 0;
    while i < n
        invariant
            0 <= i <= n,
            n == v@.len(),
            forall|j: int| 0 <= j < i ==> v@[j] != e,
        decreases n - i,
    {
        if v[i] == e {
            return true;
        }
        i = i + 1;
    }
    proof {
        if v@.contains(e) {
            let j = choose|j: int| 0 <= j < v@.len() && v@[j] == e;
        }
    }
    false
}

/// Normalizes a drained batch into the de-duplicated event set, in
/// first-appearance order: the result holds exactly the meanings of the
/// batch's entries, each once.  An empty batch — a poll that timed out —
/// yields the empty set.
pub fn normalize_events(events: &Vec<String>) -> (out: Vec<SyncEvent>)
    ensures
        forall|j1: int, j2: int| 0 <= j1 < j2 < out@.len() ==> out@[j1] != out@[j2],
        forall|e: SyncEvent|
            #[trigger] out@.contains(e) <==> exists|i: int|
                0 <= i < events@.len() && spec_normalize((#[trigger] events@[i])@) == Some(e),
{
    let n = events.len();
    let mut out: Vec<SyncEvent> = Vec::new();
    let mut i: usize = 0;
    while i < n
        invariant
            0 <= i <= n,
            n == events@.len(),
            forall|j1: int, j2: int| 0 <= j1 < j2 < out@.len() ==> out@[j1] != out@[j2],
            forall|e: SyncEvent|
                #[trigger] out@.contains(e) <==> exists|j: int|
                    0 <= j < i && spec_normalize((#[trigger] events@[j])@) == Some(e),
        decreases n - i,
    {
        let ghost out0 = out@;
        match normalize_event(events[i].as_str()) {
            Some(e) => {
                if !contains_event(&out, e) {
                    out.push(e);
                    proof {
                        assert forall|e2: SyncEvent| #[trigger]
                            out@.contains(e2) == (exists|j: int|
                                0 <= j < i + 1 && spec_normalize((#[trigger] events@[j])@) == Some(
                                    e2,
                                )) by {
                            if out@.contains(e2) {
                                let j = choose|j: int| 0 <= j < out@.len() && out@[j] == e2;
                                if j < out0.len() {
                                    assert(out0[j] == e2);
                                    assert(out0.contains(e2));
                                    let j2 = choose|j2: int|
                                        0 <= j2 < i && spec_normalize(
                                            (#[trigger] events@[j2])@,
                                        ) == Some(e2);
                                } else {
                                    assert(e2 == e);
                                    assert(spec_normalize((events@[i as int])@) == Some(e2));
                                }
                            }
                            if exists|j: int|
                                0 <= j < i + 1 && spec_normalize((#[trigger] events@[j])@) == Some(
                                    e2,
                                ) {
                                let j = choose|j: int|
                                    0 <= j < i + 1 && spec_normalize((#[trigger] events@[j])@)
                                        == Some(e2);
                                if j < i {
                                    assert(out0.contains(e2) || e2 == e);
                                    if out0.contains(e2) {
                                        let j2 = choose|j2: int|
                                            0 <= j2 < out0.len() && out0[j2] == e2;
                                        assert(out@[j2] == e2);
                                    } else {
                                        assert(out@[out0.len() as int] == e2);
                                    }
                                } else {
                                    assert(e2 == e);
                                    assert(out@[out0.len() as int] == e2);
                                }
                            }
                        }
                        assert forall|j1: int, j2: int|
                            0 <= j1 < j2 < out@.len() implies out@[j1] != out@[j2] by {
                            if j2 == out@.len() - 1 {
                                assert(out0[j1] == out@[j1]);
                                assert(out0.contains(out@[j1]));
                            }
                        }
                    }
                } else {
                    proof {
                        assert forall|e2: SyncEvent| #[trigger]
                            out@.contains(e2) == (exists|j: int|
                                0 <= j < i + 1 && spec_normalize((#[trigger] events@[j])@) == Some(
                                    e2,
                                )) by {
                            if out@.contains(e2) {
                                let j2 = choose|j2: int|
                                    0 <= j2 < i && spec_normalize((#[trigger] events@[j2])@)
                                        == Some(e2);
                            }
                            if exists|j: int|
                                0 <= j < i + 1 && spec_normalize((#[trigger] events@[j])@) == Some(
                                    e2,
                                ) {
                                let j = choose|j: int|
                                    0 <= j < i + 1 && spec_normalize((#[trigger] events@[j])@)
                                        == Some(e2);
                                if j == i {
                                    assert(e2 == e);
                                    assert(out@.contains(e));
                                }
                            }
                        }
                    }
                }
            },
            None => {
                proof {
                    assert forall|e2: SyncEvent| #[trigger]
                        out@.contains(e2) == (exists|j: int|
                            0 <= j < i + 1 && spec_normalize((#[trigger] events@[j])@) == Some(
                                e2,
                            )) by {
                        if out@.contains(e2) {
                            let j2 = choose|j2: int|
                                0 <= j2 < i && spec_normalize((#[trigger] events@[j2])@) == Some(
                                    e2,
                                );
                        }
                        if exists|j: int|
                            0 <= j < i + 1 && spec_normalize((#[trigger] events@[j])@) == Some(
                                e2,
                            ) {
                            let j = choose|j: int|
                                0 <= j < i + 1 && spec_normalize((#[trigger] events@[j])@) == Some(
                                    e2,
                                );
                            assert(j < i);
                        }
                    }
                }
            },
        }
        i = i + 1;
    }
    out
}

} // verus!
