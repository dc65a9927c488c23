//! Real-time presence and topic-based event fan-out engine.
//!
//! The crate models the core of a long-polling notification service:
//! a presence tracker that infers login/logout from heartbeat gaps,
//! a topic router that keeps per-user subscription tables consistent
//! and fans matching events out to interested users, and the
//! normalization step of the `/sync` endpoint that collapses raw
//! topic strings into a de-duplicated set of logical events.

use vstd::prelude::*;

pub mod models;
pub mod presence;
pub mod router;
pub mod sync;
pub mod topic;
pub mod util;

verus! {

/// Seconds a user may stay silent before the periodic sweep treats the
/// session as over and reports a logout.
pub const IDLE_THRESHOLD_SECS: u64 = 60;

/// Seconds between two liveness sweeps.
pub const SWEEP_INTERVAL_SECS: u64 = 30;

/// Seconds a `/sync` call blocks on an empty queue before answering
/// with the empty set.
pub const SYNC_TIMEOUT_SECS: u64 = 15;

/// Most raw events one `/sync` call drains from the caller's queue.
pub const SYNC_BATCH_MAX: usize = 100;

/// The poll timeout stays strictly below the idle threshold, so a
/// client polling in a tight loop is never evicted between calls.
pub proof fn lemma_timeout_below_idle_threshold()
    ensures
        SYNC_TIMEOUT_SECS < IDLE_THRESHOLD_SECS,
{
}

} // verus!
