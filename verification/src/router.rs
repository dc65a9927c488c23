//! The topic router.
//!
//! The router owns two subscription tables, kept consistent in both
//! directions: which patterns each user watches, and which users watch
//! each pattern.  Logins and membership changes grow a user's watch
//! set, logouts shrink it without leaking table rows, and a published
//! event fans out to every subscriber of its owning pattern except the
//! event's author.

use vstd::prelude::*;

use crate::topic::{Pattern, PatternView};

verus! {

/// One row of the user-to-patterns table.
pub struct UserEntry {
    pub user: String,
    pub topics: Vec<Pattern>,
}

/// One row of the pattern-to-users table.
pub struct TopicEntry {
    pub pattern: Pattern,
    pub users: Vec<String>,
}

/// The router's state: the two subscription tables.
pub struct Router {
    user_to_topics: Vec<UserEntry>,
    topic_to_users: Vec<TopicEntry>,
}

/// The subscription pairs the user-to-patterns table holds.
spec fn ut_rel_of(uts: Seq<UserEntry>) -> Set<(Seq<char>, PatternView)> {
    Set::new(
        |pr: (Seq<char>, PatternView)|
            exists|k: int, j: int|
                0 <= k < uts.len() && 0 <= j < uts[k].topics@.len() && (#[trigger] uts[k].topics@[j])@
                    == pr.1 && uts[k].user@ == pr.0,
    )
}

/// The subscription pairs the pattern-to-users table holds.
spec fn tt_rel_of(tts: Seq<TopicEntry>) -> Set<(Seq<char>, PatternView)> {
    Set::new(
        |pr: (Seq<char>, PatternView)|
            exists|k: int, j: int|
                0 <= k < tts.len() && 0 <= j < tts[k].users@.len() && (#[trigger] tts[k].users@[j])@
                    == pr.0 && tts[k].pattern@ == pr.1,
    )
}

impl Router {
    /// The subscription relation: every (user, pattern) pair currently
    /// subscribed.  Both tables realize exactly this relation.
    pub closed spec fn rel(self) -> Set<(Seq<char>, PatternView)> {
        ut_rel_of(self.user_to_topics@)
    }

    /// The patterns a user watches.
    pub open spec fn topics_of(self, u: Seq<char>) -> Set<PatternView> {
        Set::new(|p: PatternView| self.rel().contains((u, p)))
    }

    /// The users watching a pattern.
    pub open spec fn subs_of(self, p: PatternView) -> Set<Seq<char>> {
        Set::new(|u: Seq<char>| self.rel().contains((u, p)))
    }

    /// Nobody watches the pattern, so no broker subscription for it is
    /// held.
    pub open spec fn unsubscribed(self, p: PatternView) -> bool {
        forall|u: Seq<char>| !self.rel().contains((u, p))
    }

    /// Both tables are in shape: no duplicate rows or row elements, no
    /// empty pattern row, and the two directions agree pair for pair.
    pub closed spec fn wf(self) -> bool {
        let uts = self.user_to_topics@;
        let tts = self.topic_to_users@;
        &&& forall|k1: int, k2: int| 0 <= k1 < k2 < uts.len() ==> uts[k1].user@ != uts[k2].user@
        &&& forall|k1: int, k2: int|
            0 <= k1 < k2 < tts.len() ==> tts[k1].pattern@ != tts[k2].pattern@
        &&& forall|k: int, j1: int, j2: int|
            0 <= k < uts.len() && 0 <= j1 < j2 < uts[k].topics@.len() ==> (
            #[trigger] uts[k].topics@[j1])@ != (#[trigger] uts[k].topics@[j2])@
        &&& forall|k: int, j1: int, j2: int|
            0 <= k < tts.len() && 0 <= j1 < j2 < tts[k].users@.len() ==> (
            #[trigger] tts[k].users@[j1])@ != (#[trigger] tts[k].users@[j2])@
        &&& forall|k: int| 0 <= k < tts.len() ==> (#[trigger] tts[k].users@).len() > 0
        &&& forall|pr: (Seq<char>, PatternView)|
            #[trigger] ut_rel_of(uts).contains(pr) <==> tt_rel_of(tts).contains(pr)
    }

    pub fn new() -> (r: Router)
        ensures
            r.wf(),
            r.rel() == Set::<(Seq<char>, PatternView)>::empty(),
    {
        let r = Router { user_to_topics: Vec::new(), topic_to_users: Vec::new() };
        proof {
            assert forall|pr: (Seq<char>, PatternView)| !(#[trigger] r.rel().contains(pr)) by {}
            assert forall|pr: (Seq<char>, PatternView)|
                !(#[trigger] tt_rel_of(r.topic_to_users@).contains(pr)) by {}
            assert(r.rel() =~= Set::<(Seq<char>, PatternView)>::empty());
        }
        r
    }

    /// The row index of a pattern in the pattern-to-users table.
    fn find_topic_idx(&self, p: &Pattern) -> (r: Option<usize>)
        ensures
            match r {
                Some(k) => 0 <= k < self.topic_to_users@.len() && self.topic_to_users@[k as int].pattern@
                    == p@,
                None => forall|k: int|
                    0 <= k < self.topic_to_users@.len() ==> (
                    #[trigger] self.topic_to_users@[k]).pattern@ != p@,
            },
    {
        let n = self.topic_to_users.len();
        let mut i: usize = 0;
        while i < n
            invariant
                0 <= i <= n,
                n == self.topic_to_users@.len(),
                forall|k: int|
                    0 <= k < i ==> (#[trigger] self.topic_to_users@[k]).pattern@ != p@,
            decreases n - i,
        {
            if crate::topic::pattern_eq(&self.topic_to_users[i].pattern, p) {
                return Some(i);
            }
            i = i + 1;
        }
        None
    }

    /// The row index of a user in the user-to-patterns table.
    fn find_user_idx(&self, user: &str) -> (r: Option<usize>)
        ensures
            match r {
                Some(k) => 0 <= k < self.user_to_topics@.len() && self.user_to_topics@[k as int].user@
                    == user@,
                None => forall|k: int|
                    0 <= k < self.user_to_topics@.len() ==> (
                    #[trigger] self.user_to_topics@[k]).user@ != user@,
            },
    {
        let n = self.user_to_topics.len();
        let mut i: usize = 0;
        while i < n
            invariant
                0 <= i <= n,
                n == self.user_to_topics@.len(),
                forall|k: int| 0 <= k < i ==> (#[trigger] self.user_to_topics@[k]).user@ != user@,
            decreases n - i,
        {
            if crate::topic::str_eq(self.user_to_topics[i].user.as_str(), user) {
                return Some(i);
            }
            i = i + 1;
        }
        None
    }
}

/// Pushing a one-user pattern row adds exactly that pair.
proof fn lemma_tt_rel_push_new(tts: Seq<TopicEntry>, e: TopicEntry)
    requires
        e.users@.len() == 1,
    ensures
        tt_rel_of(tts.push(e)) =~= tt_rel_of(tts).insert((e.users@[0]@, e.pattern@)),
{
    let new = tts.push(e);
    let pair = (e.users@[0]@, e.pattern@);
    let n = tts.len() as int;
    assert forall|pr: (Seq<char>, PatternView)|
        tt_rel_of(new).contains(pr) == tt_rel_of(tts).insert(pair).contains(pr) by {
        if tt_rel_of(new).contains(pr) {
            let (k, j) = choose|k: int, j: int|
                0 <= k < new.len() && 0 <= j < new[k].users@.len() && (#[trigger] new[k].users@[j])@
                    == pr.0 && new[k].pattern@ == pr.1;
            if k < n {
                assert(tts[k] == new[k]);
                assert((tts[k].users@[j])@ == pr.0);
            } else {
                assert(new[k] == e);
                assert(j == 0);
                assert(pr == pair);
            }
        }
        if tt_rel_of(tts).contains(pr) {
            let (k, j) = choose|k: int, j: int|
                0 <= k < tts.len() && 0 <= j < tts[k].users@.len() && (#[trigger] tts[k].users@[j])@
                    == pr.0 && tts[k].pattern@ == pr.1;
            assert(new[k] == tts[k]);
            assert((new[k].users@[j])@ == pr.0);
        }
        if pr == pair {
            assert(new[n] == e);
            assert((new[n].users@[0])@ == pr.0 && new[n].pattern@ == pr.1);
        }
    }
}

/// Appending a user to an existing pattern row adds exactly that pair.
proof fn lemma_tt_rel_add_user(tts: Seq<TopicEntry>, new: Seq<TopicEntry>, k: int, u: Seq<char>)
    requires
        0 <= k < tts.len(),
        new.len() == tts.len(),
        forall|k2: int| 0 <= k2 < tts.len() && k2 != k ==> new[k2] == tts[k2],
        new[k].pattern@ == tts[k].pattern@,
        new[k].users@.len() == tts[k].users@.len() + 1,
        forall|j: int| 0 <= j < tts[k].users@.len() ==> new[k].users@[j] == tts[k].users@[j],
        new[k].users@.last()@ == u,
    ensures
        tt_rel_of(new) =~= tt_rel_of(tts).insert((u, tts[k].pattern@)),
{
    let pair = (u, tts[k].pattern@);
    let last = tts[k].users@.len() as int;
    assert forall|pr: (Seq<char>, PatternView)|
        tt_rel_of(new).contains(pr) == tt_rel_of(tts).insert(pair).contains(pr) by {
        if tt_rel_of(new).contains(pr) {
            let (k2, j) = choose|k2: int, j: int|
                0 <= k2 < new.len() && 0 <= j < new[k2].users@.len() && (
                #[trigger] new[k2].users@[j])@ == pr.0 && new[k2].pattern@ == pr.1;
            if k2 != k {
                assert((tts[k2].users@[j])@ == pr.0 && tts[k2].pattern@ == pr.1);
            } else if j < last {
                assert((tts[k].users@[j])@ == pr.0 && tts[k].pattern@ == pr.1);
            } else {
                assert(pr == pair);
            }
        }
        if tt_rel_of(tts).contains(pr) {
            let (k2, j) = choose|k2: int, j: int|
                0 <= k2 < tts.len() && 0 <= j < tts[k2].users@.len() && (
                #[trigger] tts[k2].users@[j])@ == pr.0 && tts[k2].pattern@ == pr.1;
            assert((new[k2].users@[j])@ == pr.0 && new[k2].pattern@ == pr.1);
        }
        if pr == pair {
            assert((new[k].users@[last])@ == pr.0 && new[k].pattern@ == pr.1);
        }
    }
}

/// Pushing a one-pattern user row adds exactly that pair.
proof fn lemma_ut_rel_push_new(uts: Seq<UserEntry>, e: UserEntry)
    requires
        e.topics@.len() == 1,
    ensures
        ut_rel_of(uts.push(e)) =~= ut_rel_of(uts).insert((e.user@, e.topics@[0]@)),
{
    let new = uts.push(e);
    let pair = (e.user@, e.topics@[0]@);
    let n = uts.len() as int;
    assert forall|pr: (Seq<char>, PatternView)|
        ut_rel_of(new).contains(pr) == ut_rel_of(uts).insert(pair).contains(pr) by {
        if ut_rel_of(new).contains(pr) {
            let (k, j) = choose|k: int, j: int|
                0 <= k < new.len() && 0 <= j < new[k].topics@.len() && (
                #[trigger] new[k].topics@[j])@ == pr.1 && new[k].user@ == pr.0;
            if k < n {
                assert(uts[k] == new[k]);
                assert((uts[k].topics@[j])@ == pr.1);
            } else {
                assert(new[k] == e);
                assert(j == 0);
                assert(pr == pair);
            }
        }
        if ut_rel_of(uts).contains(pr) {
            let (k, j) = choose|k: int, j: int|
                0 <= k < uts.len() && 0 <= j < uts[k].topics@.len() && (
                #[trigger] uts[k].topics@[j])@ == pr.1 && uts[k].user@ == pr.0;
            assert(new[k] == uts[k]);
            assert((new[k].topics@[j])@ == pr.1);
        }
        if pr == pair {
            assert(new[n] == e);
            assert((new[n].topics@[0])@ == pr.1 && new[n].user@ == pr.0);
        }
    }
}

/// Appending a pattern to an existing user row adds exactly that pair.
proof fn lemma_ut_rel_add_topic(uts: Seq<UserEntry>, new: Seq<UserEntry>, k: int, p: PatternView)
    requires
        0 <= k < uts.len(),
        new.len() == uts.len(),
        forall|k2: int| 0 <= k2 < uts.len() && k2 != k ==> new[k2] == uts[k2],
        new[k].user@ == uts[k].user@,
        new[k].topics@.len() == uts[k].topics@.len() + 1,
        forall|j: int| 0 <= j < uts[k].topics@.len() ==> new[k].topics@[j] == uts[k].topics@[j],
        new[k].topics@.last()@ == p,
    ensures
        ut_rel_of(new) =~= ut_rel_of(uts).insert((uts[k].user@, p)),
{
    let pair = (uts[k].user@, p);
    let last = uts[k].topics@.len() as int;
    assert forall|pr: (Seq<char>, PatternView)|
        ut_rel_of(new).contains(pr) == ut_rel_of(uts).insert(pair).contains(pr) by {
        if ut_rel_of(new).contains(pr) {
            let (k2, j) = choose|k2: int, j: int|
                0 <= k2 < new.len() && 0 <= j < new[k2].topics@.len() && (
                #[trigger] new[k2].topics@[j])@ == pr.1 && new[k2].user@ == pr.0;
            if k2 != k {
                assert((uts[k2].topics@[j])@ == pr.1 && uts[k2].user@ == pr.0);
            } else if j < last {
                assert((uts[k].topics@[j])@ == pr.1 && uts[k].user@ == pr.0);
            } else {
                assert(pr == pair);
            }
        }
        if ut_rel_of(uts).contains(pr) {
            let (k2, j) = choose|k2: int, j: int|
                0 <= k2 < uts.len() && 0 <= j < uts[k2].topics@.len() && (
                #[trigger] uts[k2].topics@[j])@ == pr.1 && uts[k2].user@ == pr.0;
            assert((new[k2].topics@[j])@ == pr.1 && new[k2].user@ == pr.0);
        }
        if pr == pair {
            assert((new[k].topics@[last])@ == pr.1 && new[k].user@ == pr.0);
        }
    }
}

impl Router {
    /// Subscribes one user to one pattern, in both tables.  The result
    /// says whether the pattern was not watched by anyone before, i.e.
    /// whether the caller must take out a broker subscription for it.
    fn add_user_topic(&mut self, user: &str, p: &Pattern) -> (fresh: bool)
        requires
            old(self).wf(),
        ensures
            final(self).wf(),
            final(self).rel() == old(self).rel().insert((user@, p@)),
            fresh == old(self).unsubscribed(p@),
    {
        let ghost tt0 = self.topic_to_users@;
        let ghost ut0 = self.user_to_topics@;
        let ghost r0 = old(self).rel();
        let ghost pair = (user@, p@);
        proof {
            assert(tt_rel_of(tt0) =~= r0);
        }
        let fresh: bool;
        match self.find_topic_idx(p) {
            None => {
                fresh = true;
                proof {
                    assert forall|u: Seq<char>| !(#[trigger] r0.contains((u, p@))) by {
                        if tt_rel_of(tt0).contains((u, p@)) {
                            let (k, j) = choose|k: int, j: int|
                                0 <= k < tt0.len() && 0 <= j < tt0[k].users@.len() && (
                                #[trigger] tt0[k].users@[j])@ == u && tt0[k].pattern@ == p@;
                        }
                    }
                }
                let mut users: Vec<String> = Vec::new();
                users.push(user.to_owned());
                self.topic_to_users.push(TopicEntry { pattern: p.dup(), users });
                proof {
                    lemma_tt_rel_push_new(tt0, self.topic_to_users@.last());
                    assert(tt_rel_of(self.topic_to_users@) =~= tt_rel_of(tt0).insert(pair));
                    assert forall|k1: int, k2: int|
                        0 <= k1 < k2 < self.topic_to_users@.len() implies self.topic_to_users@[k1].pattern@
                        != self.topic_to_users@[k2].pattern@ by {
                        if k2 == self.topic_to_users@.len() - 1 {
                            assert(self.topic_to_users@[k1] == tt0[k1]);
                        }
                    }
                }
            },
            Some(k) => {
                fresh = false;
                proof {
                    assert(tt0[k as int].users@.len() > 0);
                    assert((tt0[k as int].users@[0])@ == tt0[k as int].users@[0]@);
                    assert(tt_rel_of(tt0).contains((tt0[k as int].users@[0]@, p@)));
                    assert(r0.contains((tt0[k as int].users@[0]@, p@)));
                }
                if vec_contains_str(&self.topic_to_users[k].users, user) {
                    proof {
                        let j = choose|j: int|
                            0 <= j < tt0[k as int].users@.len() && (
                            #[trigger] tt0[k as int].users@[j])@ == user@;
                        assert(tt_rel_of(tt0).contains(pair));
                        assert(tt_rel_of(self.topic_to_users@) =~= tt_rel_of(tt0).insert(pair));
                    }
                } else {
                    self.topic_to_users[k].users.push(user.to_owned());
                    proof {
                        lemma_tt_rel_add_user(tt0, self.topic_to_users@, k as int, user@);
                        assert(tt_rel_of(self.topic_to_users@) =~= tt_rel_of(tt0).insert(pair));
                        assert forall|k1: int, j1: int, j2: int|
                            0 <= k1 < self.topic_to_users@.len() && 0 <= j1 < j2
                                < self.topic_to_users@[k1].users@.len() implies (
                        #[trigger] self.topic_to_users@[k1].users@[j1])@ != (
                        #[trigger] self.topic_to_users@[k1].users@[j2])@ by {
                            if k1 == k as int && j2 == self.topic_to_users@[k1].users@.len() - 1 {
                                assert(self.topic_to_users@[k1].users@[j1] == tt0[k1].users@[j1]);
                            }
                        }
                    }
                }
            },
        }
        proof {
            assert(tt_rel_of(self.topic_to_users@) =~= r0.insert(pair));
            assert(self.user_to_topics@ == ut0);
        }
        match self.find_user_idx(user) {
            None => {
                let mut topics: Vec<Pattern> = Vec::new();
                topics.push(p.dup());
                self.user_to_topics.push(UserEntry { user: user.to_owned(), topics });
                proof {
                    lemma_ut_rel_push_new(ut0, self.user_to_topics@.last());
                    assert(ut_rel_of(self.user_to_topics@) =~= ut_rel_of(ut0).insert(pair));
                    assert forall|k1: int, k2: int|
                        0 <= k1 < k2 < self.user_to_topics@.len() implies self.user_to_topics@[k1].user@
                        != self.user_to_topics@[k2].user@ by {
                        if k2 == self.user_to_topics@.len() - 1 {
                            assert(self.user_to_topics@[k1] == ut0[k1]);
                        }
                    }
                }
            },
            Some(k) => {
                if vec_contains_pattern(&self.user_to_topics[k].topics, p) {
                    proof {
                        let j = choose|j: int|
                            0 <= j < ut0[k as int].topics@.len() && (
                            #[trigger] ut0[k as int].topics@[j])@ == p@;
                        assert(ut_rel_of(ut0).contains(pair));
                        assert(ut_rel_of(self.user_to_topics@) =~= ut_rel_of(ut0).insert(pair));
                    }
                } else {
                    self.user_to_topics[k].topics.push(p.dup());
                    proof {
                        lemma_ut_rel_add_topic(ut0, self.user_to_topics@, k as int, p@);
                        assert(ut_rel_of(self.user_to_topics@) =~= ut_rel_of(ut0).insert(pair));
                        assert forall|k1: int, j1: int, j2: int|
                            0 <= k1 < self.user_to_topics@.len() && 0 <= j1 < j2
                                < self.user_to_topics@[k1].topics@.len() implies (
                        #[trigger] self.user_to_topics@[k1].topics@[j1])@ != (
                        #[trigger] self.user_to_topics@[k1].topics@[j2])@ by {
                            if k1 == k as int && j2 == self.user_to_topics@[k1].topics@.len() - 1 {
                                assert(self.user_to_topics@[k1].topics@[j1] == ut0[k1].topics@[j1]);
                            }
                        }
                    }
                }
            },
        }
        proof {
            assert(ut_rel_of(self.user_to_topics@) =~= r0.insert(pair));
            assert forall|pr: (Seq<char>, PatternView)|
                #[trigger] ut_rel_of(self.user_to_topics@).contains(pr) <==> tt_rel_of(
                    self.topic_to_users@,
                ).contains(pr) by {}
        }
        fresh
    }
}

/// The pairs that subscribing one user to a set of patterns adds.
pub open spec fn pairs_of(u: Seq<char>, ps: Seq<PatternView>) -> Set<(Seq<char>, PatternView)> {
    Set::new(|pr: (Seq<char>, PatternView)| pr.0 == u && ps.contains(pr.1))
}

/// The patterns a login computes for a user: one per group the user is
/// a member of, plus the user's own notification pattern.
pub open spec fn login_patterns(u: Seq<char>, gids: Seq<i32>) -> Seq<PatternView> {
    gids.map_values(|g: i32| PatternView::Group { gid: g as int }).push(
        PatternView::User { uid: u },
    )
}

impl Router {
    /// Merges the given patterns into the user's watch set — a set
    /// union, never a replacement — and adds the user to each pattern's
    /// subscriber row.  The result lists the patterns nobody watched
    /// before, each once: exactly those need a new broker subscription.
    pub fn add_topics(&mut self, user: &str, new_topics: &Vec<Pattern>) -> (fresh: Vec<Pattern>)
        requires
            old(self).wf(),
        ensures
            final(self).wf(),
            final(self).rel() == old(self).rel().union(
                pairs_of(user@, new_topics.deep_view()),
            ),
            forall|p: PatternView|
                #[trigger] fresh.deep_view().contains(p) <==> (new_topics.deep_view().contains(p)
                    && old(self).unsubscribed(p)),
            forall|j1: int, j2: int|
                0 <= j1 < j2 < fresh@.len() ==> (#[trigger] fresh@[j1])@ != (
                #[trigger] fresh@[j2])@,
    {
        let ghost r0 = old(self).rel();
        let ghost nv = new_topics.deep_view();
        let n = new_topics.len();
        let mut fresh: Vec<Pattern> = Vec::new();
        let mut i: usize = 0;
        proof {
            assert(self.rel() =~= r0.union(pairs_of(user@, nv.take(0))));
        }
        while i < n
            invariant
                0 <= i <= n,
                n == nv.len(),
                nv == new_topics.deep_view(),
                old(self).wf(),
                self.wf(),
                r0 == old(self).rel(),
                self.rel() == r0.union(pairs_of(user@, nv.take(i as int))),
                forall|p: PatternView|
                    #[trigger] fresh.deep_view().contains(p) <==> (nv.take(i as int).contains(p)
                        && old(self).unsubscribed(p)),
                forall|j1: int, j2: int|
                    0 <= j1 < j2 < fresh@.len() ==> (#[trigger] fresh@[j1])@ != (
                    #[trigger] fresh@[j2])@,
            decreases n - i,
        {
            let ghost r_pre = self.rel();
            let ghost fdv0 = fresh.deep_view();
            let ghost pv = nv[i as int];
            let ghost tk0 = nv.take(i as int);
            let ghost tk1 = nv.take(i + 1);
            proof {
                assert(pv == new_topics@[i as int]@);
                assert(tk1.drop_last() =~= tk0);
                assert(tk1.last() == pv);
                assert(forall|p: PatternView|
                    #[trigger] fdv0.contains(p) <==> (tk0.contains(p) && old(
                        self,
                    ).unsubscribed(p)));
            }
            let f = self.add_user_topic(user, &new_topics[i]);
            proof {
                assert forall|pr: (Seq<char>, PatternView)|
                    r0.union(pairs_of(user@, tk1)).contains(pr) == r_pre.insert(
                        (user@, pv),
                    ).contains(pr) by {
                    if tk1.contains(pr.1) {
                        let j = choose|j: int|
                            0 <= j < i + 1 && tk1[j] == pr.1;
                        if j < i {
                            assert(tk0[j] == pr.1);
                            assert(tk0.contains(pr.1));
                        } else {
                            assert(pr.1 == pv);
                        }
                    }
                    if tk0.contains(pr.1) {
                        let j = choose|j: int|
                            0 <= j < i && tk0[j] == pr.1;
                        assert(tk1[j] == pr.1);
                        assert(tk1.contains(pr.1));
                    }
                    if pr.1 == pv {
                        assert(tk1[i as int] == pr.1);
                        assert(tk1.contains(pr.1));
                    }
                }
                assert(self.rel() =~= r0.union(pairs_of(user@, tk1)));
            }
            if f {
                proof {
                    // nobody watched it, so it was not seen earlier in this call
                    assert(!r_pre.contains((user@, pv)));
                    if tk0.contains(pv) {
                        assert(pairs_of(user@, tk0).contains((user@, pv)));
                        assert(false);
                    }
                    assert(!fresh.deep_view().contains(pv));
                    assert forall|u2: Seq<char>| !(#[trigger] r0.contains((u2, pv))) by {
                        assert(!r_pre.contains((u2, pv)));
                    }
                }
                fresh.push(new_topics[i].dup());
                proof {
                    assert(fresh.deep_view() =~= fdv0.push(pv));
                    assert forall|p: PatternView| #[trigger]
                        fresh.deep_view().contains(p) == (tk1.contains(p) && old(
                            self,
                        ).unsubscribed(p)) by {
                        if fresh.deep_view().contains(p) {
                            let j = choose|j: int|
                                0 <= j < fresh.deep_view().len() && fresh.deep_view()[j] == p;
                            if j < fdv0.len() {
                                assert(fdv0[j] == p);
                                assert(fdv0.contains(p));
                                let j3 = choose|j3: int| 0 <= j3 < tk0.len() && tk0[j3] == p;
                                assert(tk1[j3] == p);
                                assert(tk1.contains(p));
                            } else {
                                assert(p == pv);
                                assert(tk1[i as int] == p);
                                assert(tk1.contains(p));
                                assert(old(self).unsubscribed(p));
                            }
                        }
                        if tk1.contains(p) && old(self).unsubscribed(p) {
                            if p == pv {
                                assert(fresh.deep_view()[fdv0.len() as int] == p);
                                assert(fresh.deep_view().contains(p));
                            } else {
                                let j = choose|j: int|
                                    0 <= j < i + 1 && tk1[j] == p;
                                assert(j < i);
                                assert(tk0[j] == p);
                                assert(tk0.contains(p));
                                assert(fdv0.contains(p));
                                let j2 = choose|j2: int|
                                    0 <= j2 < fdv0.len() && fdv0[j2] == p;
                                assert(fresh.deep_view()[j2] == p);
                                assert(fresh.deep_view().contains(p));
                            }
                        }
                    }
                    assert forall|j1: int, j2: int|
                        0 <= j1 < j2 < fresh@.len() implies (#[trigger] fresh@[j1])@ != (
                    #[trigger] fresh@[j2])@ by {
                        if j2 == fresh@.len() - 1 {
                            assert(fdv0[j1] == fresh@[j1]@);
                            assert(fdv0.contains(fresh@[j1]@));
                        }
                    }
                }
            } else {
                proof {
                    let u2 = choose|u2: Seq<char>| r_pre.contains((u2, pv));
                    assert forall|p: PatternView| #[trigger]
                        fresh.deep_view().contains(p) == (tk1.contains(p) && old(
                            self,
                        ).unsubscribed(p)) by {
                        if tk1.contains(p) && old(self).unsubscribed(p) {
                            if p == pv {
                                // already watched: either from before this call, which
                                // the freshness test excludes, or from an earlier
                                // pattern in this very list
                                assert(r_pre.contains((u2, pv)));
                                if r0.contains((u2, pv)) {
                                    assert(false);
                                }
                                assert(pairs_of(user@, tk0).contains((u2, pv)));
                                assert(tk0.contains(p));
                            } else {
                                let j = choose|j: int|
                                    0 <= j < i + 1 && tk1[j] == p;
                                assert(j < i);
                                assert(tk0[j] == p);
                                assert(tk0.contains(p));
                            }
                            assert(fdv0.contains(p));
                            assert(fresh.deep_view() == fdv0);
                        }
                        if fresh.deep_view().contains(p) {
                            assert(fdv0.contains(p));
                            assert(tk0.contains(p));
                            let j = choose|j: int|
                                0 <= j < tk0.len() && tk0[j] == p;
                            assert(tk1[j] == p);
                            assert(tk1.contains(p));
                        }
                    }
                }
            }
            i = i + 1;
        }
        proof {
            assert(nv.take(n as int) =~= nv);
        }
        fresh
    }

    /// What the router does on a login control event: computes the
    /// user's patterns from their current group memberships and merges
    /// them into the tables.  The caller supplies the group ids from the
    /// membership collaborator and must take out broker subscriptions
    /// for the returned patterns.
    pub fn on_login(&mut self, user: &str, group_ids: &Vec<i32>) -> (fresh: Vec<Pattern>)
        requires
            old(self).wf(),
        ensures
            final(self).wf(),
            final(self).rel() == old(self).rel().union(
                pairs_of(user@, login_patterns(user@, group_ids@)),
            ),
            forall|p: PatternView|
                #[trigger] fresh.deep_view().contains(p) <==> (login_patterns(
                    user@,
                    group_ids@,
                ).contains(p) && old(self).unsubscribed(p)),
            forall|j1: int, j2: int|
                0 <= j1 < j2 < fresh@.len() ==> (#[trigger] fresh@[j1])@ != (
                #[trigger] fresh@[j2])@,
    {
        let n = group_ids.len();
        let mut pats: Vec<Pattern> = Vec::new();
        let mut i: usize = 0;
        while i < n
            invariant
                0 <= i <= n,
                n == group_ids@.len(),
                pats.deep_view() == group_ids@.take(i as int).map_values(
                    |g: i32| PatternView::Group { gid: g as int },
                ),
            decreases n - i,
        {
            let ghost dv0 = pats.deep_view();
            pats.push(Pattern::Group { gid: group_ids[i] });
            proof {
                assert(pats.deep_view() =~= dv0.push(
                    PatternView::Group { gid: group_ids@[i as int] as int },
                ));
                assert(pats.deep_view() =~= group_ids@.take(i + 1).map_values(
                    |g: i32| PatternView::Group { gid: g as int },
                ));
            }
            i = i + 1;
        }
        let ghost dv0 = pats.deep_view();
        pats.push(Pattern::User { uid: user.to_owned() });
        proof {
            assert(group_ids@.take(n as int) =~= group_ids@);
            assert(pats.deep_view() =~= dv0.push(PatternView::User { uid: user@ }));
            assert(pats.deep_view() =~= login_patterns(user@, group_ids@));
        }
        self.add_topics(user, &pats)
    }

    /// What the router does on a membership-change event: grows the live
    /// session's watch set by the single joined group, without a fresh
    /// login.  The caller must take out broker subscriptions for the
    /// returned patterns.
    pub fn on_membership_joined(&mut self, user: &str, gid: i32) -> (fresh: Vec<Pattern>)
        requires
            old(self).wf(),
        ensures
            final(self).wf(),
            final(self).rel() == old(self).rel().insert(
                (user@, PatternView::Group { gid: gid as int }),
            ),
            forall|p: PatternView|
                #[trigger] fresh.deep_view().contains(p) <==> (p == (PatternView::Group {
                    gid: gid as int,
                }) && old(self).unsubscribed(p)),
            forall|j1: int, j2: int|
                0 <= j1 < j2 < fresh@.len() ==> (#[trigger] fresh@[j1])@ != (
                #[trigger] fresh@[j2])@,
    {
        let mut pats: Vec<Pattern> = Vec::new();
        pats.push(Pattern::Group { gid });
        let ghost pv = PatternView::Group { gid: gid as int };
        proof {
            assert(pats.deep_view() =~= seq![pv]);
        }
        let fresh = self.add_topics(user, &pats);
        proof {
            assert forall|pr: (Seq<char>, PatternView)|
                old(self).rel().union(pairs_of(user@, pats.deep_view())).contains(pr) == old(
                    self,
                ).rel().insert((user@, pv)).contains(pr) by {
                if pats.deep_view().contains(pr.1) {
                    let j = choose|j: int|
                        0 <= j < pats.deep_view().len() && pats.deep_view()[j] == pr.1;
                    assert(pr.1 == pv);
                }
                if pr.1 == pv {
                    assert(pats.deep_view()[0] == pr.1);
                }
            }
            assert(self.rel() =~= old(self).rel().insert((user@, pv)));
            assert forall|p: PatternView| #[trigger]
                fresh.deep_view().contains(p) == (p == pv && old(self).unsubscribed(p)) by {
                if pats.deep_view().contains(p) {
                    let j = choose|j: int|
                        0 <= j < pats.deep_view().len() && pats.deep_view()[j] == p;
                    assert(p == pv);
                }
                if p == pv {
                    assert(pats.deep_view()[0] == p);
                }
            }
        }
        fresh
    }
}

/// A recipient list: the views of the users in a row, the author left
/// out.
spec fn drop_author(us: Seq<String>, a: Seq<char>) -> Seq<Seq<char>>
    decreases us.len(),
{
    if us.len() == 0 {
        Seq::empty()
    } else {
        let pre = drop_author(us.drop_last(), a);
        if us.last()@ == a {
            pre
        } else {
            pre.push(us.last()@)
        }
    }
}

/// What dropping the author from a duplicate-free row means: everyone
/// else, still duplicate-free.
proof fn lemma_drop_author(us: Seq<String>, a: Seq<char>)
    requires
        forall|j1: int, j2: int| 0 <= j1 < j2 < us.len() ==> (#[trigger] us[j1])@ != (
        #[trigger] us[j2])@,
    ensures
        forall|j1: int, j2: int|
            0 <= j1 < j2 < drop_author(us, a).len() ==> drop_author(us, a)[j1] != drop_author(
                us,
                a,
            )[j2],
        forall|u: Seq<char>|
            #[trigger] drop_author(us, a).contains(u) <==> (u != a && exists|j: int|
                0 <= j < us.len() && (#[trigger] us[j])@ == u),
    decreases us.len(),
{
    let r = drop_author(us, a);
    if us.len() == 0 {
        assert forall|u: Seq<char>| !(#[trigger] r.contains(u)) by {
            if r.contains(u) {
                let j = choose|j: int| 0 <= j < r.len() && r[j] == u;
            }
        }
    } else {
        let pre = us.drop_last();
        let v = us.last()@;
        assert(forall|j1: int, j2: int|
            0 <= j1 < j2 < pre.len() ==> (#[trigger] pre[j1])@ != (#[trigger] pre[j2])@);
        lemma_drop_author(pre, a);
        let rp = drop_author(pre, a);
        assert forall|u: Seq<char>| #[trigger]
            r.contains(u) == (u != a && exists|j: int|
                0 <= j < us.len() && (#[trigger] us[j])@ == u) by {
            if r.contains(u) {
                let j = choose|j: int| 0 <= j < r.len() && r[j] == u;
                if v == a || j < rp.len() {
                    assert(rp[j] == u);
                    assert(rp.contains(u));
                    let j2 = choose|j2: int| 0 <= j2 < pre.len() && (#[trigger] pre[j2])@ == u;
                    assert(us[j2]@ == u);
                } else {
                    assert(u == v);
                    assert(us[us.len() - 1]@ == u);
                }
            }
            if u != a && exists|j: int| 0 <= j < us.len() && (#[trigger] us[j])@ == u {
                let j = choose|j: int| 0 <= j < us.len() && (#[trigger] us[j])@ == u;
                if j < us.len() - 1 {
                    assert(pre[j]@ == u);
                    assert(rp.contains(u));
                    let j2 = choose|j2: int| 0 <= j2 < rp.len() && rp[j2] == u;
                    if v == a {
                        assert(r[j2] == u);
                    } else {
                        assert(r[j2] == u);
                    }
                } else {
                    assert(u == v);
                    assert(v != a);
                    assert(r[rp.len() as int] == u);
                }
            }
        }
        if v != a {
            assert forall|j1: int, j2: int|
                0 <= j1 < j2 < r.len() implies r[j1] != r[j2] by {
                if j2 == r.len() - 1 {
                    assert(rp[j1] == r[j1]);
                    assert(rp.contains(r[j1]));
                    let j3 = choose|j3: int| 0 <= j3 < pre.len() && (#[trigger] pre[j3])@ == r[j1];
                    assert(us[j3]@ == r[j1]);
                    assert(us[j3]@ != us[us.len() - 1]@);
                }
            }
        }
    }
}

impl Router {
    /// A pattern row holds exactly the subscribers of its pattern.
    proof fn lemma_row_subs(self, k: int)
        requires
            self.wf(),
            0 <= k < self.topic_to_users@.len(),
        ensures
            forall|u: Seq<char>|
                #[trigger] self.subs_of(self.topic_to_users@[k].pattern@).contains(u)
                    <==> exists|j: int|
                    0 <= j < self.topic_to_users@[k].users@.len() && (
                    #[trigger] self.topic_to_users@[k].users@[j])@ == u,
    {
        let tts = self.topic_to_users@;
        let p = tts[k].pattern@;
        assert forall|u: Seq<char>| #[trigger]
            self.subs_of(p).contains(u) == (exists|j: int|
                0 <= j < tts[k].users@.len() && (#[trigger] tts[k].users@[j])@ == u) by {
            if self.subs_of(p).contains(u) {
                assert(tt_rel_of(tts).contains((u, p)));
                let (k2, j) = choose|k2: int, j: int|
                    0 <= k2 < tts.len() && 0 <= j < tts[k2].users@.len() && (
                    #[trigger] tts[k2].users@[j])@ == u && tts[k2].pattern@ == p;
                assert(k2 == k);
            }
            if exists|j: int| 0 <= j < tts[k].users@.len() && (#[trigger] tts[k].users@[j])@ == u {
                let j = choose|j: int|
                    0 <= j < tts[k].users@.len() && (#[trigger] tts[k].users@[j])@ == u;
                assert(tt_rel_of(tts).contains((u, p)));
            }
        }
    }

    /// A pattern with no row has no subscribers.
    proof fn lemma_no_row_subs(self, p: PatternView)
        requires
            self.wf(),
            forall|k: int|
                0 <= k < self.topic_to_users@.len() ==> (
                #[trigger] self.topic_to_users@[k]).pattern@ != p,
        ensures
            forall|u: Seq<char>| !(#[trigger] self.subs_of(p).contains(u)),
    {
        let tts = self.topic_to_users@;
        assert forall|u: Seq<char>| !(#[trigger] self.subs_of(p).contains(u)) by {
            if self.subs_of(p).contains(u) {
                assert(tt_rel_of(tts).contains((u, p)));
                let (k2, j) = choose|k2: int, j: int|
                    0 <= k2 < tts.len() && 0 <= j < tts[k2].users@.len() && (
                    #[trigger] tts[k2].users@[j])@ == u && tts[k2].pattern@ == p;
            }
        }
    }

    /// Fans a published event out: every user subscribed to the
    /// instance's owning pattern receives it, except the event's author;
    /// users watching only other patterns receive nothing.  Each
    /// recipient appears once; the caller appends the event to each
    /// recipient's queue.
    pub fn route_event(&self, owner: &Pattern, author: &str) -> (recips: Vec<String>)
        requires
            self.wf(),
        ensures
            forall|j1: int, j2: int|
                0 <= j1 < j2 < recips@.len() ==> (#[trigger] recips@[j1])@ != (
                #[trigger] recips@[j2])@,
            forall|u: Seq<char>|
                #[trigger] recips.deep_view().contains(u) <==> (self.subs_of(owner@).contains(u)
                    && u != author@),
    {
        match self.find_topic_idx(owner) {
            None => {
                let recips: Vec<String> = Vec::new();
                proof {
                    self.lemma_no_row_subs(owner@);
                    assert forall|u: Seq<char>| !(#[trigger] recips.deep_view().contains(u)) by {
                        if recips.deep_view().contains(u) {
                            let j = choose|j: int|
                                0 <= j < recips.deep_view().len() && recips.deep_view()[j] == u;
                        }
                    }
                }
                recips
            },
            Some(k) => {
                let ghost us = self.topic_to_users@[k as int].users@;
                let n = self.topic_to_users[k].users.len();
                let mut recips: Vec<String> = Vec::new();
                let mut j: usize = 0;
                proof {
                    assert(us.take(0) =~= Seq::<String>::empty());
                    assert(recips.deep_view() =~= drop_author(us.take(0), author@));
                }
                while j < n
                    invariant
                        0 <= j <= n,
                        n == us.len(),
                        us == self.topic_to_users@[k as int].users@,
                        0 <= k < self.topic_to_users@.len(),
                        recips.deep_view() == drop_author(us.take(j as int), author@),
                    decreases n - j,
                {
                    let ghost dv0 = recips.deep_view();
                    proof {
                        assert(us.take(j + 1).drop_last() =~= us.take(j as int));
                        assert(us.take(j + 1).last() == us[j as int]);
                    }
                    if !crate::topic::str_eq(self.topic_to_users[k].users[j].as_str(), author) {
                        recips.push(self.topic_to_users[k].users[j].clone());
                        proof {
                            assert(recips.deep_view() =~= dv0.push(us[j as int]@));
                            assert(recips.deep_view() =~= drop_author(us.take(j + 1), author@));
                        }
                    } else {
                        proof {
                            assert(recips.deep_view() =~= drop_author(us.take(j + 1), author@));
                        }
                    }
                    j = j + 1;
                }
                proof {
                    assert(us.take(n as int) =~= us);
                    assert(forall|j1: int, j2: int|
                        0 <= j1 < j2 < us.len() ==> (#[trigger] us[j1])@ != (#[trigger] us[j2])@);
                    lemma_drop_author(us, author@);
                    self.lemma_row_subs(k as int);
                    assert forall|j1: int, j2: int|
                        0 <= j1 < j2 < recips@.len() implies (#[trigger] recips@[j1])@ != (
                    #[trigger] recips@[j2])@ by {
                        assert(recips.deep_view()[j1] == recips@[j1]@);
                        assert(recips.deep_view()[j2] == recips@[j2]@);
                    }
                }
                recips
            },
        }
    }
}

// ---- logout cleanup ----

/// The pairs that mention one user, on any pattern.
pub open spec fn user_pairs(u: Seq<char>) -> Set<(Seq<char>, PatternView)> {
    Set::new(|pr: (Seq<char>, PatternView)| pr.0 == u)
}

/// A pattern row reduced to what the contracts speak of: the pattern
/// and its subscribers' names.
spec fn users_views(us: Seq<String>) -> Seq<Seq<char>> {
    us.map_values(|s: String| s@)
}

/// The whole pattern table in that reduced form.
spec fn abs_rows(tts: Seq<TopicEntry>) -> Seq<(PatternView, Seq<Seq<char>>)> {
    tts.map_values(|e: TopicEntry| (e.pattern@, users_views(e.users@)))
}

/// The pairs a reduced table holds.
spec fn rel_abs(rs: Seq<(PatternView, Seq<Seq<char>>)>) -> Set<(Seq<char>, PatternView)> {
    Set::new(
        |pr: (Seq<char>, PatternView)|
            exists|k: int, j: int|
                0 <= k < rs.len() && 0 <= j < rs[k].1.len() && (#[trigger] rs[k].1[j]) == pr.0
                    && rs[k].0 == pr.1,
    )
}

/// The pairs one reduced row holds.
spec fn row_pairs(r: (PatternView, Seq<Seq<char>>)) -> Set<(Seq<char>, PatternView)> {
    Set::new(|pr: (Seq<char>, PatternView)| pr.1 == r.0 && r.1.contains(pr.0))
}

/// A subscriber list with one user taken out.
spec fn drop_user(vs: Seq<Seq<char>>, a: Seq<char>) -> Seq<Seq<char>>
    decreases vs.len(),
{
    if vs.len() == 0 {
        Seq::empty()
    } else {
        let pre = drop_user(vs.drop_last(), a);
        if vs.last() == a {
            pre
        } else {
            pre.push(vs.last())
        }
    }
}

/// What a logout leaves of the pattern table: every row with the user
/// taken out, rows thereby emptied removed entirely.
spec fn purge_abs(rs: Seq<(PatternView, Seq<Seq<char>>)>, u: Seq<char>) -> Seq<
    (PatternView, Seq<Seq<char>>),
>
    decreases rs.len(),
{
    if rs.len() == 0 {
        Seq::empty()
    } else {
        let pre = purge_abs(rs.drop_last(), u);
        let fu = drop_user(rs.last().1, u);
        if fu.len() == 0 {
            pre
        } else {
            pre.push((rs.last().0, fu))
        }
    }
}

/// The patterns a logout empties: their broker subscriptions can go.
spec fn emptied_abs(rs: Seq<(PatternView, Seq<Seq<char>>)>, u: Seq<char>) -> Seq<
    PatternView,
>
    decreases rs.len(),
{
    if rs.len() == 0 {
        Seq::empty()
    } else {
        let pre = emptied_abs(rs.drop_last(), u);
        let fu = drop_user(rs.last().1, u);
        if fu.len() == 0 {
            pre.push(rs.last().0)
        } else {
            pre
        }
    }
}

/// What taking one user out of a duplicate-free subscriber list means.
proof fn lemma_drop_user(vs: Seq<Seq<char>>, a: Seq<char>)
    requires
        forall|j1: int, j2: int| 0 <= j1 < j2 < vs.len() ==> vs[j1] != vs[j2],
    ensures
        forall|j1: int, j2: int|
            0 <= j1 < j2 < drop_user(vs, a).len() ==> drop_user(vs, a)[j1] != drop_user(vs, a)[j2],
        forall|v: Seq<char>|
            #[trigger] drop_user(vs, a).contains(v) <==> (v != a && vs.contains(v)),
        drop_user(vs, a).len() == 0 <==> (forall|j: int| 0 <= j < vs.len() ==> vs[j] == a),
    decreases vs.len(),
{
    let r = drop_user(vs, a);
    if vs.len() == 0 {
        assert forall|v: Seq<char>| !(#[trigger] r.contains(v)) by {
            if r.contains(v) {
                let j = choose|j: int| 0 <= j < r.len() && r[j] == v;
            }
        }
        assert forall|v: Seq<char>| !(#[trigger] vs.contains(v)) by {
            if vs.contains(v) {
                let j = choose|j: int| 0 <= j < vs.len() && vs[j] == v;
            }
        }
    } else {
        let pre = vs.drop_last();
        let v0 = vs.last();
        assert(forall|j1: int, j2: int| 0 <= j1 < j2 < pre.len() ==> pre[j1] != pre[j2]);
        lemma_drop_user(pre, a);
        let rp = drop_user(pre, a);
        assert forall|v: Seq<char>| #[trigger] r.contains(v) == (v != a && vs.contains(v)) by {
            if r.contains(v) {
                let j = choose|j: int| 0 <= j < r.len() && r[j] == v;
                if v0 == a || j < rp.len() {
                    assert(rp[j] == v);
                    assert(rp.contains(v));
                    let j2 = choose|j2: int| 0 <= j2 < pre.len() && pre[j2] == v;
                    assert(vs[j2] == v);
                    assert(vs.contains(v));
                } else {
                    assert(v == v0);
                    assert(vs[vs.len() - 1] == v);
                    assert(vs.contains(v));
                }
            }
            if v != a && vs.contains(v) {
                let j = choose|j: int| 0 <= j < vs.len() && vs[j] == v;
                if j < vs.len() - 1 {
                    assert(pre[j] == v);
                    assert(pre.contains(v));
                    assert(rp.contains(v));
                    let j2 = choose|j2: int| 0 <= j2 < rp.len() && rp[j2] == v;
                    assert(r[j2] == v);
                    assert(r.contains(v));
                } else {
                    assert(v == v0);
                    assert(r[rp.len() as int] == v);
                    assert(r.contains(v));
                }
            }
        }
        if v0 != a {
            assert forall|j1: int, j2: int|
                0 <= j1 < j2 < r.len() implies r[j1] != r[j2] by {
                if j2 == r.len() - 1 {
                    assert(rp[j1] == r[j1]);
                    assert(rp.contains(r[j1]));
                    let j3 = choose|j3: int| 0 <= j3 < pre.len() && pre[j3] == r[j1];
                    assert(vs[j3] == r[j1]);
                    assert(vs[j3] != vs[vs.len() - 1]);
                }
            }
            assert(r.len() > 0);
            assert(vs[vs.len() - 1] != a);
        } else {
            if r.len() == 0 {
                assert forall|j: int| 0 <= j < vs.len() implies vs[j] == a by {
                    if j < vs.len() - 1 {
                        assert(pre[j] == vs[j]);
                    }
                }
            }
            if forall|j: int| 0 <= j < vs.len() ==> vs[j] == a {
                assert(forall|j: int| 0 <= j < pre.len() ==> pre[j] == a);
            }
        }
    }
}

/// A non-empty reduced table holds its prefix's pairs plus its last
/// row's.
proof fn lemma_rel_abs_last(rs: Seq<(PatternView, Seq<Seq<char>>)>)
    requires
        rs.len() > 0,
    ensures
        rel_abs(rs) =~= rel_abs(rs.drop_last()).union(row_pairs(rs.last())),
{
    let pre = rs.drop_last();
    let e = rs.last();
    let n = rs.len() - 1;
    assert forall|pr: (Seq<char>, PatternView)|
        rel_abs(rs).contains(pr) == rel_abs(pre).union(row_pairs(e)).contains(pr) by {
        if rel_abs(rs).contains(pr) {
            let (k, j) = choose|k: int, j: int|
                0 <= k < rs.len() && 0 <= j < rs[k].1.len() && (#[trigger] rs[k].1[j]) == pr.0
                    && rs[k].0 == pr.1;
            if k < n {
                assert(pre[k] == rs[k]);
                assert((pre[k].1[j]) == pr.0 && pre[k].0 == pr.1);
            } else {
                assert(e.1[j] == pr.0);
                assert(e.1.contains(pr.0));
            }
        }
        if rel_abs(pre).contains(pr) {
            let (k, j) = choose|k: int, j: int|
                0 <= k < pre.len() && 0 <= j < pre[k].1.len() && (#[trigger] pre[k].1[j]) == pr.0
                    && pre[k].0 == pr.1;
            assert((rs[k].1[j]) == pr.0 && rs[k].0 == pr.1);
        }
        if row_pairs(e).contains(pr) {
            let j = choose|j: int| 0 <= j < e.1.len() && e.1[j] == pr.0;
            assert((rs[n].1[j]) == pr.0 && rs[n].0 == pr.1);
        }
    }
}

/// What the logout purge does to the pattern table: exactly the user's
/// pairs disappear, the table stays in shape, and the emptied list
/// names exactly the patterns the user alone was watching, each once.
proof fn lemma_purge_decomposition(rs: Seq<(PatternView, Seq<Seq<char>>)>, u: Seq<char>)
    requires
        forall|k1: int, k2: int| 0 <= k1 < k2 < rs.len() ==> rs[k1].0 != rs[k2].0,
        forall|k: int, j1: int, j2: int|
            0 <= k < rs.len() && 0 <= j1 < j2 < rs[k].1.len() ==> (#[trigger] rs[k].1[j1]) != (
            #[trigger] rs[k].1[j2]),
        forall|k: int| 0 <= k < rs.len() ==> (#[trigger] rs[k].1).len() > 0,
    ensures
        forall|k1: int, k2: int|
            0 <= k1 < k2 < purge_abs(rs, u).len() ==> purge_abs(rs, u)[k1].0 != purge_abs(
                rs,
                u,
            )[k2].0,
        forall|k: int, j1: int, j2: int|
            0 <= k < purge_abs(rs, u).len() && 0 <= j1 < j2 < purge_abs(rs, u)[k].1.len() ==> (
            #[trigger] purge_abs(rs, u)[k].1[j1]) != (#[trigger] purge_abs(rs, u)[k].1[j2]),
        forall|k: int| 0 <= k < purge_abs(rs, u).len() ==> (#[trigger] purge_abs(rs, u)[k].1).len()
            > 0,
        forall|k: int|
            0 <= k < purge_abs(rs, u).len() ==> (exists|k2: int|
                0 <= k2 < rs.len() && (#[trigger] rs[k2]).0 == (#[trigger] purge_abs(rs, u)[k]).0),
        rel_abs(purge_abs(rs, u)) =~= rel_abs(rs).difference(user_pairs(u)),
        forall|j1: int, j2: int|
            0 <= j1 < j2 < emptied_abs(rs, u).len() ==> emptied_abs(rs, u)[j1] != emptied_abs(
                rs,
                u,
            )[j2],
        forall|p: PatternView|
            #[trigger] emptied_abs(rs, u).contains(p) <==> (rel_abs(rs).contains((u, p)) && (
            forall|u2: Seq<char>| u2 != u ==> !rel_abs(rs).contains((u2, p)))),
    decreases rs.len(),
{
    let pu = purge_abs(rs, u);
    let em = emptied_abs(rs, u);
    if rs.len() == 0 {
        assert forall|pr: (Seq<char>, PatternView)| !(#[trigger] rel_abs(rs).contains(pr)) by {
            if rel_abs(rs).contains(pr) {
                let (k, j) = choose|k: int, j: int|
                    0 <= k < rs.len() && 0 <= j < rs[k].1.len() && (#[trigger] rs[k].1[j]) == pr.0
                        && rs[k].0 == pr.1;
            }
        }
        assert(rel_abs(pu) =~= rel_abs(rs).difference(user_pairs(u)));
        assert forall|p: PatternView| !(#[trigger] em.contains(p)) by {
            if em.contains(p) {
                let j = choose|j: int| 0 <= j < em.len() && em[j] == p;
            }
        }
    } else {
        let pre = rs.drop_last();
        let e = rs.last();
        let n = rs.len() - 1;
        assert(forall|k1: int, k2: int| 0 <= k1 < k2 < pre.len() ==> pre[k1].0 != pre[k2].0);
        assert(forall|k: int, j1: int, j2: int|
            0 <= k < pre.len() && 0 <= j1 < j2 < pre[k].1.len() ==> (#[trigger] pre[k].1[j1]) != (
            #[trigger] pre[k].1[j2]));
        assert(forall|k: int| 0 <= k < pre.len() ==> (#[trigger] pre[k].1).len() > 0);
        lemma_purge_decomposition(pre, u);
        lemma_rel_abs_last(rs);
        assert(forall|j1: int, j2: int|
            0 <= j1 < j2 < e.1.len() ==> (#[trigger] rs[n].1[j1]) != (#[trigger] rs[n].1[j2]));
        assert(forall|j1: int, j2: int| 0 <= j1 < j2 < e.1.len() ==> e.1[j1] != e.1[j2]);
        lemma_drop_user(e.1, u);
        let fu = drop_user(e.1, u);
        let pp = purge_abs(pre, u);
        let ep = emptied_abs(pre, u);
        // patterns of the prefix never collide with the last row's
        assert forall|k: int| 0 <= k < pp.len() implies (#[trigger] pp[k]).0 != e.0 by {
            let k2 = choose|k2: int| 0 <= k2 < pre.len() && (#[trigger] pre[k2]).0 == pp[k].0;
            assert(rs[k2].0 == pp[k].0);
        }
        if fu.len() == 0 {
            // the row dies: all its subscribers were the user
            assert(rs[n].1.len() > 0);
            assert(e.1[0] == u);
            assert(e.1.contains(u));
            assert(rel_abs(rs).contains((u, e.0))) by {
                assert((rs[n].1[0]) == u && rs[n].0 == e.0);
            }
            assert(rel_abs(pu) =~= rel_abs(rs).difference(user_pairs(u))) by {
                assert forall|pr: (Seq<char>, PatternView)|
                    rel_abs(pp).contains(pr) == rel_abs(rs).difference(user_pairs(u)).contains(
                        pr,
                    ) by {
                    if row_pairs(e).contains(pr) {
                        assert(e.1.contains(pr.0));
                        let j = choose|j: int| 0 <= j < e.1.len() && e.1[j] == pr.0;
                        assert(pr.0 == u);
                    }
                }
            }
            assert(em =~= ep.push(e.0));
            assert forall|p: PatternView| #[trigger]
                em.contains(p) == (rel_abs(rs).contains((u, p)) && (forall|u2: Seq<char>|
                    u2 != u ==> !rel_abs(rs).contains((u2, p)))) by {
                if p == e.0 {
                    assert(em[ep.len() as int] == p);
                    assert(em.contains(p));
                    assert forall|u2: Seq<char>| u2 != u implies !rel_abs(rs).contains(
                        (u2, p),
                    ) by {
                        if rel_abs(rs).contains((u2, p)) {
                            let (k, j) = choose|k: int, j: int|
                                0 <= k < rs.len() && 0 <= j < rs[k].1.len() && (
                                #[trigger] rs[k].1[j]) == u2 && rs[k].0 == p;
                            assert(k == n);
                            assert(e.1[j] == u2);
                        }
                    }
                } else {
                    assert(em.contains(p) == ep.contains(p)) by {
                        if em.contains(p) {
                            let j = choose|j: int| 0 <= j < em.len() && em[j] == p;
                            assert(j < ep.len());
                            assert(ep[j] == p);
                        }
                        if ep.contains(p) {
                            let j = choose|j: int| 0 <= j < ep.len() && ep[j] == p;
                            assert(em[j] == p);
                        }
                    }
                    assert(rel_abs(rs).contains((u, p)) == rel_abs(pre).contains((u, p))) by {
                        if row_pairs(e).contains((u, p)) {
                            assert(false);
                        }
                    }
                    assert forall|u2: Seq<char>|
                        rel_abs(rs).contains((u2, p)) == rel_abs(pre).contains((u2, p)) by {
                        if row_pairs(e).contains((u2, p)) {
                            assert(false);
                        }
                    }
                }
            }
            assert forall|j1: int, j2: int|
                0 <= j1 < j2 < em.len() implies em[j1] != em[j2] by {
                if j2 == em.len() - 1 {
                    assert(ep[j1] == em[j1]);
                    assert(ep.contains(em[j1]));
                    assert(rel_abs(pre).contains((u, em[j1])));
                    let (k, j) = choose|k: int, j: int|
                        0 <= k < pre.len() && 0 <= j < pre[k].1.len() && (#[trigger] pre[k].1[j])
                            == u && pre[k].0 == em[j1];
                    assert(rs[k].0 == em[j1]);
                    assert(rs[k].0 != e.0);
                }
            }
        } else {
            // the row survives with the user taken out
            assert(pu =~= pp.push((e.0, fu)));
            assert(em =~= ep);
            assert forall|k1: int, k2: int|
                0 <= k1 < k2 < pu.len() implies pu[k1].0 != pu[k2].0 by {
                if k2 == pu.len() - 1 {
                    assert(pp[k1] == pu[k1]);
                    assert(pp[k1].0 != e.0);
                }
            }
            assert forall|k: int, j1: int, j2: int|
                0 <= k < pu.len() && 0 <= j1 < j2 < pu[k].1.len() implies (
            #[trigger] pu[k].1[j1]) != (#[trigger] pu[k].1[j2]) by {
                if k < pu.len() - 1 {
                    assert(pp[k] == pu[k]);
                    assert((pp[k].1[j1]) != (pp[k].1[j2]));
                } else {
                    assert(pu[k].1 == fu);
                    assert(fu[j1] != fu[j2]);
                }
            }
            assert(rel_abs(pu) =~= rel_abs(rs).difference(user_pairs(u))) by {
                lemma_rel_abs_last(pu);
                assert(pu.drop_last() =~= pp);
                assert(pu.last() == (e.0, fu));
                assert forall|pr: (Seq<char>, PatternView)|
                    rel_abs(pp).union(row_pairs((e.0, fu))).contains(pr) == rel_abs(
                        rs,
                    ).difference(user_pairs(u)).contains(pr) by {
                    if row_pairs((e.0, fu)).contains(pr) {
                        assert(fu.contains(pr.0));
                        assert(pr.0 != u && e.1.contains(pr.0));
                        assert(row_pairs(e).contains(pr));
                    }
                    if row_pairs(e).contains(pr) && pr.0 != u {
                        assert(fu.contains(pr.0));
                        assert(row_pairs((e.0, fu)).contains(pr));
                    }
                }
            }
            assert(fu[0] == fu[0]);
            assert(fu.contains(fu[0]));
            assert(fu[0] != u && e.1.contains(fu[0]));
            assert forall|p: PatternView| #[trigger]
                em.contains(p) == (rel_abs(rs).contains((u, p)) && (forall|u2: Seq<char>|
                    u2 != u ==> !rel_abs(rs).contains((u2, p)))) by {
                if p == e.0 {
                    // a surviving subscriber witnesses that the row is not emptied
                    assert(rel_abs(rs).contains((fu[0], p))) by {
                        let j = choose|j: int| 0 <= j < e.1.len() && e.1[j] == fu[0];
                        assert((rs[n].1[j]) == fu[0] && rs[n].0 == p);
                    }
                    if em.contains(p) {
                        assert(ep.contains(p));
                        assert(rel_abs(pre).contains((u, p)));
                        let (k, j) = choose|k: int, j: int|
                            0 <= k < pre.len() && 0 <= j < pre[k].1.len() && (
                            #[trigger] pre[k].1[j]) == u && pre[k].0 == p;
                        assert(rs[k].0 == p && rs[k].0 != e.0);
                        assert(false);
                    }
                } else {
                    assert(rel_abs(rs).contains((u, p)) == rel_abs(pre).contains((u, p))) by {
                        if row_pairs(e).contains((u, p)) {
                            assert(false);
                        }
                    }
                    assert forall|u2: Seq<char>|
                        rel_abs(rs).contains((u2, p)) == rel_abs(pre).contains((u2, p)) by {
                        if row_pairs(e).contains((u2, p)) {
                            assert(false);
                        }
                    }
                }
            }
        }
    }
}

/// Removing a user's own row removes exactly their pairs from the
/// user-to-patterns table.
proof fn lemma_ut_rel_remove_row(uts: Seq<UserEntry>, k: int)
    requires
        0 <= k < uts.len(),
        forall|k1: int, k2: int| 0 <= k1 < k2 < uts.len() ==> uts[k1].user@ != uts[k2].user@,
    ensures
        ut_rel_of(uts.remove(k)) =~= ut_rel_of(uts).difference(user_pairs(uts[k].user@)),
{
    let new = uts.remove(k);
    let u = uts[k].user@;
    assert forall|pr: (Seq<char>, PatternView)|
        ut_rel_of(new).contains(pr) == ut_rel_of(uts).difference(user_pairs(u)).contains(pr) by {
        if ut_rel_of(new).contains(pr) {
            let (k2, j) = choose|k2: int, j: int|
                0 <= k2 < new.len() && 0 <= j < new[k2].topics@.len() && (
                #[trigger] new[k2].topics@[j])@ == pr.1 && new[k2].user@ == pr.0;
            if k2 < k {
                assert(new[k2] == uts[k2]);
                assert((uts[k2].topics@[j])@ == pr.1 && uts[k2].user@ == pr.0);
                assert(pr.0 != u);
            } else {
                assert(new[k2] == uts[k2 + 1]);
                assert((uts[k2 + 1].topics@[j])@ == pr.1 && uts[k2 + 1].user@ == pr.0);
                assert(pr.0 != u);
            }
        }
        if ut_rel_of(uts).contains(pr) && pr.0 != u {
            let (k2, j) = choose|k2: int, j: int|
                0 <= k2 < uts.len() && 0 <= j < uts[k2].topics@.len() && (
                #[trigger] uts[k2].topics@[j])@ == pr.1 && uts[k2].user@ == pr.0;
            assert(k2 != k);
            if k2 < k {
                assert(new[k2] == uts[k2]);
                assert((new[k2].topics@[j])@ == pr.1 && new[k2].user@ == pr.0);
            } else {
                assert(new[k2 - 1] == uts[k2]);
                assert((new[k2 - 1].topics@[j])@ == pr.1 && new[k2 - 1].user@ == pr.0);
            }
        }
    }
}

/// The pattern table and its reduced form hold the same pairs.
proof fn lemma_tt_rel_abs(tts: Seq<TopicEntry>)
    ensures
        tt_rel_of(tts) =~= rel_abs(abs_rows(tts)),
{
    let rs = abs_rows(tts);
    assert(rs.len() == tts.len());
    assert forall|pr: (Seq<char>, PatternView)|
        tt_rel_of(tts).contains(pr) == rel_abs(rs).contains(pr) by {
        if tt_rel_of(tts).contains(pr) {
            let (k, j) = choose|k: int, j: int|
                0 <= k < tts.len() && 0 <= j < tts[k].users@.len() && (#[trigger] tts[k].users@[j])@
                    == pr.0 && tts[k].pattern@ == pr.1;
            assert(rs[k].0 == tts[k].pattern@ && rs[k].1 == users_views(tts[k].users@));
            assert((rs[k].1[j]) == pr.0 && rs[k].0 == pr.1);
        }
        if rel_abs(rs).contains(pr) {
            let (k, j) = choose|k: int, j: int|
                0 <= k < rs.len() && 0 <= j < rs[k].1.len() && (#[trigger] rs[k].1[j]) == pr.0
                    && rs[k].0 == pr.1;
            assert(rs[k].0 == tts[k].pattern@ && rs[k].1 == users_views(tts[k].users@));
            assert((tts[k].users@[j])@ == pr.0 && tts[k].pattern@ == pr.1);
        }
    }
}

impl Router {
    /// What the router does on a logout control event: removes every
    /// subscription of the user, in both directions, leaking no table
    /// row.  The result lists the patterns that thereby lost their last
    /// subscriber, each once: the caller must release the broker
    /// subscription for exactly those.
    pub fn on_logout(&mut self, user: &str) -> (emptied: Vec<Pattern>)
        requires
            old(self).wf(),
        ensures
            final(self).wf(),
            final(self).rel() == old(self).rel().difference(user_pairs(user@)),
            forall|j1: int, j2: int|
                0 <= j1 < j2 < emptied@.len() ==> (#[trigger] emptied@[j1])@ != (
                #[trigger] emptied@[j2])@,
            forall|p: PatternView|
                #[trigger] emptied.deep_view().contains(p) <==> (old(self).rel().contains(
                    (user@, p),
                ) && (forall|u2: Seq<char>| u2 != user@ ==> !old(self).rel().contains((u2, p)))),
    {
        let ghost ut0 = self.user_to_topics@;
        let ghost tt0 = self.topic_to_users@;
        let ghost r0 = old(self).rel();
        let ghost rs0 = abs_rows(tt0);
        match self.find_user_idx(user) {
            Some(k) => {
                let _removed = self.user_to_topics.remove(k);
                proof {
                    lemma_ut_rel_remove_row(ut0, k as int);
                    assert(ut0[k as int].user@ == user@);
                    assert(ut_rel_of(self.user_to_topics@) =~= r0.difference(user_pairs(user@)));
                    assert forall|k1: int, k2: int|
                        0 <= k1 < k2 < self.user_to_topics@.len() implies self.user_to_topics@[k1].user@
                        != self.user_to_topics@[k2].user@ by {
                        let a1: int = if k1 < k { k1 } else { k1 + 1 };
                        let a2: int = if k2 < k { k2 } else { k2 + 1 };
                        assert(self.user_to_topics@[k1] == ut0[a1]);
                        assert(self.user_to_topics@[k2] == ut0[a2]);
                    }
                    assert forall|k1: int, j1: int, j2: int|
                        0 <= k1 < self.user_to_topics@.len() && 0 <= j1 < j2
                            < self.user_to_topics@[k1].topics@.len() implies (
                    #[trigger] self.user_to_topics@[k1].topics@[j1])@ != (
                    #[trigger] self.user_to_topics@[k1].topics@[j2])@ by {
                        let a1: int = if k1 < k { k1 } else { k1 + 1 };
                        assert(self.user_to_topics@[k1] == ut0[a1]);
                        assert((ut0[a1].topics@[j1])@ != (ut0[a1].topics@[j2])@);
                    }
                }
            },
            None => {
                proof {
                    assert forall|pr: (Seq<char>, PatternView)|
                        #[trigger] r0.contains(pr) implies pr.0 != user@ by {
                        let (k2, j) = choose|k2: int, j: int|
                            0 <= k2 < ut0.len() && 0 <= j < ut0[k2].topics@.len() && (
                            #[trigger] ut0[k2].topics@[j])@ == pr.1 && ut0[k2].user@ == pr.0;
                    }
                    assert(ut_rel_of(self.user_to_topics@) =~= r0.difference(user_pairs(user@)));
                }
            },
        }
        let n = self.topic_to_users.len();
        let mut new_tt: Vec<TopicEntry> = Vec::new();
        let mut emptied: Vec<Pattern> = Vec::new();
        let mut i: usize = 0;
        proof {
            assert(rs0.take(0) =~= Seq::<(PatternView, Seq<Seq<char>>)>::empty());
            assert(abs_rows(new_tt@) =~= purge_abs(rs0.take(0), user@));
            assert(emptied.deep_view() =~= emptied_abs(rs0.take(0), user@));
        }
        while i < n
            invariant
                0 <= i <= n,
                n == self.topic_to_users@.len(),
                self.topic_to_users@ == tt0,
                rs0 == abs_rows(tt0),
                abs_rows(new_tt@) == purge_abs(rs0.take(i as int), user@),
                emptied.deep_view() == emptied_abs(rs0.take(i as int), user@),
            decreases n - i,
        {
            let ghost row_vs = users_views(tt0[i as int].users@);
            let m = self.topic_to_users[i].users.len();
            let mut kept: Vec<String> = Vec::new();
            let mut j: usize = 0;
            proof {
                assert(row_vs.take(0) =~= Seq::<Seq<char>>::empty());
                assert(kept.deep_view() =~= drop_user(row_vs.take(0), user@));
            }
            while j < m
                invariant
                    0 <= j <= m,
                    0 <= i < n,
                    n == self.topic_to_users@.len(),
                    self.topic_to_users@ == tt0,
                    m == tt0[i as int].users@.len(),
                    row_vs == users_views(tt0[i as int].users@),
                    kept.deep_view() == drop_user(row_vs.take(j as int), user@),
                decreases m - j,
            {
                let ghost kdv = kept.deep_view();
                proof {
                    assert(row_vs.take(j + 1).drop_last() =~= row_vs.take(j as int));
                    assert(row_vs.take(j + 1).last() == row_vs[j as int]);
                    assert(row_vs[j as int] == tt0[i as int].users@[j as int]@);
                }
                if !crate::topic::str_eq(self.topic_to_users[i].users[j].as_str(), user) {
                    kept.push(self.topic_to_users[i].users[j].clone());
                    proof {
                        assert(kept.deep_view() =~= kdv.push(row_vs[j as int]));
                        assert(kept.deep_view() =~= drop_user(row_vs.take(j + 1), user@));
                    }
                } else {
                    proof {
                        assert(kept.deep_view() =~= drop_user(row_vs.take(j + 1), user@));
                    }
                }
                j = j + 1;
            }
            proof {
                assert(row_vs.take(m as int) =~= row_vs);
            }
            let ghost ndv = abs_rows(new_tt@);
            let ghost edv = emptied.deep_view();
            proof {
                assert(rs0.take(i + 1).drop_last() =~= rs0.take(i as int));
                assert(rs0.take(i + 1).last() == rs0[i as int]);
                assert(rs0[i as int] == (tt0[i as int].pattern@, row_vs));
            }
            if kept.len() == 0 {
                proof {
                    assert(kept.deep_view().len() == 0);
                    assert(drop_user(row_vs, user@).len() == 0);
                }
                emptied.push(self.topic_to_users[i].pattern.dup());
                proof {
                    assert(emptied.deep_view() =~= edv.push(tt0[i as int].pattern@));
                    assert(emptied.deep_view() =~= emptied_abs(rs0.take(i + 1), user@));
                    assert(abs_rows(new_tt@) =~= purge_abs(rs0.take(i + 1), user@));
                }
            } else {
                let pat = self.topic_to_users[i].pattern.dup();
                let ghost kept_dv = kept.deep_view();
                new_tt.push(TopicEntry { pattern: pat, users: kept });
                proof {
                    assert(kept_dv.len() > 0);
                    assert(users_views(new_tt@.last().users@) =~= kept_dv);
                    assert(abs_rows(new_tt@) =~~= ndv.push(
                        (tt0[i as int].pattern@, drop_user(row_vs, user@)),
                    ));
                    assert(abs_rows(new_tt@) =~~= purge_abs(rs0.take(i + 1), user@));
                    assert(emptied.deep_view() =~= emptied_abs(rs0.take(i + 1), user@));
                }
            }
            i = i + 1;
        }
        proof {
            assert(rs0.take(n as int) =~= rs0);
        }
        self.topic_to_users = new_tt;
        proof {
            assert forall|k1: int, k2: int| 0 <= k1 < k2 < rs0.len() implies rs0[k1].0
                != rs0[k2].0 by {
                assert(rs0[k1].0 == tt0[k1].pattern@);
                assert(rs0[k2].0 == tt0[k2].pattern@);
            }
            assert forall|k1: int, j1: int, j2: int|
                0 <= k1 < rs0.len() && 0 <= j1 < j2 < rs0[k1].1.len() implies (
            #[trigger] rs0[k1].1[j1]) != (#[trigger] rs0[k1].1[j2]) by {
                assert(rs0[k1].1 == users_views(tt0[k1].users@));
                assert(rs0[k1].1[j1] == tt0[k1].users@[j1]@);
                assert(rs0[k1].1[j2] == tt0[k1].users@[j2]@);
                assert((tt0[k1].users@[j1])@ != (tt0[k1].users@[j2])@);
            }
            assert forall|k1: int| 0 <= k1 < rs0.len() implies (#[trigger] rs0[k1].1).len()
                > 0 by {
                assert(rs0[k1].1 == users_views(tt0[k1].users@));
                assert((tt0[k1].users@).len() > 0);
            }
            lemma_purge_decomposition(rs0, user@);
            lemma_tt_rel_abs(tt0);
            lemma_tt_rel_abs(self.topic_to_users@);
            assert(tt_rel_of(tt0) =~= r0);
            let pu = purge_abs(rs0, user@);
            let nrs = abs_rows(self.topic_to_users@);
            assert(nrs == pu);
            // the new table is in shape, conjunct by conjunct
            assert forall|k1: int, k2: int|
                0 <= k1 < k2 < self.topic_to_users@.len() implies self.topic_to_users@[k1].pattern@
                != self.topic_to_users@[k2].pattern@ by {
                assert(nrs[k1].0 == self.topic_to_users@[k1].pattern@);
                assert(nrs[k2].0 == self.topic_to_users@[k2].pattern@);
            }
            assert forall|k1: int, j1: int, j2: int|
                0 <= k1 < self.topic_to_users@.len() && 0 <= j1 < j2
                    < self.topic_to_users@[k1].users@.len() implies (
            #[trigger] self.topic_to_users@[k1].users@[j1])@ != (
            #[trigger] self.topic_to_users@[k1].users@[j2])@ by {
                assert(nrs[k1].1 == users_views(self.topic_to_users@[k1].users@));
                assert(nrs[k1].1.len() == self.topic_to_users@[k1].users@.len());
                assert(nrs[k1].1[j1] == self.topic_to_users@[k1].users@[j1]@);
                assert(nrs[k1].1[j2] == self.topic_to_users@[k1].users@[j2]@);
                assert(nrs[k1].1[j1] != nrs[k1].1[j2]);
            }
            assert forall|k1: int|
                0 <= k1 < self.topic_to_users@.len() implies (
            #[trigger] self.topic_to_users@[k1].users@).len() > 0 by {
                assert(nrs[k1].1 == users_views(self.topic_to_users@[k1].users@));
                assert(nrs[k1].1.len() > 0);
            }
            assert(tt_rel_of(self.topic_to_users@) =~= r0.difference(user_pairs(user@)));
            assert(ut_rel_of(self.user_to_topics@) =~= r0.difference(user_pairs(user@)));
            assert forall|j1: int, j2: int|
                0 <= j1 < j2 < emptied@.len() implies (#[trigger] emptied@[j1])@ != (
            #[trigger] emptied@[j2])@ by {
                assert(emptied.deep_view()[j1] == emptied@[j1]@);
                assert(emptied.deep_view()[j2] == emptied@[j2]@);
                assert(emptied_abs(rs0, user@)[j1] != emptied_abs(rs0, user@)[j2]);
            }
            assert forall|p: PatternView|
                #[trigger] emptied.deep_view().contains(p) == (r0.contains((user@, p)) && (
                forall|u2: Seq<char>| u2 != user@ ==> !r0.contains((u2, p)))) by {
                assert(emptied.deep_view() == emptied_abs(rs0, user@));
                assert(emptied_abs(rs0, user@).contains(p) == (rel_abs(rs0).contains((user@, p))
                    && (forall|u2: Seq<char>| u2 != user@ ==> !rel_abs(rs0).contains((u2, p)))));
                assert(rel_abs(rs0) =~= r0);
            }
        }
        emptied
    }
}

/// The kind of message a router sees on its control subscription.
pub enum ChannelKind {
    ActivityLogin,
    ActivityLogout,
    Published,
}

/// How the router reads a channel name: the two control channels are
/// recognized exactly; everything else is a published topic instance.
pub open spec fn spec_classify(s: Seq<char>) -> ChannelKind {
    if s == "activity.login"@ {
        ChannelKind::ActivityLogin
    } else if s == "activity.logout"@ {
        ChannelKind::ActivityLogout
    } else {
        ChannelKind::Published
    }
}

/// Classifies a channel name the router's event loop received.
pub fn classify_channel(channel: &str) -> (r: ChannelKind)
    ensures
        r == spec_classify(channel@),
{
    if crate::topic::str_eq(channel, "activity.login") {
        ChannelKind::ActivityLogin
    } else if crate::topic::str_eq(channel, "activity.logout") {
        ChannelKind::ActivityLogout
    } else {
        ChannelKind::Published
    }
}

/// The two subscription tables agree after every operation: a user sits
/// in a pattern's subscriber set exactly when the pattern sits in the
/// user's watch set.
pub proof fn lemma_tables_consistent(r: Router)
    requires
        r.wf(),
    ensures
        forall|u: Seq<char>, p: PatternView|
            #[trigger] r.subs_of(p).contains(u) <==> #[trigger] r.topics_of(u).contains(p),
{
}

/// A user who does not watch a pattern — one subscribed only to other
/// groups, say — is not among that pattern's subscribers, so
/// [`Router::route_event`] never delivers to them.
pub proof fn lemma_unrelated_subscriber_excluded(r: Router, u: Seq<char>, p: PatternView)
    requires
        r.wf(),
        !r.topics_of(u).contains(p),
    ensures
        !r.subs_of(p).contains(u),
{
}

/// Whether some element of the vector reads as the given string.
fn vec_contains_str(v: &Vec<String>, s: &str) -> (r: bool)
    ensures
        r == exists|j: int| 0 <= j < v@.len() && (#[trigger] v@[j])@ == s@,
{
    let n = v.len();
    let mut i: usize = 0;
    while i < n
        invariant
            0 <= i <= n,
            n == v@.len(),
            forall|j: int| 0 <= j < i ==> (#[trigger] v@[j])@ != s@,
        decreases n - i,
    {
        if crate::topic::str_eq(v[i].as_str(), s) {
            return true;
        }
        i = i + 1;
    }
    false
}

/// Whether some element of the vector is the given pattern.
fn vec_contains_pattern(v: &Vec<Pattern>, p: &Pattern) -> (r: bool)
    ensures
        r == exists|j: int| 0 <= j < v@.len() && (#[trigger] v@[j])@ == p@,
{
    let n = v.len();
    let mut i: usize = 0;
    while i < n
        invariant
            0 <= i <= n,
            n == v@.len(),
            forall|j: int| 0 <= j < i ==> (#[trigger] v@[j])@ != p@,
        decreases n - i,
    {
        if crate::topic::pattern_eq(&v[i], p) {
            return true;
        }
        i = i + 1;
    }
    false
}

} // verus!
