//! The session pool as a mathematical object: what is resident, in which
//! order of use, and how one operation changes that.

use vstd::prelude::*;

verus! {

/// A user name as the pool sees it.
pub type Username = Seq<char>;

/// The state of a pool of sessions of type `S`.
pub struct PoolState<S> {
    /// The largest number of sessions that may be resident.
    pub capacity: nat,
    /// The resident sessions with their users, most recently used first.
    pub entries: Seq<(Username, S)>,
}

impl<S> PoolState<S> {
    /// The pool of the given capacity with nothing resident.
    pub open spec fn empty(capacity: nat) -> Self {
        PoolState { capacity, entries: Seq::empty() }
    }

    /// The resident users, most recently used first.
    pub open spec fn recency(self) -> Seq<Username> {
        self.entries.map_values(|e: (Username, S)| e.0)
    }

    /// The number of resident sessions.
    pub open spec fn size(self) -> nat {
        self.entries.len()
    }

    /// `user` has a session in the pool.
    pub open spec fn resident(self, user: Username) -> bool {
        exists|i: int| 0 <= i < self.entries.len() && (#[trigger] self.entries[i]).0 == user
    }

    /// The place of `user` in the order of use, 0 for the most recent.
    pub open spec fn position(self, user: Username) -> int {
        choose|i: int| 0 <= i < self.entries.len() && (#[trigger] self.entries[i]).0 == user
    }

    /// The session of `user`.
    pub open spec fn session(self, user: Username) -> S {
        self.entries[self.position(user)].1
    }

    /// The resident sessions by user.
    pub open spec fn cache(self) -> Map<Username, S> {
        Map::new(|user: Username| self.resident(user), |user: Username| self.session(user))
    }

    /// The capacity is at least 1, no more sessions are resident than the
    /// capacity allows, and no user has two.
    pub open spec fn wf(self) -> bool {
        &&& self.capacity >= 1
        &&& self.entries.len() <= self.capacity
        &&& forall|i: int, j: int|
            0 <= i < self.entries.len() && 0 <= j < self.entries.len() && i != j ==> (
            #[trigger] self.entries[i]).0 != (#[trigger] self.entries[j]).0
    }

    /// No further session fits without another leaving.
    pub open spec fn is_full(self) -> bool {
        self.entries.len() >= self.capacity
    }

    /// The user whose session was used least recently.
    pub open spec fn lru(self) -> Username {
        self.entries.last().0
    }

    /// The state after `user`, who is resident, was used: `user` is the most
    /// recent, the others keep their order.
    pub open spec fn promote(self, user: Username) -> Self {
        let p = self.position(user);
        PoolState { capacity: self.capacity, entries: seq![self.entries[p]] + self.entries.remove(p) }
    }

    /// The state after the session of `user`, who is resident, left.
    pub open spec fn remove(self, user: Username) -> Self {
        PoolState { capacity: self.capacity, entries: self.entries.remove(self.position(user)) }
    }

    /// The state after a new session entered: it is the most recent, and if
    /// the pool was full the least recently used session has left.
    pub open spec fn insert(self, user: Username, session: S) -> Self {
        let kept = if self.is_full() {
            self.entries.drop_last()
        } else {
            self.entries
        };
        PoolState { capacity: self.capacity, entries: seq![(user, session)] + kept }
    }

    /// The state after a successful request for the session of `user`, where
    /// `session` is what was loaded in case `user` was not resident.
    pub open spec fn get(self, user: Username, session: S) -> Self {
        if self.resident(user) {
            self.promote(user)
        } else {
            self.insert(user, session)
        }
    }

    /// The state after successful requests for the users of `users` in turn,
    /// with `sessions` what was loaded for each.
    pub open spec fn after_gets(self, users: Seq<Username>, sessions: Seq<S>) -> Self
        decreases users.len(),
    {
        if users.len() == 0 {
            self
        } else {
            self.after_gets(users.drop_last(), sessions.drop_last()).get(
                users.last(),
                sessions.last(),
            )
        }
    }

    /// In a well-formed pool the position of a resident user is the one place
    /// where the user stands.
    pub proof fn lemma_position(self, user: Username, i: int)
        requires
            self.wf(),
            0 <= i < self.entries.len(),
            self.entries[i].0 == user,
        ensures
            self.resident(user),
            self.position(user) == i,
    {
    }

    /// The sessions by user are as many as the users in the order of use, and
    /// the users of both are the same.
    pub proof fn lemma_cache_matches_recency(self)
        requires
            self.wf(),
        ensures
            self.recency().no_duplicates(),
            self.recency().len() == self.size(),
            self.cache().dom() == self.recency().to_set(),
            self.cache().dom().finite(),
            self.cache().dom().len() == self.recency().len(),
            self.size() <= self.capacity,
    {
        let r = self.recency();
        assert forall|i: int, j: int| 0 <= i < r.len() && 0 <= j < r.len() && i != j implies r[i]
            != r[j] by {
            assert(r[i] == self.entries[i].0 && r[j] == self.entries[j].0);
        }
        assert forall|u: Username| self.cache().dom().contains(u) <==> r.to_set().contains(u) by {
            if self.resident(u) {
                let i = self.position(u);
                assert(r[i] == u);
            }
            if r.to_set().contains(u) {
                let i = choose|i: int| 0 <= i < r.len() && r[i] == u;
                assert(self.entries[i].0 == u);
            }
        }
        assert(self.cache().dom() =~= r.to_set());
        r.unique_seq_to_set();
        vstd::seq_lib::seq_to_set_is_finite(r);
    }

    /// Using a resident session keeps the pool well formed, changes neither
    /// who is resident nor any session, and makes the user the most recent.
    pub proof fn lemma_promote(self, user: Username)
        requires
            self.wf(),
            self.resident(user),
        ensures
            self.promote(user).wf(),
            self.promote(user).size() == self.size(),
            self.promote(user).recency()[0] == user,
            forall|u: Username| self.promote(user).resident(u) <==> self.resident(u),
            forall|u: Username|
                self.resident(u) ==> self.promote(user).session(u) == self.session(u),
    {
        let p = self.position(user);
        let t = self.promote(user);
        assert forall|k: int| 0 <= k < t.entries.len() implies #[trigger] t.entries[k]
            == self.entries[if k == 0 {
            p
        } else if k <= p {
            k - 1
        } else {
            k
        }] by {}
        assert forall|u: Username| t.resident(u) <==> self.resident(u) by {
            if t.resident(u) {
                let k = t.position(u);
                let i = if k == 0 {
                    p
                } else if k <= p {
                    k - 1
                } else {
                    k
                };
                assert(self.entries[i].0 == u);
            }
            if self.resident(u) {
                let i = self.position(u);
                let k = if i == p {
                    0
                } else if i < p {
                    i + 1
                } else {
                    i
                };
                assert(t.entries[k].0 == u);
            }
        }
        assert forall|u: Username| self.resident(u) implies t.session(u) == self.session(u) by {
            let i = self.position(u);
            let k = if i == p {
                0
            } else if i < p {
                i + 1
            } else {
                i
            };
            assert(t.entries[k] == self.entries[i]);
            t.lemma_position(u, k);
        }
    }

    /// A session that leaves keeps the pool well formed; the others stay, in
    /// their order.
    pub proof fn lemma_remove(self, user: Username)
        requires
            self.wf(),
            self.resident(user),
        ensures
            self.remove(user).wf(),
            self.remove(user).size() == self.size() - 1,
            !self.remove(user).resident(user),
            forall|u: Username| u != user ==> (self.remove(user).resident(u) <==> self.resident(u)),
    {
        let p = self.position(user);
        let t = self.remove(user);
        assert forall|k: int| 0 <= k < t.entries.len() implies #[trigger] t.entries[k]
            == self.entries[if k < p {
            k
        } else {
            k + 1
        }] by {}
        if t.resident(user) {
            let k = t.position(user);
            assert(self.entries[if k < p {
                k
            } else {
                k + 1
            }].0 == user);
        }
        assert forall|u: Username| u != user implies (t.resident(u) <==> self.resident(u)) by {
            if t.resident(u) {
                let k = t.position(u);
                assert(self.entries[if k < p {
                    k
                } else {
                    k + 1
                }].0 == u);
            }
            if self.resident(u) {
                let i = self.position(u);
                assert(t.entries[if i < p {
                    i
                } else {
                    i - 1
                }].0 == u);
            }
        }
    }

    /// A new session that enters keeps the pool well formed and is the most
    /// recent; if the pool was full, the least recently used session, and no
    /// other, has left.
    pub proof fn lemma_insert(self, user: Username, session: S)
        requires
            self.wf(),
            !self.resident(user),
        ensures
            self.insert(user, session).wf(),
            self.insert(user, session).recency()[0] == user,
            self.insert(user, session).session(user) == session,
            self.is_full() ==> self.insert(user, session).size() == self.size()
                && !self.insert(user, session).resident(self.lru()),
            !self.is_full() ==> self.insert(user, session).size() == self.size() + 1,
            forall|u: Username|
                u != user && !(self.is_full() && u == self.lru()) ==> (self.insert(
                    user,
                    session,
                ).resident(u) <==> self.resident(u)),
    {
        let t = self.insert(user, session);
        assert forall|k: int| 1 <= k < t.entries.len() implies #[trigger] t.entries[k]
            == self.entries[k - 1] by {}
        assert forall|i: int, j: int|
            0 <= i < t.entries.len() && 0 <= j < t.entries.len() && i != j implies (
        #[trigger] t.entries[i]).0 != (#[trigger] t.entries[j]).0 by {
            if i > 0 {
                assert(t.entries[i] == self.entries[i - 1]);
            }
            if j > 0 {
                assert(t.entries[j] == self.entries[j - 1]);
            }
        }
        assert(t.entries[0].0 == user);
        t.lemma_position(user, 0);
        if self.is_full() && t.resident(self.lru()) {
            let k = t.position(self.lru());
            assert(t.entries[k] == self.entries[k - 1]);
        }
        assert forall|u: Username| u != user && !(self.is_full() && u == self.lru()) implies (
        t.resident(u) <==> self.resident(u)) by {
            if t.resident(u) {
                let k = t.position(u);
                assert(t.entries[k] == self.entries[k - 1]);
            }
            if self.resident(u) {
                let i = self.position(u);
                assert(t.entries[i + 1] == self.entries[i]);
            }
        }
    }

    /// Whatever is requested, and in whatever order, no more sessions are
    /// resident afterwards than the capacity allows.
    pub proof fn lemma_size_bound(self, users: Seq<Username>, sessions: Seq<S>)
        requires
            self.wf(),
            sessions.len() == users.len(),
        ensures
            self.after_gets(users, sessions).wf(),
            self.after_gets(users, sessions).size() <= self.capacity,
            self.after_gets(users, sessions).capacity == self.capacity,
        decreases users.len(),
    {
        if users.len() > 0 {
            let before = self.after_gets(users.drop_last(), sessions.drop_last());
            self.lemma_size_bound(users.drop_last(), sessions.drop_last());
            if before.resident(users.last()) {
                before.lemma_promote(users.last());
            } else {
                before.lemma_insert(users.last(), sessions.last());
            }
        }
    }

    /// After requests for different users on an empty pool, the resident
    /// users are the last `capacity` of them, the latest first.
    pub proof fn lemma_fill(capacity: nat, users: Seq<Username>, sessions: Seq<S>)
        requires
            capacity >= 1,
            users.no_duplicates(),
            sessions.len() == users.len(),
        ensures
            ({
                let end = Self::empty(capacity).after_gets(users, sessions);
                let n = users.len();
                &&& end.wf()
                &&& end.capacity == capacity
                &&& end.size() == if n <= capacity {
                    n
                } else {
                    capacity
                }
                &&& forall|k: int| 0 <= k < end.size() ==> (#[trigger] end.entries[k]).0 == users[n - 1 - k]
            }),
        decreases users.len(),
    {
        let start = Self::empty(capacity);
        if users.len() > 0 {
            let n = users.len() as int;
            let head = users.drop_last();
            let before = start.after_gets(head, sessions.drop_last());
            assert(head.no_duplicates()) by {
                assert forall|i: int, j: int|
                    0 <= i < head.len() && 0 <= j < head.len() && i != j implies head[i]
                    != head[j] by {
                    assert(head[i] == users[i] && head[j] == users[j]);
                }
            }
            Self::lemma_fill(capacity, head, sessions.drop_last());
            let u = users.last();
            if before.resident(u) {
                let k = before.position(u);
                assert(before.entries[k].0 == head[n - 2 - k]);
                assert(users[n - 2 - k] == users[n - 1]);
            }
            before.lemma_insert(u, sessions.last());
            let end = before.insert(u, sessions.last());
            assert(end == start.after_gets(users, sessions));
            assert forall|k: int| 0 <= k < end.size() implies (#[trigger] end.entries[k]).0
                == users[n - 1 - k] by {
                if k > 0 {
                    assert(end.entries[k] == before.entries[k - 1]);
                    assert(before.entries[k - 1].0 == head[n - 1 - k]);
                    assert(head[n - 1 - k] == users[n - 1 - k]);
                }
            }
        } else {
            assert(start.after_gets(users, sessions) == start);
        }
    }

    /// Least-recently-used eviction: after requests for `capacity + 1`
    /// different users on an empty pool, the first of them is no longer
    /// resident, all the others are, and the last is the most recent.
    pub proof fn lemma_lru_eviction(capacity: nat, users: Seq<Username>, sessions: Seq<S>)
        requires
            capacity >= 1,
            users.no_duplicates(),
            users.len() == capacity + 1,
            sessions.len() == users.len(),
        ensures
            ({
                let end = Self::empty(capacity).after_gets(users, sessions);
                &&& !end.resident(users[0])
                &&& forall|i: int| 1 <= i <= capacity ==> end.resident(#[trigger] users[i])
                &&& end.recency()[0] == users[capacity as int]
                &&& end.size() == capacity
            }),
    {
        let end = Self::empty(capacity).after_gets(users, sessions);
        Self::lemma_fill(capacity, users, sessions);
        let n = users.len() as int;
        if end.resident(users[0]) {
            let k = end.position(users[0]);
            assert(end.entries[k].0 == users[n - 1 - k]);
        }
        assert forall|i: int| 1 <= i <= capacity implies end.resident(#[trigger] users[i]) by {
            assert(end.entries[n - 1 - i].0 == users[i]);
        }
        assert(end.entries[0].0 == users[n - 1]);
    }
}

} // verus!
