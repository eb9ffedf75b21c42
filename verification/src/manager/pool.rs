//! A bounded pool of live sessions, one per user, that discards the least
//! recently used session when a new one needs its place.
//!
//! The pool decides; it does no input or output. Loading a session and
//! writing one back are the caller's work: the caller hands the pool the
//! session it loaded, and tells it whether writing back succeeded. A caller
//! that shares a pool among threads keeps it behind one lock and holds the
//! lock from the first call of a request to the last.

use std::collections::VecDeque;
use std::sync::Arc;
use vstd::prelude::*;
use vstd::string::StringExecFns;
use crate::manager::model::PoolState;

verus! {

/// Why a pool operation failed.
#[derive(Debug, Clone, PartialEq, Eq)]
pub enum PoolError {
    /// The session could not be loaded; the message is that of the cause.
    /// The pool itself never fails so: it is for the caller that loads.
    SQLError(String),
    /// A pool must have room for at least one session.
    ZeroCapacity,
    /// The user has no session in the pool.
    EntryNotFound(String),
    /// The session of the user could not be written back, so it stays.
    EvictionFailed(String),
}

impl PoolError {
    /// The message of the error.
    pub open spec fn text(self) -> Seq<char> {
        match self {
            PoolError::SQLError(why) => "error cause by worker: "@ + why@,
            PoolError::ZeroCapacity => "a pool needs room for at least one entry"@,
            PoolError::EntryNotFound(name) => "user: "@ + name@ + " entry is not existed"@,
            PoolError::EvictionFailed(name) => "user: "@ + name@
                + " entry could not be written back"@,
        }
    }

    /// The message of the error.
    pub fn message(&self) -> (s: String)
        ensures
            s@ == self.text(),
    {
        match self {
            PoolError::SQLError(why) => "error cause by worker: ".to_owned().concat(why.as_str()),
            PoolError::ZeroCapacity => "a pool needs room for at least one entry".to_owned(),
            PoolError::EntryNotFound(name) => "user: ".to_owned().concat(name.as_str()).concat(
                " entry is not existed",
            ),
            PoolError::EvictionFailed(name) => "user: ".to_owned().concat(name.as_str()).concat(
                " entry could not be written back",
            ),
        }
    }
}

/// A resident session and its user.
struct Slot<S> {
    username: String,
    session: Arc<S>,
}

/// A pool of at most `max_entry` sessions of type `S`.
pub struct Pool<S> {
    max_entry: usize,
    /// Most recently used first.
    slots: VecDeque<Slot<S>>,
}

impl<S> View for Pool<S> {
    type V = PoolState<S>;

    closed spec fn view(&self) -> PoolState<S> {
        PoolState {
            capacity: self.max_entry as nat,
            entries: self.slots@.map_values(|s: Slot<S>| (s.username@, *s.session)),
        }
    }
}

/// `Arc::clone`: another handle to the same value.
#[verifier::external_body]
fn share<S>(handle: &Arc<S>) -> (r: Arc<S>)
    ensures
        r == *handle,
{
    Arc::clone(handle)
}

impl<S> Pool<S> {
    /// What every pool satisfies: see [`PoolState::wf`].
    pub open spec fn wf(&self) -> bool {
        self@.wf()
    }

    /// An empty pool with room for `entry_number` sessions.
    pub fn new(entry_number: usize) -> (r: Result<Pool<S>, PoolError>)
        ensures
            r is Err <==> entry_number == 0,
            r matches Err(e) ==> e == PoolError::ZeroCapacity,
            r matches Ok(pool) ==> pool.wf() && pool@ == PoolState::<S>::empty(entry_number as nat),
    {
        if entry_number == 0 {
            Err(PoolError::ZeroCapacity)
        } else {
            let pool = Pool { max_entry: entry_number, slots: VecDeque::new() };
            assert(pool@.entries =~= Seq::empty());
            Ok(pool)
        }
    }

    /// The place of the user named `key` in the order of use.
    fn find(&self, key: &String) -> (r: Option<usize>)
        ensures
            r is Some <==> self@.resident(key@),
            r matches Some(i) ==> i < self@.entries.len() && self@.entries[i as int].0 == key@,
    {
        let mut i: usize = 0;
        while i < self.slots.len()
            invariant
                i <= self.slots@.len(),
                forall|j: int| 0 <= j < i ==> (#[trigger] self@.entries[j]).0 != key@,
            decreases self.slots@.len() - i,
        {
            if self.slots[i].username == *key {
                assert(self@.entries[i as int].0 == key@);
                return Some(i);
            }
            i += 1;
        }
        None
    }

    /// The session of `username` if it is resident, which then counts as used
    /// just now: it becomes the most recent, and the others keep their order.
    /// `None`, and no change, if it is not resident: the caller then loads the
    /// session and hands it to [`Pool::insert`].
    pub fn get(&mut self, username: &str) -> (r: Option<Arc<S>>)
        requires
            old(self).wf(),
        ensures
            final(self).wf(),
            r is Some <==> old(self)@.resident(username@),
            r matches Some(handle) ==> *handle == old(self)@.session(username@)
                && final(self)@ == old(self)@.promote(username@),
            r is None ==> final(self)@ == old(self)@,
    {
        let key = username.to_owned();
        match self.find(&key) {
            None => None,
            Some(i) => {
                let slot = self.slots.remove(i).unwrap();
                let handle = share(&slot.session);
                self.slots.push_front(slot);
                proof {
                    old(self)@.lemma_position(username@, i as int);
                    old(self)@.lemma_promote(username@);
                    assert(self@.entries =~= old(self)@.promote(username@).entries);
                }
                Some(handle)
            },
        }
    }

    /// The session of `username` if it is resident; nothing counts as used.
    pub fn peek(&self, username: &str) -> (r: Option<Arc<S>>)
        requires
            self.wf(),
        ensures
            r is Some <==> self@.resident(username@),
            r matches Some(handle) ==> *handle == self@.session(username@),
    {
        let key = username.to_owned();
        match self.find(&key) {
            None => None,
            Some(i) => {
                proof {
                    self@.lemma_position(username@, i as int);
                }
                Some(share(&self.slots[i].session))
            },
        }
    }

    /// The user and session that must be written back before a new session
    /// can enter: the least recently used, if the pool is full.
    pub fn eviction_candidate(&self) -> (r: Option<(String, Arc<S>)>)
        requires
            self.wf(),
        ensures
            r is Some <==> self@.is_full(),
            r matches Some((username, handle)) ==> username@ == self@.lru()
                && *handle == self@.session(self@.lru()),
    {
        let n = self.slots.len();
        if n >= self.max_entry {
            proof {
                self@.lemma_position(self@.lru(), n - 1);
            }
            let slot = &self.slots[n - 1];
            Some((slot.username.clone(), share(&slot.session)))
        } else {
            None
        }
    }

    /// Takes in the session that was loaded for `username`, as the most
    /// recent. If the pool is full the least recently used session leaves
    /// first, provided that `flushed` says it was written back; if it was
    /// not, nothing changes and the call fails with that user's name.
    pub fn insert(&mut self, username: String, session: S, flushed: bool) -> (r: Result<
        (),
        PoolError,
    >)
        requires
            old(self).wf(),
            !old(self)@.resident(username@),
        ensures
            final(self).wf(),
            r is Err <==> old(self)@.is_full() && !flushed,
            r matches Err(e) ==> final(self)@ == old(self)@ && (e matches PoolError::EvictionFailed(
                lru,
            ) && lru@ == old(self)@.lru()),
            r is Ok ==> final(self)@ == old(self)@.insert(username@, session),
    {
        let n = self.slots.len();
        if n >= self.max_entry {
            if !flushed {
                return Err(PoolError::EvictionFailed(self.slots[n - 1].username.clone()));
            }
            self.slots.pop_back();
        }
        proof {
            old(self)@.lemma_insert(username@, session);
        }
        self.slots.push_front(Slot { username, session: Arc::new(session) });
        assert(self@.entries =~= old(self)@.insert(username@, session).entries);
        Ok(())
    }

    /// Lets the session of `username` leave, provided that `persisted` says
    /// it was written back. Fails, and changes nothing, if the user has no
    /// session here, or if the session was not written back.
    pub fn write_back(&mut self, username: &str, persisted: bool) -> (r: Result<(), PoolError>)
        requires
            old(self).wf(),
        ensures
            final(self).wf(),
            r is Ok <==> old(self)@.resident(username@) && persisted,
            r is Ok ==> final(self)@ == old(self)@.remove(username@),
            r matches Err(e) ==> final(self)@ == old(self)@ && match e {
                PoolError::EntryNotFound(name) => name@ == username@ && !old(self)@.resident(
                    username@,
                ),
                PoolError::EvictionFailed(name) => name@ == username@ && old(self)@.resident(
                    username@,
                ),
                PoolError::ZeroCapacity => false,
                PoolError::SQLError(_) => false,
            },
    {
        let key = username.to_owned();
        match self.find(&key) {
            None => Err(PoolError::EntryNotFound(key)),
            Some(i) => {
                if !persisted {
                    return Err(PoolError::EvictionFailed(key));
                }
                self.slots.remove(i);
                proof {
                    old(self)@.lemma_position(username@, i as int);
                    old(self)@.lemma_remove(username@);
                    assert(self@.entries =~= old(self)@.remove(username@).entries);
                }
                Ok(())
            },
        }
    }

    /// The largest number of sessions that may be resident.
    pub fn capacity(&self) -> (n: usize)
        ensures
            n == self@.capacity,
    {
        self.max_entry
    }

    /// The number of resident sessions.
    pub fn size(&self) -> (n: usize)
        ensures
            n == self@.size(),
    {
        self.slots.len()
    }

    /// Whether `username` has a session in the pool.
    pub fn contains(&self, username: &str) -> (b: bool)
        ensures
            b == self@.resident(username@),
    {
        let key = username.to_owned();
        self.find(&key).is_some()
    }

    /// The resident users, most recently used first.
    pub fn recency(&self) -> (names: Vec<String>)
        ensures
            names@.map_values(|name: String| name@) == self@.recency(),
    {
        let mut names: Vec<String> = Vec::new();
        let mut i: usize = 0;
        while i < self.slots.len()
            invariant
                i <= self.slots@.len(),
                names@.len() == i,
                forall|j: int| 0 <= j < i ==> (#[trigger] names@[j])@ == self@.entries[j].0,
            decreases self.slots@.len() - i,
        {
            names.push(self.slots[i].username.clone());
            i += 1;
        }
        assert(names@.map_values(|name: String| name@) =~= self@.recency());
        names
    }
}

} // verus!
