//! The wait lists of pending loads.
//!
//! When a key is missed, the first to ask for it loads it, and whoever asks for it before the
//! load ends waits for the outcome instead of loading the key again. The wait list keeps, for
//! each key that is being loaded, the number of those that wait; how a waiter is told of the
//! outcome is up to the caller.

use std::collections::HashMap;
use vstd::prelude::*;

verus! {

/// The part that a caller has in the load of a key.
#[derive(Debug, Clone, Copy, PartialEq, Eq, Structural)]
pub enum Role {
    /// Nobody loads the key yet: the caller does.
    Leader,
    /// The key is being loaded, and the caller waits for it behind this many others.
    Waiter(usize),
}

/// The keys that are being loaded, each with the number of those that wait for it.
pub struct WaitList<K> {
    pending: HashMap<K, usize>,
}

impl<K: Copy + Eq + std::hash::Hash> WaitList<K> {
    /// The number of waiters for each key that is being loaded.
    pub closed spec fn view(&self) -> Map<K, usize> {
        self.pending@
    }

    /// What the wait list needs to work as it says: keys whose hashes and equality agree.
    pub open spec fn wf(&self) -> bool {
        vstd::std_specs::hash::obeys_key_model::<K>()
    }

    /// A wait list without any key.
    pub fn new() -> (list: Self)
        ensures
            list@ == Map::<K, usize>::empty(),
    {
        Self { pending: HashMap::new() }
    }

    /// The number of those that wait for the key, if the key is being loaded.
    pub fn waiting(&self, key: &K) -> (waiting: Option<usize>)
        requires
            self.wf(),
        ensures
            waiting == (if self@.dom().contains(*key) {
                Some(self@[*key])
            } else {
                None
            }),
    {
        broadcast use vstd::std_specs::hash::group_hash_axioms;

        match self.pending.get(key) {
            Some(waiting) => Some(*waiting),
            None => None,
        }
    }

    /// Joins the load of a key after a miss. The first to join is the leader, and the key is
    /// being loaded from then on; whoever joins later is a waiter, and is counted. A key is
    /// not joined by more waiters than can be counted: then nothing happens.
    pub fn join(&mut self, key: &K) -> (role: Option<Role>)
        requires
            old(self).wf(),
        ensures
            final(self).wf(),
            match role {
                Some(Role::Leader) => {
                    &&& !old(self)@.dom().contains(*key)
                    &&& final(self)@ == old(self)@.insert(*key, 0)
                },
                Some(Role::Waiter(before)) => {
                    &&& old(self)@.dom().contains(*key)
                    &&& before == old(self)@[*key]
                    &&& before < usize::MAX
                    &&& final(self)@ == old(self)@.insert(*key, (before + 1) as usize)
                },
                None => {
                    &&& old(self)@.dom().contains(*key)
                    &&& old(self)@[*key] == usize::MAX
                    &&& final(self)@ == old(self)@
                },
            },
    {
        broadcast use vstd::std_specs::hash::group_hash_axioms;

        match self.waiting(key) {
            None => {
                self.pending.insert(*key, 0);
                Some(Role::Leader)
            },
            Some(before) => {
                if before == usize::MAX {
                    return None;
                }
                self.pending.insert(*key, before + 1);
                Some(Role::Waiter(before))
            },
        }
    }

    /// Ends the load of a key, and returns the number of those that waited for it. The key is
    /// no longer being loaded: the next to miss it is a leader again.
    pub fn finish(&mut self, key: &K) -> (waited: Option<usize>)
        requires
            old(self).wf(),
        ensures
            final(self).wf(),
            final(self)@ == old(self)@.remove(*key),
            waited == (if old(self)@.dom().contains(*key) {
                Some(old(self)@[*key])
            } else {
                None
            }),
    {
        broadcast use vstd::std_specs::hash::group_hash_axioms;

        self.pending.remove(key)
    }
}

} // verus!
