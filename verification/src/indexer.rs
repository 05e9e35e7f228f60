//! The index from keys to record tokens.
//!
//! A cache shard consults an indexer to find the record of a key. The indexer owns no record:
//! it maps each key to the token of the record that holds the key's entry.

use crate::record::RecordToken;
use std::collections::HashMap;
use vstd::prelude::*;

verus! {

/// A map from keys to record tokens. The hash of a key is handed in with every call, so that
/// an implementation need not compute it again.
pub trait Indexer<K> {
    /// The token that each indexed key maps to.
    spec fn view(&self) -> Map<K, RecordToken>;

    /// What the indexer needs to work as it says.
    spec fn wf(&self) -> bool;

    /// Maps the key to the token, and returns the token that the key was mapped to before.
    fn insert(&mut self, hash: u64, key: &K, token: RecordToken) -> (replaced: Option<RecordToken>)
        requires
            old(self).wf(),
        ensures
            final(self).wf(),
            final(self).view() == old(self).view().insert(*key, token),
            replaced == (if old(self).view().dom().contains(*key) {
                Some(old(self).view()[*key])
            } else {
                None
            }),
    ;

    /// The token that the key maps to, if the key is indexed.
    fn lookup(&self, hash: u64, key: &K) -> (found: Option<RecordToken>)
        requires
            self.wf(),
        ensures
            found == (if self.view().dom().contains(*key) {
                Some(self.view()[*key])
            } else {
                None
            }),
    ;

    /// Takes the key out of the index, and returns the token that the key was mapped to.
    fn remove(&mut self, hash: u64, key: &K) -> (removed: Option<RecordToken>)
        requires
            old(self).wf(),
        ensures
            final(self).wf(),
            final(self).view() == old(self).view().remove(*key),
            removed == (if old(self).view().dom().contains(*key) {
                Some(old(self).view()[*key])
            } else {
                None
            }),
    ;
}

/// An indexer over a hash map of keys.
///
/// The indexer works as it says for keys whose hashes and equality agree, as they do for the
/// integers.
pub struct HashIndexer<K> {
    map: HashMap<K, RecordToken>,
}

impl<K: Copy + Eq + std::hash::Hash> HashIndexer<K> {
    /// An indexer without any key.
    pub fn new() -> (indexer: Self)
        ensures
            indexer.view() == Map::<K, RecordToken>::empty(),
            indexer.wf() <==> vstd::std_specs::hash::obeys_key_model::<K>(),
    {
        broadcast use vstd::std_specs::hash::group_hash_axioms;

        Self { map: HashMap::new() }
    }

    /// The number of indexed keys.
    pub fn len(&self) -> (len: usize)
        requires
            self.wf(),
        ensures
            len == self.view().len(),
    {
        broadcast use vstd::std_specs::hash::group_hash_axioms;

        self.map.len()
    }
}

impl<K: Copy + Eq + std::hash::Hash> Indexer<K> for HashIndexer<K> {
    closed spec fn view(&self) -> Map<K, RecordToken> {
        self.map@
    }

    open spec fn wf(&self) -> bool {
        vstd::std_specs::hash::obeys_key_model::<K>()
    }

    fn insert(&mut self, hash: u64, key: &K, token: RecordToken) -> (replaced: Option<RecordToken>) {
        broadcast use vstd::std_specs::hash::group_hash_axioms;

        self.map.insert(*key, token)
    }

    fn lookup(&self, hash: u64, key: &K) -> (found: Option<RecordToken>) {
        broadcast use vstd::std_specs::hash::group_hash_axioms;

        match self.map.get(key) {
            Some(token) => Some(*token),
            None => None,
        }
    }

    fn remove(&mut self, hash: u64, key: &K) -> (removed: Option<RecordToken>) {
        broadcast use vstd::std_specs::hash::group_hash_axioms;

        self.map.remove(key)
    }
}

} // verus!
