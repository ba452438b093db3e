//! A cache of storage roots by account.
//!
//! The cache keeps the first root that was computed for a key. A second root
//! for the same key must have the same hash: a different one is reported and
//! does not replace the first.

use vstd::prelude::*;
use crate::bytes::bytes_eq;
use std::collections::HashMap;

verus! {

broadcast use vstd::std_specs::hash::group_hash_axioms;

/// A computed storage root: its hash, the number of slots that were walked,
/// and the updates of the trie that computing it produced.
pub struct StorageRoot<U> {
    /// Hash of the root.
    pub hash: Vec<u8>,
    /// Number of storage slots that were walked.
    pub slots: usize,
    /// Updates of the trie.
    pub updates: U,
}

/// The cache.
pub struct StorageRootCache<U> {
    account_hash_results: HashMap<u64, StorageRoot<U>>,
}

impl<U> View for StorageRootCache<U> {
    type V = Map<u64, StorageRoot<U>>;

    closed spec fn view(&self) -> Map<u64, StorageRoot<U>> {
        self.account_hash_results@
    }
}

impl<U> StorageRootCache<U> {
    /// An empty cache.
    pub fn new() -> (r: Self)
        ensures
            r@ == Map::<u64, StorageRoot<U>>::empty(),
    {
        StorageRootCache { account_hash_results: HashMap::new() }
    }

    /// The root that the cache holds for `key`.
    pub fn get(&self, key: u64) -> (r: Option<&StorageRoot<U>>)
        ensures
            match r {
                Some(root) => self@.contains_key(key) && *root == self@[key],
                None => !self@.contains_key(key),
            },
    {
        self.account_hash_results.get(&key)
    }

    /// Caches `value` for `key` if the cache holds nothing for the key.
    /// Returns whether the cache now agrees with `value`: `false` if it holds a
    /// root with another hash for the key, which stays.
    pub fn set(&mut self, key: u64, value: StorageRoot<U>) -> (agrees: bool)
        ensures
            final(self)@ == if old(self)@.contains_key(key) {
                old(self)@
            } else {
                old(self)@.insert(key, value)
            },
            agrees == (final(self)@[key].hash@ == value.hash@),
    {
        match self.account_hash_results.get(&key) {
            Some(stored) => bytes_eq(stored.hash.as_slice(), value.hash.as_slice()),
            None => {
                self.account_hash_results.insert(key, value);
                true
            },
        }
    }
}

} // verus!
