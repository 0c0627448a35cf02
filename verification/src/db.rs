//! A thin key-value store core around the hash table.
//!
//! The store owns a table of records and answers get, insert and remove.
//! Durable storage is the caller's business: the caller loads a pair list
//! and builds the store from it, and after a mutation it reads the live
//! pairs back out through the iteration interface and writes them where it
//! pleases.

use crate::hash::HashKey;
use crate::hash::HashMap;
use crate::hash::HashMapIter;
use vstd::prelude::*;

verus! {

/// The operation a caller asks the store to perform.
#[derive(Debug, Clone, Copy, PartialEq, Eq)]
pub enum Action {
    Get,
    Insert,
    Remove,
}

/// The key-value store core. Its view is the map of live records.
pub struct Database<K, V> {
    records: HashMap<K, V>,
}

impl<K: HashKey, V> Database<K, V> {
    /// The underlying table is well-formed.
    pub closed spec fn wf(self) -> bool {
        self.records.wf()
    }

    /// An empty store.
    pub fn new() -> (db: Self)
        ensures
            db.wf(),
            db@ == Map::<K, V>::empty(),
            db@.dom().len() == 0,
            db@.dom().finite(),
    {
        Self { records: HashMap::new() }
    }

    /// A store loaded from a pair list, as if each pair were inserted in
    /// turn; a later pair with the same key overwrites an earlier one.
    pub fn from_records(pairs: Vec<(K, V)>) -> (db: Self)
        requires
            pairs@.len() < (usize::MAX as int) / 4,
        ensures
            db.wf(),
            db@ == HashMap::<K, V>::map_of_pairs(pairs@),
            db@.dom().finite(),
    {
        Self { records: HashMap::from_pairs(pairs) }
    }

    /// Get a record's value by key.
    pub fn get(&self, key: K) -> (result: Option<&V>)
        requires
            self.wf(),
        ensures
            (match result {
                Some(v) => self@.contains_key(key) && *v == self@[key],
                None => !self@.contains_key(key),
            }),
    {
        self.records.get(&key)
    }

    /// Insert or replace a record, returning the value the key held before.
    pub fn insert(&mut self, key: K, val: V) -> (prev: Option<V>)
        requires
            old(self).wf(),
            old(self)@.dom().len() < (usize::MAX as int) / 4,
        ensures
            final(self).wf(),
            final(self)@ == old(self)@.insert(key, val),
            final(self)@.dom().finite(),
            (match prev {
                Some(v) => old(self)@.contains_key(key) && v == old(self)@[key],
                None => !old(self)@.contains_key(key),
            }),
    {
        self.records.insert(key, val)
    }

    /// Remove a record by key, returning the value it held.
    pub fn remove(&mut self, key: K) -> (removed: Option<V>)
        requires
            old(self).wf(),
        ensures
            final(self).wf(),
            final(self)@ == old(self)@.remove(key),
            final(self)@.dom().finite(),
            (match removed {
                Some(v) => old(self)@.contains_key(key) && v == old(self)@[key],
                None => !old(self)@.contains_key(key),
            }),
    {
        self.records.remove(&key)
    }

    /// The number of live records.
    pub fn len(&self) -> (n: usize)
        requires
            self.wf(),
        ensures
            n as int == self@.dom().len(),
    {
        self.records.len()
    }

    /// A borrowing traversal of the live records, for a caller that wants
    /// to write them out.
    pub fn iter<'a>(&'a self) -> (it: HashMapIter<'a, K, V>)
        requires
            self.wf(),
        ensures
            it.wf(),
            it.source() == self@,
            it.visited_keys() == Set::<K>::empty(),
    {
        self.records.iter()
    }
}

impl<K: HashKey, Val> View for Database<K, Val> {
    type V = Map<K, Val>;

    closed spec fn view(&self) -> Map<K, Val> {
        self.records@
    }
}

} // verus!
