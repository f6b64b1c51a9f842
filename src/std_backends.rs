//! The std maps behind the same operations, as baselines to compare with.

use std::collections::{BTreeMap, HashMap};
use vstd::prelude::*;

use crate::hash_table::{HashTableBase, HashTableBulk, HashTableRemove, Insertion, Named};
use crate::slick_hash::{inserted, insertion_result};

verus! {

broadcast use {vstd::std_specs::hash::group_hash_axioms, vstd::std_specs::btree::group_btree_axioms};

impl Named for HashMap<u64, u64> {
    fn name() -> String {
        "std::collection::HashMap".to_owned()
    }
}

impl HashTableBase<u64, u64> for HashMap<u64, u64> {
    open spec fn table_ok(&self) -> bool {
        true
    }

    open spec fn capacity_ok(_capacity: usize) -> bool {
        true
    }

    fn with_capacity(capacity: usize) -> (r: Self) {
        HashMap::with_capacity(capacity)
    }

    fn try_insert(&mut self, key_value_pair: (u64, u64)) -> (r: Insertion<u64>)
        ensures
            final(self)@ == inserted(old(self)@, key_value_pair.0, key_value_pair.1),
            r == insertion_result(old(self)@, key_value_pair.0, key_value_pair.1),
    {
        let (key, value) = key_value_pair;
        match HashMap::get(self, &key) {
            Some(v) => Insertion::Occupied(*v),
            None => {
                self.insert(key, value);
                Insertion::Inserted(value)
            },
        }
    }

    fn get(&self, key: &u64) -> (r: Option<&u64>) {
        HashMap::get(self, key)
    }

    fn contains(&self, key: &u64) -> (r: bool) {
        self.contains_key(key)
    }
}

impl HashTableRemove<u64, u64> for HashMap<u64, u64> {
    fn remove_entry(&mut self, key: &u64) -> (r: Option<(u64, u64)>)
        ensures
            final(self)@ == old(self)@.remove(*key),
            r == match old(self)@.get(*key) {
                Some(v) => Some((*key, v)),
                None => None::<(u64, u64)>,
            },
    {
        match self.remove(key) {
            Some(v) => Some((*key, v)),
            None => None,
        }
    }
}

impl HashTableBulk<u64, u64> for HashMap<u64, u64> {
    /// Stores every pair in order; a later pair overwrites an earlier value.
    fn bulk_insert(&mut self, key_value_pairs: &[(u64, u64)]) {
        let mut idx: usize = 0;
        while idx < key_value_pairs.len()
            decreases key_value_pairs@.len() - idx,
        {
            let (key, value) = key_value_pairs[idx];
            self.insert(key, value);
            idx = idx + 1;
        }
    }
}

impl Named for BTreeMap<u64, u64> {
    fn name() -> String {
        "std::collection::BTreeMap".to_owned()
    }
}

impl HashTableBase<u64, u64> for BTreeMap<u64, u64> {
    open spec fn table_ok(&self) -> bool {
        true
    }

    open spec fn capacity_ok(_capacity: usize) -> bool {
        true
    }

    fn with_capacity(_capacity: usize) -> (r: Self) {
        BTreeMap::new()
    }

    fn try_insert(&mut self, key_value_pair: (u64, u64)) -> (r: Insertion<u64>)
        ensures
            final(self)@ == inserted(old(self)@, key_value_pair.0, key_value_pair.1),
            r == insertion_result(old(self)@, key_value_pair.0, key_value_pair.1),
    {
        let (key, value) = key_value_pair;
        match BTreeMap::get(self, &key) {
            Some(v) => Insertion::Occupied(*v),
            None => {
                self.insert(key, value);
                Insertion::Inserted(value)
            },
        }
    }

    fn get(&self, key: &u64) -> (r: Option<&u64>) {
        BTreeMap::get(self, key)
    }

    fn contains(&self, key: &u64) -> (r: bool) {
        self.contains_key(key)
    }
}

impl HashTableRemove<u64, u64> for BTreeMap<u64, u64> {
    fn remove_entry(&mut self, key: &u64) -> (r: Option<(u64, u64)>)
        ensures
            final(self)@ == old(self)@.remove(*key),
            r == match old(self)@.get(*key) {
                Some(v) => Some((*key, v)),
                None => None::<(u64, u64)>,
            },
    {
        match self.remove(key) {
            Some(v) => Some((*key, v)),
            None => None,
        }
    }
}

impl HashTableBulk<u64, u64> for BTreeMap<u64, u64> {
    /// Stores every pair in order; a later pair overwrites an earlier value.
    fn bulk_insert(&mut self, key_value_pairs: &[(u64, u64)]) {
        let mut idx: usize = 0;
        while idx < key_value_pairs.len()
            decreases key_value_pairs@.len() - idx,
        {
            let (key, value) = key_value_pairs[idx];
            self.insert(key, value);
            idx = idx + 1;
        }
    }
}

} // verus!
