use vstd::prelude::*;

verus! {

/// Outcome of an insertion: the key was new and the value stored
/// (`Inserted`), or the key was already present and the stored value
/// was left as it was (`Occupied`). Both carry the value that the table
/// holds for the key afterwards.
pub enum Insertion<V> {
    Inserted(V),
    Occupied(V),
}

impl<V> Insertion<V> {
    pub fn is_inserted(&self) -> (r: bool)
        ensures
            r == (self is Inserted),
    {
        match self {
            Insertion::Inserted(_) => true,
            Insertion::Occupied(_) => false,
        }
    }

    pub open spec fn spec_value(&self) -> V {
        match self {
            Insertion::Inserted(v) => *v,
            Insertion::Occupied(v) => *v,
        }
    }

    /// The value that the table holds for the key after the insertion.
    pub fn as_ref(&self) -> (r: &V)
        ensures
            *r == self.spec_value(),
    {
        match self {
            Insertion::Inserted(v) => v,
            Insertion::Occupied(v) => v,
        }
    }
}

/// A table that can say what it is called.
pub trait Named {
    fn name() -> String;
}

/// Something that gives the number of cells to build a table with.
pub trait Capacity: Copy {
    fn capacity(self) -> usize;
}

impl Capacity for usize {
    fn capacity(self) -> usize {
        self
    }
}

/// The basic operations of a table from keys to values.
pub trait HashTableBase<Key, Value>: Sized {
    /// The table's own consistency condition.
    spec fn table_ok(&self) -> bool;

    /// The capacities that the table can be built with.
    spec fn capacity_ok(capacity: usize) -> bool;

    fn with_capacity(capacity: usize) -> (r: Self)
        requires
            Self::capacity_ok(capacity),
        ensures
            r.table_ok(),
    ;

    fn try_insert(&mut self, key_value_pair: (Key, Value)) -> (r: Insertion<Value>)
        requires
            old(self).table_ok(),
        ensures
            final(self).table_ok(),
    ;

    fn get(&self, key: &Key) -> (r: Option<&Value>)
        requires
            self.table_ok(),
    ;

    fn contains(&self, key: &Key) -> (r: bool)
        requires
            self.table_ok(),
    {
        self.get(key).is_some()
    }
}

/// Tables that can take an entry out.
pub trait HashTableRemove<Key, Value>: HashTableBase<Key, Value> {
    fn remove_entry(&mut self, key: &Key) -> (r: Option<(Key, Value)>)
        requires
            old(self).table_ok(),
        ensures
            final(self).table_ok(),
    ;
}

/// Tables that can take many pairs at once.
pub trait HashTableBulk<Key, Value>: HashTableBase<Key, Value> {
    fn bulk_insert(&mut self, key_value_pairs: &[(Key, Value)])
        requires
            old(self).table_ok(),
        ensures
            final(self).table_ok(),
    ;
}

/// Whether a table can take entries out: every table that has
/// `HashTableRemove` says it can.
pub trait MaybeRemovable<Key, Value> {
    fn supports_remove() -> bool;
}

impl<Key, Value, T: HashTableRemove<Key, Value>> MaybeRemovable<Key, Value> for T {
    fn supports_remove() -> bool {
        true
    }
}

/// A table from `u64` to `u64` with every capability.
pub trait CompleteHashTable: HashTableBase<u64, u64> + HashTableBulk<u64, u64> + Named +
    MaybeRemovable<u64, u64> {

}

impl<T> CompleteHashTable for T where
    T: HashTableBase<u64, u64> + HashTableBulk<u64, u64> + Named + MaybeRemovable<u64, u64>,
 {

}

/// Marks a table whose bulk insertion is one `try_insert` per pair, in order.
pub trait DefaultHashTableBuild {

}

impl<Key: Copy, Value: Copy, T: HashTableBase<Key, Value> + DefaultHashTableBuild> HashTableBulk<
    Key,
    Value,
> for T {
    fn bulk_insert(&mut self, key_value_pairs: &[(Key, Value)]) {
        let mut idx: usize = 0;
        while idx < key_value_pairs.len()
            invariant
                self.table_ok(),
            decreases key_value_pairs@.len() - idx,
        {
            let pair = key_value_pairs[idx];
            self.try_insert(pair);
            idx = idx + 1;
        }
    }
}

} // verus!
