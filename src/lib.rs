//! A cache-conscious map from `u64` keys to `u64` values: a block-structured
//! main table with elastic block boundaries, per-block thresholds and a small
//! backyard map for the entries that the main table turns away.

pub mod hash_table;
pub mod slick_hash;
pub mod std_backends;

pub use hash_table::{
    Capacity, CompleteHashTable, DefaultHashTableBuild, HashTableBase, HashTableBulk, HashTableRemove,
    Insertion, MaybeRemovable, Named,
};
pub use slick_hash::{SlickHash, SlickHashMetaData};
