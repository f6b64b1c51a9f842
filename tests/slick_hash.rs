use slickhash::{
    CompleteHashTable, HashTableBase, HashTableBulk, HashTableRemove, Insertion, MaybeRemovable,
    Named, SlickHash,
};
use std::collections::{BTreeMap, HashMap};

fn removable<T: CompleteHashTable>() -> bool {
    <T as MaybeRemovable<u64, u64>>::supports_remove()
}

/// The first `n` keys, counting up from `from`, whose home block is `block`.
fn keys_in_block(t: &SlickHash, block: usize, from: u64, n: usize) -> Vec<u64> {
    let mut keys = Vec::new();
    let mut k = from;
    while keys.len() < n {
        if t.hash_block_index(k) == block {
            keys.push(k);
        }
        k += 1;
    }
    keys
}

/// Keys of `block` whose threshold hash reaches `min`.
fn keys_in_block_above(t: &SlickHash, block: usize, min: usize, n: usize) -> Vec<u64> {
    let mut keys = Vec::new();
    let mut k = 0u64;
    while keys.len() < n {
        if t.hash_block_index(k) == block && t.hash_threshold(k) >= min {
            keys.push(k);
        }
        k += 1;
    }
    keys
}

#[test]
fn empty_table() {
    let t = SlickHash::new(100);
    assert_eq!(t.get(&42), None);
    assert!(!t.contains(&42));
    assert_eq!(t.number_of_blocks(), 10);
    for i in 0..10 {
        let m = t.meta(i);
        assert_eq!(m.gap, 10);
        assert_eq!(m.offset, 0);
        assert_eq!(m.threshold, 0);
        assert_eq!(t.block_len(i), 0);
    }
    assert_eq!(t.main_len(), 0);
    assert_eq!(t.backyard_len(), 0);
}

#[test]
fn single_insert() {
    let mut t = SlickHash::new(100);
    let r = t.try_insert((7, 700));
    assert!(r.is_inserted());
    assert_eq!(*r.as_ref(), 700);
    assert_eq!(t.get(&7), Some(&700));
    assert_eq!(t.main_len(), 1);
    assert_eq!(t.backyard_len(), 0);
    let b = t.hash_block_index(7);
    assert_eq!(t.block_contents(b), vec![(7, 700)]);
    assert_eq!(t.meta(b).gap, 9);
}

#[test]
fn occupied_path() {
    let mut t = SlickHash::new(100);
    assert!(t.try_insert((7, 700)).is_inserted());
    let r = t.try_insert((7, 999));
    assert!(!r.is_inserted());
    assert!(matches!(r, Insertion::Occupied(700)));
    assert_eq!(t.get(&7), Some(&700));
    assert_eq!(t.main_len(), 1);
}

#[test]
fn slide_from_right_neighbor_when_left_is_pinned() {
    let mut t = SlickHash::new(100);
    let keys = keys_in_block(&t, 4, 0, 11);
    for (n, k) in keys.iter().enumerate().take(10) {
        assert!(t.try_insert((*k, *k + 1)).is_inserted());
        assert_eq!(t.block_len(4), n + 1);
    }
    assert_eq!(t.meta(4).gap, 0);
    let gap5 = t.meta(5).gap;
    assert!(t.try_insert((keys[10], keys[10] + 1)).is_inserted());
    assert_eq!(t.block_len(4), 11);
    assert_eq!(t.meta(4).offset, 0);
    assert_eq!(t.meta(5).gap, gap5 - 1);
    assert_eq!(t.meta(5).offset, 1);
    for k in &keys {
        assert_eq!(t.get(k), Some(&(*k + 1)));
    }
    assert_eq!(t.main_len(), 11);
}

#[test]
fn slide_left_from_full_neighbor() {
    let mut t = SlickHash::new(100);
    let k4 = keys_in_block(&t, 4, 0, 11);
    // block 5 drifts one cell right when block 4 takes an eleventh entry
    for k in &k4 {
        assert!(t.try_insert((*k, 1)).is_inserted());
    }
    assert_eq!(t.meta(5).offset, 1);
    // one cell of gap comes back to block 4
    assert!(t.remove_entry(&k4[0]).is_some());
    assert_eq!(t.meta(4).gap, 1);
    // fill block 5 up to its gap
    let k5 = keys_in_block(&t, 5, 0, 20);
    let mut used = 0;
    while t.meta(5).gap > 0 {
        assert!(t.try_insert((k5[used], 2)).is_inserted());
        used += 1;
    }
    let len5 = t.block_len(5);
    let len4 = t.block_len(4);
    // the next key of block 5 takes the gap of block 4
    assert!(t.try_insert((k5[used], 2)).is_inserted());
    assert_eq!(t.block_len(5), len5 + 1);
    assert_eq!(t.meta(5).offset, 0);
    assert_eq!(t.meta(4).gap, 0);
    assert_eq!(t.block_len(4), len4);
    for k in &k4[1..] {
        assert_eq!(t.get(k), Some(&1));
    }
    for k in &k5[..=used] {
        assert_eq!(t.get(k), Some(&2));
    }
    assert_eq!(t.get(&k4[0]), None);
}

#[test]
fn bump_to_backyard() {
    let mut t = SlickHash::new(100);
    let keys = keys_in_block(&t, 3, 0, 40);
    for k in &keys {
        assert!(t.try_insert((*k, *k * 3)).is_inserted());
        assert!(t.block_len(3) <= 20);
    }
    let th = t.meta(3).threshold;
    assert!(th > 0);
    assert!(th <= 10);
    assert_eq!(t.main_len() + t.backyard_len(), 40);
    assert!(t.backyard_len() > 0);
    for k in &keys {
        assert_eq!(t.get(k), Some(&(*k * 3)));
        if t.hash_threshold(*k) < th {
            assert!(t.backyard_contains(k));
        } else {
            assert!(!t.backyard_contains(k));
        }
    }
    for (k, _) in t.block_contents(3) {
        assert!(t.hash_threshold(k) >= th);
        assert_eq!(t.hash_block_index(k), 3);
    }
}

#[test]
fn remove_and_reuse() {
    let mut t = SlickHash::new(100);
    let keys = keys_in_block_above(&t, 6, 0, 5);
    for k in &keys[..4] {
        assert!(t.try_insert((*k, *k + 10)).is_inserted());
    }
    let before = t.block_contents(6);
    assert_eq!(before.len(), 4);
    assert_eq!(t.remove_entry(&keys[1]), Some((keys[1], keys[1] + 10)));
    assert_eq!(t.get(&keys[1]), None);
    assert!(t.try_insert((keys[4], keys[4] + 10)).is_inserted());
    let after = t.block_contents(6);
    assert_eq!(after.len(), 4);
    assert_eq!(after[0], before[0]);
    assert_eq!(after[1], before[3]);
    assert_eq!(after[2], before[2]);
    assert_eq!(after[3], (keys[4], keys[4] + 10));
}

#[test]
fn lookup_after_insert() {
    let mut t = SlickHash::new(50);
    for k in 0..200u64 {
        let r = t.try_insert((k, k + 1000));
        assert!(r.is_inserted());
        assert_eq!(t.get(&k), Some(&(k + 1000)));
    }
    for k in 0..200u64 {
        let r = t.try_insert((k, 5));
        assert!(matches!(r, Insertion::Occupied(v) if v == k + 1000));
        assert_eq!(t.get(&k), Some(&(k + 1000)));
    }
}

#[test]
fn remove_then_get() {
    let mut t = SlickHash::new(50);
    for k in 0..120u64 {
        t.try_insert((k, k));
    }
    for k in (0..120u64).step_by(3) {
        assert_eq!(t.remove_entry(&k), Some((k, k)));
        assert_eq!(t.get(&k), None);
        assert_eq!(t.remove_entry(&k), None);
    }
    for k in 0..120u64 {
        if k % 3 == 0 {
            assert!(!t.contains(&k));
        } else {
            assert_eq!(t.get(&k), Some(&k));
        }
    }
}

#[test]
fn idempotent_reinsert() {
    let mut t = SlickHash::new(30);
    for k in 0..70u64 {
        t.try_insert((k, 1));
    }
    let main = t.main_len();
    let back = t.backyard_len();
    for k in 0..70u64 {
        assert!(!t.try_insert((k, 1)).is_inserted());
    }
    assert_eq!(t.main_len() + t.backyard_len(), main + back);
    assert_eq!(main + back, 70);
}

#[test]
fn population_conservation() {
    let mut t = SlickHash::new(40);
    let mut live = 0usize;
    for k in 0..150u64 {
        if t.try_insert((k * 7919, k)).is_inserted() {
            live += 1;
        }
        assert_eq!(t.main_len() + t.backyard_len(), live);
    }
    for k in 0..150u64 {
        if k % 2 == 1 && t.remove_entry(&(k * 7919)).is_some() {
            live -= 1;
        }
        assert_eq!(t.main_len() + t.backyard_len(), live);
    }
    assert_eq!(live, 75);
    assert_eq!(t.remove_entry(&1), None);
}

#[test]
fn single_block_table() {
    let mut t = SlickHash::new(10);
    assert_eq!(t.number_of_blocks(), 1);
    for k in 0..60u64 {
        assert!(t.try_insert((k, k * k)).is_inserted());
        assert!(t.block_len(0) <= 20);
    }
    for k in 0..60u64 {
        assert_eq!(t.get(&k), Some(&(k * k)));
    }
    assert_eq!(t.main_len() + t.backyard_len(), 60);
}

#[test]
fn extreme_keys() {
    let mut t = SlickHash::new(100);
    assert!(t.try_insert((0, 1)).is_inserted());
    assert!(t.try_insert((u64::MAX, 2)).is_inserted());
    assert_eq!(t.get(&0), Some(&1));
    assert_eq!(t.get(&u64::MAX), Some(&2));
    assert!(t.hash_block_index(u64::MAX) < 10);
}

#[test]
fn hashes_depend_on_the_key() {
    let t = SlickHash::new(1000);
    // a hash that returned the key itself would put every small key in block 0
    assert!((0..100u64).any(|k| t.hash_block_index(k) != 0));
    assert!((0..100u64).any(|k| t.hash_threshold(k) != 0));
    for k in 0..100u64 {
        assert!(t.hash_block_index(k) < 100);
        assert!(t.hash_threshold(k) < 10);
        assert_eq!(t.hash_block_index(k), t.hash_block_index(k));
        assert_eq!(t.hash_threshold(k), t.hash_threshold(k));
    }
}

#[test]
fn through_the_traits() {
    let mut t = <SlickHash as HashTableBase<u64, u64>>::with_capacity(100);
    t.bulk_insert(&[(1, 10), (2, 20), (1, 30)]);
    assert_eq!(HashTableBase::get(&t, &1), Some(&10));
    assert!(HashTableBase::contains(&t, &2));
    assert_eq!(HashTableRemove::remove_entry(&mut t, &2), Some((2, 20)));
    assert!(!HashTableBase::contains(&t, &2));
    assert_eq!(<SlickHash as Named>::name(), "SlickHash");
}

#[test]
fn std_backends_behave_alike() {
    let mut h: HashMap<u64, u64> = HashTableBase::with_capacity(16);
    let mut b: BTreeMap<u64, u64> = HashTableBase::with_capacity(16);
    assert!(HashTableBase::try_insert(&mut h, (3, 30)).is_inserted());
    assert!(HashTableBase::try_insert(&mut b, (3, 30)).is_inserted());
    assert!(matches!(HashTableBase::try_insert(&mut h, (3, 99)), Insertion::Occupied(30)));
    assert!(matches!(HashTableBase::try_insert(&mut b, (3, 99)), Insertion::Occupied(30)));
    assert_eq!(HashTableBase::get(&h, &3), Some(&30));
    assert_eq!(HashTableBase::get(&b, &3), Some(&30));
    assert_eq!(HashTableRemove::remove_entry(&mut h, &3), Some((3, 30)));
    assert_eq!(HashTableRemove::remove_entry(&mut b, &3), Some((3, 30)));
    assert!(!HashTableBase::contains(&h, &3));
    assert!(!HashTableBase::contains(&b, &3));
    assert_eq!(<HashMap<u64, u64> as Named>::name(), "std::collection::HashMap");
    assert_eq!(<BTreeMap<u64, u64> as Named>::name(), "std::collection::BTreeMap");
}

#[test]
fn complete_tables_support_removal() {
    assert!(removable::<SlickHash>());
}

#[test]
fn std_backends_bulk_insert_overwrites() {
    let mut h: HashMap<u64, u64> = HashTableBase::with_capacity(4);
    let mut b: BTreeMap<u64, u64> = HashTableBase::with_capacity(4);
    h.bulk_insert(&[(1, 10), (2, 20), (1, 30)]);
    b.bulk_insert(&[(1, 10), (2, 20), (1, 30)]);
    assert_eq!(HashTableBase::get(&h, &1), Some(&30));
    assert_eq!(HashTableBase::get(&b, &1), Some(&30));
    assert_eq!(HashTableBase::get(&h, &2), Some(&20));
    assert_eq!(HashTableBase::get(&b, &2), Some(&20));
}

#[test]
fn bump_threshold_is_one_above_least() {
    let mut t = SlickHash::new(100);
    let keys = keys_in_block(&t, 3, 0, 60);
    let mut bumps = 0;
    for k in &keys {
        let before = t.block_contents(3);
        let old_threshold = t.meta(3).threshold;
        t.try_insert((*k, 1));
        let new_threshold = t.meta(3).threshold;
        if new_threshold != old_threshold {
            bumps += 1;
            let least = before
                .iter()
                .map(|(key, _)| t.hash_threshold(*key))
                .chain(std::iter::once(t.hash_threshold(*k)))
                .min()
                .unwrap();
            assert_eq!(new_threshold, least + 1);
            for (key, _) in &before {
                assert_eq!(t.backyard_contains(key), t.hash_threshold(*key) < new_threshold);
            }
            assert_eq!(t.backyard_contains(k), t.hash_threshold(*k) < new_threshold);
        }
    }
    assert!(bumps > 0);
}

#[test]
fn present_key_changes_nothing() {
    let mut t = SlickHash::new(100);
    for k in 0..40u64 {
        t.try_insert((k, k));
    }
    let blocks: Vec<_> = (0..10).map(|i| (t.block_contents(i), t.meta(i).gap, t.meta(i).offset)).collect();
    let (main, back) = (t.main_len(), t.backyard_len());
    for k in 0..40u64 {
        assert!(!t.try_insert((k, 99)).is_inserted());
    }
    let after: Vec<_> = (0..10).map(|i| (t.block_contents(i), t.meta(i).gap, t.meta(i).offset)).collect();
    assert_eq!(blocks, after);
    assert_eq!((t.main_len(), t.backyard_len()), (main, back));
}
