//! The SlickHash table: a main table of elastic blocks, per-block
//! thresholds, gap sliding between neighbours, threshold bumping into a
//! backyard map, and the proofs that every operation keeps the table's
//! invariant and acts on the map it stands for as a map should.

use std::collections::HashMap;
use std::hash::BuildHasher;
use vstd::prelude::*;

use crate::hash_table::{
    DefaultHashTableBuild, HashTableBase, HashTableRemove, Insertion, Named,
};

verus! {

broadcast use vstd::std_specs::hash::group_hash_axioms;

/// Nominal number of cells of a block.
pub const BLOCK_SIZE: usize = 10;

/// Largest number of entries that a block may hold.
pub const MAX_SLICK_SIZE: usize = 2 * BLOCK_SIZE;

/// Largest distance that a block's start may drift right of its anchor.
pub const MAX_OFFSET: usize = BLOCK_SIZE;

/// Threshold hashes lie in `[0, MAX_THRESHOLD)`; thresholds in `[0, MAX_THRESHOLD]`.
pub const MAX_THRESHOLD: usize = BLOCK_SIZE;

/// Seeds of the threshold hasher, fixed so that a key always gets the same
/// threshold hash.
pub const THRESHOLD_SEED_0: u64 = 0x243f_6a88_85a3_08d3;

pub const THRESHOLD_SEED_1: u64 = 0x1319_8a2e_0370_7344;

pub const THRESHOLD_SEED_2: u64 = 0xa409_3822_299f_31d0;

pub const THRESHOLD_SEED_3: u64 = 0x082e_fa98_ec4e_6c89;

/// The 64-bit hash that std's `DefaultHasher` gives a key.
pub uninterp spec fn sip_hash_of(key: u64) -> u64;

/// The 64-bit hash that ahash gives a key under the four seeds.
pub uninterp spec fn ahash_of(k0: u64, k1: u64, k2: u64, k3: u64, key: u64) -> u64;

/// Relies on `BuildHasher::hash_one` of std's `BuildHasherDefault<DefaultHasher>`:
/// every `DefaultHasher` made by `new` or `default` hashes alike, so the
/// result depends on the key alone.
#[verifier::external_body]
fn default_hash(key: u64) -> (r: u64)
    ensures
        r == sip_hash_of(key),
{
    std::hash::BuildHasherDefault::<std::collections::hash_map::DefaultHasher>::default().hash_one(
        key,
    )
}

/// Relies on `ahash::RandomState::with_seeds` and `RandomState::hash_one`:
/// states made from the same seeds produce identical hashers, so the result
/// depends on the seeds and the key alone.
#[verifier::external_body]
fn seeded_ahash(k0: u64, k1: u64, k2: u64, k3: u64, key: u64) -> (r: u64)
    ensures
        r == ahash_of(k0, k1, k2, k3, key),
{
    ahash::RandomState::with_seeds(k0, k1, k2, k3).hash_one(key)
}

/// A 64-bit hash scaled into `[0, n)`: `floor(hash * n / 2^64)`.
pub open spec fn scaled(hash: u64, n: int) -> int {
    (hash as int * n) / 0x1_0000_0000_0000_0000int
}

/// Home block of `key` in a table of `n` blocks.
pub open spec fn block_hash(key: u64, n: int) -> int {
    scaled(sip_hash_of(key), n)
}

/// Threshold hash of `key`, in `[0, MAX_THRESHOLD)`.
pub open spec fn threshold_hash(key: u64) -> int {
    scaled(
        ahash_of(THRESHOLD_SEED_0, THRESHOLD_SEED_1, THRESHOLD_SEED_2, THRESHOLD_SEED_3, key),
        MAX_THRESHOLD as int,
    )
}

proof fn lemma_scaled_bounds(hash: u64, n: int)
    requires
        0 < n,
    ensures
        0 <= scaled(hash, n) < n,
{
    let h = hash as int;
    let d = 0x1_0000_0000_0000_0000int;
    assert(0 <= h * n) by (nonlinear_arith)
        requires
            0 <= h,
            0 < n,
    ;
    assert(h * n < d * n) by (nonlinear_arith)
        requires
            0 <= h < d,
            0 < n,
    ;
    assert((h * n) / d < n) by (nonlinear_arith)
        requires
            0 <= h * n < d * n,
            d > 0,
    ;
}

/// `floor(hash * n / 2^64)`, computed on 128 bits.
fn scale(hash: u64, n: usize) -> (r: usize)
    requires
        0 < n,
    ensures
        r as int == scaled(hash, n as int),
        r < n,
{
    proof {
        lemma_scaled_bounds(hash, n as int);
    }
    let h = hash as u128;
    let m = n as u128;
    assert(h * m <= 0xffff_ffff_ffff_ffffu128 * 0xffff_ffff_ffff_ffffu128) by (nonlinear_arith)
        requires
            h <= 0xffff_ffff_ffff_ffffu128,
            m <= 0xffff_ffff_ffff_ffffu128,
    ;
    let p = h * m;
    (p / 0x1_0000_0000_0000_0000u128) as usize
}

/// Per-block record: how far the block's start has drifted right of its
/// anchor, how many unused cells follow its entries, and the least threshold
/// hash that a key must have to be kept in the block.
#[derive(Clone, Copy)]
pub struct SlickHashMetaData {
    pub offset: usize,
    pub gap: usize,
    pub threshold: usize,
}

/// A map from `u64` keys to `u64` values. The main table is cut into blocks
/// of nominally `BLOCK_SIZE` cells whose boundaries move; keys that their
/// home block turns away live in the backyard.
pub struct SlickHash {
    main_table_size: usize,
    number_of_blocks: usize,
    main_table: Vec<(u64, u64)>,
    meta_data: Vec<SlickHashMetaData>,
    backyard: HashMap<u64, u64>,
    no_elements_in_main_table: usize,
    /// The map that the table stands for.
    contents: Ghost<Map<u64, u64>>,
    /// The keys that sit in the main table.
    main_keys: Ghost<Set<u64>>,
}

impl View for SlickHash {
    type V = Map<u64, u64>;

    closed spec fn view(&self) -> Map<u64, u64> {
        self.contents@
    }
}

impl SlickHash {
    // ---------------------------------------------------------------
    // The model
    // ---------------------------------------------------------------
    /// Number of blocks.
    pub closed spec fn spec_blocks(&self) -> int {
        self.number_of_blocks as int
    }

    /// Number of cells of the main table.
    pub closed spec fn spec_size(&self) -> int {
        self.main_table_size as int
    }

    pub closed spec fn spec_offset(&self, i: int) -> int {
        self.meta_data@[i].offset as int
    }

    pub closed spec fn spec_gap(&self, i: int) -> int {
        self.meta_data@[i].gap as int
    }

    pub closed spec fn spec_threshold(&self, i: int) -> int {
        self.meta_data@[i].threshold as int
    }

    /// The cells of the main table.
    pub closed spec fn spec_cells(&self) -> Seq<(u64, u64)> {
        self.main_table@
    }

    /// What the backyard holds.
    pub closed spec fn spec_backyard(&self) -> Map<u64, u64> {
        self.backyard@
    }

    /// The keys that sit in the main table.
    pub closed spec fn spec_main_keys(&self) -> Set<u64> {
        self.main_keys@
    }

    /// The count of entries in the main table that the table keeps.
    pub closed spec fn spec_main_count(&self) -> int {
        self.no_elements_in_main_table as int
    }

    pub open spec fn spec_start(&self, i: int) -> int {
        i * BLOCK_SIZE + self.spec_offset(i)
    }

    pub open spec fn spec_end(&self, i: int) -> int {
        if i == self.spec_blocks() - 1 {
            self.spec_size() - self.spec_gap(i)
        } else {
            (i + 1) * BLOCK_SIZE + self.spec_offset(i + 1) - self.spec_gap(i)
        }
    }

    pub open spec fn spec_len(&self, i: int) -> int {
        self.spec_end(i) - self.spec_start(i)
    }

    /// The entries of block `i`, in the order of its cells.
    pub open spec fn block_entries(&self, i: int) -> Seq<(u64, u64)> {
        self.spec_cells().subrange(self.spec_start(i), self.spec_end(i))
    }

    pub open spec fn home_block(&self, key: u64) -> int {
        block_hash(key, self.spec_blocks())
    }

    /// The main table, its count and every block's offset, gap and threshold
    /// are as in `pre`.
    pub open spec fn main_unchanged(&self, pre: &SlickHash) -> bool {
        &&& self.spec_blocks() == pre.spec_blocks()
        &&& self.spec_size() == pre.spec_size()
        &&& self.spec_cells() == pre.spec_cells()
        &&& self.spec_main_count() == pre.spec_main_count()
        &&& forall|m: int|
            0 <= m < pre.spec_blocks() ==> #[trigger] self.spec_offset(m) == pre.spec_offset(m)
                && self.spec_gap(m) == pre.spec_gap(m) && self.spec_threshold(m) == pre.spec_threshold(m)
    }

    /// `new` is `self` with `key` taken out of block `i` by swap-with-last:
    /// the block's last entry moves into the key's cell, the block ends one
    /// cell earlier and its gap grows by one; every other block keeps its
    /// entries and gap, and the count drops by one.
    pub open spec fn swap_removed(&self, new: &SlickHash, i: int, key: u64) -> bool {
        let os = self.block_entries(i);
        &&& exists|j: int|
            0 <= j < os.len() && (#[trigger] os[j]).0 == key && new.block_entries(i) == os.update(
                j,
                os[os.len() - 1],
            ).subrange(0, os.len() - 1)
        &&& new.spec_gap(i) == self.spec_gap(i) + 1
        &&& new.spec_main_count() == self.spec_main_count() - 1
        &&& forall|m: int|
            0 <= m < self.spec_blocks() && m != i ==> #[trigger] new.block_entries(m)
                == self.block_entries(m) && new.spec_gap(m) == self.spec_gap(m)
    }

    /// Block `j` can lend block `i` a cell of gap from the left: it is the
    /// nearest block at or left of `i` with a gap, every block after it up to
    /// `i` has no gap and a positive offset, and it is not an empty block
    /// with a gap of one.
    pub open spec fn left_lender(&self, i: int, j: int) -> bool {
        &&& 0 <= j <= i
        &&& self.spec_gap(j) > 0
        &&& forall|m: int| j < m <= i ==> #[trigger] self.spec_gap(m) == 0 && self.spec_offset(m) > 0
        &&& !(self.spec_gap(j) == 1 && self.spec_len(j) == 0)
    }

    pub open spec fn can_slide_left(&self, i: int) -> bool {
        exists|j: int| #[trigger] self.left_lender(i, j)
    }

    /// Block `j` can lend block `i` a cell of gap from the right: it is the
    /// nearest block right of `i` with a gap, below the offset cap like every
    /// block between them (which have no gap), and it is not an empty block
    /// with a gap of one.
    pub open spec fn right_lender(&self, i: int, j: int) -> bool {
        &&& i < j < self.spec_blocks()
        &&& self.spec_gap(j) > 0
        &&& self.spec_offset(j) < MAX_OFFSET
        &&& forall|m: int| i < m < j ==> #[trigger] self.spec_gap(m) == 0 && self.spec_offset(m) < MAX_OFFSET
        &&& !(self.spec_gap(j) == 1 && self.spec_len(j) == 0)
    }

    pub open spec fn can_slide_right(&self, i: int) -> bool {
        exists|j: int| #[trigger] self.right_lender(i, j)
    }

    /// Metadata after a left slide from `j` to `i`: the offsets of blocks
    /// `j+1..=i` drop by one, the gap of `j` drops by one, thresholds and
    /// every other offset and gap but that of `i` stay.
    pub open spec fn moved_left(&self, pre: &SlickHash, j: int, i: int) -> bool {
        &&& self.spec_blocks() == pre.spec_blocks()
        &&& forall|m: int|
            0 <= m < pre.spec_blocks() ==> #[trigger] self.spec_offset(m) == pre.spec_offset(m) - (if j < m
                <= i {
                1int
            } else {
                0int
            }) && self.spec_threshold(m) == pre.spec_threshold(m) && (m != i ==> self.spec_gap(m)
                == pre.spec_gap(m) - (if m == j {
                1int
            } else {
                0int
            }))
    }

    /// Metadata after a right slide from `j` to `i`: the offsets of blocks
    /// `i+1..=j` rise by one, the gap of `j` drops by one, thresholds and
    /// every other offset and gap but that of `i` stay.
    pub open spec fn moved_right(&self, pre: &SlickHash, j: int, i: int) -> bool {
        &&& self.spec_blocks() == pre.spec_blocks()
        &&& forall|m: int|
            0 <= m < pre.spec_blocks() ==> #[trigger] self.spec_offset(m) == pre.spec_offset(m) + (if i < m
                <= j {
                1int
            } else {
                0int
            }) && self.spec_threshold(m) == pre.spec_threshold(m) && (m != i ==> self.spec_gap(m)
                == pre.spec_gap(m) - (if m == j {
                1int
            } else {
                0int
            }))
    }

    /// Block `i` must bump: it is full, or it has no gap and none can be
    /// slid to it.
    pub open spec fn no_space(&self, i: int) -> bool {
        self.spec_len(i) >= MAX_SLICK_SIZE || (self.spec_gap(i) == 0 && !self.can_slide_left(i)
            && !self.can_slide_right(i))
    }

    /// Sum of the lengths of the first `n` blocks.
    pub open spec fn total_len(&self, n: int) -> int
        decreases n,
    {
        if n <= 0 {
            0
        } else {
            self.total_len(n - 1) + self.spec_len(n - 1)
        }
    }

    /// Shape of the table: block boundaries in order, sizes, offsets and
    /// thresholds within their caps.
    pub open spec fn layout_ok(&self) -> bool {
        &&& 0 < self.spec_blocks()
        &&& self.spec_size() == self.spec_blocks() * BLOCK_SIZE
        &&& self.spec_cells().len() == self.spec_size()
        &&& self.meta_data_len() == self.spec_blocks()
        &&& self.spec_offset(0) == 0
        &&& forall|i: int| 0 <= i < self.spec_blocks() ==> #[trigger] self.block_layout_ok(i)
    }

    pub closed spec fn meta_data_len(&self) -> int {
        self.meta_data@.len() as int
    }

    pub open spec fn block_layout_ok(&self, i: int) -> bool {
        &&& self.spec_offset(i) <= MAX_OFFSET
        &&& self.spec_threshold(i) <= MAX_THRESHOLD
        &&& self.spec_start(i) <= self.spec_end(i)
        &&& i + 1 < self.spec_blocks() ==> self.spec_end(i) <= self.spec_start(i + 1)
        &&& self.spec_len(i) <= MAX_SLICK_SIZE
    }

    /// What an entry of block `i` satisfies: block `i` is its key's home,
    /// its threshold hash reaches the block's threshold, and it is what the
    /// map holds for its key.
    pub open spec fn entry_ok(&self, i: int, e: (u64, u64)) -> bool {
        self.entry_ok_at(i, e, self.spec_threshold(i))
    }

    /// `entry_ok`, against the threshold `t`.
    pub open spec fn entry_ok_at(&self, i: int, e: (u64, u64), t: int) -> bool {
        &&& self.home_block(e.0) == i
        &&& threshold_hash(e.0) >= t
        &&& self.spec_main_keys().contains(e.0)
        &&& self@.contains_key(e.0)
        &&& self@[e.0] == e.1
    }

    /// Entries of block `i`: each in order, no key twice.
    pub open spec fn block_ok(&self, i: int) -> bool {
        let s = self.block_entries(i);
        &&& forall|j: int| 0 <= j < s.len() ==> #[trigger] self.entry_ok(i, s[j])
        &&& forall|a: int, b: int| 0 <= a < b < s.len() ==> #[trigger] s[a].0 != #[trigger] s[b].0
    }

    /// Key `k` sits in block `i`.
    pub open spec fn block_has(&self, i: int, k: u64) -> bool {
        exists|j: int| 0 <= j < self.spec_len(i) && (#[trigger] self.block_entries(i)[j]).0 == k
    }

    /// What the main table and the backyard hold together is the map; a key
    /// of the backyard has a threshold hash below its home block's threshold.
    pub open spec fn contents_ok(&self) -> bool {
        &&& forall|i: int| 0 <= i < self.spec_blocks() ==> #[trigger] self.block_ok(i)
        &&& self.keys_ok()
    }

    /// Where each key of the map sits, and how many there are.
    pub open spec fn keys_ok(&self) -> bool {
        &&& forall|k: u64| #[trigger]
            self.spec_main_keys().contains(k) ==> self.block_has(self.home_block(k), k)
        &&& forall|k: u64| #[trigger]
            self.spec_backyard().contains_key(k) ==> {
                &&& threshold_hash(k) < self.spec_threshold(self.home_block(k))
                &&& !self.spec_main_keys().contains(k)
                &&& self@.contains_key(k)
                &&& self@[k] == self.spec_backyard()[k]
            }
        &&& self@.dom() == self.spec_main_keys().union(self.spec_backyard().dom())
        &&& self@.dom().finite()
        &&& self.spec_main_keys().finite()
        &&& self.spec_main_keys().len() == self.spec_main_count()
        &&& self.spec_main_count() == self.total_len(self.spec_blocks())
    }

    /// The table's invariant. Its layout: every block starts no later than
    /// it ends and ends no later than the next block starts, holds at most
    /// `MAX_SLICK_SIZE` entries, and keeps its offset and threshold within
    /// their caps. Its contents: every entry of block `i` has home block `i`
    /// and a threshold hash at least the block's threshold; every key of the
    /// backyard has a threshold hash below its home block's threshold; the
    /// main-table count is the sum of the block lengths; and the main table
    /// and the backyard together hold exactly the map.
    pub open spec fn well_formed(&self) -> bool {
        self.layout_ok() && self.contents_ok()
    }

    proof fn lemma_home_block_bounds(&self, key: u64)
        requires
            self.layout_ok(),
        ensures
            0 <= self.home_block(key) < self.spec_blocks(),
    {
        lemma_scaled_bounds(sip_hash_of(key), self.spec_blocks());
    }

    /// A gap never spans more than two nominal blocks.
    proof fn lemma_gap_bound(&self, i: int)
        requires
            self.layout_ok(),
            0 <= i < self.spec_blocks(),
        ensures
            0 <= self.spec_gap(i) <= MAX_SLICK_SIZE,
    {
        assert(self.block_layout_ok(i));
        if i + 1 < self.spec_blocks() {
            assert(self.block_layout_ok(i + 1));
        }
    }

    /// Every block ends inside the table.
    proof fn lemma_end_in_table(&self, i: int)
        requires
            self.layout_ok(),
            0 <= i < self.spec_blocks(),
        ensures
            0 <= self.spec_start(i) <= self.spec_end(i) <= self.spec_size(),
    {
        assert(self.block_layout_ok(i));
        if i + 1 < self.spec_blocks() {
            assert(self.block_layout_ok(i + 1));
        }
    }
}


impl SlickHash {
    proof fn lemma_total_len_zero(&self, n: int)
        requires
            0 <= n <= self.spec_blocks(),
            forall|i: int| 0 <= i < n ==> #[trigger] self.spec_len(i) == 0,
        ensures
            self.total_len(n) == 0,
        decreases n,
    {
        if n > 0 {
            self.lemma_total_len_zero(n - 1);
        }
    }

    /// A table of `capacity` cells: `capacity / BLOCK_SIZE` blocks, each with
    /// offset 0, gap `BLOCK_SIZE` and threshold 0, and an empty backyard.
    pub fn new(capacity: usize) -> (r: Self)
        requires
            capacity > 0,
            capacity % BLOCK_SIZE == 0,
        ensures
            r.well_formed(),
            r@ == Map::<u64, u64>::empty(),
            r.spec_size() == capacity,
            r.spec_blocks() == capacity / BLOCK_SIZE,
            forall|i: int|
                0 <= i < r.spec_blocks() ==> #[trigger] r.spec_offset(i) == 0 && r.spec_gap(i)
                    == BLOCK_SIZE && r.spec_threshold(i) == 0,
            r.spec_backyard() == Map::<u64, u64>::empty(),
            r.spec_main_count() == 0,
    {
        let main_table_size = capacity;
        let number_of_blocks: usize = main_table_size / BLOCK_SIZE;
        let main_table: Vec<(u64, u64)> = vec![(0u64, 0u64); capacity];
        let mut meta_data: Vec<SlickHashMetaData> = Vec::with_capacity(number_of_blocks);
        let mut b: usize = 0;
        while b < number_of_blocks
            invariant
                b <= number_of_blocks,
                meta_data@.len() == b,
                forall|j: int|
                    0 <= j < b ==> (#[trigger] meta_data@[j]).offset == 0 && meta_data@[j].gap
                        == BLOCK_SIZE && meta_data@[j].threshold == 0,
            decreases number_of_blocks - b,
        {
            meta_data.push(SlickHashMetaData { offset: 0, gap: BLOCK_SIZE, threshold: 0 });
            b = b + 1;
        }
        let r = SlickHash {
            main_table_size,
            number_of_blocks,
            main_table,
            meta_data,
            backyard: HashMap::new(),
            no_elements_in_main_table: 0,
            contents: Ghost(Map::empty()),
            main_keys: Ghost(Set::empty()),
        };
        proof {
            assert forall|i: int| 0 <= i < r.spec_blocks() implies #[trigger] r.spec_len(i) == 0 by {
                assert(r.meta_data@[i].offset == 0);
                if i + 1 < r.spec_blocks() {
                    assert(r.meta_data@[i + 1].offset == 0);
                }
            }
            assert forall|i: int| 0 <= i < r.spec_blocks() implies #[trigger] r.block_layout_ok(
                i,
            ) by {
                assert(r.spec_len(i) == 0);
                if i + 1 < r.spec_blocks() {
                    assert(r.meta_data@[i + 1].offset == 0);
                }
            }
            assert forall|i: int| 0 <= i < r.spec_blocks() implies #[trigger] r.block_ok(i) by {
                assert(r.spec_len(i) == 0);
            }
            r.lemma_total_len_zero(r.spec_blocks());
            assert(r@.dom() =~= r.spec_main_keys().union(r.spec_backyard().dom()));
        }
        r
    }

    /// Table of the given capacity.
    pub fn with_capacity(capacity: usize) -> (r: Self)
        requires
            capacity > 0,
            capacity % BLOCK_SIZE == 0,
        ensures
            r.well_formed(),
            r@ == Map::<u64, u64>::empty(),
            r.spec_size() == capacity,
            r.spec_blocks() == capacity / BLOCK_SIZE,
            forall|i: int|
                0 <= i < r.spec_blocks() ==> #[trigger] r.spec_offset(i) == 0 && r.spec_gap(i)
                    == BLOCK_SIZE && r.spec_threshold(i) == 0,
            r.spec_backyard() == Map::<u64, u64>::empty(),
            r.spec_main_count() == 0,
    {
        SlickHash::new(capacity)
    }

    /// Number of blocks.
    pub fn number_of_blocks(&self) -> (r: usize)
        ensures
            r == self.spec_blocks(),
    {
        self.number_of_blocks
    }

    /// The metadata of block `block_index`.
    pub fn meta(&self, block_index: usize) -> (r: SlickHashMetaData)
        requires
            self.well_formed(),
            block_index < self.spec_blocks(),
        ensures
            r.offset == self.spec_offset(block_index as int),
            r.gap == self.spec_gap(block_index as int),
            r.threshold == self.spec_threshold(block_index as int),
    {
        self.meta_data[block_index]
    }

    /// Number of entries in the main table.
    pub fn main_len(&self) -> (r: usize)
        ensures
            r == self.spec_main_count(),
    {
        self.no_elements_in_main_table
    }

    /// Number of entries in the backyard.
    pub fn backyard_len(&self) -> (r: usize)
        requires
            self.well_formed(),
        ensures
            r == self.spec_backyard().len(),
    {
        self.backyard.len()
    }

    /// First cell of block `block_index`.
    pub fn block_start(&self, block_index: usize) -> (r: usize)
        requires
            self.layout_ok(),
            block_index < self.spec_blocks(),
        ensures
            r == self.spec_start(block_index as int),
    {
        proof {
            self.lemma_end_in_table(block_index as int);
        }
        BLOCK_SIZE * block_index + self.meta_data[block_index].offset
    }

    /// One past the last entry of block `block_index`.
    pub fn block_end(&self, block_index: usize) -> (r: usize)
        requires
            self.layout_ok(),
            block_index < self.spec_blocks(),
        ensures
            r == self.spec_end(block_index as int),
    {
        proof {
            self.lemma_end_in_table(block_index as int);
            if block_index + 1 < self.spec_blocks() {
                self.lemma_end_in_table(block_index + 1);
            }
        }
        if block_index == self.number_of_blocks - 1 {
            return self.main_table_size - self.meta_data[block_index].gap;
        }
        BLOCK_SIZE * block_index + BLOCK_SIZE + self.meta_data[block_index + 1].offset
            - self.meta_data[block_index].gap
    }

    /// The cells `[start, end)` of block `block_index`.
    pub fn block_range(&self, block_index: usize) -> (r: (usize, usize))
        requires
            self.layout_ok(),
            block_index < self.spec_blocks(),
        ensures
            r.0 == self.spec_start(block_index as int),
            r.1 == self.spec_end(block_index as int),
            r.0 <= r.1 <= self.spec_size(),
    {
        proof {
            self.lemma_end_in_table(block_index as int);
        }
        let start = self.block_start(block_index);
        let end = self.block_end(block_index);
        (start, end)
    }

    /// Home block of `key`.
    pub fn hash_block_index(&self, key: u64) -> (r: usize)
        requires
            self.layout_ok(),
        ensures
            r == self.home_block(key),
            r < self.spec_blocks(),
    {
        let hash = default_hash(key);
        scale(hash, self.number_of_blocks)
    }

    /// Threshold hash of `key`.
    pub fn hash_threshold(&self, key: u64) -> (r: usize)
        ensures
            r == threshold_hash(key),
            r < MAX_THRESHOLD,
    {
        let hash = seeded_ahash(
            THRESHOLD_SEED_0,
            THRESHOLD_SEED_1,
            THRESHOLD_SEED_2,
            THRESHOLD_SEED_3,
            key,
        );
        scale(hash, MAX_THRESHOLD)
    }

    /// Index in `[start, end)` of the cell that holds `key`, if any.
    fn find_in_block(&self, block_index: usize, key: u64) -> (r: Option<usize>)
        requires
            self.layout_ok(),
            block_index < self.spec_blocks(),
        ensures
            match r {
                Some(p) => self.spec_start(block_index as int) <= p < self.spec_end(
                    block_index as int,
                ) && self.spec_cells()[p as int].0 == key,
                None => forall|j: int|
                    0 <= j < self.spec_len(block_index as int) ==> (#[trigger] self.block_entries(
                        block_index as int,
                    )[j]).0 != key,
            },
    {
        let (start, end) = self.block_range(block_index);
        let mut p = start;
        while p < end
            invariant
                self.layout_ok(),
                block_index < self.spec_blocks(),
                start == self.spec_start(block_index as int),
                end == self.spec_end(block_index as int),
                start <= p <= end <= self.spec_size(),
                forall|q: int| start <= q < p ==> (#[trigger] self.spec_cells()[q]).0 != key,
            decreases end - p,
        {
            if self.main_table[p].0 == key {
                return Some(p);
            }
            p = p + 1;
        }
        proof {
            assert forall|j: int| 0 <= j < self.spec_len(block_index as int) implies (
            #[trigger] self.block_entries(block_index as int)[j]).0 != key by {
                assert(self.block_entries(block_index as int)[j] == self.spec_cells()[start + j]);
            }
        }
        None
    }

    /// In a well-formed table, a key whose threshold hash reaches its home
    /// block's threshold is in the map exactly when it sits in that block.
    pub proof fn lemma_main_side(&self, key: u64)
        requires
            self.well_formed(),
            threshold_hash(key) >= self.spec_threshold(self.home_block(key)),
        ensures
            !self.spec_backyard().contains_key(key),
            self@.contains_key(key) <==> self.spec_main_keys().contains(key),
            self.spec_main_keys().contains(key) ==> self.block_has(self.home_block(key), key),
    {
        if self.spec_backyard().contains_key(key) {
        }
        assert(self@.dom().contains(key) == self.spec_main_keys().union(
            self.spec_backyard().dom(),
        ).contains(key));
    }

    /// In a well-formed table, a key whose threshold hash is below its home
    /// block's threshold is found in the backyard, if anywhere.
    pub proof fn lemma_backyard_side(&self, key: u64)
        requires
            self.well_formed(),
            threshold_hash(key) < self.spec_threshold(self.home_block(key)),
        ensures
            !self.spec_main_keys().contains(key),
            self@.contains_key(key) <==> self.spec_backyard().contains_key(key),
            self.spec_backyard().contains_key(key) ==> self@[key] == self.spec_backyard()[key],
    {
        if self.spec_main_keys().contains(key) {
            let i = self.home_block(key);
            self.lemma_home_block_bounds(key);
            self.lemma_end_in_table(i);
            assert(self.block_has(i, key));
            let j = choose|j: int| 0 <= j < self.spec_len(i) && (#[trigger] self.block_entries(i)[j]).0 == key;
            assert(self.block_ok(i));
            assert(self.entry_ok(i, self.block_entries(i)[j]));
        }
        assert(self@.dom().contains(key) == self.spec_main_keys().union(
            self.spec_backyard().dom(),
        ).contains(key));
    }

    /// The value that the map holds for `key`, if any. Only the region that
    /// the key's threshold hash picks is consulted: the backyard when it is
    /// below the home block's threshold, the home block otherwise.
    pub fn get(&self, key: &u64) -> (r: Option<&u64>)
        requires
            self.well_formed(),
        ensures
            r == match self@.get(*key) {
                Some(v) => Some(&v),
                None => None::<&u64>,
            },
    {
        let key = *key;
        let block_index = self.hash_block_index(key);
        if self.hash_threshold(key) < self.meta_data[block_index].threshold {
            proof {
                self.lemma_backyard_side(key);
            }
            return self.backyard.get(&key);
        }
        proof {
            self.lemma_main_side(key);
        }
        match self.find_in_block(block_index, key) {
            Some(p) => {
                proof {
                    let i = block_index as int;
                    let j = p - self.spec_start(i);
                    self.lemma_end_in_table(i);
                    assert(self.block_entries(i)[j] == self.spec_cells()[p as int]);
                    assert(self.block_ok(i));
                    assert(self.entry_ok(i, self.block_entries(i)[j]));
                }
                Some(&self.main_table[p].1)
            },
            None => {
                proof {
                    if self.spec_main_keys().contains(key) {
                        assert(self.block_has(block_index as int, key));
                    }
                }
                None
            },
        }
    }

    /// Whether the map holds `key`.
    pub fn contains(&self, key: &u64) -> (r: bool)
        requires
            self.well_formed(),
        ensures
            r == self@.contains_key(*key),
    {
        self.get(key).is_some()
    }
}


impl SlickHash {
    /// Blocks lie in order: a block ends before any later block starts.
    proof fn lemma_ordered(&self, a: int, b: int)
        requires
            self.layout_ok(),
            0 <= a < b < self.spec_blocks(),
        ensures
            self.spec_end(a) <= self.spec_start(b),
            self.spec_start(a) <= self.spec_start(b),
        decreases b - a,
    {
        assert(self.block_layout_ok(a));
        if a + 1 < b {
            self.lemma_ordered(a + 1, b);
            assert(self.block_layout_ok(a + 1));
        }
    }

    /// First cell after the region of block `i`: its entries and its gap.
    pub open spec fn region_end(&self, i: int) -> int {
        if i + 1 < self.spec_blocks() {
            self.spec_start(i + 1)
        } else {
            self.spec_size()
        }
    }

    /// When only block `i` and its gap change, the other blocks keep their
    /// entries.
    proof fn lemma_frame(old: &SlickHash, new: &SlickHash, i: int)
        requires
            old.layout_ok(),
            new.layout_ok(),
            0 <= i < old.spec_blocks(),
            new.spec_blocks() == old.spec_blocks(),
            new.spec_size() == old.spec_size(),
            forall|m: int| 0 <= m < old.spec_blocks() ==> #[trigger] new.spec_offset(m) == old.spec_offset(m),
            forall|m: int| 0 <= m < old.spec_blocks() && m != i ==> #[trigger] new.spec_gap(m) == old.spec_gap(m),
            forall|p: int|
                0 <= p < old.spec_size() && !(old.spec_start(i) <= p < old.region_end(i))
                    ==> #[trigger] new.spec_cells()[p] == old.spec_cells()[p],
        ensures
            forall|m: int|
                0 <= m < old.spec_blocks() && m != i ==> #[trigger] new.block_entries(m)
                    == old.block_entries(m),
    {
        assert forall|m: int| 0 <= m < old.spec_blocks() && m != i implies #[trigger] new.block_entries(m)
            == old.block_entries(m) by {
            old.lemma_end_in_table(m);
            new.lemma_end_in_table(m);
            assert(new.spec_start(m) == old.spec_start(m));
            assert(new.spec_end(m) == old.spec_end(m));
            if m < i {
                old.lemma_ordered(m, i);
            } else {
                old.lemma_ordered(i, m);
                if i + 1 < m {
                    old.lemma_ordered(i + 1, m);
                }
            }
            assert(new.block_entries(m) =~= old.block_entries(m));
        }
    }

    /// Changing the length of block `i` by `d` changes the sum of the block
    /// lengths by `d`.
    proof fn lemma_total_len_delta(old: &SlickHash, new: &SlickHash, i: int, d: int, n: int)
        requires
            0 <= i < n,
            forall|m: int| 0 <= m < n && m != i ==> #[trigger] new.spec_len(m) == old.spec_len(m),
            new.spec_len(i) == old.spec_len(i) + d,
        ensures
            new.total_len(n) == old.total_len(n) + d,
        decreases n,
    {
        if n - 1 > i {
            SlickHash::lemma_total_len_delta(old, new, i, d, n - 1);
        } else {
            SlickHash::lemma_total_len_same(old, new, n - 1);
        }
    }

    proof fn lemma_total_len_same(old: &SlickHash, new: &SlickHash, n: int)
        requires
            forall|m: int| 0 <= m < n ==> #[trigger] new.spec_len(m) == old.spec_len(m),
        ensures
            new.total_len(n) == old.total_len(n),
        decreases n,
    {
        if n > 0 {
            SlickHash::lemma_total_len_same(old, new, n - 1);
        }
    }

    /// Entries of well-formed blocks other than `i` keep their properties
    /// when the map changes only at keys homed in block `i`.
    proof fn lemma_other_blocks_ok(old: &SlickHash, new: &SlickHash, i: int)
        requires
            old.well_formed(),
            new.layout_ok(),
            0 <= i < old.spec_blocks(),
            new.spec_blocks() == old.spec_blocks(),
            forall|m: int|
                0 <= m < old.spec_blocks() && m != i ==> #[trigger] new.block_entries(m)
                    == old.block_entries(m) && new.spec_threshold(m) == old.spec_threshold(m),
            forall|k: u64|
                old.home_block(k) != i ==> (#[trigger] new.spec_main_keys().contains(k)
                    == old.spec_main_keys().contains(k) && new@.contains_key(k)
                    == old@.contains_key(k) && new@[k] == old@[k]),
        ensures
            forall|m: int| 0 <= m < old.spec_blocks() && m != i ==> #[trigger] new.block_ok(m),
    {
        assert forall|m: int| 0 <= m < old.spec_blocks() && m != i implies #[trigger] new.block_ok(
            m,
        ) by {
            assert(old.block_ok(m));
            let s = new.block_entries(m);
            assert forall|j: int| 0 <= j < s.len() implies #[trigger] new.entry_ok(m, s[j]) by {
                assert(old.entry_ok(m, old.block_entries(m)[j]));
            }
        }
    }
}


impl SlickHash {
    /// Takes `key` out of the map and hands back its entry, if it was there.
    /// A key of the main table leaves its block by swap-with-last: the last
    /// entry of the block moves into its cell and the block's gap grows by
    /// one. Thresholds never go down.
    #[verifier::rlimit(40)]
    pub fn remove_entry(&mut self, key: &u64) -> (r: Option<(u64, u64)>)
        requires
            old(self).well_formed(),
        ensures
            final(self).well_formed(),
            final(self)@ == old(self)@.remove(*key),
            r == match old(self)@.get(*key) {
                Some(v) => Some((*key, v)),
                None => None::<(u64, u64)>,
            },
            final(self).spec_blocks() == old(self).spec_blocks(),
            forall|i: int|
                0 <= i < old(self).spec_blocks() ==> #[trigger] final(self).spec_threshold(i)
                    == old(self).spec_threshold(i) && final(self).spec_offset(i) == old(self).spec_offset(i),
            !old(self)@.contains_key(*key) ==> final(self).main_unchanged(old(self))
                && final(self).spec_backyard() == old(self).spec_backyard(),
            threshold_hash(*key) < old(self).spec_threshold(old(self).home_block(*key))
                ==> final(self).main_unchanged(old(self)) && final(self).spec_backyard() == old(
                self).spec_backyard().remove(*key),
            threshold_hash(*key) >= old(self).spec_threshold(old(self).home_block(*key))
                ==> final(self).spec_backyard() == old(self).spec_backyard(),
            threshold_hash(*key) >= old(self).spec_threshold(old(self).home_block(*key))
                && old(self)@.contains_key(*key) ==> old(self).swap_removed(
                final(self),
                old(self).home_block(*key),
                *key,
            ),
    {
        let key = *key;
        let block_index = self.hash_block_index(key);
        if self.hash_threshold(key) < self.meta_data[block_index].threshold {
            proof {
                self.lemma_backyard_side(key);
            }
            let ghost pre = *self;
            let removed = self.backyard.remove(&key);
            proof {
                self.contents@ = self.contents@.remove(key);
                assert forall|m: int| 0 <= m < self.spec_blocks() implies #[trigger] self.spec_threshold(m)
                    == pre.spec_threshold(m) && self.spec_offset(m) == pre.spec_offset(m) && self.spec_gap(m)
                    == pre.spec_gap(m) by {
                }
                assert(self.spec_backyard() == pre.spec_backyard().remove(key));
                assert(forall|i: int| 0 <= i < self.spec_blocks() ==> #[trigger] self.block_entries(i)
                    == pre.block_entries(i));
                assert forall|i: int| 0 <= i < self.spec_blocks() implies #[trigger] self.block_ok(i) by {
                    assert(pre.block_ok(i));
                    let s = self.block_entries(i);
                    assert forall|j: int| 0 <= j < s.len() implies #[trigger] self.entry_ok(i, s[j]) by {
                        assert(pre.entry_ok(i, pre.block_entries(i)[j]));
                    }
                }
                assert(self@.dom() =~= self.spec_main_keys().union(self.spec_backyard().dom()));
                assert forall|k: u64| #[trigger] self.spec_main_keys().contains(k) implies self.block_has(
                    self.home_block(k),
                    k,
                ) by {
                    let h = pre.home_block(k);
                    pre.lemma_home_block_bounds(k);
                    assert(pre.block_has(h, k));
                    assert(self.block_entries(h) == pre.block_entries(h));
                }
                SlickHash::lemma_total_len_same(&pre, self, self.spec_blocks());
                assert(forall|i: int| 0 <= i < self.spec_blocks() ==> #[trigger] self.block_layout_ok(i)
                    == pre.block_layout_ok(i));
            }
            return match removed {
                Some(v) => Some((key, v)),
                None => None,
            };
        }
        proof {
            self.lemma_main_side(key);
        }
        match self.find_in_block(block_index, key) {
            None => {
                proof {
                    if self.spec_main_keys().contains(key) {
                        assert(self.block_has(block_index as int, key));
                    }
                    assert(self@.remove(key) =~= self@);
                }
                None
            },
            Some(p) => {
                let ghost pre = *self;
                let ghost i = block_index as int;
                let ghost os = pre.block_entries(i);
                let ghost n = os.len() as int;
                let ghost j = p - pre.spec_start(i);
                proof {
                    self.lemma_end_in_table(i);
                    assert(os[j] == pre.spec_cells()[p as int]);
                    assert(pre.block_ok(i));
                    assert(pre.entry_ok(i, os[j]));
                    self.lemma_total_len_ge(i, self.spec_blocks());
                }
                let pair = self.main_table[p];
                self.swap_remove_cell(block_index, p);
                let ghost after = *self;
                proof {
                    self.contents@ = self.contents@.remove(key);
                    self.main_keys@ = self.main_keys@.remove(key);
                    assert forall|m: int| 0 <= m < self.spec_blocks() implies #[trigger] self.block_entries(m)
                        == after.block_entries(m) && self.spec_gap(m) == after.spec_gap(m)
                        && self.spec_threshold(m) == after.spec_threshold(m) && self.spec_offset(m)
                        == after.spec_offset(m) by {
                    }
                    assert forall|m: int| 0 <= m < self.spec_blocks() implies #[trigger] self.spec_threshold(m)
                        == pre.spec_threshold(m) && self.spec_offset(m) == pre.spec_offset(m) by {
                        assert(after.spec_threshold(m) == pre.spec_threshold(m));
                        assert(after.spec_offset(m) == pre.spec_offset(m));
                    }
                    assert(self.layout_ok()) by {
                        assert forall|m: int| 0 <= m < self.spec_blocks() implies #[trigger] self.block_layout_ok(m) by {
                            assert(after.block_layout_ok(m));
                        }
                    }
                    SlickHash::lemma_total_len_same(&after, self, self.spec_blocks());
                    let ns = self.block_entries(i);
                    assert(ns == os.update(j, os[n - 1]).subrange(0, n - 1));
                    assert forall|a: int| 0 <= a < n && a != j implies #[trigger] os[a].0 != key by {
                        if a < j {
                            assert(os[a].0 != os[j].0);
                        } else {
                            assert(os[j].0 != os[a].0);
                        }
                    }
                    assert forall|m: int| 0 <= m < self.spec_blocks() && m != i implies #[trigger] self.block_ok(m) by {
                        assert(pre.block_ok(m));
                        let sm = self.block_entries(m);
                        assert(sm == pre.block_entries(m));
                        assert forall|q: int| 0 <= q < sm.len() implies #[trigger] self.entry_ok(m, sm[q]) by {
                            assert(pre.entry_ok(m, sm[q]));
                        }
                    }
                    assert(self.block_ok(i)) by {
                        assert forall|b: int| 0 <= b < ns.len() implies #[trigger] self.entry_ok(i, ns[b]) by {
                            let a = if b == j { n - 1 } else { b };
                            assert(ns[b] == os[a]);
                            assert(pre.entry_ok(i, os[a]));
                        }
                        assert forall|a: int, b: int| 0 <= a < b < ns.len() implies #[trigger] ns[a].0 != #[trigger] ns[b].0 by {
                            let a2 = if a == j { n - 1 } else { a };
                            let b2 = if b == j { n - 1 } else { b };
                            if a2 < b2 {
                                assert(os[a2].0 != os[b2].0);
                            } else {
                                assert(os[b2].0 != os[a2].0);
                            }
                        }
                    }
                    assert forall|k: u64| #[trigger] self.spec_main_keys().contains(k) implies self.block_has(
                        self.home_block(k),
                        k,
                    ) by {
                        assert(pre.block_has(pre.home_block(k), k));
                        let h = pre.home_block(k);
                        pre.lemma_home_block_bounds(k);
                        let jj = choose|jj: int| 0 <= jj < pre.spec_len(h) && (#[trigger] pre.block_entries(h)[jj]).0 == k;
                        if h == i {
                            let b = if jj == n - 1 { j } else { jj };
                            assert(ns[b].0 == k);
                        } else {
                            assert(self.block_entries(h)[jj].0 == k);
                        }
                    }
                    assert forall|k: u64| #[trigger] self.spec_backyard().contains_key(k) implies {
                        &&& threshold_hash(k) < self.spec_threshold(self.home_block(k))
                        &&& !self.spec_main_keys().contains(k)
                        &&& self@.contains_key(k)
                        &&& self@[k] == self.spec_backyard()[k]
                    } by {
                        assert(pre.spec_backyard().contains_key(k));
                        pre.lemma_home_block_bounds(k);
                    }
                    assert(self@.dom() =~= self.spec_main_keys().union(self.spec_backyard().dom()));
                    assert(0 <= j < os.len() && os[j].0 == key);
                    assert(self.spec_gap(i) == pre.spec_gap(i) + 1);
                    assert forall|m: int| 0 <= m < pre.spec_blocks() && m != i implies #[trigger] self.block_entries(m)
                        == pre.block_entries(m) && self.spec_gap(m) == pre.spec_gap(m) by {
                        assert(after.block_entries(m) == pre.block_entries(m));
                        assert(after.spec_gap(m) == pre.spec_gap(m));
                    }
                    assert(pre.swap_removed(self, i, key));
                }
                Some(pair)
            },
        }
    }
}


impl SlickHash {
    /// Moves the last entry of block `block_index` into cell `p` and gives
    /// the freed cell to the block's gap.
    fn swap_remove_cell(&mut self, block_index: usize, p: usize)
        requires
            old(self).layout_ok(),
            block_index < old(self).spec_blocks(),
            old(self).spec_start(block_index as int) <= p < old(self).spec_end(block_index as int),
            old(self).spec_main_count() > 0,
        ensures
            final(self).layout_ok(),
            final(self).number_of_blocks == old(self).number_of_blocks,
            final(self).main_table_size == old(self).main_table_size,
            final(self).contents == old(self).contents,
            final(self).main_keys == old(self).main_keys,
            final(self).backyard == old(self).backyard,
            final(self).spec_main_count() == old(self).spec_main_count() - 1,
            forall|m: int|
                0 <= m < old(self).spec_blocks() ==> #[trigger] final(self).spec_offset(m)
                    == old(self).spec_offset(m),
            forall|m: int|
                0 <= m < old(self).spec_blocks() ==> #[trigger] final(self).spec_threshold(m)
                    == old(self).spec_threshold(m),
            forall|m: int|
                0 <= m < old(self).spec_blocks() && m != block_index ==> #[trigger] final(self).block_entries(m) == old(self).block_entries(m) && final(self).spec_gap(m)
                    == old(self).spec_gap(m) && final(self).spec_len(m) == old(self).spec_len(m),
            final(self).spec_gap(block_index as int) == old(self).spec_gap(block_index as int) + 1,
            final(self).spec_len(block_index as int) == old(self).spec_len(block_index as int) - 1,
            ({
                let os = old(self).block_entries(block_index as int);
                let j = p - old(self).spec_start(block_index as int);
                final(self).block_entries(block_index as int) == os.update(j, os[os.len() - 1]).subrange(
                    0,
                    os.len() - 1,
                )
            }),
            final(self).total_len(final(self).spec_blocks()) == old(self).total_len(
                old(self).spec_blocks(),
            ) - 1,
    {
        let ghost pre = *self;
        let ghost i = block_index as int;
        let ghost os = pre.block_entries(i);
        let ghost n = os.len() as int;
        let ghost j = p - pre.spec_start(i);
        proof {
            self.lemma_end_in_table(i);
            self.lemma_gap_bound(i);
        }
        let end = self.block_end(block_index);
        let last = self.main_table[end - 1];
        self.main_table.set(p, last);
        let mut m = self.meta_data[block_index];
        m.gap = m.gap + 1;
        self.meta_data.set(block_index, m);
        self.no_elements_in_main_table = self.no_elements_in_main_table - 1;
        proof {
            let ns = self.block_entries(i);
            assert(os[n - 1] == pre.spec_cells()[end - 1]);
            assert(ns =~= os.update(j, os[n - 1]).subrange(0, n - 1));
            assert forall|m: int| 0 <= m < self.spec_blocks() implies #[trigger] self.block_layout_ok(m) by {
                assert(pre.block_layout_ok(m));
                if m + 1 == i {
                    assert(pre.block_layout_ok(i));
                }
            }
            assert(self.layout_ok());
            SlickHash::lemma_frame(&pre, self, i);
            assert forall|m: int| 0 <= m < self.spec_blocks() && m != i implies #[trigger] self.spec_len(m) == pre.spec_len(m) by {
                pre.lemma_end_in_table(m);
                self.lemma_end_in_table(m);
                assert(self.block_entries(m).len() == pre.block_entries(m).len());
            }
            SlickHash::lemma_total_len_delta(&pre, self, i, -1, self.spec_blocks());
        }
    }

    /// The backyard's entry for `key`: the stored value if the key is there
    /// (`Occupied`), else `value`, stored now (`Inserted`).
    fn insert_into_backyard(&mut self, key: u64, value: u64) -> (r: Insertion<u64>)
        ensures
            old(self).backyard@.contains_key(key) ==> *final(self) == *old(self)
                && r == Insertion::Occupied(old(self).backyard@[key]),
            !old(self).backyard@.contains_key(key) ==> final(self).backyard@ == old(self).backyard@.insert(key, value) && r == Insertion::<u64>::Inserted(value),
            final(self).main_table == old(self).main_table,
            final(self).meta_data == old(self).meta_data,
            final(self).number_of_blocks == old(self).number_of_blocks,
            final(self).main_table_size == old(self).main_table_size,
            final(self).no_elements_in_main_table == old(self).no_elements_in_main_table,
            final(self).contents == old(self).contents,
            final(self).main_keys == old(self).main_keys,
    {
        match self.backyard.get(&key) {
            Some(v) => Insertion::Occupied(*v),
            None => {
                self.backyard.insert(key, value);
                Insertion::Inserted(value)
            },
        }
    }
}


impl SlickHash {
    /// Block `i` during bumping: the entries before `jr` are checked against
    /// the new threshold `tn`, the others still meet the old one `to`; no key
    /// twice.
    spec fn bump_partition(&self, i: int, jr: int, tn: int, to: int) -> bool {
        let s = self.block_entries(i);
        &&& forall|q: int| 0 <= q < jr ==> self.entry_ok_at(i, #[trigger] s[q], tn)
        &&& forall|q: int| jr <= q < s.len() ==> self.entry_ok_at(i, #[trigger] s[q], to)
        &&& forall|a: int, b: int| 0 <= a < b < s.len() ==> #[trigger] s[a].0 != #[trigger] s[b].0
    }

    /// Raises the threshold of block `block_index` to one above the least
    /// threshold hash among its entries and the incoming key's
    /// (`key_threshold`), and moves every entry of the block below the new
    /// threshold to the backyard, closing the hole it leaves with the block's
    /// last entry. Returns the new threshold.
    fn bump(&mut self, block_index: usize, key_threshold: usize) -> (r: usize)
        requires
            old(self).well_formed(),
            block_index < old(self).spec_blocks(),
            old(self).spec_threshold(block_index as int) <= key_threshold < MAX_THRESHOLD,
        ensures
            final(self).well_formed(),
            final(self)@ == old(self)@,
            final(self).spec_blocks() == old(self).spec_blocks(),
            final(self).spec_threshold(block_index as int) == r,
            old(self).spec_threshold(block_index as int) < r <= key_threshold + 1,
            forall|m: int|
                0 <= m < old(self).spec_blocks() && m != block_index ==> #[trigger] final(self).spec_threshold(m)
                    == old(self).spec_threshold(m),
            key_threshold >= r ==> final(self).spec_gap(block_index as int) > 0 && final(self).spec_len(
                block_index as int,
            ) < MAX_SLICK_SIZE,
            forall|q: int|
                0 <= q < old(self).spec_len(block_index as int) ==> threshold_hash(
                    (#[trigger] old(self).block_entries(block_index as int)[q]).0,
                ) >= r - 1,
            r - 1 == key_threshold || exists|q: int|
                0 <= q < old(self).spec_len(block_index as int) && threshold_hash(
                    (#[trigger] old(self).block_entries(block_index as int)[q]).0,
                ) == r - 1,
            forall|m: int|
                0 <= m < old(self).spec_blocks() ==> #[trigger] final(self).spec_offset(m)
                    == old(self).spec_offset(m),
    {
        let ghost pre = *self;
        let ghost i = block_index as int;
        let ghost t_old = pre.spec_threshold(i);
        let (start, end0) = self.block_range(block_index);
        proof {
            self.lemma_end_in_table(i);
            assert(self.block_ok(i));
        }
        let mut min_t: usize = key_threshold;
        let mut q: usize = start;
        while q < end0
            invariant
                *self == pre,
                pre.well_formed(),
                block_index < pre.spec_blocks(),
                start == pre.spec_start(i),
                end0 == pre.spec_end(i),
                start <= q <= end0 <= pre.spec_size(),
                i == block_index as int,
                t_old == pre.spec_threshold(i),
                t_old <= min_t <= key_threshold,
                min_t == key_threshold || exists|w: int|
                    start <= w < q && threshold_hash(#[trigger] pre.spec_cells()[w].0) == min_t,
                forall|w: int| start <= w < q ==> threshold_hash(#[trigger] pre.spec_cells()[w].0) >= min_t,
            decreases end0 - q,
        {
            let t = self.hash_threshold(self.main_table[q].0);
            proof {
                pre.lemma_end_in_table(i);
                assert(pre.block_ok(i));
                assert(pre.block_entries(i)[q - start] == pre.spec_cells()[q as int]);
                assert(pre.entry_ok(i, pre.block_entries(i)[q - start]));
            }
            if t < min_t {
                min_t = t;
            }
            q = q + 1;
        }
        let t_prime = min_t + 1;
        proof {
            assert forall|q: int| 0 <= q < pre.spec_len(i) implies threshold_hash(
                (#[trigger] pre.block_entries(i)[q]).0,
            ) >= t_prime - 1 by {
                assert(pre.block_entries(i)[q] == pre.spec_cells()[start + q]);
            }
            if min_t != key_threshold {
                let w = choose|w: int|
                    start <= w < end0 && threshold_hash(#[trigger] pre.spec_cells()[w].0) == min_t;
                assert(pre.block_entries(i)[w - start] == pre.spec_cells()[w]);
            }
        }
        let mut m = self.meta_data[block_index];
        m.threshold = t_prime;
        self.meta_data.set(block_index, m);
        proof {
            let s = self.block_entries(i);
            assert(s == pre.block_entries(i));
            assert forall|m: int| 0 <= m < self.spec_blocks() implies #[trigger] self.block_layout_ok(m) by {
                assert(pre.block_layout_ok(m));
            }
            assert forall|m: int| 0 <= m < self.spec_blocks() && m != i implies #[trigger] self.block_ok(m) by {
                assert(pre.block_ok(m));
                assert(self.block_entries(m) == pre.block_entries(m));
                let sm = self.block_entries(m);
                assert forall|j: int| 0 <= j < sm.len() implies #[trigger] self.entry_ok(m, sm[j]) by {
                    assert(pre.entry_ok(m, sm[j]));
                }
            }
            assert forall|k: u64| #[trigger] self.spec_main_keys().contains(k) implies self.block_has(
                self.home_block(k),
                k,
            ) by {
                let h = pre.home_block(k);
                pre.lemma_home_block_bounds(k);
                assert(pre.block_has(h, k));
                assert(self.block_entries(h) == pre.block_entries(h));
            }
            assert forall|k: u64| #[trigger] self.spec_backyard().contains_key(k) implies threshold_hash(k)
                < self.spec_threshold(self.home_block(k)) by {
                pre.lemma_home_block_bounds(k);
            }
            SlickHash::lemma_total_len_same(&pre, self, self.spec_blocks());
            assert(self.bump_partition(i, 0, t_prime as int, t_old)) by {
                assert forall|q: int| 0 <= q < s.len() implies self.entry_ok_at(i, #[trigger] s[q], t_old) by {
                    assert(pre.entry_ok(i, s[q]));
                }
            }
            if key_threshold >= t_prime {
                let w = choose|w: int|
                    start <= w < end0 && threshold_hash(#[trigger] pre.spec_cells()[w].0) == min_t;
                assert(s[w - start] == pre.spec_cells()[w]);
            }
        }
        let mut j: usize = start;
        let mut end = self.block_end(block_index);
        while j < end
            invariant
                self.layout_ok(),
                self.keys_ok(),
                forall|m: int| 0 <= m < self.spec_blocks() && m != i ==> #[trigger] self.block_ok(m),
                block_index < self.spec_blocks(),
                self.spec_blocks() == pre.spec_blocks(),
                self.spec_size() == pre.spec_size(),
                self.spec_threshold(i) == t_prime,
                forall|m: int|
                    0 <= m < pre.spec_blocks() && m != i ==> #[trigger] self.spec_threshold(m)
                        == pre.spec_threshold(m),
                self@ == pre@,
                start == self.spec_start(i),
                end == self.spec_end(i),
                start <= j <= end,
                self.bump_partition(i, j - start, t_prime as int, t_old),
                self.spec_gap(i) + self.spec_len(i) == pre.spec_gap(i) + pre.spec_len(i),
                self.spec_len(i) <= pre.spec_len(i),
                key_threshold >= t_prime ==> (self.spec_len(i) < pre.spec_len(i) || exists|w: int|
                    j - start <= w < self.spec_len(i) && threshold_hash(
                        (#[trigger] self.block_entries(i)[w]).0,
                    ) < t_prime),
                t_prime <= MAX_THRESHOLD,
                pre.well_formed(),
                i == block_index as int,
                t_old == pre.spec_threshold(i),
                forall|m: int| 0 <= m < pre.spec_blocks() ==> #[trigger] self.spec_offset(m) == pre.spec_offset(m),
            decreases end - j,
        {
            let ghost before = *self;
            let ghost bs = before.block_entries(i);
            let ghost n = bs.len() as int;
            let ghost jr = j - start;
            proof {
                self.lemma_end_in_table(i);
                assert(bs[jr] == self.spec_cells()[j as int]);
            }
            let e = self.main_table[j];
            let t = self.hash_threshold(e.0);
            if t < t_prime {
                proof {
                    assert(self.entry_ok_at(i, bs[jr], t_old));
                    assert(!self.spec_backyard().contains_key(e.0));
                    SlickHash::lemma_total_len_ge(self, i, self.spec_blocks());
                }
                self.insert_into_backyard(e.0, e.1);
                proof {
                    self.main_keys@ = self.main_keys@.remove(e.0);
                    assert forall|m: int| 0 <= m < self.spec_blocks() implies #[trigger] self.block_layout_ok(m) by {
                        assert(before.block_layout_ok(m));
                    }
                    assert forall|m: int| 0 <= m < self.spec_blocks() implies #[trigger] self.block_entries(m) == before.block_entries(m) by {
                    }
                }
                let ghost mid = *self;
                proof {
                    SlickHash::lemma_total_len_same(&before, &mid, self.spec_blocks());
                }
                self.swap_remove_cell(block_index, j);
                end = self.block_end(block_index);
                proof {
                    let ns = self.block_entries(i);
                    assert forall|m: int| 0 <= m < self.spec_blocks() implies #[trigger] self.spec_threshold(m) == before.spec_threshold(m) by {
                    }
                    assert forall|m: int| 0 <= m < self.spec_blocks() implies #[trigger] self.spec_offset(m) == pre.spec_offset(m) by {
                        assert(mid.spec_offset(m) == before.spec_offset(m));
                        assert(before.spec_offset(m) == pre.spec_offset(m));
                    }
                    assert(ns == bs.update(jr, bs[n - 1]).subrange(0, n - 1));
                    assert forall|a: int| 0 <= a < n && a != jr implies #[trigger] bs[a].0 != e.0 by {
                        if a < jr {
                            assert(bs[a].0 != bs[jr].0);
                        } else {
                            assert(bs[jr].0 != bs[a].0);
                        }
                    }
                    assert forall|m: int| 0 <= m < self.spec_blocks() && m != i implies #[trigger] self.block_ok(m) by {
                        assert(before.block_ok(m));
                        let sm = self.block_entries(m);
                        assert(sm == before.block_entries(m));
                        assert forall|jj: int| 0 <= jj < sm.len() implies #[trigger] self.entry_ok(m, sm[jj]) by {
                            assert(before.entry_ok(m, sm[jj]));
                        }
                    }
                    assert(self.bump_partition(i, jr, t_prime as int, t_old)) by {
                        assert forall|b: int| 0 <= b < jr implies self.entry_ok_at(i, #[trigger] ns[b], t_prime as int) by {
                            assert(ns[b] == bs[b]);
                            assert(before.entry_ok_at(i, bs[b], t_prime as int));
                        }
                        assert forall|b: int| jr <= b < ns.len() implies self.entry_ok_at(i, #[trigger] ns[b], t_old) by {
                            let a = if b == jr { n - 1 } else { b };
                            assert(ns[b] == bs[a]);
                            assert(before.entry_ok_at(i, bs[a], t_old));
                        }
                        assert forall|a: int, b: int| 0 <= a < b < ns.len() implies #[trigger] ns[a].0 != #[trigger] ns[b].0 by {
                            let a2 = if a == jr { n - 1 } else { a };
                            let b2 = if b == jr { n - 1 } else { b };
                            if a2 < b2 {
                                assert(bs[a2].0 != bs[b2].0);
                            } else {
                                assert(bs[b2].0 != bs[a2].0);
                            }
                        }
                    }
                    assert forall|k: u64| #[trigger] self.spec_main_keys().contains(k) implies self.block_has(
                        self.home_block(k),
                        k,
                    ) by {
                        assert(before.block_has(before.home_block(k), k));
                        let h = before.home_block(k);
                        before.lemma_home_block_bounds(k);
                        let jj = choose|jj: int| 0 <= jj < before.spec_len(h) && (#[trigger] before.block_entries(h)[jj]).0 == k;
                        if h == i {
                            let b = if jj == n - 1 { jr } else { jj };
                            assert(ns[b].0 == k);
                        } else {
                            assert(self.block_entries(h)[jj].0 == k);
                        }
                    }
                    assert forall|k: u64| #[trigger] self.spec_backyard().contains_key(k) implies {
                        &&& threshold_hash(k) < self.spec_threshold(self.home_block(k))
                        &&& !self.spec_main_keys().contains(k)
                        &&& self@.contains_key(k)
                        &&& self@[k] == self.spec_backyard()[k]
                    } by {
                        before.lemma_home_block_bounds(k);
                        if k != e.0 {
                            assert(before.spec_backyard().contains_key(k));
                        }
                    }
                    assert(self@.dom() =~= self.spec_main_keys().union(self.spec_backyard().dom()));
                    assert(before.spec_main_keys().contains(e.0));
                    assert(self.spec_main_keys().finite());
                    assert(self.spec_main_keys().len() == self.spec_main_count());
                    assert(self.spec_main_count() == self.total_len(self.spec_blocks()));
                }
            } else {
                j = j + 1;
                proof {
                    assert(self.bump_partition(i, jr + 1, t_prime as int, t_old)) by {
                        assert(self.entry_ok_at(i, bs[jr], t_old));
                    }
                    if key_threshold >= t_prime && self.spec_len(i) >= pre.spec_len(i) {
                        let w = choose|w: int|
                            jr <= w < self.spec_len(i) && threshold_hash(
                                (#[trigger] self.block_entries(i)[w]).0,
                            ) < t_prime;
                        assert(w != jr);
                    }
                }
            }
        }
        proof {
            assert(self.block_ok(i)) by {
                let s = self.block_entries(i);
                assert forall|q: int| 0 <= q < s.len() implies #[trigger] self.entry_ok(i, s[q]) by {
                    assert(self.entry_ok_at(i, s[q], t_prime as int));
                }
            }
            assert(self.layout_ok());
            assert(pre.block_layout_ok(i));
        }
        t_prime
    }

    proof fn lemma_total_len_ge(&self, i: int, n: int)
        requires
            self.layout_ok(),
            0 <= i < n <= self.spec_blocks(),
        ensures
            self.total_len(n) >= self.spec_len(i),
        decreases n,
    {
        assert(self.block_layout_ok(n - 1));
        if n - 1 > i {
            self.lemma_total_len_ge(i, n - 1);
        } else {
            self.lemma_total_len_nonneg(n - 1);
        }
    }

    proof fn lemma_total_len_nonneg(&self, n: int)
        requires
            self.layout_ok(),
            0 <= n <= self.spec_blocks(),
        ensures
            self.total_len(n) >= 0,
        decreases n,
    {
        if n > 0 {
            assert(self.block_layout_ok(n - 1));
            self.lemma_total_len_nonneg(n - 1);
        }
    }
}


impl SlickHash {
    /// After a successful slide: the same map in the same places, each
    /// block as long as before, block `i` with a gap (one cell, where it had
    /// none).
    spec fn slid(&self, pre: &SlickHash, i: int) -> bool {
        &&& self.well_formed()
        &&& self.contents == pre.contents
        &&& self.main_keys == pre.main_keys
        &&& self.backyard == pre.backyard
        &&& self.no_elements_in_main_table == pre.no_elements_in_main_table
        &&& self.number_of_blocks == pre.number_of_blocks
        &&& self.main_table_size == pre.main_table_size
        &&& forall|m: int| 0 <= m < pre.spec_blocks() ==> #[trigger] self.spec_threshold(m) == pre.spec_threshold(m)
        &&& forall|m: int| 0 <= m < pre.spec_blocks() ==> #[trigger] self.spec_len(m) == pre.spec_len(m)
        &&& self.spec_gap(i) > 0
        &&& pre.spec_gap(i) == 0 ==> self.spec_gap(i) == 1
    }

    /// A block whose entries were permuted (by `f`, with inverse `g`) keeps
    /// its properties and its keys.
    proof fn lemma_block_permuted(
        pre: &SlickHash,
        new: &SlickHash,
        m: int,
        f: spec_fn(int) -> int,
        g: spec_fn(int) -> int,
    )
        requires
            pre.block_ok(m),
            new.spec_threshold(m) == pre.spec_threshold(m),
            new@ == pre@,
            new.spec_main_keys() == pre.spec_main_keys(),
            new.spec_blocks() == pre.spec_blocks(),
            new.block_entries(m).len() == pre.block_entries(m).len(),
            new.spec_len(m) == pre.spec_len(m),
            pre.spec_len(m) == pre.block_entries(m).len(),
            forall|t: int|
                0 <= t < pre.block_entries(m).len() ==> 0 <= #[trigger] f(t) < pre.block_entries(
                    m,
                ).len() && new.block_entries(m)[t] == pre.block_entries(m)[f(t)],
            forall|u: int|
                0 <= u < pre.block_entries(m).len() ==> 0 <= #[trigger] g(u) < pre.block_entries(
                    m,
                ).len() && f(g(u)) == u,
            forall|a: int, b: int|
                0 <= a < b < pre.block_entries(m).len() ==> #[trigger] f(a) != #[trigger] f(b),
        ensures
            new.block_ok(m),
            forall|k: u64| pre.block_has(m, k) ==> #[trigger] new.block_has(m, k),
    {
        let os = pre.block_entries(m);
        let ns = new.block_entries(m);
        assert forall|t: int| 0 <= t < ns.len() implies #[trigger] new.entry_ok(m, ns[t]) by {
            assert(f(t) == f(t));
            assert(pre.entry_ok(m, os[f(t)]));
        }
        assert forall|a: int, b: int| 0 <= a < b < ns.len() implies #[trigger] ns[a].0 != #[trigger] ns[b].0 by {
            assert(f(a) != f(b));
            if f(a) < f(b) {
                assert(os[f(a)].0 != os[f(b)].0);
            } else if f(b) < f(a) {
                assert(os[f(b)].0 != os[f(a)].0);
            }
        }
        assert forall|k: u64| pre.block_has(m, k) implies #[trigger] new.block_has(m, k) by {
            let u = choose|u: int| 0 <= u < pre.spec_len(m) && (#[trigger] pre.block_entries(m)[u]).0 == k;
            assert(g(u) == g(u));
            assert(ns[g(u)].0 == k);
        }
    }
}


impl SlickHash {
    /// Lends block `block_index` one cell of gap from the nearest block on
    /// its left that has one. Every block in between moves one cell left:
    /// its last entry goes to the free cell before its start. Fails, changing
    /// nothing, when the walk left meets a block at offset 0 (or block 0)
    /// first, or when the lender is empty with a gap of one.
    fn slide_gap_from_left(&mut self, block_index: usize) -> (r: bool)
        requires
            old(self).well_formed(),
            block_index < old(self).spec_blocks(),
        ensures
            r == old(self).can_slide_left(block_index as int),
            r ==> final(self).slid(old(self), block_index as int),
            r ==> exists|j: int|
                old(self).left_lender(block_index as int, j) && #[trigger] final(self).moved_left(
                    old(self),
                    j,
                    block_index as int,
                ) && final(self).spec_gap(block_index as int) == old(self).spec_gap(
                    block_index as int,
                ) + (if j == block_index {
                    0int
                } else {
                    1int
                }),
            !r ==> *final(self) == *old(self),
    {
        let ghost pre = *self;
        let ghost i = block_index as int;
        let mut sliding_block_index = block_index;
        while self.meta_data[sliding_block_index].gap == 0
            invariant
                *self == pre,
                pre.well_formed(),
                i == block_index as int,
                block_index < pre.spec_blocks(),
                sliding_block_index <= block_index,
                forall|m: int|
                    sliding_block_index < m <= i ==> #[trigger] pre.spec_gap(m) == 0 && pre.spec_offset(m) >= 1,
            decreases sliding_block_index,
        {
            if (sliding_block_index == 0) || (self.meta_data[sliding_block_index].offset == 0) {
                proof {
                    pre.lemma_no_left_lender(i, sliding_block_index as int);
                }
                return false;
            }
            let ghost prev = sliding_block_index as int;
            proof {
                assert(pre.spec_gap(prev) == 0);
                assert(pre.spec_offset(prev) >= 1);
            }
            sliding_block_index = sliding_block_index - 1;
            proof {
                assert forall|m: int| sliding_block_index < m <= i implies #[trigger] pre.spec_gap(m) == 0
                    && pre.spec_offset(m) >= 1 by {
                    if m > prev {
                    } else {
                        assert(m == prev);
                    }
                }
            }
        }
        // An empty lender with a gap of one would be squeezed out.
        let empty_block_has_gap_one = (self.meta_data[sliding_block_index].gap == 1) && (
        self.block_start(sliding_block_index) == self.block_end(sliding_block_index));
        proof {
            pre.lemma_left_lender_unique(i, sliding_block_index as int);
        }
        if empty_block_has_gap_one {
            return false;
        }
        let ghost s = sliding_block_index as int;
        proof {
            assert(pre.left_lender(i, s));
        }
        proof {
            pre.lemma_end_in_table(s);
        }
        let mut lender = self.meta_data[sliding_block_index];
        lender.gap = lender.gap - 1;
        self.meta_data.set(sliding_block_index, lender);
        let mut k = sliding_block_index + 1;
        while k <= block_index
            invariant
                s < k <= i + 1,
                i == block_index as int,
                block_index < pre.spec_blocks(),
                pre.well_formed(),
                0 <= s,
                pre.spec_gap(s) >= 1,
                forall|m: int| s < m <= i ==> #[trigger] pre.spec_gap(m) == 0 && pre.spec_offset(m) >= 1,
                self.number_of_blocks == pre.number_of_blocks,
                self.main_table_size == pre.main_table_size,
                self.contents == pre.contents,
                self.main_keys == pre.main_keys,
                self.backyard == pre.backyard,
                self.no_elements_in_main_table == pre.no_elements_in_main_table,
                self.meta_data@.len() == pre.meta_data@.len(),
                self.main_table@.len() == pre.main_table@.len(),
                forall|m: int|
                    0 <= m < pre.spec_blocks() ==> #[trigger] self.spec_offset(m) == pre.spec_offset(m) - (
                    if s < m < k {
                        1int
                    } else {
                        0int
                    }),
                forall|m: int|
                    0 <= m < pre.spec_blocks() ==> #[trigger] self.spec_gap(m) == pre.spec_gap(m) - (if m
                        == s {
                        1int
                    } else {
                        0int
                    }),
                forall|m: int|
                    0 <= m < pre.spec_blocks() ==> #[trigger] self.spec_threshold(m) == pre.spec_threshold(m),
                forall|p: int| 0 <= p < pre.spec_end(s) ==> #[trigger] self.spec_cells()[p] == pre.spec_cells()[p],
                forall|p: int|
                    (if k <= i {
                        pre.spec_start(k as int)
                    } else {
                        pre.spec_end(i)
                    }) <= p < pre.spec_size() ==> #[trigger] self.spec_cells()[p] == pre.spec_cells()[p],
                forall|m: int, p: int|
                    #![trigger pre.spec_start(m), self.spec_cells()[p]]
                    s < m < k && pre.spec_start(m) <= p < pre.spec_end(m) - 1 ==> self.spec_cells()[p]
                        == pre.spec_cells()[p],
                forall|m: int|
                    s < m < k && #[trigger] pre.spec_len(m) > 0 ==> self.spec_cells()[pre.spec_start(m) - 1]
                        == pre.spec_cells()[pre.spec_end(m) - 1],
            decreases i + 1 - k,
        {
            let ghost kk = k as int;
            let ghost before = *self;
            proof {
                pre.lemma_end_in_table(kk);
                pre.lemma_end_in_table(s);
                assert(pre.block_layout_ok(s));
                if kk > s + 1 {
                    pre.lemma_ordered(s + 1, kk);
                }
                assert(self.spec_offset(kk) == pre.spec_offset(kk));
                assert(self.spec_gap(kk) == pre.spec_gap(kk));
                if kk + 1 < pre.spec_blocks() {
                    assert(self.spec_offset(kk + 1) == pre.spec_offset(kk + 1));
                    assert(pre.block_layout_ok(kk + 1));
                }
            }
            let start_sliding_block = BLOCK_SIZE * k + self.meta_data[k].offset;
            let end_sliding_block = if k == self.number_of_blocks - 1 {
                self.main_table_size - self.meta_data[k].gap
            } else {
                BLOCK_SIZE * k + BLOCK_SIZE + self.meta_data[k + 1].offset - self.meta_data[k].gap
            };
            assert(start_sliding_block == pre.spec_start(kk));
            assert(end_sliding_block == pre.spec_end(kk));
            proof {
                if pre.spec_len(kk) > 0 {
                    assert(before.spec_cells()[pre.spec_end(kk) - 1] == pre.spec_cells()[pre.spec_end(kk) - 1]);
                }
            }
            let moved = self.main_table[end_sliding_block - 1];
            self.main_table.set(start_sliding_block - 1, moved);
            let mut mk = self.meta_data[k];
            mk.offset = mk.offset - 1;
            self.meta_data.set(k, mk);
            k = k + 1;
            proof {
                assert forall|m: int| 0 <= m < pre.spec_blocks() implies self.spec_offset(m)
                    == pre.spec_offset(m) - (if s < m < k {
                    1int
                } else {
                    0int
                }) && self.spec_gap(m) == pre.spec_gap(m) - (if m == s {
                    1int
                } else {
                    0int
                }) && self.spec_threshold(m) == pre.spec_threshold(m) && #[trigger] self.meta_data@[m] == self.meta_data@[m] by {
                    assert(before.spec_offset(m) == pre.spec_offset(m) - (if s < m < kk {
                        1int
                    } else {
                        0int
                    }));
                    assert(before.spec_gap(m) == pre.spec_gap(m) - (if m == s {
                        1int
                    } else {
                        0int
                    }));
                    assert(before.spec_threshold(m) == pre.spec_threshold(m));
                    if m != kk {
                        assert(self.meta_data@[m] == before.meta_data@[m]);
                    }
                }
                assert forall|p: int|
                    0 <= p < pre.spec_size() && p != pre.spec_start(kk) - 1 implies #[trigger] self.spec_cells()[p]
                        == before.spec_cells()[p] by {
                }
                assert(pre.block_layout_ok(kk));
                if kk < i {
                    assert(pre.block_layout_ok(kk + 1));
                }
                assert forall|m: int, p: int|
                    #![trigger pre.spec_start(m), self.spec_cells()[p]]
                    s < m < k && pre.spec_start(m) <= p < pre.spec_end(m) - 1 implies self.spec_cells()[p]
                        == pre.spec_cells()[p] by {
                    assert(before.spec_cells()[p] == pre.spec_cells()[p]);
                    if m < kk {
                        assert(pre.block_layout_ok(m));
                        if m + 1 < kk {
                            pre.lemma_ordered(m + 1, kk);
                        }
                    }
                }
                assert forall|m: int|
                    s < m < k && #[trigger] pre.spec_len(m) > 0 implies self.spec_cells()[pre.spec_start(m) - 1]
                        == pre.spec_cells()[pre.spec_end(m) - 1] by {
                    if m < kk {
                        assert(before.spec_cells()[pre.spec_start(m) - 1] == pre.spec_cells()[pre.spec_end(m) - 1]);
                        assert(pre.block_layout_ok(m));
                        if m + 1 < kk {
                            pre.lemma_ordered(m + 1, kk);
                        }
                    }
                }
            }
        }
        let ghost mid = *self;
        proof {
            pre.lemma_gap_bound(i);
            assert(mid.spec_gap(i) == pre.spec_gap(i) - (if i == s {
                1int
            } else {
                0int
            }));
        }
        let mut receiver = self.meta_data[block_index];
        receiver.gap = receiver.gap + 1;
        self.meta_data.set(block_index, receiver);
        proof {
            let nb = pre.spec_blocks();
            assert forall|m: int| 0 <= m < nb implies #[trigger] self.spec_offset(m) == pre.spec_offset(m) - (
            if s < m <= i {
                1int
            } else {
                0int
            }) by {
                assert(mid.spec_offset(m) == pre.spec_offset(m) - (if s < m < i + 1 {
                    1int
                } else {
                    0int
                }));
                if m != i {
                    assert(self.meta_data@[m] == mid.meta_data@[m]);
                }
            }
            assert forall|m: int| 0 <= m < nb implies #[trigger] self.spec_gap(m) == pre.spec_gap(m) - (if m == s {
                1int
            } else {
                0int
            }) + (if m == i {
                1int
            } else {
                0int
            }) by {
                assert(mid.spec_gap(m) == pre.spec_gap(m) - (if m == s {
                    1int
                } else {
                    0int
                }));
                if m != i {
                    assert(self.meta_data@[m] == mid.meta_data@[m]);
                }
            }
            assert forall|m: int| 0 <= m < nb implies #[trigger] self.spec_threshold(m) == pre.spec_threshold(m) by {
                assert(mid.spec_threshold(m) == pre.spec_threshold(m));
                if m != i {
                    assert(self.meta_data@[m] == mid.meta_data@[m]);
                }
            }
            assert forall|m: int, p: int|
                #![trigger pre.spec_start(m), self.spec_cells()[p]]
                s < m <= i && pre.spec_start(m) <= p < pre.spec_end(m) - 1 implies self.spec_cells()[p]
                    == pre.spec_cells()[p] by {
                assert(mid.spec_cells()[p] == pre.spec_cells()[p]);
            }
            assert forall|m: int|
                s < m <= i && #[trigger] pre.spec_len(m) > 0 implies self.spec_cells()[pre.spec_start(m) - 1]
                    == pre.spec_cells()[pre.spec_end(m) - 1] by {
                assert(mid.spec_cells()[pre.spec_start(m) - 1] == pre.spec_cells()[pre.spec_end(m) - 1]);
            }
            assert forall|p: int| 0 <= p < pre.spec_end(s) implies #[trigger] self.spec_cells()[p] == pre.spec_cells()[p] by {
                assert(mid.spec_cells()[p] == pre.spec_cells()[p]);
            }
            assert forall|p: int| pre.spec_end(i) <= p < pre.spec_size() implies #[trigger] self.spec_cells()[p] == pre.spec_cells()[p] by {
                assert(mid.spec_cells()[p] == pre.spec_cells()[p]);
            }
            SlickHash::lemma_slid_left(&pre, self, s, i);
            assert(self.moved_left(&pre, s, i));
            assert(pre.left_lender(i, s));
        }
        true
    }
}

impl SlickHash {
    /// The state that a left slide from lender `s` to receiver `i` leaves.
    #[verifier::rlimit(60)]
    proof fn lemma_slid_left(pre: &SlickHash, new: &SlickHash, s: int, i: int)
        requires
            pre.well_formed(),
            0 <= s <= i < pre.spec_blocks(),
            pre.spec_gap(s) >= 1,
            forall|m: int| s < m <= i ==> #[trigger] pre.spec_gap(m) == 0 && pre.spec_offset(m) >= 1,
            new.number_of_blocks == pre.number_of_blocks,
            new.main_table_size == pre.main_table_size,
            new.contents == pre.contents,
            new.main_keys == pre.main_keys,
            new.backyard == pre.backyard,
            new.no_elements_in_main_table == pre.no_elements_in_main_table,
            new.meta_data@.len() == pre.meta_data@.len(),
            new.main_table@.len() == pre.main_table@.len(),
            forall|m: int| 0 <= m < pre.spec_blocks() ==> #[trigger] new.spec_offset(m) == pre.spec_offset(m) - (
            if s < m <= i {
                1int
            } else {
                0int
            }),
            forall|m: int| 0 <= m < pre.spec_blocks() ==> #[trigger] new.spec_gap(m) == pre.spec_gap(m) - (if m == s {
                1int
            } else {
                0int
            }) + (if m == i {
                1int
            } else {
                0int
            }),
            forall|m: int| 0 <= m < pre.spec_blocks() ==> #[trigger] new.spec_threshold(m) == pre.spec_threshold(m),
            forall|m: int, p: int|
                #![trigger pre.spec_start(m), new.spec_cells()[p]]
                s < m <= i && pre.spec_start(m) <= p < pre.spec_end(m) - 1 ==> new.spec_cells()[p]
                    == pre.spec_cells()[p],
            forall|m: int|
                s < m <= i && #[trigger] pre.spec_len(m) > 0 ==> new.spec_cells()[pre.spec_start(m) - 1]
                    == pre.spec_cells()[pre.spec_end(m) - 1],
            forall|p: int| 0 <= p < pre.spec_end(s) ==> #[trigger] new.spec_cells()[p] == pre.spec_cells()[p],
            forall|p: int| pre.spec_end(i) <= p < pre.spec_size() ==> #[trigger] new.spec_cells()[p] == pre.spec_cells()[p],
        ensures
            new.slid(pre, i),
    {
        let nb = pre.spec_blocks();
            assert forall|m: int| 0 <= m < nb implies #[trigger] new.spec_start(m) == pre.spec_start(m) - (
            if s < m <= i {
                1int
            } else {
                0int
            }) && new.spec_end(m) == pre.spec_end(m) - (if s < m <= i {
                1int
            } else {
                0int
            }) by {
                assert(new.spec_offset(m) == new.spec_offset(m));
                assert(new.spec_gap(m) == new.spec_gap(m));
                if m + 1 < nb {
                    assert(new.spec_offset(m + 1) == new.spec_offset(m + 1));
                }
            }
            assert forall|m: int| 0 <= m < nb implies #[trigger] new.block_layout_ok(m) && new.spec_len(m)
                == pre.spec_len(m) by {
                assert(pre.block_layout_ok(m));
                assert(new.spec_start(m) == new.spec_start(m));
                if m + 1 < nb {
                    assert(new.spec_start(m + 1) == new.spec_start(m + 1));
                    assert(new.spec_gap(m) == new.spec_gap(m));
                }
            }
            assert(new.spec_offset(0) == 0);
            assert(new.layout_ok());
            assert forall|m: int| 0 <= m < nb implies #[trigger] new.block_ok(m) && (forall|k: u64|
                pre.block_has(m, k) ==> #[trigger] new.block_has(m, k)) by {
                pre.lemma_end_in_table(m);
                new.lemma_end_in_table(m);
                assert(pre.block_ok(m));
                let os = pre.block_entries(m);
                let ns = new.block_entries(m);
                let n = os.len() as int;
                if s < m <= i {
                    let f = |t: int| if t == 0 { n - 1 } else { t - 1 };
                    let g = |u: int| if u == n - 1 { 0 } else { u + 1 };
                    assert forall|t: int| 0 <= t < n implies 0 <= #[trigger] f(t) < n && ns[t] == os[f(t)] by {
                        if t == 0 {
                            assert(ns[0] == new.spec_cells()[pre.spec_start(m) - 1]);
                            assert(pre.spec_len(m) > 0);
                        } else {
                            let p = pre.spec_start(m) + t - 1;
                            assert(ns[t] == new.spec_cells()[p]);
                            assert(pre.spec_start(m) <= p < pre.spec_end(m) - 1);
                            assert(new.spec_cells()[p] == pre.spec_cells()[p]);
                        }
                    }
                    SlickHash::lemma_block_permuted(pre, new, m, f, g);
                } else {
                    if m <= s {
                        assert(pre.block_layout_ok(s));
                        if m < s {
                            pre.lemma_ordered(m, s);
                        }
                        assert forall|t: int| 0 <= t < n implies ns[t] == os[t] by {
                            assert(new.spec_cells()[pre.spec_start(m) + t] == pre.spec_cells()[pre.spec_start(m) + t]);
                        }
                    } else {
                        pre.lemma_ordered(i, m);
                        assert forall|t: int| 0 <= t < n implies ns[t] == os[t] by {
                            assert(new.spec_cells()[pre.spec_start(m) + t] == pre.spec_cells()[pre.spec_start(m) + t]);
                        }
                    }
                    assert(ns =~= os);
                    assert forall|j: int| 0 <= j < ns.len() implies #[trigger] new.entry_ok(m, ns[j]) by {
                        assert(pre.entry_ok(m, os[j]));
                    }
                }
            }
            assert forall|k: u64| #[trigger] new.spec_main_keys().contains(k) implies new.block_has(
                new.home_block(k),
                k,
            ) by {
                pre.lemma_home_block_bounds(k);
                assert(pre.block_has(pre.home_block(k), k));
                assert(new.block_ok(pre.home_block(k)));
            }
            assert forall|k: u64| #[trigger] new.spec_backyard().contains_key(k) implies threshold_hash(k)
                < new.spec_threshold(new.home_block(k)) by {
                pre.lemma_home_block_bounds(k);
            }
            SlickHash::lemma_total_len_same(pre, new, nb);

    }
}


impl SlickHash {
    /// Lends block `block_index` one cell of gap from the nearest block on
    /// its right that has one. Every block in between moves one cell right:
    /// its first entry goes to the free cell after its end. Fails, changing
    /// nothing, for the last block, when the walk right meets the last block
    /// or a block at the largest offset first, when the lender is at the
    /// largest offset, or when the lender is empty with a gap of one.
    #[verifier::rlimit(40)]
    fn slide_gap_from_right(&mut self, block_index: usize) -> (r: bool)
        requires
            old(self).well_formed(),
            block_index < old(self).spec_blocks(),
        ensures
            r == old(self).can_slide_right(block_index as int),
            r ==> final(self).slid(old(self), block_index as int),
            r ==> exists|j: int|
                old(self).right_lender(block_index as int, j) && #[trigger] final(self).moved_right(
                    old(self),
                    j,
                    block_index as int,
                ) && final(self).spec_gap(block_index as int) == old(self).spec_gap(
                    block_index as int,
                ) + 1,
            !r ==> *final(self) == *old(self),
    {
        let ghost pre = *self;
        let ghost i = block_index as int;
        if block_index == self.number_of_blocks - 1 {
            proof {
                assert forall|j: int| !#[trigger] pre.right_lender(i, j) by {
                }
            }
            return false;
        }
        let mut sliding_block_index = block_index + 1;
        while self.meta_data[sliding_block_index].gap == 0
            invariant
                *self == pre,
                pre.well_formed(),
                i == block_index as int,
                block_index < sliding_block_index < pre.spec_blocks(),
                forall|m: int|
                    i < m < sliding_block_index ==> #[trigger] pre.spec_gap(m) == 0 && pre.spec_offset(m)
                        < MAX_OFFSET,
            decreases pre.spec_blocks() - sliding_block_index,
        {
            if (sliding_block_index == self.number_of_blocks - 1) || (
            self.meta_data[sliding_block_index].offset == MAX_OFFSET) {
                proof {
                    pre.lemma_no_right_lender(i, sliding_block_index as int);
                }
                return false;
            }
            proof {
                assert(pre.block_layout_ok(sliding_block_index as int));
                assert(pre.spec_gap(sliding_block_index as int) == 0);
                assert(pre.spec_offset(sliding_block_index as int) < MAX_OFFSET);
            }
            let ghost prev = sliding_block_index as int;
            sliding_block_index = sliding_block_index + 1;
            proof {
                assert forall|m: int| i < m < sliding_block_index implies #[trigger] pre.spec_gap(m) == 0
                    && pre.spec_offset(m) < MAX_OFFSET by {
                    if m < prev {
                    } else {
                        assert(m == prev);
                    }
                }
            }
        }
        proof {
            pre.lemma_right_lender_unique(i, sliding_block_index as int);
        }
        // The lender may not drift further right than the cap.
        if self.meta_data[sliding_block_index].offset == MAX_OFFSET {
            return false;
        }
        // An empty lender with a gap of one would be squeezed out.
        let empty_block_has_gap_one = (self.meta_data[sliding_block_index].gap == 1) && (
        self.block_start(sliding_block_index) == self.block_end(sliding_block_index));
        if empty_block_has_gap_one {
            return false;
        }
        let ghost j = sliding_block_index as int;
        proof {
            assert(forall|m: int| i < m < j ==> #[trigger] pre.spec_gap(m) == 0 && pre.spec_offset(m) < MAX_OFFSET);
            pre.lemma_end_in_table(j);
            assert(pre.block_layout_ok(j));
            if j + 1 < pre.spec_blocks() {
                assert(pre.block_layout_ok(j + 1));
                pre.lemma_end_in_table(j + 1);
            }
        }
        // The lender's first entry moves to the cell after its end.
        let start_sliding_block = self.block_start(sliding_block_index);
        let end_sliding_block = self.block_end(sliding_block_index);
        let moved = self.main_table[start_sliding_block];
        self.main_table.set(end_sliding_block, moved);
        let mut lender = self.meta_data[sliding_block_index];
        lender.offset = lender.offset + 1;
        lender.gap = lender.gap - 1;
        self.meta_data.set(sliding_block_index, lender);
        sliding_block_index = sliding_block_index - 1;
        proof {
            assert forall|m: int| 0 <= m < pre.spec_blocks() implies self.spec_offset(m) == pre.spec_offset(m) + (
            if sliding_block_index < m <= j {
                1int
            } else {
                0int
            }) && self.spec_gap(m) == pre.spec_gap(m) - (if m == j {
                1int
            } else {
                0int
            }) && self.spec_threshold(m) == pre.spec_threshold(m) && #[trigger] self.meta_data@[m]
                == self.meta_data@[m] by {
                if m != j {
                    assert(self.meta_data@[m] == pre.meta_data@[m]);
                }
            }
            assert(forall|m: int| i < m < j ==> #[trigger] pre.spec_gap(m) == 0 && pre.spec_offset(m) < MAX_OFFSET);
            assert(pre.spec_end(j) < pre.spec_size());
        }
        while sliding_block_index > block_index
            invariant
                i <= sliding_block_index < j,
                i == block_index as int,
                j < pre.spec_blocks(),
                pre.well_formed(),
                pre.spec_gap(j) >= 1,
                pre.spec_offset(j) < MAX_OFFSET,
                pre.spec_end(j) < pre.spec_size(),
                forall|m: int| i < m < j ==> #[trigger] pre.spec_gap(m) == 0 && pre.spec_offset(m) < MAX_OFFSET,
                self.number_of_blocks == pre.number_of_blocks,
                self.main_table_size == pre.main_table_size,
                self.contents == pre.contents,
                self.main_keys == pre.main_keys,
                self.backyard == pre.backyard,
                self.no_elements_in_main_table == pre.no_elements_in_main_table,
                self.meta_data@.len() == pre.meta_data@.len(),
                self.main_table@.len() == pre.main_table@.len(),
                forall|m: int|
                    0 <= m < pre.spec_blocks() ==> self.spec_offset(m) == pre.spec_offset(m) + (
                    if sliding_block_index < m <= j {
                        1int
                    } else {
                        0int
                    }) && self.spec_gap(m) == pre.spec_gap(m) - (if m == j {
                        1int
                    } else {
                        0int
                    }) && self.spec_threshold(m) == pre.spec_threshold(m) && #[trigger] self.meta_data@[m]
                        == self.meta_data@[m],
                forall|p: int|
                    0 <= p < pre.spec_start(sliding_block_index + 1) ==> #[trigger] self.spec_cells()[p]
                        == pre.spec_cells()[p],
                forall|p: int| pre.spec_end(j) < p < pre.spec_size() ==> #[trigger] self.spec_cells()[p] == pre.spec_cells()[p],
                forall|m: int, p: int|
                    #![trigger pre.spec_start(m), self.spec_cells()[p]]
                    sliding_block_index < m <= j && pre.spec_start(m) + 1 <= p < pre.spec_end(m) ==> self.spec_cells()[p]
                        == pre.spec_cells()[p],
                forall|m: int|
                    sliding_block_index < m <= j && #[trigger] pre.spec_len(m) > 0 ==> self.spec_cells()[pre.spec_end(m)]
                        == pre.spec_cells()[pre.spec_start(m)],
            decreases sliding_block_index,
        {
            let ghost kk = sliding_block_index as int;
            let ghost before = *self;
            proof {
                pre.lemma_end_in_table(kk);
                assert(pre.block_layout_ok(kk));
                assert(pre.block_layout_ok(kk + 1));
                assert(self.meta_data@[kk] == self.meta_data@[kk]);
                assert(self.meta_data@[kk + 1] == self.meta_data@[kk + 1]);
                if pre.spec_len(kk) > 0 {
                    assert(before.spec_cells()[pre.spec_start(kk)] == pre.spec_cells()[pre.spec_start(kk)]);
                }
            }
            let start_sliding_block = BLOCK_SIZE * sliding_block_index
                + self.meta_data[sliding_block_index].offset;
            let end_sliding_block = BLOCK_SIZE * sliding_block_index + BLOCK_SIZE
                + self.meta_data[sliding_block_index + 1].offset
                - self.meta_data[sliding_block_index].gap;
            assert(start_sliding_block == pre.spec_start(kk));
            assert(end_sliding_block == pre.spec_end(kk) + 1);
            // The next block has moved already, so the cell after this
            // block's end is the one before the new end.
            let moved = self.main_table[start_sliding_block];
            self.main_table.set(end_sliding_block - 1, moved);
            let mut mk = self.meta_data[sliding_block_index];
            mk.offset = mk.offset + 1;
            self.meta_data.set(sliding_block_index, mk);
            sliding_block_index = sliding_block_index - 1;
            proof {
                assert forall|m: int| 0 <= m < pre.spec_blocks() implies self.spec_offset(m)
                    == pre.spec_offset(m) + (if sliding_block_index < m <= j {
                    1int
                } else {
                    0int
                }) && self.spec_gap(m) == pre.spec_gap(m) - (if m == j {
                    1int
                } else {
                    0int
                }) && self.spec_threshold(m) == pre.spec_threshold(m) && #[trigger] self.meta_data@[m]
                    == self.meta_data@[m] by {
                    assert(before.meta_data@[m] == before.meta_data@[m]);
                    if m != kk {
                        assert(self.meta_data@[m] == before.meta_data@[m]);
                    }
                }
                assert forall|p: int|
                    0 <= p < pre.spec_size() && p != pre.spec_end(kk) implies #[trigger] self.spec_cells()[p]
                        == before.spec_cells()[p] by {
                }
                assert forall|m: int, p: int|
                    #![trigger pre.spec_start(m), self.spec_cells()[p]]
                    sliding_block_index < m <= j && pre.spec_start(m) + 1 <= p < pre.spec_end(m) implies self.spec_cells()[p]
                        == pre.spec_cells()[p] by {
                    assert(before.spec_cells()[p] == pre.spec_cells()[p]);
                    pre.lemma_end_in_table(m);
                    if m > kk {
                        if m > kk + 1 {
                            pre.lemma_ordered(kk + 1, m);
                        }
                    }
                }
                assert forall|m: int|
                    sliding_block_index < m <= j && #[trigger] pre.spec_len(m) > 0 implies self.spec_cells()[pre.spec_end(m)]
                        == pre.spec_cells()[pre.spec_start(m)] by {
                    pre.lemma_end_in_table(m);
                    if m < j {
                        pre.lemma_ordered(m, j);
                        assert(pre.block_layout_ok(j));
                    }
                    if m > kk {
                        assert(before.spec_cells()[pre.spec_end(m)] == pre.spec_cells()[pre.spec_start(m)]);
                        if m > kk + 1 {
                            pre.lemma_ordered(kk + 1, m);
                        }
                    }
                }
                assert forall|p: int|
                    0 <= p < pre.spec_start(sliding_block_index + 1) implies #[trigger] self.spec_cells()[p]
                        == pre.spec_cells()[p] by {
                    assert(before.spec_cells()[p] == pre.spec_cells()[p]);
                }
                assert forall|p: int| pre.spec_end(j) < p < pre.spec_size() implies #[trigger] self.spec_cells()[p] == pre.spec_cells()[p] by {
                    assert(before.spec_cells()[p] == pre.spec_cells()[p]);
                    if kk + 1 < j {
                        pre.lemma_ordered(kk + 1, j);
                    }
                    assert(pre.block_layout_ok(j));
                }
            }
        }
        let ghost mid = *self;
        proof {
            pre.lemma_gap_bound(i);
            assert(mid.meta_data@[i] == mid.meta_data@[i]);
        }
        let mut receiver = self.meta_data[block_index];
        receiver.gap = receiver.gap + 1;
        self.meta_data.set(block_index, receiver);
        proof {
            let nb = pre.spec_blocks();
            assert forall|m: int| 0 <= m < nb implies #[trigger] self.spec_offset(m) == pre.spec_offset(m) + (
            if i < m <= j {
                1int
            } else {
                0int
            }) by {
                assert(mid.meta_data@[m] == mid.meta_data@[m]);
                if m != i {
                    assert(self.meta_data@[m] == mid.meta_data@[m]);
                }
            }
            assert forall|m: int| 0 <= m < nb implies #[trigger] self.spec_gap(m) == pre.spec_gap(m) - (if m == j {
                1int
            } else {
                0int
            }) + (if m == i {
                1int
            } else {
                0int
            }) by {
                assert(mid.meta_data@[m] == mid.meta_data@[m]);
                if m != i {
                    assert(self.meta_data@[m] == mid.meta_data@[m]);
                }
            }
            assert forall|m: int| 0 <= m < nb implies #[trigger] self.spec_threshold(m) == pre.spec_threshold(m) by {
                assert(mid.meta_data@[m] == mid.meta_data@[m]);
                if m != i {
                    assert(self.meta_data@[m] == mid.meta_data@[m]);
                }
            }
            assert forall|m: int, p: int|
                #![trigger pre.spec_start(m), self.spec_cells()[p]]
                i < m <= j && pre.spec_start(m) + 1 <= p < pre.spec_end(m) implies self.spec_cells()[p]
                    == pre.spec_cells()[p] by {
                assert(mid.spec_cells()[p] == pre.spec_cells()[p]);
            }
            assert forall|m: int|
                i < m <= j && #[trigger] pre.spec_len(m) > 0 implies self.spec_cells()[pre.spec_end(m)]
                    == pre.spec_cells()[pre.spec_start(m)] by {
                assert(mid.spec_cells()[pre.spec_end(m)] == pre.spec_cells()[pre.spec_start(m)]);
            }
            assert forall|p: int| 0 <= p < pre.spec_start(i + 1) implies #[trigger] self.spec_cells()[p] == pre.spec_cells()[p] by {
                assert(mid.spec_cells()[p] == pre.spec_cells()[p]);
            }
            assert forall|p: int| pre.spec_end(j) < p < pre.spec_size() implies #[trigger] self.spec_cells()[p] == pre.spec_cells()[p] by {
                assert(mid.spec_cells()[p] == pre.spec_cells()[p]);
            }
            SlickHash::lemma_slid_right(&pre, self, i, j);
            assert(self.moved_right(&pre, j, i));
            assert(pre.right_lender(i, j));
        }
        true
    }
}


impl SlickHash {
    /// The state that a right slide from lender `j` to receiver `i` leaves.
    #[verifier::rlimit(60)]
    proof fn lemma_slid_right(pre: &SlickHash, new: &SlickHash, i: int, j: int)
        requires
            pre.well_formed(),
            0 <= i < j < pre.spec_blocks(),
            pre.spec_gap(j) >= 1,
            pre.spec_offset(j) < MAX_OFFSET,
            forall|m: int| i < m < j ==> #[trigger] pre.spec_gap(m) == 0 && pre.spec_offset(m) < MAX_OFFSET,
            new.number_of_blocks == pre.number_of_blocks,
            new.main_table_size == pre.main_table_size,
            new.contents == pre.contents,
            new.main_keys == pre.main_keys,
            new.backyard == pre.backyard,
            new.no_elements_in_main_table == pre.no_elements_in_main_table,
            new.meta_data@.len() == pre.meta_data@.len(),
            new.main_table@.len() == pre.main_table@.len(),
            forall|m: int| 0 <= m < pre.spec_blocks() ==> #[trigger] new.spec_offset(m) == pre.spec_offset(m) + (
            if i < m <= j {
                1int
            } else {
                0int
            }),
            forall|m: int| 0 <= m < pre.spec_blocks() ==> #[trigger] new.spec_gap(m) == pre.spec_gap(m) - (if m == j {
                1int
            } else {
                0int
            }) + (if m == i {
                1int
            } else {
                0int
            }),
            forall|m: int| 0 <= m < pre.spec_blocks() ==> #[trigger] new.spec_threshold(m) == pre.spec_threshold(m),
            forall|m: int, p: int|
                #![trigger pre.spec_start(m), new.spec_cells()[p]]
                i < m <= j && pre.spec_start(m) + 1 <= p < pre.spec_end(m) ==> new.spec_cells()[p]
                    == pre.spec_cells()[p],
            forall|m: int|
                i < m <= j && #[trigger] pre.spec_len(m) > 0 ==> new.spec_cells()[pre.spec_end(m)]
                    == pre.spec_cells()[pre.spec_start(m)],
            forall|p: int| 0 <= p < pre.spec_start(i + 1) ==> #[trigger] new.spec_cells()[p] == pre.spec_cells()[p],
            forall|p: int| pre.spec_end(j) < p < pre.spec_size() ==> #[trigger] new.spec_cells()[p] == pre.spec_cells()[p],
        ensures
            new.slid(pre, i),
    {
        let nb = pre.spec_blocks();
        assert forall|m: int| 0 <= m < nb implies #[trigger] new.spec_start(m) == pre.spec_start(m) + (
        if i < m <= j {
            1int
        } else {
            0int
        }) && new.spec_end(m) == pre.spec_end(m) + (if i < m <= j {
            1int
        } else {
            0int
        }) by {
            assert(new.spec_offset(m) == new.spec_offset(m));
            assert(new.spec_gap(m) == new.spec_gap(m));
            if m + 1 < nb {
                assert(new.spec_offset(m + 1) == new.spec_offset(m + 1));
            }
        }
        assert forall|m: int| 0 <= m < nb implies #[trigger] new.block_layout_ok(m) && new.spec_len(m)
            == pre.spec_len(m) by {
            assert(pre.block_layout_ok(m));
            assert(new.spec_start(m) == new.spec_start(m));
            if m + 1 < nb {
                assert(new.spec_start(m + 1) == new.spec_start(m + 1));
                assert(new.spec_gap(m) == new.spec_gap(m));
            }
        }
        assert(new.spec_offset(0) == 0);
        assert(new.layout_ok());
        assert forall|m: int| 0 <= m < nb implies #[trigger] new.block_ok(m) && (forall|k: u64|
            pre.block_has(m, k) ==> #[trigger] new.block_has(m, k)) by {
            pre.lemma_end_in_table(m);
            new.lemma_end_in_table(m);
            assert(pre.block_ok(m));
            let os = pre.block_entries(m);
            let ns = new.block_entries(m);
            let n = os.len() as int;
            if i < m <= j {
                let f = |t: int| if t == n - 1 { 0 } else { t + 1 };
                let g = |u: int| if u == 0 { n - 1 } else { u - 1 };
                assert forall|t: int| 0 <= t < n implies 0 <= #[trigger] f(t) < n && ns[t] == os[f(t)] by {
                    let p = pre.spec_start(m) + 1 + t;
                    assert(ns[t] == new.spec_cells()[p]);
                    if t == n - 1 {
                        assert(p == pre.spec_end(m));
                        assert(pre.spec_len(m) > 0);
                    } else {
                        assert(pre.spec_start(m) + 1 <= p < pre.spec_end(m));
                        assert(new.spec_cells()[p] == pre.spec_cells()[p]);
                    }
                }
                SlickHash::lemma_block_permuted(pre, new, m, f, g);
            } else {
                if m <= i {
                    assert(pre.block_layout_ok(i));
                    if m < i {
                        pre.lemma_ordered(m, i);
                    }
                    assert forall|t: int| 0 <= t < n implies ns[t] == os[t] by {
                        assert(new.spec_cells()[pre.spec_start(m) + t] == pre.spec_cells()[pre.spec_start(m) + t]);
                    }
                } else {
                    pre.lemma_ordered(j, m);
                    if m > j + 1 {
                        pre.lemma_ordered(j + 1, m);
                    }
                    assert forall|t: int| 0 <= t < n implies ns[t] == os[t] by {
                        assert(new.spec_cells()[pre.spec_start(m) + t] == pre.spec_cells()[pre.spec_start(m) + t]);
                    }
                }
                assert(ns =~= os);
                assert forall|q: int| 0 <= q < ns.len() implies #[trigger] new.entry_ok(m, ns[q]) by {
                    assert(pre.entry_ok(m, os[q]));
                }
            }
        }
        assert forall|k: u64| #[trigger] new.spec_main_keys().contains(k) implies new.block_has(
            new.home_block(k),
            k,
        ) by {
            pre.lemma_home_block_bounds(k);
            assert(pre.block_has(pre.home_block(k), k));
            assert(new.block_ok(pre.home_block(k)));
        }
        assert forall|k: u64| #[trigger] new.spec_backyard().contains_key(k) implies threshold_hash(k)
            < new.spec_threshold(new.home_block(k)) by {
            pre.lemma_home_block_bounds(k);
        }
        SlickHash::lemma_total_len_same(pre, new, nb);
    }
}


impl SlickHash {
    /// A key that its home block turns away, stored in the backyard, leaves
    /// the table well formed.
    proof fn lemma_backyard_insert(pre: &SlickHash, new: &SlickHash, key: u64, value: u64)
        requires
            pre.well_formed(),
            threshold_hash(key) < pre.spec_threshold(pre.home_block(key)),
            !pre@.contains_key(key),
            new.main_table == pre.main_table,
            new.meta_data == pre.meta_data,
            new.number_of_blocks == pre.number_of_blocks,
            new.main_table_size == pre.main_table_size,
            new.no_elements_in_main_table == pre.no_elements_in_main_table,
            new.main_keys == pre.main_keys,
            new.backyard@ == pre.backyard@.insert(key, value),
            new.contents@ == pre.contents@.insert(key, value),
        ensures
            new.well_formed(),
    {
        assert(!pre.spec_main_keys().contains(key)) by {
            assert(pre@.dom().contains(key) == pre.spec_main_keys().union(pre.spec_backyard().dom()).contains(key));
        }
        assert forall|m: int| 0 <= m < new.spec_blocks() implies #[trigger] new.block_layout_ok(m) by {
            assert(pre.block_layout_ok(m));
        }
        assert forall|m: int| 0 <= m < new.spec_blocks() implies #[trigger] new.block_ok(m) by {
            assert(pre.block_ok(m));
            assert(new.block_entries(m) == pre.block_entries(m));
            let sm = new.block_entries(m);
            assert forall|q: int| 0 <= q < sm.len() implies #[trigger] new.entry_ok(m, sm[q]) by {
                assert(pre.entry_ok(m, sm[q]));
            }
        }
        assert forall|k: u64| #[trigger] new.spec_main_keys().contains(k) implies new.block_has(
            new.home_block(k),
            k,
        ) by {
            pre.lemma_home_block_bounds(k);
            assert(pre.block_has(pre.home_block(k), k));
            assert(new.block_entries(pre.home_block(k)) == pre.block_entries(pre.home_block(k)));
        }
        assert forall|k: u64| #[trigger] new.spec_backyard().contains_key(k) implies {
            &&& threshold_hash(k) < new.spec_threshold(new.home_block(k))
            &&& !new.spec_main_keys().contains(k)
            &&& new@.contains_key(k)
            &&& new@[k] == new.spec_backyard()[k]
        } by {
            if k != key {
                assert(pre.spec_backyard().contains_key(k));
            }
        }
        assert(new@.dom() =~= new.spec_main_keys().union(new.spec_backyard().dom()));
        SlickHash::lemma_total_len_same(pre, new, new.spec_blocks());
    }

    /// Sum of the first `n` block lengths is at most where block `n - 1` ends.
    proof fn lemma_total_len_le_end(&self, n: int)
        requires
            self.layout_ok(),
            1 <= n <= self.spec_blocks(),
        ensures
            self.total_len(n) <= self.spec_end(n - 1),
        decreases n,
    {
        assert(self.block_layout_ok(n - 1));
        if n > 1 {
            self.lemma_total_len_le_end(n - 1);
            assert(self.block_layout_ok(n - 2));
        } else {
            assert(self.total_len(0) == 0);
        }
    }

    /// Stores a new key at the end of its home block, in the block's first
    /// cell of gap.
    fn push_into_block(&mut self, block_index: usize, key: u64, value: u64)
        requires
            old(self).well_formed(),
            block_index < old(self).spec_blocks(),
            old(self).home_block(key) == block_index,
            threshold_hash(key) >= old(self).spec_threshold(block_index as int),
            !old(self)@.contains_key(key),
            old(self).spec_gap(block_index as int) > 0,
            old(self).spec_len(block_index as int) < MAX_SLICK_SIZE,
        ensures
            final(self).well_formed(),
            final(self)@ == old(self)@.insert(key, value),
            final(self).spec_blocks() == old(self).spec_blocks(),
            forall|m: int|
                0 <= m < old(self).spec_blocks() ==> #[trigger] final(self).spec_threshold(m)
                    == old(self).spec_threshold(m),
            final(self).spec_backyard() == old(self).spec_backyard(),
            final(self).spec_main_count() == old(self).spec_main_count() + 1,
            final(self).block_entries(block_index as int) == old(self).block_entries(
                block_index as int,
            ).push((key, value)),
            final(self).spec_gap(block_index as int) == old(self).spec_gap(block_index as int) - 1,
            forall|m: int|
                0 <= m < old(self).spec_blocks() ==> #[trigger] final(self).spec_offset(m)
                    == old(self).spec_offset(m) && (m != block_index ==> final(self).spec_gap(m)
                    == old(self).spec_gap(m) && final(self).block_entries(m) == old(self).block_entries(m)),
    {
        let ghost pre = *self;
        let ghost i = block_index as int;
        proof {
            pre.lemma_end_in_table(i);
            pre.lemma_gap_bound(i);
            assert(pre.block_layout_ok(i));
            if i + 1 < pre.spec_blocks() {
                pre.lemma_end_in_table(i + 1);
            }
            assert(!pre.spec_main_keys().contains(key)) by {
                assert(pre@.dom().contains(key) == pre.spec_main_keys().union(pre.spec_backyard().dom()).contains(key));
            }
            pre.lemma_total_len_le_end(pre.spec_blocks());
            pre.lemma_end_in_table(pre.spec_blocks() - 1);
        }
        let end = self.block_end(block_index);
        self.no_elements_in_main_table = self.no_elements_in_main_table + 1;
        self.main_table.set(end, (key, value));
        let mut m = self.meta_data[block_index];
        m.gap = m.gap - 1;
        self.meta_data.set(block_index, m);
        proof {
            self.contents@ = self.contents@.insert(key, value);
            self.main_keys@ = self.main_keys@.insert(key);
            let os = pre.block_entries(i);
            let ns = self.block_entries(i);
            let n = os.len() as int;
            assert(ns =~= os.push((key, value)));
            assert forall|mm: int| 0 <= mm < self.spec_blocks() implies #[trigger] self.block_layout_ok(mm) by {
                assert(pre.block_layout_ok(mm));
                if mm + 1 == i {
                    assert(pre.block_layout_ok(i));
                }
            }
            assert(self.layout_ok());
            SlickHash::lemma_frame(&pre, self, i);
            assert forall|mm: int| 0 <= mm < self.spec_blocks() && mm != i implies #[trigger] self.spec_len(mm) == pre.spec_len(mm) by {
                pre.lemma_end_in_table(mm);
                self.lemma_end_in_table(mm);
                assert(self.block_entries(mm).len() == pre.block_entries(mm).len());
            }
            SlickHash::lemma_total_len_delta(&pre, self, i, 1, self.spec_blocks());
            assert(pre.block_ok(i));
            assert forall|a: int| 0 <= a < n implies #[trigger] os[a].0 != key by {
                assert(pre.entry_ok(i, os[a]));
            }
            assert forall|mm: int| 0 <= mm < self.spec_blocks() implies #[trigger] self.block_ok(mm) by {
                assert(pre.block_ok(mm));
                let sm = self.block_entries(mm);
                if mm == i {
                    assert forall|q: int| 0 <= q < sm.len() implies #[trigger] self.entry_ok(mm, sm[q]) by {
                        if q < n {
                            assert(pre.entry_ok(i, os[q]));
                        }
                    }
                    assert forall|a: int, b: int| 0 <= a < b < sm.len() implies #[trigger] sm[a].0 != #[trigger] sm[b].0 by {
                        if b == n {
                            assert(os[a].0 != key);
                        } else {
                            assert(os[a].0 != os[b].0);
                        }
                    }
                } else {
                    assert forall|q: int| 0 <= q < sm.len() implies #[trigger] self.entry_ok(mm, sm[q]) by {
                        assert(pre.entry_ok(mm, sm[q]));
                    }
                }
            }
            assert forall|k: u64| #[trigger] self.spec_main_keys().contains(k) implies self.block_has(
                self.home_block(k),
                k,
            ) by {
                pre.lemma_home_block_bounds(k);
                let h = pre.home_block(k);
                if k == key {
                    assert(ns[n].0 == key);
                } else {
                    assert(pre.block_has(h, k));
                    let jj = choose|jj: int| 0 <= jj < pre.spec_len(h) && (#[trigger] pre.block_entries(h)[jj]).0 == k;
                    if h == i {
                        assert(ns[jj].0 == k);
                    } else {
                        assert(self.block_entries(h)[jj].0 == k);
                    }
                }
            }
            assert forall|k: u64| #[trigger] self.spec_backyard().contains_key(k) implies {
                &&& threshold_hash(k) < self.spec_threshold(self.home_block(k))
                &&& !self.spec_main_keys().contains(k)
                &&& self@.contains_key(k)
                &&& self@[k] == self.spec_backyard()[k]
            } by {
                pre.lemma_home_block_bounds(k);
                assert(pre.spec_backyard().contains_key(k));
            }
            assert(self@.dom() =~= self.spec_main_keys().union(self.spec_backyard().dom()));
        }
    }
}


impl SlickHash {
    /// Whether block `block_index` must bump: it holds `MAX_SLICK_SIZE`
    /// entries, or it has no gap and none can be slid to it, from the left
    /// first and then from the right. A slide that succeeds stays done.
    fn there_is_no_space(&mut self, block_len: usize, block_index: usize) -> (r: bool)
        requires
            old(self).well_formed(),
            block_index < old(self).spec_blocks(),
            block_len == old(self).spec_len(block_index as int),
        ensures
            final(self).well_formed(),
            r == old(self).no_space(block_index as int),
            r || old(self).spec_gap(block_index as int) > 0 ==> *final(self) == *old(self),
            !r ==> final(self).spec_gap(block_index as int) > 0 && final(self).spec_len(
                block_index as int,
            ) < MAX_SLICK_SIZE,
            !r && old(self).spec_gap(block_index as int) == 0 ==> final(self).slid(
                old(self),
                block_index as int,
            ),
            !r && old(self).spec_gap(block_index as int) == 0 && old(self).can_slide_left(
                block_index as int,
            ) ==> exists|j: int|
                old(self).left_lender(block_index as int, j) && #[trigger] final(self).moved_left(
                    old(self),
                    j,
                    block_index as int,
                ) && final(self).spec_gap(block_index as int) == 1,
            !r && old(self).spec_gap(block_index as int) == 0 && !old(self).can_slide_left(
                block_index as int,
            ) ==> exists|j: int|
                old(self).right_lender(block_index as int, j) && #[trigger] final(self).moved_right(
                    old(self),
                    j,
                    block_index as int,
                ) && final(self).spec_gap(block_index as int) == 1,
    {
        (block_len >= MAX_SLICK_SIZE) || !(self.meta_data[block_index].gap > 0
            || self.slide_gap_from_left(block_index) || self.slide_gap_from_right(block_index))
    }

    /// Stores `key` with `value` unless the map holds `key` already; an
    /// existing value is never overwritten. The key goes to the backyard when
    /// its threshold hash is below its home block's threshold; else to its
    /// home block, after a gap was slid to the block or, failing that, after
    /// the block was bumped, which may send the key to the backyard after
    /// all.
    #[verifier::rlimit(60)]
    pub fn try_insert(&mut self, key_value_pair: (u64, u64)) -> (r: Insertion<u64>)
        requires
            old(self).well_formed(),
        ensures
            final(self).well_formed(),
            final(self)@ == inserted(old(self)@, key_value_pair.0, key_value_pair.1),
            r == insertion_result(old(self)@, key_value_pair.0, key_value_pair.1),
            final(self).spec_blocks() == old(self).spec_blocks(),
            forall|m: int|
                0 <= m < old(self).spec_blocks() ==> old(self).spec_threshold(m) <= #[trigger] final(self).spec_threshold(m),
            old(self)@.contains_key(key_value_pair.0) ==> *final(self) == *old(self),
            !old(self)@.contains_key(key_value_pair.0) && threshold_hash(key_value_pair.0) < old(self).spec_threshold(
                old(self).home_block(key_value_pair.0),
            ) ==> final(self).main_unchanged(old(self)) && final(self).spec_backyard() == old(
                self).spec_backyard().insert(key_value_pair.0, key_value_pair.1),
            !old(self)@.contains_key(key_value_pair.0) && old(self).takes_in_block(key_value_pair.0)
                ==> final(self).placed_in_block(old(self), key_value_pair.0, key_value_pair.1),
            !old(self)@.contains_key(key_value_pair.0) && old(self).takes_in_block(key_value_pair.0)
                && old(self).spec_gap(old(self).home_block(key_value_pair.0)) > 0 ==> final(self).pushed(
                old(self),
                old(self).home_block(key_value_pair.0),
                key_value_pair.0,
                key_value_pair.1,
            ),
            !old(self)@.contains_key(key_value_pair.0) && old(self).takes_in_block(key_value_pair.0)
                && old(self).spec_gap(old(self).home_block(key_value_pair.0)) == 0 && old(self).can_slide_left(
                old(self).home_block(key_value_pair.0),
            ) ==> exists|j: int|
                old(self).left_lender(old(self).home_block(key_value_pair.0), j) && #[trigger] final(self).moved_left(
                    old(self),
                    j,
                    old(self).home_block(key_value_pair.0),
                ),
            !old(self)@.contains_key(key_value_pair.0) && old(self).takes_in_block(key_value_pair.0)
                && old(self).spec_gap(old(self).home_block(key_value_pair.0)) == 0 && !old(self).can_slide_left(
                old(self).home_block(key_value_pair.0),
            ) ==> exists|j: int|
                old(self).right_lender(old(self).home_block(key_value_pair.0), j) && #[trigger] final(self).moved_right(
                    old(self),
                    j,
                    old(self).home_block(key_value_pair.0),
                ),
            !old(self)@.contains_key(key_value_pair.0) && old(self).must_bump_for(key_value_pair.0)
                ==> final(self).bumped(old(self), key_value_pair.0),
    {
        let (key, value) = key_value_pair;
        let ghost pre = *self;
        let block_index = self.hash_block_index(key);
        let ghost i = block_index as int;
        let key_threshold = self.hash_threshold(key);
        if key_threshold < self.meta_data[block_index].threshold {
            proof {
                self.lemma_backyard_side(key);
            }
            let r = self.insert_into_backyard(key, value);
            proof {
                if !pre@.contains_key(key) {
                    self.contents@ = self.contents@.insert(key, value);
                    SlickHash::lemma_backyard_insert(&pre, self, key, value);
                }
            }
            return r;
        }
        proof {
            self.lemma_main_side(key);
        }
        if let Some(p) = self.find_in_block(block_index, key) {
            proof {
                let j = p - self.spec_start(i);
                self.lemma_end_in_table(i);
                assert(self.block_entries(i)[j] == self.spec_cells()[p as int]);
                assert(self.block_ok(i));
                assert(self.entry_ok(i, self.block_entries(i)[j]));
            }
            return Insertion::Occupied(self.main_table[p].1);
        }
        proof {
            if self.spec_main_keys().contains(key) {
                assert(self.block_has(i, key));
            }
            assert(!pre@.contains_key(key));
            self.lemma_end_in_table(i);
        }
        let (block_start, block_end) = self.block_range(block_index);
        let no_space = self.there_is_no_space(block_end - block_start, block_index);
        if no_space {
            let ghost before_bump = *self;
            proof {
                assert(self.spec_threshold(i) == pre.spec_threshold(i));
            }
            let t_prime = self.bump(block_index, key_threshold);
            proof {
                assert(before_bump == pre);
                assert forall|m: int| 0 <= m < pre.spec_blocks() implies #[trigger] self.spec_offset(m)
                    == pre.spec_offset(m) by {
                    assert(self.spec_offset(m) == before_bump.spec_offset(m));
                }
            }
            if key_threshold < t_prime {
                let ghost before = *self;
                proof {
                    assert(!self@.contains_key(key));
                    assert(!self.spec_backyard().contains_key(key)) by {
                        assert(self@.dom() == self.spec_main_keys().union(self.spec_backyard().dom()));
                    }
                }
                let r = self.insert_into_backyard(key, value);
                proof {
                    self.contents@ = self.contents@.insert(key, value);
                    SlickHash::lemma_backyard_insert(&before, self, key, value);
                    assert forall|m: int| 0 <= m < pre.spec_blocks() implies pre.spec_threshold(m)
                        <= #[trigger] self.spec_threshold(m) && self.spec_offset(m) == pre.spec_offset(m)
                        && (m != i ==> self.spec_threshold(m) == pre.spec_threshold(m)) by {
                        assert(before_bump.spec_threshold(m) == pre.spec_threshold(m));
                        assert(self.spec_threshold(m) == before.spec_threshold(m));
                        assert(self.spec_offset(m) == before.spec_offset(m));
                        assert(before.spec_offset(m) == before_bump.spec_offset(m));
                    }
                    assert forall|m: int| 0 <= m < pre.spec_blocks() implies #[trigger] self.spec_offset(m)
                        == pre.spec_offset(m) && (m != i ==> self.spec_threshold(m) == pre.spec_threshold(m)) by {
                        assert(self.meta_data@[m] == before.meta_data@[m]);
                        assert(before.spec_offset(m) == pre.spec_offset(m));
                        assert(before_bump.spec_threshold(m) == pre.spec_threshold(m));
                    }
                    SlickHash::lemma_entries_sorted(self, &pre, i);
                    self.lemma_backyard_side(key);
                    assert(self.bumped(&pre, key));
                }
                return r;
            }
            proof {
                assert forall|m: int| 0 <= m < pre.spec_blocks() implies pre.spec_threshold(m)
                    <= #[trigger] self.spec_threshold(m) by {
                    assert(before_bump.spec_threshold(m) == pre.spec_threshold(m));
                }
            }
        } else {
            proof {
                assert forall|m: int| 0 <= m < pre.spec_blocks() implies pre.spec_threshold(m)
                    <= #[trigger] self.spec_threshold(m) by {
                }
            }
        }
        let ghost before_push = *self;
        self.push_into_block(block_index, key, value);
        proof {
            assert forall|m: int| 0 <= m < pre.spec_blocks() implies pre.spec_threshold(m)
                <= #[trigger] self.spec_threshold(m) && self.spec_threshold(m) == before_push.spec_threshold(m)
                && self.spec_offset(m) == before_push.spec_offset(m) && (m != i ==> self.spec_gap(m)
                == before_push.spec_gap(m)) by {
                assert(before_push.spec_threshold(m) >= pre.spec_threshold(m));
                assert(self.spec_offset(m) == before_push.spec_offset(m));
            }
            if no_space {
                assert forall|m: int| 0 <= m < pre.spec_blocks() implies #[trigger] self.spec_offset(m)
                    == pre.spec_offset(m) && (m != i ==> self.spec_threshold(m) == pre.spec_threshold(m)) by {
                    assert(before_push.spec_offset(m) == pre.spec_offset(m));
                    if m != i {
                        assert(before_push.spec_threshold(m) == pre.spec_threshold(m));
                    }
                }
                SlickHash::lemma_entries_sorted(self, &pre, i);
                self.lemma_main_side(key);
                assert(self.bumped(&pre, key));
            } else if pre.spec_gap(i) == 0 {
                if pre.can_slide_left(i) {
                    let j = choose|j: int| pre.left_lender(i, j) && #[trigger] before_push.moved_left(&pre, j, i)
                        && before_push.spec_gap(i) == 1;
                    assert forall|m: int| 0 <= m < pre.spec_blocks() implies #[trigger] self.spec_offset(m)
                        == before_push.spec_offset(m) by {
                    }
                    assert(self.moved_left(&pre, j, i));
                } else {
                    let j = choose|j: int| pre.right_lender(i, j) && #[trigger] before_push.moved_right(&pre, j, i)
                        && before_push.spec_gap(i) == 1;
                    assert(self.moved_right(&pre, j, i));
                }
            }
        }
        Insertion::Inserted(value)
    }
}

impl SlickHash {
    /// A new `key` passes its home block's threshold and the block has room,
    /// or room can be slid to it.
    pub open spec fn takes_in_block(&self, key: u64) -> bool {
        threshold_hash(key) >= self.spec_threshold(self.home_block(key)) && !self.no_space(
            self.home_block(key),
        )
    }

    /// A new `key` passes its home block's threshold but the block must bump.
    pub open spec fn must_bump_for(&self, key: u64) -> bool {
        threshold_hash(key) >= self.spec_threshold(self.home_block(key)) && self.no_space(
            self.home_block(key),
        )
    }

    /// `key` with `value` went to the end of its home block: the block is one
    /// entry longer and ends with it; the backyard and every threshold stay,
    /// and the main-table count grows by one.
    pub open spec fn placed_in_block(&self, pre: &SlickHash, key: u64, value: u64) -> bool {
        let i = pre.home_block(key);
        &&& self.spec_backyard() == pre.spec_backyard()
        &&& self.spec_main_count() == pre.spec_main_count() + 1
        &&& self.spec_len(i) == pre.spec_len(i) + 1
        &&& self.block_entries(i).last() == (key, value)
        &&& self.spec_gap(i) == pre.spec_gap(i) - 1 || (pre.spec_gap(i) == 0 && self.spec_gap(i) == 0)
        &&& forall|m: int| 0 <= m < pre.spec_blocks() ==> #[trigger] self.spec_threshold(m) == pre.spec_threshold(m)
    }

    /// Block `i` took `(key, value)` in its first cell of gap, and nothing
    /// else of the layout moved.
    pub open spec fn pushed(&self, pre: &SlickHash, i: int, key: u64, value: u64) -> bool {
        &&& self.block_entries(i) == pre.block_entries(i).push((key, value))
        &&& self.spec_gap(i) == pre.spec_gap(i) - 1
        &&& forall|m: int|
            0 <= m < pre.spec_blocks() ==> #[trigger] self.spec_offset(m) == pre.spec_offset(m) && (m
                != i ==> self.spec_gap(m) == pre.spec_gap(m) && self.block_entries(m) == pre.block_entries(m))
    }

    /// The home block `i` of `key` was bumped: its new threshold `t` is one
    /// more than the least threshold hash among its old entries and `key`;
    /// exactly the old entries below `t`, and `key` if it is below `t`, are in
    /// the backyard now, the others in block `i`; offsets and the other
    /// thresholds stay.
    pub open spec fn bumped(&self, pre: &SlickHash, key: u64) -> bool {
        let i = pre.home_block(key);
        let t = self.spec_threshold(i);
        let os = pre.block_entries(i);
        &&& pre.spec_threshold(i) < t <= threshold_hash(key) + 1
        &&& forall|q: int| 0 <= q < os.len() ==> threshold_hash((#[trigger] os[q]).0) >= t - 1
        &&& t - 1 == threshold_hash(key) || exists|q: int|
            0 <= q < os.len() && threshold_hash((#[trigger] os[q]).0) == t - 1
        &&& forall|q: int|
            0 <= q < os.len() ==> (threshold_hash((#[trigger] os[q]).0) < t ==> self.spec_backyard().contains_key(
                os[q].0,
            )) && (threshold_hash(os[q].0) >= t ==> self.block_has(i, os[q].0))
        &&& (threshold_hash(key) < t <==> self.spec_backyard().contains_key(key))
        &&& forall|m: int|
            0 <= m < pre.spec_blocks() ==> #[trigger] self.spec_offset(m) == pre.spec_offset(m) && (m
                != i ==> self.spec_threshold(m) == pre.spec_threshold(m))
    }

    /// Every old entry of block `i`, still in the map, sits where the block's
    /// current threshold sends it.
    proof fn lemma_entries_sorted(new: &SlickHash, pre: &SlickHash, i: int)
        requires
            new.well_formed(),
            pre.well_formed(),
            0 <= i < pre.spec_blocks(),
            new.spec_blocks() == pre.spec_blocks(),
            forall|k: u64| pre@.contains_key(k) ==> #[trigger] new@.contains_key(k),
        ensures
            forall|q: int|
                0 <= q < pre.block_entries(i).len() ==> (threshold_hash(
                    (#[trigger] pre.block_entries(i)[q]).0,
                ) < new.spec_threshold(i) ==> new.spec_backyard().contains_key(
                    pre.block_entries(i)[q].0,
                )) && (threshold_hash(pre.block_entries(i)[q].0) >= new.spec_threshold(i)
                    ==> new.block_has(i, pre.block_entries(i)[q].0)),
    {
        assert forall|q: int| 0 <= q < pre.block_entries(i).len() implies (threshold_hash(
            (#[trigger] pre.block_entries(i)[q]).0,
        ) < new.spec_threshold(i) ==> new.spec_backyard().contains_key(
            pre.block_entries(i)[q].0,
        )) && (threshold_hash(pre.block_entries(i)[q].0) >= new.spec_threshold(i)
            ==> new.block_has(i, pre.block_entries(i)[q].0)) by {
            let e = pre.block_entries(i)[q];
            assert(pre.block_ok(i));
            assert(pre.entry_ok(i, e));
            assert(new.home_block(e.0) == i);
            if threshold_hash(e.0) < new.spec_threshold(i) {
                new.lemma_backyard_side(e.0);
            } else {
                new.lemma_main_side(e.0);
            }
        }
    }
}

/// The map after inserting `value` under `key`: unchanged if `key` is
/// there already.
pub open spec fn inserted(m: Map<u64, u64>, key: u64, value: u64) -> Map<u64, u64> {
    if m.contains_key(key) {
        m
    } else {
        m.insert(key, value)
    }
}

/// The map after inserting the pairs of `pairs` one by one, in order.
pub open spec fn inserted_all(m: Map<u64, u64>, pairs: Seq<(u64, u64)>) -> Map<u64, u64>
    decreases pairs.len(),
{
    if pairs.len() == 0 {
        m
    } else {
        inserted(inserted_all(m, pairs.drop_last()), pairs.last().0, pairs.last().1)
    }
}

impl SlickHash {
    /// Inserts the pairs one by one, in order, with `try_insert`: the first
    /// value given for a key is the one kept.
    pub fn bulk_insert(&mut self, key_value_pairs: &[(u64, u64)])
        requires
            old(self).well_formed(),
        ensures
            final(self).well_formed(),
            final(self)@ == inserted_all(old(self)@, key_value_pairs@),
    {
        let ghost pre = self@;
        let mut idx: usize = 0;
        while idx < key_value_pairs.len()
            invariant
                self.well_formed(),
                idx <= key_value_pairs@.len(),
                self@ == inserted_all(pre, key_value_pairs@.subrange(0, idx as int)),
            decreases key_value_pairs@.len() - idx,
        {
            let pair = key_value_pairs[idx];
            self.try_insert(pair);
            proof {
                let s = key_value_pairs@.subrange(0, idx + 1);
                assert(s.drop_last() =~= key_value_pairs@.subrange(0, idx as int));
                assert(s.last() == pair);
            }
            idx = idx + 1;
        }
        proof {
            assert(key_value_pairs@.subrange(0, idx as int) =~= key_value_pairs@);
        }
    }
}

/// What an insertion reports: `Occupied` with the stored value if `key` is
/// there already, else `Inserted` with `value`.
pub open spec fn insertion_result(m: Map<u64, u64>, key: u64, value: u64) -> Insertion<u64> {
    if m.contains_key(key) {
        Insertion::Occupied(m[key])
    } else {
        Insertion::Inserted(value)
    }
}


impl SlickHash {
    /// The entries of block `block_index`, in the order of its cells.
    pub fn block_contents(&self, block_index: usize) -> (r: Vec<(u64, u64)>)
        requires
            self.well_formed(),
            block_index < self.spec_blocks(),
        ensures
            r@ == self.block_entries(block_index as int),
    {
        proof {
            self.lemma_end_in_table(block_index as int);
        }
        let (start, end) = self.block_range(block_index);
        let mut r: Vec<(u64, u64)> = Vec::new();
        let mut p = start;
        while p < end
            invariant
                start <= p <= end <= self.spec_size(),
                self.spec_cells().len() == self.spec_size(),
                r@ == self.spec_cells().subrange(start as int, p as int),
            decreases end - p,
        {
            r.push(self.main_table[p]);
            p = p + 1;
            assert(r@ =~= self.spec_cells().subrange(start as int, p as int));
        }
        r
    }

    /// Number of entries of block `block_index`.
    pub fn block_len(&self, block_index: usize) -> (r: usize)
        requires
            self.well_formed(),
            block_index < self.spec_blocks(),
        ensures
            r == self.spec_len(block_index as int),
    {
        proof {
            self.lemma_end_in_table(block_index as int);
        }
        let (start, end) = self.block_range(block_index);
        end - start
    }

    /// Whether the backyard holds `key`.
    pub fn backyard_contains(&self, key: &u64) -> (r: bool)
        requires
            self.well_formed(),
        ensures
            r == self.spec_backyard().contains_key(*key),
    {
        self.backyard.contains_key(key)
    }

    /// The main table and the backyard together hold as many keys as the map.
    pub proof fn lemma_population(&self)
        requires
            self.well_formed(),
        ensures
            self.spec_main_count() + self.spec_backyard().len() == self@.len(),
            self.spec_main_count() == self.total_len(self.spec_blocks()),
    {
        assert(self.spec_main_keys().disjoint(self.spec_backyard().dom()));
        vstd::set_lib::lemma_set_disjoint_lens(self.spec_main_keys(), self.spec_backyard().dom());
    }
}

/// Looking a key up right after inserting it gives the inserted value when
/// the key was new, and the value already stored otherwise; the value that
/// the insertion reports is that same value.
pub proof fn lemma_lookup_after_insert(m: Map<u64, u64>, key: u64, value: u64)
    ensures
        inserted(m, key, value).get(key) == Some(insertion_result(m, key, value).spec_value()),
        !m.contains_key(key) ==> inserted(m, key, value).get(key) == Some(value),
        m.contains_key(key) ==> inserted(m, key, value).get(key) == Some(m[key]),
{
}

/// After a key is removed, looking it up finds nothing.
pub proof fn lemma_get_after_remove(m: Map<u64, u64>, key: u64)
    ensures
        m.remove(key).get(key) == None::<u64>,
{
}

/// Inserting the same pair a second time changes nothing and reports the
/// key as present.
pub proof fn lemma_insert_twice(m: Map<u64, u64>, key: u64, value: u64)
    ensures
        inserted(inserted(m, key, value), key, value) == inserted(m, key, value),
        insertion_result(inserted(m, key, value), key, value) == Insertion::<u64>::Occupied(
            inserted(m, key, value)[key],
        ),
{
}

/// The population grows by one with each insertion of a new key, shrinks by
/// one with each removal of a present key, and stays put otherwise.
pub proof fn lemma_population_counts(m: Map<u64, u64>, key: u64, value: u64)
    requires
        m.dom().finite(),
    ensures
        inserted(m, key, value).len() == m.len() + (if m.contains_key(key) {
            0int
        } else {
            1int
        }),
        m.remove(key).len() == m.len() - (if m.contains_key(key) {
            1int
        } else {
            0int
        }),
{
    if m.contains_key(key) {
        assert(m.remove(key).dom() =~= m.dom().remove(key));
    } else {
        assert(m.remove(key) =~= m);
        assert(m.insert(key, value).dom() =~= m.dom().insert(key));
    }
}


impl HashTableBase<u64, u64> for SlickHash {
    open spec fn table_ok(&self) -> bool {
        self.well_formed()
    }

    open spec fn capacity_ok(capacity: usize) -> bool {
        capacity > 0 && capacity % BLOCK_SIZE == 0
    }

    fn with_capacity(capacity: usize) -> (r: Self) {
        SlickHash::new(capacity)
    }

    fn try_insert(&mut self, key_value_pair: (u64, u64)) -> (r: Insertion<u64>) {
        SlickHash::try_insert(self, key_value_pair)
    }

    fn get(&self, key: &u64) -> (r: Option<&u64>) {
        SlickHash::get(self, key)
    }

    fn contains(&self, key: &u64) -> (r: bool) {
        SlickHash::contains(self, key)
    }
}

impl HashTableRemove<u64, u64> for SlickHash {
    fn remove_entry(&mut self, key: &u64) -> (r: Option<(u64, u64)>) {
        SlickHash::remove_entry(self, key)
    }
}

impl DefaultHashTableBuild for SlickHash {

}

impl Named for SlickHash {
    fn name() -> (r: String)
        ensures
            r@ == "SlickHash"@,
    {
        "SlickHash".to_owned()
    }
}


impl SlickHash {
    proof fn lemma_no_left_lender(&self, i: int, sb: int)
        requires
            0 <= sb <= i,
            self.spec_gap(sb) == 0,
            sb == 0 || self.spec_offset(sb) == 0,
            forall|m: int| sb < m <= i ==> #[trigger] self.spec_gap(m) == 0 && self.spec_offset(m) >= 1,
        ensures
            !self.can_slide_left(i),
    {
        assert forall|j: int| !#[trigger] self.left_lender(i, j) by {
            if self.left_lender(i, j) {
                if j < sb {
                    assert(self.spec_gap(sb) == 0 && self.spec_offset(sb) > 0);
                } else if j > sb {
                    assert(self.spec_gap(j) == 0);
                }
            }
        }
    }

    proof fn lemma_left_lender_unique(&self, i: int, sb: int)
        requires
            0 <= sb <= i,
            self.spec_gap(sb) > 0,
            forall|m: int| sb < m <= i ==> #[trigger] self.spec_gap(m) == 0 && self.spec_offset(m) >= 1,
        ensures
            forall|j: int| #[trigger] self.left_lender(i, j) ==> j == sb,
            (forall|m: int| sb < m <= i ==> #[trigger] self.spec_gap(m) == 0 && self.spec_offset(m) > 0),
    {
        assert forall|j: int| #[trigger] self.left_lender(i, j) implies j == sb by {
            if j < sb {
                assert(self.spec_gap(sb) == 0);
            } else if j > sb {
                assert(self.spec_gap(j) == 0);
            }
        }
    }

    proof fn lemma_no_right_lender(&self, i: int, sb: int)
        requires
            i < sb < self.spec_blocks(),
            self.spec_gap(sb) == 0,
            sb == self.spec_blocks() - 1 || self.spec_offset(sb) == MAX_OFFSET,
            forall|m: int| i < m < sb ==> #[trigger] self.spec_gap(m) == 0 && self.spec_offset(m) < MAX_OFFSET,
        ensures
            !self.can_slide_right(i),
    {
        assert forall|j: int| !#[trigger] self.right_lender(i, j) by {
            if self.right_lender(i, j) {
                if j > sb {
                    assert(self.spec_offset(sb) < MAX_OFFSET);
                } else if j < sb {
                    assert(self.spec_gap(j) == 0);
                }
            }
        }
    }

    proof fn lemma_right_lender_unique(&self, i: int, sb: int)
        requires
            i < sb < self.spec_blocks(),
            self.spec_gap(sb) > 0,
            forall|m: int| i < m < sb ==> #[trigger] self.spec_gap(m) == 0 && self.spec_offset(m) < MAX_OFFSET,
        ensures
            forall|j: int| #[trigger] self.right_lender(i, j) ==> j == sb,
    {
        assert forall|j: int| #[trigger] self.right_lender(i, j) implies j == sb by {
            if j > sb {
                assert(self.spec_gap(sb) == 0);
            } else if j < sb {
                assert(self.spec_gap(j) == 0);
            }
        }
    }
}

} // verus!
