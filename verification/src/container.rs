//! A container: a hierarchy of load-balancing levels, each a row of buckets
//! of key slots, with one overflow array per level.
use vstd::prelude::*;

use std::collections::hash_map::DefaultHasher;
use vstd::std_specs::hash::DefaultHasherAdditionalSpecFns;
use crate::hashing::{seeded_hash, seeded_hash_exec, u64_hash_bytes};
use crate::sizing::{ceil_log2, halved_up, ceil_log2_exec, lemma_halved_up_le, lemma_ceil_log2_usize};
use crate::slots::{count_taken, count_taken_rows, first_free, all_free, lemma_first_free, lemma_count_taken_update, lemma_count_taken_rows_update, lemma_count_taken_all_free, lemma_count_taken_rows_all_free};
use crate::{Error, TinyPointer};

verus! {

/// Model of one level: its buckets of key slots, the seed of its hash, the
/// number of items stored at this level or deeper, and the first of the
/// container's cells that belong to the level.
pub struct LevelView {
    pub buckets: Seq<Seq<Option<u64>>>,
    pub seed: u64,
    pub count: nat,
    pub first_cell: nat,
}

/// Model of a container. Every slot has a cell of its own: level `l` owns
/// the cells from `levels[l].first_cell`, first one per bucket slot, then
/// one per overflow slot; `cell_count` cells in all.
pub struct ContainerView {
    pub levels: Seq<LevelView>,
    pub overflow: Seq<Seq<Option<(u64, usize)>>>,
    pub item_count: nat,
    pub capacity: nat,
    pub cell_count: nat,
}

impl LevelView {
    /// Bucket that `key` hashes to on this level.
    pub open spec fn bucket_of(self, key: u64) -> int {
        (seeded_hash(self.seed, key) as usize) as int % (self.buckets.len() as int)
    }

    /// The bucket `key` hashes to exists.
    pub proof fn lemma_bucket_of(self, key: u64)
        requires
            self.buckets.len() >= 1,
        ensures
            0 <= self.bucket_of(key) < self.buckets.len(),
    {
        vstd::arithmetic::div_mod::lemma_mod_bound((seeded_hash(self.seed, key) as usize) as int, self.buckets.len() as int);
    }

    /// The bucket of a key is the hash, by a fresh hasher fed the level's
    /// seed and then the whole key, modulo the number of buckets.
    pub proof fn lemma_bucket_of_whole_key(self, key: u64)
        ensures
            self.bucket_of(key) == (DefaultHasher::spec_finish(seq![u64_hash_bytes(self.seed), u64_hash_bytes(key)]) as usize) as int
                % (self.buckets.len() as int),
    {
    }

    /// The bucket of a key depends on the level's seed and number of
    /// buckets alone.
    pub proof fn lemma_bucket_of_depends_on_seed_and_count(self, other: LevelView, key: u64)
        requires
            self.seed == other.seed,
            self.buckets.len() == other.buckets.len(),
        ensures
            self.bucket_of(key) == other.bucket_of(key),
    {
    }

    /// Number of slots the level's buckets hold together.
    pub open spec fn slot_total(self) -> int {
        (self.buckets.len() * self.buckets[0].len()) as int
    }
}

impl ContainerView {
    /// Taken slots of level `l`, its buckets and its overflow array.
    pub open spec fn used_at(self, l: int) -> nat {
        count_taken_rows(self.levels[l].buckets) + count_taken(self.overflow[l])
    }

    /// Taken slots of levels `l` and deeper.
    pub open spec fn used_from(self, l: int) -> nat
        decreases self.levels.len() - l,
    {
        if 0 <= l < self.levels.len() {
            self.used_at(l) + self.used_from(l + 1)
        } else {
            0
        }
    }

    /// Level `l` is well formed: non-empty buckets of one size whose slot
    /// indices fit in 16 bits, an overflow array whose slot indices fit in
    /// 32 bits, and a count equal to the slots taken at it and deeper.
    pub open spec fn level_wf(self, l: int) -> bool {
        let lv = self.levels[l];
        &&& lv.buckets.len() >= 1
        &&& forall|b: int| 0 <= b < lv.buckets.len() ==> #[trigger] lv.buckets[b].len() == lv.buckets[0].len()
        &&& lv.buckets[0].len() <= 0x1_0000
        &&& self.overflow[l].len() <= 0x1_0000_0000
        &&& lv.count == self.used_from(l)
    }

    /// Cells of level `l`: one per bucket slot and one per overflow slot.
    pub open spec fn level_cells(self, l: int) -> int {
        self.levels[l].slot_total() + self.overflow[l].len()
    }

    /// Cells of the levels before `l`.
    pub open spec fn cells_before(self, l: int) -> int
        decreases l,
    {
        if l <= 0 {
            0
        } else {
            self.cells_before(l - 1) + self.level_cells(l - 1)
        }
    }

    /// Well formed: one overflow array per level, at most 64 levels, every
    /// level well formed, an item count equal to the slots taken and at
    /// most the capacity, and the levels' cells laid out one after another
    /// within a `usize`.
    pub open spec fn wf(self) -> bool {
        &&& self.levels.len() == self.overflow.len()
        &&& self.levels.len() <= 64
        &&& self.item_count == self.used_from(0)
        &&& self.item_count <= self.capacity
        &&& self.capacity <= usize::MAX
        &&& forall|l: int| 0 <= l < self.levels.len() ==> #[trigger] self.level_wf(l)
        &&& forall|l: int| 0 <= l < self.levels.len() ==> (#[trigger] self.levels[l]).first_cell == self.cells_before(l)
        &&& self.cell_count == self.cells_before(self.levels.len() as int)
        &&& self.cell_count <= usize::MAX
    }

    /// Slots the next level's buckets hold (0 after the last level).
    pub open spec fn next_capacity(self, l: int) -> int {
        if l + 1 < self.levels.len() {
            self.levels[l + 1].slot_total()
        } else {
            0
        }
    }

    /// Where allocating `key` ends, trying levels from `l` on: the first
    /// free slot of the key's bucket; else, once the level holds at least as
    /// many items as the next level has slots, the first free overflow slot;
    /// else the next level.
    pub open spec fn alloc_from(self, key: u64, l: int) -> Result<TinyPointer, Error>
        decreases self.levels.len() - l,
    {
        if 0 <= l < self.levels.len() {
            let lv = self.levels[l];
            let bucket = lv.buckets[lv.bucket_of(key)];
            let ov = self.overflow[l];
            if first_free(bucket) < bucket.len() {
                Ok(TinyPointer::LoadBalancer { level: l as u8, slot: first_free(bucket) as u16 })
            } else if lv.count >= self.next_capacity(l) && first_free(ov) < ov.len() {
                Ok(
                    TinyPointer::Overflow {
                        level_from_back: (self.levels.len() - 1 - l) as u8,
                        slot: first_free(ov) as u32,
                    },
                )
            } else {
                self.alloc_from(key, l + 1)
            }
        } else {
            Err(Error::AllocationFailed)
        }
    }

    /// Outcome of allocating a slot for `key`.
    pub open spec fn allocation(self, key: u64) -> Result<TinyPointer, Error> {
        if self.item_count >= self.capacity {
            Err(Error::ContainerFull)
        } else {
            self.alloc_from(key, 0)
        }
    }

    /// Level index that `ptr` names.
    pub open spec fn level_of(self, ptr: TinyPointer) -> int {
        match ptr {
            TinyPointer::LoadBalancer { level, .. } => level as int,
            TinyPointer::Overflow { level_from_back, .. } => self.levels.len() - 1 - level_from_back,
        }
    }

    /// `ptr` names an existing level.
    pub open spec fn valid_pointer(self, ptr: TinyPointer) -> bool {
        0 <= self.level_of(ptr) < self.levels.len()
    }

    /// Key held by the slot that `ptr` names for `key` (`None` when the slot
    /// is free or out of range).
    pub open spec fn slot_key(self, key: u64, ptr: TinyPointer) -> Option<u64> {
        let l = self.level_of(ptr);
        match ptr {
            TinyPointer::LoadBalancer { slot, .. } => {
                let bucket = self.levels[l].buckets[self.levels[l].bucket_of(key)];
                if slot < bucket.len() {
                    bucket[slot as int]
                } else {
                    None
                }
            },
            TinyPointer::Overflow { slot, .. } => {
                let ov = self.overflow[l];
                if slot < ov.len() {
                    match ov[slot as int] {
                        Some(entry) => Some(entry.0),
                        None => None,
                    }
                } else {
                    None
                }
            },
        }
    }

    /// Container-local index of the cell of the slot that `ptr` names for
    /// `key`: the level's first cell, plus `bucket * bucket_size + slot` in
    /// the buckets, or plus the buckets' slot total and `slot` in the
    /// overflow array.
    pub open spec fn index_of(self, key: u64, ptr: TinyPointer) -> int {
        let l = self.level_of(ptr);
        match ptr {
            TinyPointer::LoadBalancer { slot, .. } => {
                let b = self.levels[l].bucket_of(key);
                self.levels[l].first_cell + b * self.levels[l].buckets[b].len() + slot
            },
            TinyPointer::Overflow { slot, .. } => self.levels[l].first_cell + self.levels[l].slot_total() + slot,
        }
    }

    /// Slot `slot` of the overflow array of level `l` holds `key`.
    pub open spec fn overflow_holds(self, l: int, slot: int, key: u64) -> bool {
        0 <= slot < self.overflow[l].len() && match self.overflow[l][slot] {
            Some(e) => e.0 == key,
            None => false,
        }
    }

    /// Cell of `key`'s slot, when `ptr` names a slot holding `key`.
    pub open spec fn locate(self, key: u64, ptr: TinyPointer) -> Option<int> {
        if self.slot_key(key, ptr) == Some(key) {
            Some(self.index_of(key, ptr))
        } else {
            None
        }
    }

    /// Number of the slot that `ptr` names for `key`: `level * capacity +
    /// bucket * bucket_size + slot` in a level's buckets, `level * capacity +
    /// capacity + slot` in its overflow array.
    pub open spec fn slot_number(self, key: u64, ptr: TinyPointer) -> int {
        let l = self.level_of(ptr);
        match ptr {
            TinyPointer::LoadBalancer { slot, .. } => {
                let b = self.levels[l].bucket_of(key);
                l * self.capacity + b * self.levels[l].buckets[b].len() + slot
            },
            TinyPointer::Overflow { slot, .. } => l * self.capacity + self.capacity + slot,
        }
    }

    /// Number of `key`'s slot, when `ptr` names a slot holding `key`.
    pub open spec fn deref(self, key: u64, ptr: TinyPointer) -> Option<int> {
        if self.slot_key(key, ptr) == Some(key) {
            Some(self.slot_number(key, ptr))
        } else {
            None
        }
    }

    /// The slot numbers of level `l` fit in a `usize`.
    pub open spec fn level_numbers_fit(self, l: int) -> bool {
        &&& l * self.capacity + self.levels[l].slot_total() <= usize::MAX
        &&& (l + 1) * self.capacity + self.overflow[l].len() <= usize::MAX
    }

    /// Every slot number fits in a `usize`.
    pub open spec fn numbers_fit(self) -> bool {
        forall|l: int| 0 <= l < self.levels.len() ==> #[trigger] self.level_numbers_fit(l)
    }

    /// Same levels, seeds, bucket and array sizes, cells, and capacity.
    pub open spec fn same_layout(self, other: ContainerView) -> bool {
        &&& other.levels.len() == self.levels.len()
        &&& other.overflow.len() == self.overflow.len()
        &&& other.capacity == self.capacity
        &&& other.cell_count == self.cell_count
        &&& forall|l: int| 0 <= l < self.levels.len() ==> {
            &&& (#[trigger] other.levels[l]).seed == self.levels[l].seed
            &&& other.levels[l].first_cell == self.levels[l].first_cell
            &&& other.levels[l].buckets.len() == self.levels[l].buckets.len()
            &&& forall|b: int| 0 <= b < self.levels[l].buckets.len() ==> #[trigger] other.levels[l].buckets[b].len() == self.levels[l].buckets[b].len()
        }
        &&& forall|l: int| 0 <= l < self.overflow.len() ==> #[trigger] other.overflow[l].len() == self.overflow[l].len()
    }

    /// `next` is this container with the slot that `ptr` names for `key` set
    /// to `entry`, every other slot as it was, and the counts of levels up to
    /// the pointer's level changed by `delta` (not below zero), as is the
    /// item count.
    pub open spec fn slot_changed(self, next: ContainerView, key: u64, ptr: TinyPointer, entry: Option<u64>, delta: int) -> bool {
        let l = self.level_of(ptr);
        &&& self.same_layout(next)
        &&& next.item_count == clamp_nat(self.item_count + delta)
        &&& forall|j: int| 0 <= j < self.levels.len() ==> #[trigger] next.levels[j].count == (if j <= l {
            clamp_nat(self.levels[j].count + delta)
        } else {
            self.levels[j].count
        })
        &&& match ptr {
            TinyPointer::LoadBalancer { slot, .. } => {
                let b = self.levels[l].bucket_of(key);
                &&& next.levels[l].buckets == self.levels[l].buckets.update(b, self.levels[l].buckets[b].update(slot as int, entry))
                &&& forall|j: int| 0 <= j < self.levels.len() && j != l ==> #[trigger] next.levels[j].buckets == self.levels[j].buckets
                &&& next.overflow == self.overflow
            },
            TinyPointer::Overflow { slot, .. } => {
                &&& next.overflow == self.overflow.update(l, self.overflow[l].update(slot as int, match entry {
                    Some(k) => Some((k, slot as usize)),
                    None => None,
                }))
                &&& forall|j: int| 0 <= j < self.levels.len() ==> #[trigger] next.levels[j].buckets == self.levels[j].buckets
            },
        }
    }

    /// `next` is this container after `key` was stored at `ptr`.
    pub open spec fn placed(self, next: ContainerView, key: u64, ptr: TinyPointer) -> bool {
        self.slot_changed(next, key, ptr, Some(key), 1)
    }

    /// `next` is this container after the slot of `key` at `ptr` was freed.
    pub open spec fn released(self, next: ContainerView, key: u64, ptr: TinyPointer) -> bool {
        self.slot_changed(next, key, ptr, None, -1)
    }

    /// `next` is this container with every slot free and every count zero.
    pub open spec fn emptied(self, next: ContainerView) -> bool {
        &&& self.same_layout(next)
        &&& next.item_count == 0
        &&& forall|l: int| 0 <= l < self.levels.len() ==> (#[trigger] next.levels[l]).count == 0
        &&& forall|l: int, b: int| 0 <= l < self.levels.len() && 0 <= b < self.levels[l].buckets.len() ==> all_free(#[trigger] next.levels[l].buckets[b])
        &&& forall|l: int| 0 <= l < self.overflow.len() ==> all_free(#[trigger] next.overflow[l])
    }
}

/// Load-balancing bucket: a fixed row of key slots.
struct Bucket {
    slots: Vec<Option<u64>>,
}

impl Bucket {
    fn new(capacity: usize) -> (b: Bucket)
        ensures
            b.slots@.len() == capacity,
            all_free(b.slots@),
    {
        let mut slots: Vec<Option<u64>> = Vec::new();
        while slots.len() < capacity
            invariant
                slots@.len() <= capacity,
                all_free(slots@),
            decreases capacity - slots@.len(),
        {
            slots.push(None);
        }
        Bucket { slots }
    }

    /// Frees every slot.
    fn clear(&mut self)
        ensures
            final(self).slots@.len() == old(self).slots@.len(),
            all_free(final(self).slots@),
    {
        let mut i: usize = 0;
        while i < self.slots.len()
            invariant
                i <= self.slots@.len(),
                self.slots@.len() == old(self).slots@.len(),
                forall|j: int| 0 <= j < i ==> #[trigger] self.slots@[j] is None,
            decreases self.slots@.len() - i,
        {
            self.slots.set(i, None);
            i = i + 1;
        }
    }

    /// Stores `key` in the first free slot and returns its index.
    fn try_allocate(&mut self, key: u64) -> (r: Option<usize>)
        ensures
            r is Some <==> first_free(old(self).slots@) < old(self).slots@.len(),
            r matches Some(i) ==> i == first_free(old(self).slots@) && final(self).slots@
                == old(self).slots@.update(i as int, Some(key)),
            r is None ==> final(self).slots@ == old(self).slots@,
    {
        proof {
            lemma_first_free(self.slots@);
        }
        let mut idx: usize = 0;
        while idx < self.slots.len()
            invariant
                self.slots@ == old(self).slots@,
                0 <= idx <= self.slots@.len(),
                idx <= first_free(self.slots@),
                0 <= first_free(self.slots@) <= self.slots@.len(),
                forall|j: int| 0 <= j < first_free(self.slots@) ==> #[trigger] self.slots@[j] is Some,
                first_free(self.slots@) < self.slots@.len() ==> self.slots@[first_free(self.slots@)] is None,
            decreases self.slots@.len() - idx,
        {
            if self.slots[idx].is_none() {
                self.slots.set(idx, Some(key));
                return Some(idx);
            }
            idx = idx + 1;
        }
        None
    }
}

/// One level of the container hierarchy.
struct Level {
    buckets: Vec<Bucket>,
    hash_seed: u64,
    /// Items stored at this level or deeper.
    count: usize,
    /// First of the container's cells that belong to this level.
    first_cell: usize,
}

impl Level {
    spec fn view(&self) -> LevelView {
        LevelView {
            buckets: self.buckets@.map_values(|b: Bucket| b.slots@),
            seed: self.hash_seed,
            count: self.count as nat,
            first_cell: self.first_cell as nat,
        }
    }

    fn new(num_buckets: usize, bucket_capacity: usize, hash_seed: u64, first_cell: usize) -> (level: Level)
        ensures
            level@.buckets.len() == num_buckets,
            forall|b: int| 0 <= b < num_buckets ==> (#[trigger] level@.buckets[b]).len() == bucket_capacity
                && all_free(level@.buckets[b]),
            level@.seed == hash_seed,
            level@.count == 0,
            level@.first_cell == first_cell,
    {
        let mut buckets: Vec<Bucket> = Vec::new();
        while buckets.len() < num_buckets
            invariant
                buckets@.len() <= num_buckets,
                forall|b: int| 0 <= b < buckets@.len() ==> (#[trigger] buckets@[b]).slots@.len() == bucket_capacity
                    && all_free(buckets@[b].slots@),
            decreases num_buckets - buckets@.len(),
        {
            buckets.push(Bucket::new(bucket_capacity));
        }
        Level { buckets, hash_seed, count: 0, first_cell }
    }

    /// Frees every slot and sets the count to zero.
    fn clear(&mut self)
        ensures
            final(self)@.buckets.len() == old(self)@.buckets.len(),
            final(self)@.seed == old(self)@.seed,
            final(self)@.first_cell == old(self)@.first_cell,
            final(self)@.count == 0,
            forall|b: int| 0 <= b < old(self)@.buckets.len() ==> (#[trigger] final(self)@.buckets[b]).len() == old(self)@.buckets[b].len()
                && all_free(final(self)@.buckets[b]),
    {
        self.count = 0;
        let mut b: usize = 0;
        while b < self.buckets.len()
            invariant
                b <= self.buckets@.len(),
                self.buckets@.len() == old(self).buckets@.len(),
                self.hash_seed == old(self).hash_seed,
                self.first_cell == old(self).first_cell,
                self.count == 0,
                forall|j: int| 0 <= j < self.buckets@.len() ==> (#[trigger] self.buckets@[j]).slots@.len() == old(self).buckets@[j].slots@.len(),
                forall|j: int| 0 <= j < b ==> all_free(#[trigger] self.buckets@[j].slots@),
            decreases self.buckets@.len() - b,
        {
            let ghost prev = self.buckets@;
            self.buckets[b].clear();
            proof {
                assert forall|j: int| 0 <= j < self.buckets@.len() && j != b implies #[trigger] self.buckets@[j] == prev[j] by {}
            }
            b = b + 1;
        }
    }

    /// Bucket that `key` hashes to on this level.
    fn hash_key(&self, key: u64) -> (b: usize)
        requires
            self.buckets@.len() > 0,
        ensures
            b == self@.bucket_of(key),
            b == (DefaultHasher::spec_finish(seq![u64_hash_bytes(self@.seed), u64_hash_bytes(key)]) as usize) as int % (self.buckets@.len() as int),
            b < self.buckets@.len(),
    {
        ((seeded_hash_exec(self.hash_seed, key) as usize) % self.buckets.len())
    }

    /// Stores `key` in the first free slot of its bucket.
    fn try_allocate(&mut self, key: u64) -> (r: Result<usize, Error>)
        requires
            old(self).buckets@.len() > 0,
        ensures
            ({
                let bucket = old(self)@.buckets[old(self)@.bucket_of(key)];
                &&& r is Ok <==> first_free(bucket) < bucket.len()
                &&& r matches Ok(i) ==> i == first_free(bucket) && final(self)@ == (LevelView {
                    buckets: old(self)@.buckets.update(old(self)@.bucket_of(key), bucket.update(i as int, Some(key))),
                    ..old(self)@
                })
                &&& r matches Err(e) ==> e == Error::AllocationFailed && final(self)@ == old(self)@
            }),
    {
        let bucket_idx = self.hash_key(key);
        let r = self.buckets[bucket_idx].try_allocate(key);
        proof {
            assert(self@.buckets =~= old(self)@.buckets.update(bucket_idx as int, self.buckets@[bucket_idx as int].slots@));
        }
        match r {
            Some(i) => {
                proof {
                    let bucket = old(self)@.buckets[old(self)@.bucket_of(key)];
                    assert(self@.buckets =~= old(self)@.buckets.update(bucket_idx as int, bucket.update(i as int, Some(key))));
                }
                Ok(i)
            },
            None => {
                proof {
                    assert(self@.buckets =~= old(self)@.buckets);
                }
                Err(Error::AllocationFailed)
            },
        }
    }
}

/// Overflow array of a level: slots holding a key and its own index.
struct OverflowArray {
    slots: Vec<Option<(u64, usize)>>,
}

impl OverflowArray {
    fn new(capacity: usize) -> (o: OverflowArray)
        ensures
            o.slots@.len() == capacity,
            all_free(o.slots@),
    {
        let mut slots: Vec<Option<(u64, usize)>> = Vec::new();
        while slots.len() < capacity
            invariant
                slots@.len() <= capacity,
                all_free(slots@),
            decreases capacity - slots@.len(),
        {
            slots.push(None);
        }
        OverflowArray { slots }
    }

    /// Frees every slot.
    fn clear(&mut self)
        ensures
            final(self).slots@.len() == old(self).slots@.len(),
            all_free(final(self).slots@),
    {
        let mut i: usize = 0;
        while i < self.slots.len()
            invariant
                i <= self.slots@.len(),
                self.slots@.len() == old(self).slots@.len(),
                forall|j: int| 0 <= j < i ==> #[trigger] self.slots@[j] is None,
            decreases self.slots@.len() - i,
        {
            self.slots.set(i, None);
            i = i + 1;
        }
    }

    /// Stores `key` in the first free slot and returns its index.
    fn allocate(&mut self, key: u64) -> (r: Result<usize, Error>)
        ensures
            r is Ok <==> first_free(old(self).slots@) < old(self).slots@.len(),
            r matches Ok(i) ==> i == first_free(old(self).slots@) && final(self).slots@
                == old(self).slots@.update(i as int, Some((key, i))),
            r matches Err(e) ==> e == Error::ContainerFull && final(self).slots@ == old(self).slots@,
    {
        proof {
            lemma_first_free(self.slots@);
        }
        let mut idx: usize = 0;
        while idx < self.slots.len()
            invariant
                self.slots@ == old(self).slots@,
                0 <= idx <= self.slots@.len(),
                idx <= first_free(self.slots@),
                0 <= first_free(self.slots@) <= self.slots@.len(),
                forall|j: int| 0 <= j < first_free(self.slots@) ==> #[trigger] self.slots@[j] is Some,
                first_free(self.slots@) < self.slots@.len() ==> self.slots@[first_free(self.slots@)] is None,
            decreases self.slots@.len() - idx,
        {
            if self.slots[idx].is_none() {
                self.slots.set(idx, Some((key, idx)));
                return Ok(idx);
            }
            idx = idx + 1;
        }
        Err(Error::ContainerFull)
    }
}

/// Taken-slot totals of levels `j` and deeper when only level `m` changed by `d`.
proof fn lemma_used_from_shift(a: ContainerView, b: ContainerView, m: int, d: int, j: int)
    requires
        a.levels.len() == b.levels.len(),
        0 <= m < a.levels.len(),
        0 <= j,
        forall|l: int| 0 <= l < a.levels.len() && l != m ==> #[trigger] b.used_at(l) == a.used_at(l),
        b.used_at(m) == a.used_at(m) + d,
    ensures
        b.used_from(j) == a.used_from(j) + (if j <= m { d } else { 0 }),
    decreases a.levels.len() - j,
{
    if j < a.levels.len() {
        lemma_used_from_shift(a, b, m, d, j + 1);
    }
}

/// Totals only shrink going deeper, and level `m` counts towards every total
/// from a shallower level.
proof fn lemma_used_from_bounds(c: ContainerView, j: int, m: int)
    requires
        0 <= j <= m,
    ensures
        c.used_from(m) <= c.used_from(j),
        m < c.levels.len() ==> c.used_at(m) <= c.used_from(j),
    decreases m - j,
{
    if j < m {
        lemma_used_from_bounds(c, j + 1, m);
    }
}

/// A container with every slot free has every total zero.
proof fn lemma_used_from_all_free(c: ContainerView, j: int)
    requires
        0 <= j,
        c.levels.len() == c.overflow.len(),
        forall|l: int, b: int| 0 <= l < c.levels.len() && 0 <= b < c.levels[l].buckets.len() ==> all_free(#[trigger] c.levels[l].buckets[b]),
        forall|l: int| 0 <= l < c.overflow.len() ==> all_free(#[trigger] c.overflow[l]),
    ensures
        c.used_from(j) == 0,
    decreases c.levels.len() - j,
{
    if j < c.levels.len() {
        lemma_used_from_all_free(c, j + 1);
        assert forall|b: int| 0 <= b < c.levels[j].buckets.len() implies all_free(#[trigger] c.levels[j].buckets[b]) by {}
        lemma_count_taken_rows_all_free(c.levels[j].buckets);
        lemma_count_taken_all_free(c.overflow[j]);
    }
}

/// Changing one slot, from free to taken with `delta == 1` or from taken to
/// free with `delta == -1`, keeps a container well formed.
proof fn lemma_slot_changed_wf(c: ContainerView, next: ContainerView, key: u64, ptr: TinyPointer, entry: Option<u64>, delta: int)
    requires
        c.wf(),
        c.valid_pointer(ptr),
        c.slot_changed(next, key, ptr, entry, delta),
        ptr is LoadBalancer ==> (ptr->LoadBalancer_slot as int) < c.levels[c.level_of(ptr)].buckets[c.levels[c.level_of(ptr)].bucket_of(key)].len(),
        ptr is Overflow ==> (ptr->Overflow_slot as int) < c.overflow[c.level_of(ptr)].len(),
        delta == 1 ==> entry is Some && c.slot_key(key, ptr) is None && c.item_count < c.capacity,
        delta == -1 ==> entry is None && c.slot_key(key, ptr) is Some,
        delta == 1 || delta == -1,
    ensures
        next.wf(),
        delta == -1 ==> c.item_count >= 1,
{
    let m = c.level_of(ptr);
    let dm: int = delta;
    assert(c.level_wf(m));
    c.levels[m].lemma_bucket_of(key);
    match ptr {
        TinyPointer::LoadBalancer { slot, .. } => {
            let rows = c.levels[m].buckets;
            let b = c.levels[m].bucket_of(key);
            lemma_count_taken_update(rows[b], slot as int, entry);
            lemma_count_taken_rows_update(rows, b, rows[b].update(slot as int, entry));
        },
        TinyPointer::Overflow { slot, .. } => {
            let new_entry = match entry {
                Some(k) => Some((k, slot as usize)),
                None => None,
            };
            lemma_count_taken_update(c.overflow[m], slot as int, new_entry);
        },
    }
    assert(next.used_at(m) == c.used_at(m) + dm);
    assert forall|l: int| 0 <= l < c.levels.len() && l != m implies #[trigger] next.used_at(l) == c.used_at(l) by {}
    lemma_used_from_shift(c, next, m, dm, 0);
    assert forall|l: int| 0 <= l < next.levels.len() implies #[trigger] next.level_wf(l) by {
        assert(c.level_wf(l));
        lemma_used_from_shift(c, next, m, dm, l);
        if l <= m {
            lemma_used_from_bounds(c, l, m);
        }
        let lv = next.levels[l];
        assert forall|b: int| 0 <= b < lv.buckets.len() implies #[trigger] lv.buckets[b].len() == lv.buckets[0].len() by {
            assert(c.levels[l].buckets[b].len() == c.levels[l].buckets[0].len());
        }
    }
    lemma_used_from_bounds(c, 0, m);
    assert(next.item_count == next.used_from(0));
    assert(next.item_count <= next.capacity);
    c.lemma_same_layout_cells(next);
}

impl ContainerView {
    /// A container of the same layout as a well-formed one has the same
    /// cells, laid out the same way.
    pub proof fn lemma_same_layout_cells(self, other: ContainerView)
        requires
            self.wf(),
            self.same_layout(other),
        ensures
            forall|l: int| 0 <= l < self.levels.len() ==> #[trigger] other.levels[l].slot_total() == self.levels[l].slot_total(),
            forall|l: int| 0 <= l <= self.levels.len() ==> #[trigger] other.cells_before(l) == self.cells_before(l),
            forall|l: int| 0 <= l < other.levels.len() ==> (#[trigger] other.levels[l]).first_cell == other.cells_before(l),
            other.cell_count == other.cells_before(other.levels.len() as int),
    {
        assert forall|l: int| 0 <= l < self.levels.len() implies #[trigger] other.levels[l].slot_total() == self.levels[l].slot_total() by {
            assert(self.level_wf(l));
        }
        assert forall|l: int| 0 <= l <= self.levels.len() implies #[trigger] other.cells_before(l) == self.cells_before(l) by {
            self.lemma_same_layout_cells_upto(other, l);
        }
        assert forall|l: int| 0 <= l < other.levels.len() implies (#[trigger] other.levels[l]).first_cell == other.cells_before(l) by {
            assert(other.cells_before(l) == self.cells_before(l));
        }
        assert(other.cells_before(other.levels.len() as int) == self.cells_before(self.levels.len() as int));
    }

    proof fn lemma_same_layout_cells_upto(self, other: ContainerView, l: int)
        requires
            self.wf(),
            self.same_layout(other),
            0 <= l <= self.levels.len(),
        ensures
            other.cells_before(l) == self.cells_before(l),
        decreases l,
    {
        if l > 0 {
            self.lemma_same_layout_cells_upto(other, l - 1);
            assert(self.level_wf(l - 1));
            assert(other.levels[l - 1].slot_total() == self.levels[l - 1].slot_total());
        }
    }

    /// Cells before a level only grow with the level.
    pub proof fn lemma_cells_before_mono(self, i: int, j: int)
        requires
            0 <= i <= j,
        ensures
            self.cells_before(i) <= self.cells_before(j),
        decreases j - i,
    {
        if i < j {
            self.lemma_cells_before_mono(i, j - 1);
            assert(self.levels[j - 1].slot_total() >= 0);
        }
    }
}

/// Sizes of a container: its capacity `s`, the slots of each bucket `b`, and
/// the hash seed of its first level (level `i` uses `base_hash_seed + i`).
#[derive(Debug, Clone, Copy)]
pub struct ContainerConfig {
    pub s: usize,
    pub b: usize,
    pub base_hash_seed: u64,
}

/// A container: `ceil(log2(s))` levels; level `i` has `max(ceil(s / 2^i) / b, 1)`
/// buckets of `b` slots and an overflow array of `ceil(s / 2^i)` slots.
pub struct Container {
    levels: Vec<Level>,
    overflow_arrays: Vec<OverflowArray>,
    item_count: usize,
    capacity: usize,
    /// Cells of all levels together.
    cell_count: usize,
}

impl View for Container {
    type V = ContainerView;

    closed spec fn view(&self) -> ContainerView {
        ContainerView {
            levels: self.levels@.map_values(|l: Level| l@),
            overflow: self.overflow_arrays@.map_values(|o: OverflowArray| o.slots@),
            item_count: self.item_count as nat,
            capacity: self.capacity as nat,
            cell_count: self.cell_count as nat,
        }
    }
}

/// Cells of the first `i` levels of a container built from `s` and `b`.
pub open spec fn built_cells(s: nat, b: nat, i: nat) -> nat
    decreases i,
{
    if i == 0 {
        0
    } else {
        built_cells(s, b, (i - 1) as nat) + buckets_on_level(s, b, (i - 1) as nat) * b + halved_up(s, (i - 1) as nat)
    }
}

pub proof fn lemma_built_cells_mono(s: nat, b: nat, i: nat, j: nat)
    requires
        i <= j,
    ensures
        built_cells(s, b, i) <= built_cells(s, b, j),
    decreases j - i,
{
    if i < j {
        lemma_built_cells_mono(s, b, i, (j - 1) as nat);
    }
}

/// Each level of a built container has at most `2 * s + b` cells.
pub proof fn lemma_built_cells_bound(s: nat, b: nat, i: nat)
    requires
        b >= 1,
    ensures
        built_cells(s, b, i) <= i * (2 * s + b),
    decreases i,
{
    if i > 0 {
        lemma_built_cells_bound(s, b, (i - 1) as nat);
        let h = halved_up(s, (i - 1) as nat);
        lemma_halved_up_le(s, (i - 1) as nat);
        let nb = buckets_on_level(s, b, (i - 1) as nat);
        assert(nb * b <= h + b) by {
            if h / b > 1 {
                assert((h / b) * b <= h) by (nonlinear_arith)
                    requires
                        b >= 1,
                ;
            }
        }
        assert(i * (2 * s + b) == (i - 1) * (2 * s + b) + (2 * s + b)) by (nonlinear_arith);
    }
}

/// Buckets on level `i` of a container built from `s` and `b`.
pub open spec fn buckets_on_level(s: nat, b: nat, i: nat) -> nat {
    if halved_up(s, i) / b > 1 {
        halved_up(s, i) / b
    } else {
        1
    }
}

impl ContainerView {
    /// The container as `Container::new` builds it from `config`: empty,
    /// with the levels, buckets and arrays that the sizes call for.
    pub open spec fn built_from(self, config: ContainerConfig) -> bool {
        &&& self.capacity == config.s
        &&& self.item_count == 0
        &&& self.levels.len() == ceil_log2(config.s as nat)
        &&& self.overflow.len() == self.levels.len()
        &&& self.cell_count == built_cells(config.s as nat, config.b as nat, self.levels.len() as nat)
        &&& forall|i: int| 0 <= i < self.levels.len() ==> {
            &&& (#[trigger] self.levels[i]).seed == config.base_hash_seed + i
            &&& self.levels[i].first_cell == built_cells(config.s as nat, config.b as nat, i as nat)
            &&& self.levels[i].count == 0
            &&& self.levels[i].buckets.len() == buckets_on_level(config.s as nat, config.b as nat, i as nat)
            &&& forall|b: int| 0 <= b < self.levels[i].buckets.len() ==> (#[trigger] self.levels[i].buckets[b]).len() == config.b && all_free(self.levels[i].buckets[b])
            &&& self.overflow[i].len() == halved_up(config.s as nat, i as nat)
            &&& all_free(self.overflow[i])
        }
    }
}

/// Sizes that `Container::new` accepts: buckets of at least one slot,
/// level seeds that fit in a `u64`, and a number of slots, all levels
/// together, that fits in a `usize`.
pub open spec fn config_ok(config: ContainerConfig) -> bool {
    &&& 1 <= config.b
    &&& config.base_hash_seed + ceil_log2(config.s as nat) <= u64::MAX + 1
    &&& built_cells(config.s as nat, config.b as nat, ceil_log2(config.s as nat)) <= usize::MAX
}

/// Sizes whose slots a tiny pointer can name: slot indices within a bucket
/// fit in 16 bits (buckets of at most 65536 slots) and within an overflow
/// array in 32 bits (at most 2^32 items).
pub open spec fn pointers_fit(config: ContainerConfig) -> bool {
    &&& config.b <= 0x1_0000
    &&& config.s <= 0x1_0000_0000
}

impl Container {
    /// Well formed: see `ContainerView::wf`.
    pub open spec fn wf(&self) -> bool {
        self@.wf()
    }

    /// Builds an empty container from `config`. It is well formed, so that
    /// slots can be allocated in it, when a tiny pointer can name each of
    /// its slots.
    pub fn new(config: &ContainerConfig) -> (c: Container)
        requires
            config_ok(*config),
        ensures
            c@.built_from(*config),
            pointers_fit(*config) ==> c.wf(),
    {
        let num_levels = ceil_log2_exec(config.s);
        proof {
            lemma_ceil_log2_usize(config.s);
        }
        let mut levels: Vec<Level> = Vec::with_capacity(num_levels);
        let mut overflow_arrays: Vec<OverflowArray> = Vec::with_capacity(num_levels);
        let mut s_i: usize = config.s;
        let mut cells: usize = 0;
        let mut i: usize = 0;
        while i < num_levels
            invariant
                num_levels == ceil_log2(config.s as nat),
                num_levels <= 64,
                config_ok(*config),
                i <= num_levels,
                levels@.len() == i,
                overflow_arrays@.len() == i,
                s_i == halved_up(config.s as nat, i as nat),
                cells == built_cells(config.s as nat, config.b as nat, i as nat),
                forall|l: int| 0 <= l < i ==> {
                    &&& (#[trigger] levels@[l])@.seed == config.base_hash_seed + l
                    &&& levels@[l]@.first_cell == built_cells(config.s as nat, config.b as nat, l as nat)
                    &&& levels@[l]@.count == 0
                    &&& levels@[l]@.buckets.len() == buckets_on_level(config.s as nat, config.b as nat, l as nat)
                    &&& forall|b: int| 0 <= b < levels@[l]@.buckets.len() ==> (#[trigger] levels@[l]@.buckets[b]).len() == config.b && all_free(levels@[l]@.buckets[b])
                    &&& overflow_arrays@[l].slots@.len() == halved_up(config.s as nat, l as nat)
                    &&& all_free(overflow_arrays@[l].slots@)
                },
            decreases num_levels - i,
        {
            let num_buckets = s_i / config.b;
            let num_buckets = if num_buckets > 1 { num_buckets } else { 1 };
            levels.push(Level::new(num_buckets, config.b, config.base_hash_seed + i as u64, cells));
            overflow_arrays.push(OverflowArray::new(s_i));
            proof {
                lemma_halved_up_le(config.s as nat, i as nat);
                lemma_built_cells_mono(config.s as nat, config.b as nat, (i + 1) as nat, num_levels as nat);
                assert(num_buckets == buckets_on_level(config.s as nat, config.b as nat, i as nat));
            }
            cells = cells + num_buckets * config.b + s_i;
            s_i = s_i / 2 + s_i % 2;
            i = i + 1;
        }
        let c = Container { levels, overflow_arrays, item_count: 0, capacity: config.s, cell_count: cells };
        proof {
            let v = c@;
            assert(v.built_from(*config));
            assert forall|l: int| 0 <= l < v.overflow.len() implies all_free(#[trigger] v.overflow[l]) by {
                assert(v.levels[l].count == 0);
            }
            if pointers_fit(*config) {
                lemma_used_from_all_free(v, 0);
                assert forall|l: int| 0 <= l < v.levels.len() implies #[trigger] v.level_wf(l) by {
                    lemma_used_from_all_free(v, l);
                    lemma_halved_up_le(config.s as nat, l as nat);
                }
                lemma_built_layout(v, *config);
            }
        }
        c
    }

    /// Adds one to the counts of levels `0..=upto`.
    fn add_to_counts(&mut self, upto: usize)
        requires
            upto < old(self).levels@.len(),
            forall|j: int| 0 <= j <= upto ==> #[trigger] old(self)@.levels[j].count < usize::MAX,
        ensures
            final(self)@.levels.len() == old(self)@.levels.len(),
            forall|j: int| 0 <= j < old(self)@.levels.len() ==> #[trigger] final(self)@.levels[j] == (LevelView {
                count: if j <= upto { old(self)@.levels[j].count + 1 } else { old(self)@.levels[j].count },
                ..old(self)@.levels[j]
            }),
            final(self)@.overflow == old(self)@.overflow,
            final(self)@.item_count == old(self)@.item_count,
            final(self)@.capacity == old(self)@.capacity,
            final(self)@.cell_count == old(self)@.cell_count,
    {
        let mut j: usize = 0;
        while j <= upto
            invariant
                upto < old(self).levels@.len(),
                upto < self.levels.len(),
                j <= upto + 1,
                self.levels@.len() == old(self).levels@.len(),
                forall|i: int| 0 <= i <= upto ==> #[trigger] old(self)@.levels[i].count < usize::MAX,
                forall|i: int| 0 <= i < old(self)@.levels.len() ==> #[trigger] self@.levels[i] == (LevelView {
                    count: if i < j { old(self)@.levels[i].count + 1 } else { old(self)@.levels[i].count },
                    ..old(self)@.levels[i]
                }),
                self.overflow_arrays == old(self).overflow_arrays,
                self.item_count == old(self).item_count,
                self.capacity == old(self).capacity,
                self.cell_count == old(self).cell_count,
            decreases upto + 1 - j,
        {
            assert(self@.levels[j as int].count == old(self)@.levels[j as int].count);
            let ghost prev = self.levels@;
            let ghost pv = self@;
            self.levels[j].count = self.levels[j].count + 1;
            proof {
                assert forall|i: int| 0 <= i < self.levels@.len() && i != j implies #[trigger] self.levels@[i] == prev[i] by {}
                assert(self.levels@[j as int].buckets == prev[j as int].buckets);
                assert forall|i: int| 0 <= i < old(self)@.levels.len() implies #[trigger] self@.levels[i] == (LevelView {
                    count: if i < j + 1 { old(self)@.levels[i].count + 1 } else { old(self)@.levels[i].count },
                    ..old(self)@.levels[i]
                }) by {
                    if i != j {
                        assert(self.levels@[i] == prev[i]);
                        assert(pv.levels[i] == prev[i]@);
                    } else {
                        assert(self@.levels[i] == self.levels@[i]@);
                        assert(self.levels@[i]@.buckets == prev[i]@.buckets);
                        assert(prev[i]@ == old(self)@.levels[i]);
                    }
                }
            }
            j = j + 1;
        }
    }

    /// Takes one from the counts of levels `0..=upto`, not going below zero.
    fn sub_from_counts(&mut self, upto: usize)
        requires
            upto < old(self).levels@.len(),
        ensures
            final(self)@.levels.len() == old(self)@.levels.len(),
            forall|j: int| 0 <= j < old(self)@.levels.len() ==> #[trigger] final(self)@.levels[j] == (LevelView {
                count: if j <= upto { clamp_nat(old(self)@.levels[j].count - 1) } else { old(self)@.levels[j].count },
                ..old(self)@.levels[j]
            }),
            final(self)@.overflow == old(self)@.overflow,
            final(self)@.item_count == old(self)@.item_count,
            final(self)@.capacity == old(self)@.capacity,
            final(self)@.cell_count == old(self)@.cell_count,
    {
        let mut j: usize = 0;
        while j <= upto
            invariant
                upto < old(self).levels@.len(),
                upto < self.levels.len(),
                j <= upto + 1,
                self.levels@.len() == old(self).levels@.len(),
                forall|i: int| 0 <= i < old(self)@.levels.len() ==> #[trigger] self@.levels[i] == (LevelView {
                    count: if i < j { clamp_nat(old(self)@.levels[i].count - 1) } else { old(self)@.levels[i].count },
                    ..old(self)@.levels[i]
                }),
                self.overflow_arrays == old(self).overflow_arrays,
                self.item_count == old(self).item_count,
                self.capacity == old(self).capacity,
                self.cell_count == old(self).cell_count,
            decreases upto + 1 - j,
        {
            if j < self.levels.len() {
                assert(self@.levels[j as int].count == old(self)@.levels[j as int].count);
                let ghost prev = self.levels@;
                let ghost pv = self@;
                self.levels[j].count = self.levels[j].count.saturating_sub(1);
                proof {
                    assert forall|i: int| 0 <= i < self.levels@.len() && i != j implies #[trigger] self.levels@[i] == prev[i] by {}
                    assert(self.levels@[j as int].buckets == prev[j as int].buckets);
                    assert forall|i: int| 0 <= i < old(self)@.levels.len() implies #[trigger] self@.levels[i] == (LevelView {
                        count: if i < j + 1 { clamp_nat(old(self)@.levels[i].count - 1) } else { old(self)@.levels[i].count },
                        ..old(self)@.levels[i]
                    }) by {
                        if i != j {
                            assert(self.levels@[i] == prev[i]);
                            assert(pv.levels[i] == prev[i]@);
                        } else {
                            assert(self@.levels[i] == self.levels@[i]@);
                            assert(self.levels@[i]@.buckets == prev[i]@.buckets);
                            assert(prev[i]@ == old(self)@.levels[i]);
                        }
                    }
                }
            }
            j = j + 1;
        }
    }

    /// Stores `key` in a free slot: in its bucket on the first level that has
    /// room, else, once a level holds as many items as the next level has
    /// slots, in that level's overflow array.
    #[verifier::rlimit(40)]
    pub fn try_allocate(&mut self, key: u64) -> (r: Result<TinyPointer, Error>)
        requires
            old(self).wf(),
        ensures
            final(self).wf(),
            r == old(self)@.allocation(key),
            r matches Ok(p) ==> old(self)@.placed(final(self)@, key, p),
            r is Err ==> final(self)@ == old(self)@,
    {
        if self.item_count >= self.capacity() {
            return Err(Error::ContainerFull);
        }
        let num_levels = self.levels.len();
        let mut level_idx: usize = 0;
        while level_idx < num_levels
            invariant
                self@ == old(self)@,
                self.wf(),
                num_levels == self@.levels.len(),
                0 <= level_idx <= num_levels,
                self@.allocation(key) == self@.alloc_from(key, level_idx as int),
                self@.item_count < self@.capacity,
            decreases num_levels - level_idx,
        {
            let ghost before = self@;
            proof {
                assert(before.level_wf(level_idx as int));
                before.levels[level_idx as int].lemma_bucket_of(key);
                if level_idx + 1 < num_levels {
                    assert(before.level_wf(level_idx + 1));
                    before.lemma_level_cells_bound(level_idx + 1);
                }
                lemma_first_free(before.levels[level_idx as int].buckets[before.levels[level_idx as int].bucket_of(key)]);
                lemma_first_free(before.overflow[level_idx as int]);
            }
            let next_level_capacity = if level_idx + 1 < num_levels {
                self.levels[level_idx + 1].buckets.len() * self.levels[level_idx + 1].buckets[0].slots.len()
            } else {
                0
            };
            assert(next_level_capacity == before.next_capacity(level_idx as int));
            match self.levels[level_idx].try_allocate(key) {
                Ok(slot) => {
                    let ghost mid = self@;
                    self.item_count = self.item_count + 1;
                    proof {
                        assert forall|j: int| 0 <= j <= level_idx implies #[trigger] self@.levels[j].count < usize::MAX by {
                            lemma_used_from_bounds(before, 0, j);
                            assert(before.level_wf(j));
                        }
                    }
                    self.add_to_counts(level_idx);
                    let ptr = TinyPointer::LoadBalancer { level: level_idx as u8, slot: slot as u16 };
                    proof {
                        let b = before.levels[level_idx as int].bucket_of(key);
                        assert(self@.levels[level_idx as int].buckets == before.levels[level_idx as int].buckets.update(b, before.levels[level_idx as int].buckets[b].update(slot as int, Some(key))));
                        assert forall|j: int| 0 <= j < before.levels.len() && j != level_idx implies #[trigger] self@.levels[j].buckets == before.levels[j].buckets by {}
                        assert(self@.overflow =~= before.overflow);
                        assert(before.placed(self@, key, ptr));
                        lemma_slot_changed_wf(before, self@, key, ptr, Some(key), 1);
                    }
                    return Ok(ptr);
                },
                Err(Error::AllocationFailed) => {
                    proof {
                        assert(self@.levels =~= before.levels);
                        assert(self@ == before);
                    }
                    if self.levels[level_idx].count >= next_level_capacity {
                        match self.overflow_arrays[level_idx].allocate(key) {
                            Ok(slot) => {
                                self.item_count = self.item_count + 1;
                                proof {
                                    assert forall|j: int| 0 <= j <= level_idx implies #[trigger] self@.levels[j].count < usize::MAX by {
                                        lemma_used_from_bounds(before, 0, j);
                                        assert(before.level_wf(j));
                                    }
                                }
                                self.add_to_counts(level_idx);
                                let level_from_back = (num_levels - 1 - level_idx) as u8;
                                let ptr = TinyPointer::Overflow { level_from_back, slot: slot as u32 };
                                proof {
                                    assert(self@.overflow =~= before.overflow.update(level_idx as int, before.overflow[level_idx as int].update(slot as int, Some((key, slot)))));
                                    assert forall|j: int| 0 <= j < before.levels.len() implies #[trigger] self@.levels[j].buckets == before.levels[j].buckets by {}
                                    assert(before.placed(self@, key, ptr));
                                    lemma_slot_changed_wf(before, self@, key, ptr, Some(key), 1);
                                }
                                return Ok(ptr);
                            },
                            Err(_) => {
                                proof {
                                    assert(self@.overflow =~= before.overflow);
                                    assert(self@ == before);
                                }
                            },
                        }
                    }
                },
                Err(_) => {},
            }
            level_idx = level_idx + 1;
        }
        Err(Error::AllocationFailed)
    }

    /// Cell of `key`'s slot, when `ptr` names a slot that holds `key`: the
    /// level's first cell plus `bucket * bucket_size + slot` in a
    /// load-balancing table, or plus the table's slot total and `slot` in an
    /// overflow array. Unlike slot numbers, the cells of distinct slots are
    /// distinct, and all lie below `cell_count`: the map keeps each key's
    /// handle in its slot's cell.
    pub fn locate_cell(&self, key: u64, ptr: &TinyPointer) -> (r: Option<usize>)
        requires
            self.wf(),
            self@.valid_pointer(*ptr),
        ensures
            r matches Some(i) ==> self@.locate(key, *ptr) == Some(i as int),
            r is None ==> self@.locate(key, *ptr) is None,
    {
        let ghost v = self@;
        match ptr {
            TinyPointer::LoadBalancer { level: level_num, slot } => {
                let l = *level_num as usize;
                proof {
                    assert(v.level_wf(l as int));
                    v.levels[l as int].lemma_bucket_of(key);
                }
                let level = &self.levels[l];
                let bucket_idx = level.hash_key(key);
                let bucket = &level.buckets[bucket_idx];
                let slot = *slot as usize;
                if slot < bucket.slots.len() {
                    match bucket.slots[slot] {
                        Some(k) => {
                            if k == key {
                                let bucket_size = bucket.slots.len();
                                proof {
                                    v.lemma_index_in_range(key, *ptr);
                                    let b = bucket_idx as int;
                                    let bs = bucket_size as int;
                                    assert(0 <= b * bs) by (nonlinear_arith)
                                        requires
                                            0 <= b,
                                            0 <= bs,
                                    ;
                                }
                                Some(level.first_cell + bucket_idx * bucket_size + slot)
                            } else {
                                None
                            }
                        },
                        None => None,
                    }
                } else {
                    None
                }
            },
            TinyPointer::Overflow { level_from_back, slot } => {
                let level_idx = self.levels.len() - 1 - *level_from_back as usize;
                proof {
                    assert(v.level_wf(level_idx as int));
                }
                let level = &self.levels[level_idx];
                let overflow = &self.overflow_arrays[level_idx];
                let slot = *slot as usize;
                if slot < overflow.slots.len() {
                    match overflow.slots[slot] {
                        Some((k, _idx)) => {
                            if k == key {
                                proof {
                                    v.lemma_index_in_range(key, *ptr);
                                }
                                Some(level.first_cell + level.buckets.len() * level.buckets[0].slots.len() + slot)
                            } else {
                                None
                            }
                        },
                        None => None,
                    }
                } else {
                    None
                }
            },
        }
    }

    /// Number of `key`'s slot, when `ptr` names a slot that holds `key`:
    /// `level * capacity + bucket * bucket_size + slot` in a load-balancing
    /// table, `level * capacity + capacity + slot` in an overflow array.
    pub fn dereference(&self, key: u64, ptr: &TinyPointer) -> (r: Option<usize>)
        requires
            self.wf(),
            self@.valid_pointer(*ptr),
            self@.numbers_fit(),
        ensures
            r matches Some(i) ==> self@.deref(key, *ptr) == Some(i as int),
            r is None ==> self@.deref(key, *ptr) is None,
    {
        let ghost v = self@;
        let cap = self.capacity;
        match ptr {
            TinyPointer::LoadBalancer { level: level_num, slot } => {
                let l = *level_num as usize;
                proof {
                    assert(v.level_wf(l as int));
                    assert(v.level_numbers_fit(l as int));
                    v.levels[l as int].lemma_bucket_of(key);
                }
                let level = &self.levels[l];
                let bucket_idx = level.hash_key(key);
                let bucket = &level.buckets[bucket_idx];
                let slot = *slot as usize;
                if slot < bucket.slots.len() {
                    match bucket.slots[slot] {
                        Some(k) => {
                            if k == key {
                                let bucket_size = bucket.slots.len();
                                proof {
                                    let b = bucket_idx as int;
                                    let bs = bucket_size as int;
                                    let nb = v.levels[l as int].buckets.len() as int;
                                    assert(bs == v.levels[l as int].buckets[0].len());
                                    let sl = slot as int;
                                    assert(0 <= b * bs && b * bs + sl < nb * bs) by (nonlinear_arith)
                                        requires
                                            0 <= b < nb,
                                            0 <= sl < bs,
                                    ;
                                    assert(0 <= l * cap) by (nonlinear_arith)
                                        requires
                                            0 <= l,
                                            0 <= cap,
                                    ;
                                }
                                Some(l * cap + bucket_idx * bucket_size + slot)
                            } else {
                                None
                            }
                        },
                        None => None,
                    }
                } else {
                    None
                }
            },
            TinyPointer::Overflow { level_from_back, slot } => {
                let level_idx = self.levels.len() - 1 - *level_from_back as usize;
                proof {
                    assert(v.level_wf(level_idx as int));
                    assert(v.level_numbers_fit(level_idx as int));
                    let li = level_idx as int;
                    assert(li * cap + cap == (li + 1) * cap && 0 <= li * cap) by (nonlinear_arith)
                        requires
                            0 <= li,
                            0 <= cap,
                    ;
                }
                let overflow = &self.overflow_arrays[level_idx];
                let slot = *slot as usize;
                if slot < overflow.slots.len() {
                    match overflow.slots[slot] {
                        Some((k, _idx)) => {
                            if k == key {
                                Some(level_idx * cap + cap + slot)
                            } else {
                                None
                            }
                        },
                        None => None,
                    }
                } else {
                    None
                }
            },
        }
    }

    /// Frees slot `slot` of `key`'s bucket on level `level`.
    fn free_level_slot(&mut self, key: u64, level: u8, slot: u16)
        requires
            old(self).wf(),
            (level as int) < old(self)@.levels.len(),
        ensures
            old(self)@.slot_changed(final(self)@, key, TinyPointer::LoadBalancer { level, slot }, None, 0)
                || ((slot as int) >= old(self)@.levels[level as int].buckets[old(self)@.levels[level as int].bucket_of(key)].len()
                    && final(self)@ == old(self)@),
    {
        let ghost v = self@;
        let l = level as usize;
        if l < self.levels.len() {
            proof {
                assert(v.level_wf(l as int));
                v.levels[l as int].lemma_bucket_of(key);
            }
            let bucket_idx = self.levels[l].hash_key(key);
            if bucket_idx < self.levels[l].buckets.len() {
                if (slot as usize) < self.levels[l].buckets[bucket_idx].slots.len() {
                    self.levels[l].buckets[bucket_idx].slots.set(slot as usize, None);
                    proof {
                        let b = bucket_idx as int;
                        assert(self@.levels[l as int].buckets =~= v.levels[l as int].buckets.update(b, v.levels[l as int].buckets[b].update(slot as int, None)));
                        assert forall|j: int| 0 <= j < v.levels.len() && j != l implies #[trigger] self@.levels[j] == v.levels[j] by {}
                        assert(self@.overflow =~= v.overflow);
                        assert(v.same_layout(self@));
                    }
                    return;
                }
            }
        }
        proof {
            assert(self@ == v);
        }
    }

    /// Frees slot `slot` of the overflow array of level `level_idx` when it
    /// holds `key`.
    fn free_overflow_slot(&mut self, key: u64, level_idx: usize, slot: u32)
        requires
            old(self).wf(),
            level_idx < old(self)@.levels.len(),
        ensures
            old(self)@.overflow_holds(level_idx as int, slot as int, key)
                ==> old(self)@.slot_changed(final(self)@, key, TinyPointer::Overflow {
                    level_from_back: (old(self)@.levels.len() - 1 - level_idx) as u8, slot }, None, 0),
            !old(self)@.overflow_holds(level_idx as int, slot as int, key)
                ==> final(self)@ == old(self)@,
    {
        let ghost v = self@;
        if level_idx < self.overflow_arrays.len() {
            let s = slot as usize;
            if s < self.overflow_arrays[level_idx].slots.len() {
                let holds_key = match self.overflow_arrays[level_idx].slots[s] {
                    Some((k, _)) => k == key,
                    None => false,
                };
                if holds_key {
                    self.overflow_arrays[level_idx].slots.set(s, None);
                    proof {
                        let ptr = TinyPointer::Overflow { level_from_back: (v.levels.len() - 1 - level_idx) as u8, slot };
                        assert(v.level_of(ptr) == level_idx);
                        assert(self@.overflow =~= v.overflow.update(level_idx as int, v.overflow[level_idx as int].update(slot as int, None)));
                        assert(self@.levels =~= v.levels);
                        assert(v.same_layout(self@));
                    }
                    return;
                }
            }
        }
        proof {
            assert(self@ == v);
        }
    }

    /// Frees the slot of `key` that `ptr` names, and takes one from the item
    /// count and from the counts of the levels up to the pointer's.
    pub fn free(&mut self, key: u64, ptr: &TinyPointer)
        requires
            old(self).wf(),
            old(self)@.valid_pointer(*ptr),
            old(self)@.locate(key, *ptr) is Some,
        ensures
            final(self).wf(),
            old(self)@.released(final(self)@, key, *ptr),
            final(self)@.item_count + 1 == old(self)@.item_count,
    {
        let ghost v = self@;
        let stored_level = match ptr {
            TinyPointer::LoadBalancer { level, slot } => {
                self.free_level_slot(key, *level, *slot);
                *level as usize
            },
            TinyPointer::Overflow { level_from_back, slot } => {
                let level_idx = self.levels.len() - 1 - *level_from_back as usize;
                self.free_overflow_slot(key, level_idx, *slot);
                level_idx
            },
        };
        let ghost mid = self@;
        proof {
            assert(v.slot_changed(mid, key, *ptr, None, 0));
        }
        self.sub_from_counts(stored_level);
        self.item_count = self.item_count.saturating_sub(1);
        proof {
            let m = v.level_of(*ptr);
            assert(stored_level == m);
            assert forall|j: int| 0 <= j < v.levels.len() implies #[trigger] self@.levels[j].buckets == mid.levels[j].buckets by {}
            assert(v.slot_changed(self@, key, *ptr, None, -1));
            assert(v.level_wf(m));
            v.levels[m].lemma_bucket_of(key);
            lemma_slot_changed_wf(v, self@, key, *ptr, None, -1);
        }
    }

    /// Frees every slot and sets every count to zero, keeping the layout.
    pub fn clear(&mut self)
        requires
            old(self).wf(),
        ensures
            final(self).wf(),
            old(self)@.emptied(final(self)@),
    {
        let ghost v = self@;
        self.item_count = 0;
        let mut l: usize = 0;
        while l < self.levels.len()
            invariant
                l <= self.levels@.len(),
                self.levels@.len() == v.levels.len(),
                self.overflow_arrays == old(self).overflow_arrays,
                self.capacity == v.capacity,
                self.item_count == 0,
                self.cell_count == v.cell_count,
                forall|j: int| 0 <= j < self.levels@.len() ==> {
                    &&& (#[trigger] self.levels@[j])@.seed == v.levels[j].seed
                    &&& self.levels@[j]@.first_cell == v.levels[j].first_cell
                    &&& self.levels@[j]@.buckets.len() == v.levels[j].buckets.len()
                    &&& forall|b: int| 0 <= b < v.levels[j].buckets.len() ==> (#[trigger] self.levels@[j]@.buckets[b]).len() == v.levels[j].buckets[b].len()
                },
                forall|j: int| 0 <= j < l ==> (#[trigger] self.levels@[j])@.count == 0
                    && forall|b: int| 0 <= b < v.levels[j].buckets.len() ==> all_free(#[trigger] self.levels@[j]@.buckets[b]),
            decreases self.levels@.len() - l,
        {
            let ghost prev = self.levels@;
            self.levels[l].clear();
            proof {
                assert forall|j: int| 0 <= j < self.levels@.len() && j != l implies #[trigger] self.levels@[j] == prev[j] by {}
            }
            l = l + 1;
        }
        let ghost levels_done = self.levels@;
        let mut o: usize = 0;
        while o < self.overflow_arrays.len()
            invariant
                self.levels@ == levels_done,
                self.capacity == v.capacity,
                self.cell_count == v.cell_count,
                self.item_count == 0,
                o <= self.overflow_arrays@.len(),
                self.overflow_arrays@.len() == v.overflow.len(),
                forall|j: int| 0 <= j < self.overflow_arrays@.len() ==> (#[trigger] self.overflow_arrays@[j]).slots@.len() == v.overflow[j].len(),
                forall|j: int| 0 <= j < o ==> all_free(#[trigger] self.overflow_arrays@[j].slots@),
            decreases self.overflow_arrays@.len() - o,
        {
            let ghost prev = self.overflow_arrays@;
            self.overflow_arrays[o].clear();
            proof {
                assert forall|j: int| 0 <= j < self.overflow_arrays@.len() && j != o implies #[trigger] self.overflow_arrays@[j] == prev[j] by {}
            }
            o = o + 1;
        }
        proof {
            let w = self@;
            assert forall|j: int| 0 <= j < w.levels.len() implies #[trigger] w.levels[j] == self.levels@[j]@ by {}
            assert forall|j: int| 0 <= j < w.overflow.len() implies #[trigger] w.overflow[j] == self.overflow_arrays@[j].slots@ by {}
            assert forall|j: int| 0 <= j < v.levels.len() implies {
                &&& (#[trigger] w.levels[j]).seed == v.levels[j].seed
                &&& w.levels[j].first_cell == v.levels[j].first_cell
                &&& w.levels[j].count == 0
                &&& w.levels[j].buckets.len() == v.levels[j].buckets.len()
                &&& forall|b: int| 0 <= b < v.levels[j].buckets.len() ==> (#[trigger] w.levels[j].buckets[b]).len() == v.levels[j].buckets[b].len()
                    && all_free(w.levels[j].buckets[b])
            } by {
                assert(w.levels[j] == self.levels@[j]@);
                assert forall|b: int| 0 <= b < v.levels[j].buckets.len() implies (#[trigger] w.levels[j].buckets[b]).len() == v.levels[j].buckets[b].len()
                    && all_free(w.levels[j].buckets[b]) by {
                    assert(w.levels[j].buckets[b] == self.levels@[j]@.buckets[b]);
                }
            }
            assert forall|j: int| 0 <= j < v.overflow.len() implies (#[trigger] w.overflow[j]).len() == v.overflow[j].len() && all_free(w.overflow[j]) by {
                assert(w.overflow[j] == self.overflow_arrays@[j].slots@);
            }
            assert(v.same_layout(w));
            assert(v.emptied(w));
            lemma_used_from_all_free(w, 0);
            assert forall|l: int| 0 <= l < w.levels.len() implies #[trigger] w.level_wf(l) by {
                assert(v.level_wf(l));
                lemma_used_from_all_free(w, l);
            }
            v.lemma_same_layout_cells(w);
        }
    }

    pub fn capacity(&self) -> (r: usize)
        ensures
            r == self@.capacity,
    {
        self.capacity
    }

    /// Cells of all levels together: one per slot.
    pub fn cell_count(&self) -> (r: usize)
        ensures
            r == self@.cell_count,
    {
        self.cell_count
    }

    pub fn item_count(&self) -> (r: usize)
        ensures
            r == self@.item_count,
    {
        self.item_count
    }

    /// The item count of each level, that is the items stored at that level
    /// or deeper.
    pub fn level_counts(&self) -> (r: Vec<usize>)
        ensures
            r@.len() == self@.levels.len(),
            forall|l: int| 0 <= l < r@.len() ==> #[trigger] r@[l] == self@.levels[l].count,
    {
        let mut r: Vec<usize> = Vec::new();
        let mut l: usize = 0;
        while l < self.levels.len()
            invariant
                l <= self.levels@.len(),
                r@.len() == l,
                forall|j: int| 0 <= j < l ==> #[trigger] r@[j] == self@.levels[j].count,
            decreases self.levels@.len() - l,
        {
            r.push(self.levels[l].count);
            l = l + 1;
        }
        r
    }
}

/// A built container's levels own the cells that `built_cells` counts.
proof fn lemma_built_layout(v: ContainerView, config: ContainerConfig)
    requires
        config_ok(config),
        v.built_from(config),
    ensures
        forall|l: int| 0 <= l < v.levels.len() ==> (#[trigger] v.levels[l]).first_cell == v.cells_before(l),
        v.cell_count == v.cells_before(v.levels.len() as int),
        v.cell_count <= usize::MAX,
{
    assert forall|l: int| 0 <= l <= v.levels.len() implies #[trigger] v.cells_before(l) == built_cells(config.s as nat, config.b as nat, l as nat) by {
        lemma_built_cells_upto(v, config, l);
    }
    assert forall|l: int| 0 <= l < v.levels.len() implies (#[trigger] v.levels[l]).first_cell == v.cells_before(l) by {
        assert(v.cells_before(l) == built_cells(config.s as nat, config.b as nat, l as nat));
    }
    assert(v.cells_before(v.levels.len() as int) == built_cells(config.s as nat, config.b as nat, v.levels.len() as nat));
}

proof fn lemma_built_cells_upto(v: ContainerView, config: ContainerConfig, l: int)
    requires
        v.built_from(config),
        0 <= l <= v.levels.len(),
    ensures
        v.cells_before(l) == built_cells(config.s as nat, config.b as nat, l as nat),
    decreases l,
{
    if l > 0 {
        lemma_built_cells_upto(v, config, l - 1);
        let lv = v.levels[l - 1];
        assert(lv.buckets.len() >= 1);
        assert(lv.buckets[0].len() == config.b);
    }
}

impl ContainerView {
    /// A successful allocation names an existing, free slot.
    pub proof fn lemma_allocation_ok(self, key: u64, l: int)
        requires
            self.wf(),
            0 <= l,
            self.alloc_from(key, l) is Ok,
        ensures
            self.valid_pointer(self.alloc_from(key, l)->Ok_0),
            self.slot_in_range(key, self.alloc_from(key, l)->Ok_0),
            self.slot_key(key, self.alloc_from(key, l)->Ok_0) is None,
        decreases self.levels.len() - l,
    {
        if 0 <= l < self.levels.len() {
            assert(self.level_wf(l));
            self.levels[l].lemma_bucket_of(key);
            let lv = self.levels[l];
            let bucket = lv.buckets[lv.bucket_of(key)];
            lemma_first_free(bucket);
            lemma_first_free(self.overflow[l]);
            if first_free(bucket) < bucket.len() {
            } else if lv.count >= self.next_capacity(l) && first_free(self.overflow[l]) < self.overflow[l].len() {
            } else {
                self.lemma_allocation_ok(key, l + 1);
            }
        }
    }

    /// The slot that `ptr` names for `key` exists.
    pub open spec fn slot_in_range(self, key: u64, ptr: TinyPointer) -> bool {
        let l = self.level_of(ptr);
        match ptr {
            TinyPointer::LoadBalancer { slot, .. } => (slot as int) < self.levels[l].buckets[self.levels[l].bucket_of(key)].len(),
            TinyPointer::Overflow { slot, .. } => (slot as int) < self.overflow[l].len(),
        }
    }

    /// A pointer that resolves names an existing slot.
    pub proof fn lemma_deref_in_range(self, key: u64, ptr: TinyPointer)
        requires
            self.locate(key, ptr) is Some,
        ensures
            self.slot_in_range(key, ptr),
    {
    }

    /// The cells of level `l` lie within the container's cells.
    pub proof fn lemma_level_cells_bound(self, l: int)
        requires
            self.wf(),
            0 <= l < self.levels.len(),
        ensures
            0 <= self.cells_before(l),
            self.cells_before(l) + self.level_cells(l) <= self.cell_count,
            self.cell_count <= usize::MAX,
    {
        self.lemma_cells_before_mono(0, l);
        self.lemma_cells_before_mono(l + 1, self.levels.len() as int);
    }

    /// The cell of a slot lies in its level's part of the cells: the
    /// buckets' part for a load-balancing slot, the overflow part for an
    /// overflow slot.
    pub proof fn lemma_index_in_range(self, key: u64, ptr: TinyPointer)
        requires
            self.wf(),
            self.valid_pointer(ptr),
            self.slot_in_range(key, ptr),
        ensures
            0 <= self.index_of(key, ptr) < self.cell_count,
            self.cell_count <= usize::MAX,
            ptr is LoadBalancer ==> self.cells_before(self.level_of(ptr)) <= self.index_of(key, ptr)
                < self.cells_before(self.level_of(ptr)) + self.levels[self.level_of(ptr)].slot_total(),
            ptr is Overflow ==> self.cells_before(self.level_of(ptr)) + self.levels[self.level_of(ptr)].slot_total()
                <= self.index_of(key, ptr) < self.cells_before(self.level_of(ptr) + 1),
    {
        let l = self.level_of(ptr);
        assert(self.level_wf(l));
        self.levels[l].lemma_bucket_of(key);
        self.lemma_level_cells_bound(l);
        match ptr {
            TinyPointer::LoadBalancer { slot, .. } => {
                let b = self.levels[l].bucket_of(key);
                let nb = self.levels[l].buckets.len() as int;
                let bs = self.levels[l].buckets[0].len() as int;
                assert(self.levels[l].buckets[b].len() == bs);
                let sl = slot as int;
                assert(b * bs + sl < nb * bs) by (nonlinear_arith)
                    requires
                        0 <= b < nb,
                        0 <= sl < bs,
                ;
                assert(0 <= b * bs) by (nonlinear_arith)
                    requires
                        0 <= b,
                        0 <= bs,
                ;
            },
            TinyPointer::Overflow { .. } => {},
        }
    }

    /// Two slots with the same cell are the same slot: distinct slots have
    /// distinct cells.
    pub proof fn lemma_index_determines_slot(self, k1: u64, p1: TinyPointer, k2: u64, p2: TinyPointer)
        requires
            self.wf(),
            self.valid_pointer(p1),
            self.slot_in_range(k1, p1),
            self.valid_pointer(p2),
            self.slot_in_range(k2, p2),
            self.index_of(k1, p1) == self.index_of(k2, p2),
        ensures
            self.slot_key(k1, p1) == self.slot_key(k2, p2),
    {
        let l1 = self.level_of(p1);
        let l2 = self.level_of(p2);
        self.lemma_index_in_range(k1, p1);
        self.lemma_index_in_range(k2, p2);
        if l1 < l2 {
            self.lemma_cells_before_mono(l1 + 1, l2);
        } else if l2 < l1 {
            self.lemma_cells_before_mono(l2 + 1, l1);
        } else {
            assert(self.level_wf(l1));
            self.levels[l1].lemma_bucket_of(k1);
            self.levels[l1].lemma_bucket_of(k2);
            match p1 {
                TinyPointer::LoadBalancer { slot: s1, .. } => {
                    match p2 {
                        TinyPointer::LoadBalancer { slot: s2, .. } => {
                            let b1 = self.levels[l1].bucket_of(k1);
                            let b2 = self.levels[l1].bucket_of(k2);
                            let bs = self.levels[l1].buckets[0].len() as int;
                            assert(self.levels[l1].buckets[b1].len() == bs);
                            assert(self.levels[l1].buckets[b2].len() == bs);
                            let x1 = s1 as int;
                            let x2 = s2 as int;
                            assert(b1 == b2 && x1 == x2) by (nonlinear_arith)
                                requires
                                    b1 * bs + x1 == b2 * bs + x2,
                                    0 <= x1 < bs,
                                    0 <= x2 < bs,
                                    0 <= b1,
                                    0 <= b2,
                            ;
                        },
                        TinyPointer::Overflow { .. } => {},
                    }
                },
                TinyPointer::Overflow { .. } => {},
            }
        }
    }

    /// Two slots holding distinct keys have distinct cells.
    pub proof fn lemma_distinct_keys_distinct_cells(self, k1: u64, p1: TinyPointer, k2: u64, p2: TinyPointer)
        requires
            self.wf(),
            self.valid_pointer(p1),
            self.valid_pointer(p2),
            self.locate(k1, p1) is Some,
            self.locate(k2, p2) is Some,
            k1 != k2,
        ensures
            self.locate(k1, p1) != self.locate(k2, p2),
    {
        if self.index_of(k1, p1) == self.index_of(k2, p2) {
            self.lemma_index_determines_slot(k1, p1, k2, p2);
        }
    }

    /// A pointer has a number for `key` exactly when it has a cell for it:
    /// both when its slot holds `key`.
    pub proof fn lemma_deref_iff_locate(self, key: u64, ptr: TinyPointer)
        ensures
            (self.deref(key, ptr) is Some) == (self.locate(key, ptr) is Some),
            (self.deref(key, ptr) is Some) == (self.slot_key(key, ptr) == Some(key)),
    {
    }

    /// The numbers of level `l`'s bucket slots run from `l * capacity` on,
    /// below `l * capacity` plus the slots of its buckets; those of its
    /// overflow slots run from `(l + 1) * capacity` on, below that plus the
    /// length of its overflow array.
    pub proof fn lemma_deref_ranges(self, key: u64, ptr: TinyPointer)
        requires
            self.wf(),
            self.valid_pointer(ptr),
            self.deref(key, ptr) is Some,
        ensures
            ptr is LoadBalancer ==> self.level_of(ptr) * self.capacity <= self.deref(key, ptr)->Some_0
                < self.level_of(ptr) * self.capacity + self.levels[self.level_of(ptr)].slot_total(),
            ptr is Overflow ==> (self.level_of(ptr) + 1) * self.capacity <= self.deref(key, ptr)->Some_0
                < (self.level_of(ptr) + 1) * self.capacity + self.overflow[self.level_of(ptr)].len(),
    {
        let l = self.level_of(ptr);
        assert(self.level_wf(l));
        self.levels[l].lemma_bucket_of(key);
        match ptr {
            TinyPointer::LoadBalancer { slot, .. } => {
                let b = self.levels[l].bucket_of(key);
                let nb = self.levels[l].buckets.len() as int;
                let bs = self.levels[l].buckets[0].len() as int;
                assert(self.levels[l].buckets[b].len() == bs);
                let sl = slot as int;
                assert(0 <= b * bs && b * bs + sl < nb * bs) by (nonlinear_arith)
                    requires
                        0 <= b < nb,
                        0 <= sl < bs,
                ;
            },
            TinyPointer::Overflow { .. } => {
                assert(l * self.capacity + self.capacity == (l + 1) * self.capacity) by (nonlinear_arith);
            },
        }
    }

    /// Two slots of one level and of one kind (both in the level's buckets,
    /// or both in its overflow array) that hold distinct keys have distinct
    /// numbers.
    pub proof fn lemma_deref_distinct_on_level(self, k1: u64, p1: TinyPointer, k2: u64, p2: TinyPointer)
        requires
            self.wf(),
            self.valid_pointer(p1),
            self.valid_pointer(p2),
            self.deref(k1, p1) is Some,
            self.deref(k2, p2) is Some,
            k1 != k2,
            self.level_of(p1) == self.level_of(p2),
            (p1 is LoadBalancer) == (p2 is LoadBalancer),
        ensures
            self.deref(k1, p1) != self.deref(k2, p2),
    {
        if self.slot_number(k1, p1) == self.slot_number(k2, p2) {
            let l = self.level_of(p1);
            assert(self.level_wf(l));
            self.levels[l].lemma_bucket_of(k1);
            self.levels[l].lemma_bucket_of(k2);
            self.lemma_deref_in_range(k1, p1);
            self.lemma_deref_in_range(k2, p2);
            assert(self.index_of(k1, p1) == self.index_of(k2, p2));
            self.lemma_index_determines_slot(k1, p1, k2, p2);
        }
    }

    /// Changing one slot leaves every other slot, and every index, as it was.
    pub proof fn lemma_slot_changed_other(self, next: ContainerView, key: u64, ptr: TinyPointer, entry: Option<u64>, delta: int, k2: u64, p2: TinyPointer)
        requires
            self.wf(),
            self.valid_pointer(ptr),
            self.valid_pointer(p2),
            self.slot_changed(next, key, ptr, entry, delta),
            self.slot_in_range(key, ptr),
            self.slot_key(key, ptr) != self.slot_key(k2, p2),
        ensures
            next.slot_key(k2, p2) == self.slot_key(k2, p2),
            next.index_of(k2, p2) == self.index_of(k2, p2),
            next.locate(k2, p2) == self.locate(k2, p2),
    {
        let l = self.level_of(ptr);
        let l2 = self.level_of(p2);
        assert(self.level_wf(l2));
        self.levels[l2].lemma_bucket_of(k2);
        assert(next.levels[l2].seed == self.levels[l2].seed);
        assert(next.levels[l2].bucket_of(k2) == self.levels[l2].bucket_of(k2));
        let b2 = self.levels[l2].bucket_of(k2);
        assert(next.levels[l2].buckets[b2].len() == self.levels[l2].buckets[b2].len());
        assert(self.level_wf(l));
        self.levels[l].lemma_bucket_of(key);
        match ptr {
            TinyPointer::LoadBalancer { slot, .. } => {
                let b = self.levels[l].bucket_of(key);
                match p2 {
                    TinyPointer::LoadBalancer { slot: slot2, .. } => {
                        if l == l2 && b == b2 {
                            if slot != slot2 {
                                assert(next.levels[l].buckets[b] == self.levels[l].buckets[b].update(slot as int, entry));
                            }
                        } else if l == l2 {
                            assert(next.levels[l].buckets[b2] == self.levels[l].buckets[b2]);
                        } else {
                            assert(next.levels[l2].buckets == self.levels[l2].buckets);
                        }
                    },
                    TinyPointer::Overflow { .. } => {},
                }
            },
            TinyPointer::Overflow { slot, .. } => {
                match p2 {
                    TinyPointer::LoadBalancer { .. } => {
                        assert(next.levels[l2].buckets == self.levels[l2].buckets);
                    },
                    TinyPointer::Overflow { slot: slot2, .. } => {
                        if l == l2 {
                            if slot != slot2 {
                                assert(next.overflow[l] =~= self.overflow[l].update(slot as int, match entry {
                                    Some(k) => Some((k, slot as usize)),
                                    None => None,
                                }));
                            }
                        } else {
                            assert(next.overflow[l2] == self.overflow[l2]);
                        }
                    },
                }
            },
        }
    }

    /// The slot that was changed holds the new entry, at the same index.
    pub proof fn lemma_slot_changed_self(self, next: ContainerView, key: u64, ptr: TinyPointer, entry: Option<u64>, delta: int)
        requires
            self.wf(),
            self.valid_pointer(ptr),
            self.slot_in_range(key, ptr),
            self.slot_changed(next, key, ptr, entry, delta),
        ensures
            next.slot_key(key, ptr) == entry,
            next.index_of(key, ptr) == self.index_of(key, ptr),
    {
        let l = self.level_of(ptr);
        assert(self.level_wf(l));
        self.levels[l].lemma_bucket_of(key);
        assert(next.levels[l].bucket_of(key) == self.levels[l].bucket_of(key));
    }
}

impl ContainerView {
    /// A slot handed out by an allocation resolves, after the allocation, to
    /// the key it was allocated for.
    pub proof fn lemma_allocation_resolves(self, next: ContainerView, key: u64)
        requires
            self.wf(),
            self.allocation(key) is Ok,
            self.placed(next, key, self.allocation(key)->Ok_0),
        ensures
            next.valid_pointer(self.allocation(key)->Ok_0),
            next.locate(key, self.allocation(key)->Ok_0) == Some(self.index_of(key, self.allocation(key)->Ok_0)),
    {
        let p = self.allocation(key)->Ok_0;
        self.lemma_allocation_ok(key, 0);
        self.lemma_slot_changed_self(next, key, p, Some(key), 1);
    }

    /// Freeing the slot that an allocation handed out gives back the
    /// container as it was before the allocation.
    pub proof fn lemma_free_undoes_allocation(self, mid: ContainerView, next: ContainerView, key: u64)
        requires
            self.wf(),
            self.allocation(key) is Ok,
            self.placed(mid, key, self.allocation(key)->Ok_0),
            mid.released(next, key, self.allocation(key)->Ok_0),
        ensures
            next == self,
    {
        let p = self.allocation(key)->Ok_0;
        self.lemma_allocation_ok(key, 0);
        let l = self.level_of(p);
        assert(self.level_wf(l));
        self.levels[l].lemma_bucket_of(key);
        assert(mid.level_of(p) == l);
        assert(mid.levels[l].bucket_of(key) == self.levels[l].bucket_of(key));
        assert forall|j: int| 0 <= j < self.levels.len() implies #[trigger] next.levels[j] == self.levels[j] by {
            match p {
                TinyPointer::LoadBalancer { slot, .. } => {
                    let b = self.levels[l].bucket_of(key);
                    if j == l {
                        assert(next.levels[l].buckets[b] =~= self.levels[l].buckets[b]);
                        assert(next.levels[l].buckets =~= self.levels[l].buckets);
                    }
                },
                TinyPointer::Overflow { .. } => {},
            }
            assert(next.levels[j].count == self.levels[j].count);
            assert(next.levels[j].seed == self.levels[j].seed);
            assert(next.levels[j].buckets =~= self.levels[j].buckets);
        }
        assert(next.levels =~= self.levels);
        match p {
            TinyPointer::LoadBalancer { .. } => {},
            TinyPointer::Overflow { slot, .. } => {
                assert(next.overflow[l] =~= self.overflow[l]);
                assert(next.overflow =~= self.overflow);
            },
        }
    }

    /// With no item stored, every level's count is zero.
    pub proof fn lemma_no_items_no_counts(self)
        requires
            self.wf(),
            self.item_count == 0,
        ensures
            forall|l: int| 0 <= l < self.levels.len() ==> #[trigger] self.levels[l].count == 0,
    {
        assert forall|l: int| 0 <= l < self.levels.len() implies #[trigger] self.levels[l].count == 0 by {
            assert(self.level_wf(l));
            lemma_used_from_bounds(self, 0, l);
        }
    }

    /// An empty container whose first level has slots takes any key, in the
    /// first slot of the key's bucket on the first level.
    pub proof fn lemma_empty_takes_any_key(self, key: u64)
        requires
            self.wf(),
            self.item_count == 0,
            self.capacity >= 1,
            self.levels.len() >= 1,
            self.levels[0].buckets[0].len() >= 1,
        ensures
            self.allocation(key) == Ok::<TinyPointer, Error>(TinyPointer::LoadBalancer { level: 0, slot: 0 }),
    {
        assert(self.level_wf(0));
        self.levels[0].lemma_bucket_of(key);
        lemma_used_from_bounds(self, 0, 0);
        let b = self.levels[0].bucket_of(key);
        let bucket = self.levels[0].buckets[b];
        assert(bucket.len() == self.levels[0].buckets[0].len());
        if bucket[0] is Some {
            lemma_count_taken_update(bucket, 0, None);
            lemma_count_taken_rows_update(self.levels[0].buckets, b, bucket.update(0, None));
        }
        reveal_with_fuel(crate::slots::first_free_from, 2);
    }
}

impl ContainerView {
    /// No slot taken: no item, every level's count zero, every bucket and
    /// overflow array free.
    pub open spec fn is_blank(self) -> bool {
        &&& self.item_count == 0
        &&& forall|l: int| 0 <= l < self.levels.len() ==> (#[trigger] self.levels[l]).count == 0
        &&& forall|l: int, b: int| 0 <= l < self.levels.len() && 0 <= b < self.levels[l].buckets.len() ==> all_free(#[trigger] self.levels[l].buckets[b])
        &&& forall|l: int| 0 <= l < self.overflow.len() ==> all_free(#[trigger] self.overflow[l])
    }

    /// Two blank containers of the same layout are the same container.
    pub proof fn lemma_blank_same_layout_equal(self, other: ContainerView)
        requires
            self.same_layout(other),
            self.is_blank(),
            other.is_blank(),
        ensures
            self == other,
    {
        assert forall|l: int| 0 <= l < self.levels.len() implies #[trigger] self.levels[l] == other.levels[l] by {
            let b1 = self.levels[l].buckets;
            let b2 = other.levels[l].buckets;
            assert forall|b: int| 0 <= b < b1.len() implies #[trigger] b1[b] == b2[b] by {
                assert(all_free(self.levels[l].buckets[b]));
                assert(all_free(other.levels[l].buckets[b]));
                assert(b1[b].len() == b2[b].len());
                assert forall|i: int| 0 <= i < b1[b].len() implies #[trigger] b1[b][i] == b2[b][i] by {
                    assert(b1[b][i] is None);
                    assert(b2[b][i] is None);
                }
                assert(b1[b] =~= b2[b]);
            }
            assert(b1 =~= b2);
        }
        assert(self.levels =~= other.levels);
        assert forall|l: int| 0 <= l < self.overflow.len() implies #[trigger] self.overflow[l] == other.overflow[l] by {
            assert(all_free(self.overflow[l]));
            assert(all_free(other.overflow[l]));
            assert(self.overflow[l].len() == other.overflow[l].len());
            assert forall|i: int| 0 <= i < self.overflow[l].len() implies #[trigger] self.overflow[l][i] == other.overflow[l][i] by {
                assert(self.overflow[l][i] is None);
                assert(other.overflow[l][i] is None);
            }
            assert(self.overflow[l] =~= other.overflow[l]);
        }
        assert(self.overflow =~= other.overflow);
    }

    /// Layouts that agree with a common one agree with each other.
    pub proof fn lemma_same_layout_trans(self, mid: ContainerView, other: ContainerView)
        requires
            self.same_layout(mid),
            mid.same_layout(other),
        ensures
            self.same_layout(other),
    {
        assert forall|l: int| 0 <= l < self.levels.len() implies {
            &&& (#[trigger] other.levels[l]).seed == self.levels[l].seed
            &&& other.levels[l].first_cell == self.levels[l].first_cell
            &&& other.levels[l].buckets.len() == self.levels[l].buckets.len()
            &&& forall|b: int| 0 <= b < self.levels[l].buckets.len() ==> #[trigger] other.levels[l].buckets[b].len() == self.levels[l].buckets[b].len()
        } by {
            assert(mid.levels[l].buckets.len() == self.levels[l].buckets.len());
            assert forall|b: int| 0 <= b < self.levels[l].buckets.len() implies #[trigger] other.levels[l].buckets[b].len() == self.levels[l].buckets[b].len() by {
                assert(mid.levels[l].buckets[b].len() == self.levels[l].buckets[b].len());
            }
        }
        assert forall|l: int| 0 <= l < self.overflow.len() implies #[trigger] other.overflow[l].len() == self.overflow[l].len() by {
            assert(mid.overflow[l].len() == self.overflow[l].len());
        }
    }

    /// Sharing a layout is symmetric.
    pub proof fn lemma_same_layout_sym(self, other: ContainerView)
        requires
            self.same_layout(other),
        ensures
            other.same_layout(self),
    {
        assert forall|l: int| 0 <= l < other.levels.len() implies {
            &&& (#[trigger] self.levels[l]).seed == other.levels[l].seed
            &&& self.levels[l].first_cell == other.levels[l].first_cell
            &&& self.levels[l].buckets.len() == other.levels[l].buckets.len()
            &&& forall|b: int| 0 <= b < other.levels[l].buckets.len() ==> #[trigger] self.levels[l].buckets[b].len() == other.levels[l].buckets[b].len()
        } by {
            assert(other.levels[l].seed == self.levels[l].seed);
            assert forall|b: int| 0 <= b < other.levels[l].buckets.len() implies #[trigger] self.levels[l].buckets[b].len() == other.levels[l].buckets[b].len() by {
                assert(other.levels[l].buckets[b].len() == self.levels[l].buckets[b].len());
            }
        }
        assert forall|l: int| 0 <= l < other.overflow.len() implies #[trigger] self.overflow[l].len() == other.overflow[l].len() by {
            assert(other.overflow[l].len() == self.overflow[l].len());
        }
    }

    /// Emptying a container leaves a blank one of the same layout, whatever
    /// it held.
    pub proof fn lemma_emptied_blank(self, next: ContainerView)
        requires
            self.emptied(next),
        ensures
            next.is_blank(),
    {
    }

    /// A container as built is blank.
    pub proof fn lemma_built_blank(self, config: ContainerConfig)
        requires
            self.built_from(config),
        ensures
            self.is_blank(),
    {
        assert forall|l: int, b: int| 0 <= l < self.levels.len() && 0 <= b < self.levels[l].buckets.len() implies all_free(#[trigger] self.levels[l].buckets[b]) by {
            assert(self.levels[l].buckets[b].len() == config.b);
        }
        assert forall|l: int| 0 <= l < self.levels.len() implies (#[trigger] self.levels[l]).count == 0 by {}
        assert forall|l: int| 0 <= l < self.overflow.len() implies all_free(#[trigger] self.overflow[l]) by {
            assert(self.levels[l].count == 0);
        }
    }

    /// Two containers built from the same sizes are the same container.
    pub proof fn lemma_built_unique(self, other: ContainerView, config: ContainerConfig)
        requires
            self.built_from(config),
            other.built_from(config),
        ensures
            self == other,
    {
        self.lemma_built_blank(config);
        other.lemma_built_blank(config);
        assert forall|l: int| 0 <= l < self.levels.len() implies {
            &&& (#[trigger] other.levels[l]).seed == self.levels[l].seed
            &&& other.levels[l].first_cell == self.levels[l].first_cell
            &&& other.levels[l].buckets.len() == self.levels[l].buckets.len()
            &&& forall|b: int| 0 <= b < self.levels[l].buckets.len() ==> #[trigger] other.levels[l].buckets[b].len() == self.levels[l].buckets[b].len()
        } by {
            assert forall|b: int| 0 <= b < self.levels[l].buckets.len() implies #[trigger] other.levels[l].buckets[b].len() == self.levels[l].buckets[b].len() by {
                assert(other.levels[l].buckets[b].len() == config.b);
                assert(self.levels[l].buckets[b].len() == config.b);
            }
        }
        assert forall|l: int| 0 <= l < self.overflow.len() implies #[trigger] other.overflow[l].len() == self.overflow[l].len() by {
            assert(self.levels[l].count == 0);
            assert(other.levels[l].count == 0);
        }
        self.lemma_blank_same_layout_equal(other);
    }

    /// The container after one slot changed is determined by the container,
    /// the slot, the entry and the change of the counts.
    pub proof fn lemma_slot_changed_unique(self, n1: ContainerView, n2: ContainerView, key: u64, ptr: TinyPointer, entry: Option<u64>, delta: int)
        requires
            self.valid_pointer(ptr),
            self.slot_changed(n1, key, ptr, entry, delta),
            self.slot_changed(n2, key, ptr, entry, delta),
        ensures
            n1 == n2,
    {
        let l = self.level_of(ptr);
        assert forall|j: int| 0 <= j < self.levels.len() implies #[trigger] n1.levels[j] == n2.levels[j] by {
            assert(n1.levels[j].buckets == n2.levels[j].buckets);
            assert(n1.levels[j].count == n2.levels[j].count);
        }
        assert(n1.levels =~= n2.levels);
        assert(n1.overflow == n2.overflow);
    }
}

/// The slot numbers of a container built from `config` fit in a `usize`
/// when `(ceil(log2(s)) + 1) * s + b` does.
pub proof fn lemma_built_numbers_fit(v: ContainerView, config: ContainerConfig)
    requires
        v.built_from(config),
        config.b >= 1,
        (ceil_log2(config.s as nat) + 1) * config.s + config.b <= usize::MAX,
    ensures
        v.numbers_fit(),
{
    let s = config.s as int;
    let b = config.b as int;
    let n = v.levels.len() as int;
    assert forall|l: int| 0 <= l < v.levels.len() implies #[trigger] v.level_numbers_fit(l) by {
        let h = halved_up(config.s as nat, l as nat) as int;
        lemma_halved_up_le(config.s as nat, l as nat);
        let nb = buckets_on_level(config.s as nat, config.b as nat, l as nat) as int;
        assert(v.levels[l].buckets[0].len() == b);
        assert(nb * b <= h + b) by {
            if h / b > 1 {
                assert((h / b) * b <= h) by (nonlinear_arith)
                    requires
                        b >= 1,
                        h >= 0,
                ;
            }
        }
        assert(l * s + s <= n * s && (l + 1) * s == l * s + s) by (nonlinear_arith)
            requires
                0 <= l < n,
                0 <= s,
        ;
        assert((n + 1) * s == n * s + s) by (nonlinear_arith);
    }
}

/// `x` if it is not negative, else 0.
pub open spec fn clamp_nat(x: int) -> nat {
    if x < 0 {
        0
    } else {
        x as nat
    }
}

} // verus!
