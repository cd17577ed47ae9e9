//! The tiny pointer map: `u64` keys to handles, each key's handle kept in an
//! arena cell that its tiny pointer resolves to.
use std::collections::HashMap;
use std::marker::PhantomData;
use vstd::prelude::*;

use crate::container::{Container, ContainerConfig, ContainerView, config_ok, pointers_fit, built_cells, lemma_built_cells_bound, lemma_built_cells_mono};
use crate::handle::Handle;
use crate::hashing::{key_hash, key_hash_exec, u64_hash_bytes};
use std::collections::hash_map::DefaultHasher;
use vstd::std_specs::hash::DefaultHasherAdditionalSpecFns;
use crate::sizing::{ceil_log2, ceil_log2_exec, lemma_ceil_log2_le, lemma_ceil_log2_bound, lemma_ceil_log2_usize};
use crate::{Error, TinyPointer};

verus! {

/// Items stored over a row of containers.
pub open spec fn total_items(cs: Seq<ContainerView>) -> nat
    decreases cs.len(),
{
    if cs.len() == 0 {
        0
    } else {
        total_items(cs.drop_last()) + cs.last().item_count
    }
}

/// Capacity of a row of containers.
pub open spec fn total_capacity(cs: Seq<ContainerView>) -> nat
    decreases cs.len(),
{
    if cs.len() == 0 {
        0
    } else {
        total_capacity(cs.drop_last()) + cs.last().capacity
    }
}

proof fn lemma_total_items_update(cs: Seq<ContainerView>, i: int, c: ContainerView)
    requires
        0 <= i < cs.len(),
    ensures
        total_items(cs.update(i, c)) + cs[i].item_count == total_items(cs) + c.item_count,
        total_capacity(cs.update(i, c)) + cs[i].capacity == total_capacity(cs) + c.capacity,
    decreases cs.len(),
{
    if i == cs.len() - 1 {
        assert(cs.update(i, c).drop_last() =~= cs.drop_last());
    } else {
        lemma_total_items_update(cs.drop_last(), i, c);
        assert(cs.update(i, c).drop_last() =~= cs.drop_last().update(i, c));
    }
}

proof fn lemma_total_bounds(cs: Seq<ContainerView>, cap: nat)
    requires
        forall|i: int| 0 <= i < cs.len() ==> (#[trigger] cs[i]).capacity == cap && cs[i].item_count <= cap,
    ensures
        total_capacity(cs) == cs.len() * cap,
        total_items(cs) <= cs.len() * cap,
    decreases cs.len(),
{
    if cs.len() > 0 {
        lemma_total_bounds(cs.drop_last(), cap);
        assert(cs.len() * cap == (cs.len() - 1) * cap + cap) by (nonlinear_arith);
    }
}

proof fn lemma_total_items_prefix(cs: Seq<ContainerView>, i: int)
    requires
        0 <= i < cs.len(),
    ensures
        total_items(cs.take(i + 1)) == total_items(cs.take(i)) + cs[i].item_count,
{
    assert(cs.take(i + 1).drop_last() =~= cs.take(i));
}

proof fn lemma_total_items_zero(cs: Seq<ContainerView>)
    requires
        forall|i: int| 0 <= i < cs.len() ==> (#[trigger] cs[i]).item_count == 0,
    ensures
        total_items(cs) == 0,
    decreases cs.len(),
{
    if cs.len() > 0 {
        lemma_total_items_zero(cs.drop_last());
    }
}

/// Tiny pointer map: `u64` keys to compact handles.
pub struct TinyPtrMap<K = u64> {
    containers: Vec<Container>,
    arena: Vec<Handle>,
    key_to_ptr: HashMap<u64, TinyPointer>,
    _phantom: PhantomData<K>,
}


impl<K> TinyPtrMap<K> {
    /// Models of the containers.
    pub closed spec fn containers_view(&self) -> Seq<ContainerView> {
        self.containers@.map_values(|c: Container| c@)
    }

    /// The arena of handles.
    pub closed spec fn arena_view(&self) -> Seq<Handle> {
        self.arena@
    }

    /// The reverse index: each key's tiny pointer.
    pub closed spec fn index_view(&self) -> Map<u64, TinyPointer> {
        self.key_to_ptr@
    }

    /// Container that `key` hashes to.
    pub open spec fn container_of(&self, key: u64) -> int {
        (key_hash(key) as usize) as int % (self.containers_view().len() as int)
    }

    /// Model of the container that `key` hashes to.
    pub open spec fn target(&self, key: u64) -> ContainerView {
        self.containers_view()[self.container_of(key)]
    }

    /// Arena cell of a stored key: each container owns a run of cells, one
    /// per slot; the key's cell is its container's index times the run's
    /// length plus the cell of the key's slot in the container.
    pub open spec fn cell_of(&self, key: u64) -> int {
        self.cell_of_slot(key, self.index_view()[key])
    }

    /// Arena cell of the slot that `ptr` names for `key`.
    pub open spec fn cell_of_slot(&self, key: u64, ptr: TinyPointer) -> int {
        self.container_of(key) * self.target(key).cell_count + self.target(key).index_of(key, ptr)
    }

    /// Outcome of allocating a slot for `key` in its container.
    pub open spec fn placement(&self, key: u64) -> Result<TinyPointer, Error> {
        self.target(key).allocation(key)
    }

    /// Items stored: the sum of the containers' item counts.
    pub open spec fn spec_len(&self) -> nat {
        total_items(self.containers_view())
    }

    /// Sum of the containers' capacities.
    pub open spec fn spec_capacity(&self) -> nat {
        total_capacity(self.containers_view())
    }

    /// Same containers, each of the same layout, as `other`.
    pub open spec fn same_layout_as(&self, other: Self) -> bool {
        &&& other.containers_view().len() == self.containers_view().len()
        &&& forall|i: int| 0 <= i < self.containers_view().len() ==> (#[trigger] self.containers_view()[i]).same_layout(other.containers_view()[i])
    }

    /// `next` is this map after `insert(key, value)` returned `r`: it
    /// succeeds exactly when the key is stored already or its container has
    /// room; a stored key keeps its slot and reads `value` from then on; a
    /// new key gets the slot that the allocation hands out, one more item is
    /// stored, and no other key's handle changes; a refusal changes nothing.
    pub open spec fn insert_outcome(&self, next: Self, key: u64, value: Handle, r: Result<(), Error>) -> bool {
        &&& self.same_layout_as(next)
        &&& r is Ok <==> (self@.contains_key(key) || self.placement(key) is Ok)
        &&& r matches Err(e) ==> {
            &&& self.placement(key) == Err::<TinyPointer, Error>(e)
            &&& next.containers_view() == self.containers_view()
            &&& next.index_view() == self.index_view()
            &&& next.arena_view() == self.arena_view()
        }
        &&& r is Ok ==> next@ == self@.insert(key, value)
        &&& (r is Ok && self@.contains_key(key)) ==> {
            &&& next.containers_view() == self.containers_view()
            &&& next.index_view() == self.index_view()
            &&& next.arena_view() == self.arena_view().update(self.cell_of(key), value)
        }
        &&& (r is Ok && !self@.contains_key(key)) ==> self.newly_placed(next, key, value, self.placement(key)->Ok_0)
    }

    /// `next` is this map after the new `key` was stored with `value` in the
    /// slot at `p`: the key points at `p`, only its container changed, one
    /// more item is stored, and the arena grew, if at all, just enough for
    /// the key's cell, new cells holding the smallest handle.
    pub open spec fn newly_placed(&self, next: Self, key: u64, value: Handle, p: TinyPointer) -> bool {
        &&& next.index_view() == self.index_view().insert(key, p)
        &&& self.target(key).placed(next.target(key), key, p)
        &&& forall|i: int| 0 <= i < self.containers_view().len() && i != self.container_of(key)
            ==> #[trigger] next.containers_view()[i] == self.containers_view()[i]
        &&& next.spec_len() == self.spec_len() + 1
        &&& next.arena_view().len() == (if next.cell_of(key) < self.arena_view().len() {
            self.arena_view().len() as int
        } else {
            next.cell_of(key) + 1
        })
        &&& forall|i: int| 0 <= i < self.arena_view().len() && i != next.cell_of(key)
            ==> #[trigger] next.arena_view()[i] == self.arena_view()[i]
        &&& forall|i: int| self.arena_view().len() <= i < next.arena_view().len() && i != next.cell_of(key)
            ==> (#[trigger] next.arena_view()[i]).spec_get() == 1
    }

    /// `next` is this map after the stored `key` was removed: its slot is
    /// freed, only its container changed, one item fewer is stored, every
    /// other key reads what it read before, and the arena is untouched.
    pub open spec fn removed(&self, next: Self, key: u64) -> bool {
        &&& self.same_layout_as(next)
        &&& next.index_view() == self.index_view().remove(key)
        &&& self.target(key).released(next.target(key), key, self.index_view()[key])
        &&& forall|i: int| 0 <= i < self.containers_view().len() && i != self.container_of(key)
            ==> #[trigger] next.containers_view()[i] == self.containers_view()[i]
        &&& next.spec_len() + 1 == self.spec_len()
        &&& next@ == self@.remove(key)
        &&& next.arena_view() == self.arena_view()
    }

    /// `next` is this map after `remove(key)` returned `r`: the key's handle
    /// when it was stored, and then the key is removed as `removed` says;
    /// otherwise nothing changed.
    pub open spec fn remove_outcome(&self, next: Self, key: u64, r: Option<Handle>) -> bool {
        &&& self.same_layout_as(next)
        &&& r == self@.get(key)
        &&& r is Some ==> self.removed(next, key)
        &&& r is None ==> {
            &&& next.containers_view() == self.containers_view()
            &&& next.index_view() == self.index_view()
            &&& next.arena_view() == self.arena_view()
        }
    }

    /// `next` is this map after `clear()`: every container emptied in
    /// place, no key left, and the arena as long as before with every cell
    /// holding the smallest handle.
    pub open spec fn cleared(&self, next: Self) -> bool {
        &&& self.same_layout_as(next)
        &&& forall|i: int| 0 <= i < self.containers_view().len() ==> (#[trigger] self.containers_view()[i]).emptied(
            next.containers_view()[i],
        )
        &&& next.index_view() == Map::<u64, TinyPointer>::empty()
        &&& next.arena_view().len() == self.arena_view().len()
        &&& forall|i: int| 0 <= i < next.arena_view().len() ==> (#[trigger] next.arena_view()[i]).spec_get() == 1
    }

    /// A stored key's pointer resolves, in its container, to an arena cell.
    pub open spec fn key_resolves(&self, key: u64) -> bool {
        let c = self.target(key);
        let p = self.index_view()[key];
        &&& c.valid_pointer(p)
        &&& c.locate(key, p) is Some
        &&& self.cell_of(key) < self.arena_view().len()
    }

    /// Well formed: at least one container, all well formed and of one
    /// capacity and one number of cells, every arena cell within a `usize`,
    /// every stored key's pointer resolving to a cell of the arena, and as
    /// many items stored as keys.
    pub open spec fn wf(&self) -> bool {
        let cs = self.containers_view();
        let cap = cs[0].capacity;
        let cells = cs[0].cell_count;
        &&& cs.len() >= 1
        &&& forall|i: int| 0 <= i < cs.len() ==> {
            &&& (#[trigger] cs[i]).wf()
            &&& cs[i].capacity == cap
            &&& cs[i].cell_count == cells
        }
        &&& cs.len() * cap <= usize::MAX
        &&& cs.len() * cells <= usize::MAX
        &&& forall|k: u64| #[trigger] self.index_view().contains_key(k) ==> self.key_resolves(k)
        &&& self.spec_len() == self.index_view().len()
    }

    /// Agrees with `other` on everything that later calls observe, but for
    /// the arena's length that `debug_string` reports: the containers, the
    /// keys' pointers and the keys' handles.
    pub open spec fn agrees(&self, other: Self) -> bool {
        &&& self.containers_view() == other.containers_view()
        &&& self.index_view() == other.index_view()
        &&& self@ == other@
    }
}

impl<K> View for TinyPtrMap<K> {
    type V = Map<u64, Handle>;

    /// Each stored key with the handle in its arena cell.
    open spec fn view(&self) -> Map<u64, Handle> {
        Map::new(|k: u64| self.index_view().contains_key(k), |k: u64| self.arena_view()[self.cell_of(k)])
    }
}

/// Containers of a map sized for `n` elements: 1 for `n <= 1`, else
/// `n / ceil(log2(n))`.
pub open spec fn containers_for(n: nat) -> nat {
    if n <= 1 {
        1
    } else {
        n / ceil_log2(n)
    }
}

/// Capacity of each container of a map sized for `n` elements: 16 for
/// `n <= 1`, else `2 * ceil(log2(n))`.
pub open spec fn slots_for(n: nat) -> nat {
    if n <= 1 {
        16
    } else {
        2 * ceil_log2(n)
    }
}

/// Arena cells of each container of a map sized for `n` elements: one per
/// bucket slot and per overflow slot of its levels.
pub open spec fn cells_for(n: nat) -> nat {
    built_cells(slots_for(n), 16, ceil_log2(slots_for(n)))
}

/// The cells of a map sized for `n` elements number at most
/// `256 * n + 1024`, so `new(n)` accepts every `n` with that within a
/// `usize`.
pub proof fn lemma_cells_for_bound(n: usize)
    ensures
        containers_for(n as nat) * cells_for(n as nat) <= 256 * n + 1024,
{
    let nn = n as int;
    lemma_ceil_log2_le(n as nat);
    lemma_ceil_log2_usize(n);
    let l = ceil_log2(n as nat) as int;
    let c_n = containers_for(n as nat) as int;
    let s_n = slots_for(n as nat) as int;
    assert(s_n <= 128);
    vstd::arithmetic::power2::lemma2_to64();
    lemma_ceil_log2_bound(s_n as nat, 7);
    if n >= 2 {
        assert(c_n * s_n <= 2 * nn) by (nonlinear_arith)
            requires
                c_n == nn / l,
                s_n == 2 * l,
                l >= 1,
                nn >= 0,
        ;
        assert(nn / l <= nn) by (nonlinear_arith)
            requires
                1 <= l,
                0 <= nn,
        ;
        assert(nn / l >= 0) by (nonlinear_arith)
            requires
                1 <= l,
                0 <= nn,
        ;
    }
    assert(0 <= c_n * s_n <= 2 * nn + 16);
    assert(0 <= c_n <= nn + 1);
    let ls = ceil_log2(s_n as nat) as int;
    lemma_built_cells_bound(s_n as nat, 16, ls as nat);
    let cells = cells_for(n as nat) as int;
    assert(cells <= ls * (2 * s_n + 16));
    assert(c_n * cells <= c_n * (ls * (2 * s_n + 16))) by (nonlinear_arith)
        requires
            0 <= c_n,
            cells <= ls * (2 * s_n + 16),
    ;
    assert(c_n * (ls * (2 * s_n + 16)) == ls * (2 * (c_n * s_n)) + 16 * (ls * c_n)) by (nonlinear_arith);
    assert(ls * (2 * (c_n * s_n)) <= 7 * (2 * (2 * nn + 16))) by (nonlinear_arith)
        requires
            0 <= ls <= 7,
            0 <= c_n * s_n <= 2 * nn + 16,
    ;
    assert(16 * (ls * c_n) <= 16 * (7 * (nn + 1))) by (nonlinear_arith)
        requires
            0 <= ls <= 7,
            0 <= c_n <= nn + 1,
    ;
}

/// Sizes of each container of a map sized for `n` elements.
pub open spec fn config_for(n: nat) -> ContainerConfig {
    ContainerConfig { s: slots_for(n) as usize, b: 16, base_hash_seed: 0x5728_9a3c }
}

impl<K> TinyPtrMap<K> {
    /// The map as `new(n)` builds it: `containers_for(n)` empty containers
    /// built from `config_for(n)`, no key, and an empty arena.
    pub open spec fn fresh(&self, n: nat) -> bool {
        &&& self.containers_view().len() == containers_for(n)
        &&& forall|i: int| 0 <= i < self.containers_view().len() ==> (#[trigger] self.containers_view()[i]).built_from(config_for(n))
        &&& self.index_view() == Map::<u64, TinyPointer>::empty()
        &&& self.arena_view().len() == 0
    }
}

impl<K> TinyPtrMap<K> {
    /// The container a key hashes to exists.
    proof fn lemma_container_of(&self, key: u64)
        requires
            self.containers_view().len() >= 1,
        ensures
            0 <= self.container_of(key) < self.containers_view().len(),
    {
        vstd::arithmetic::div_mod::lemma_mod_bound((key_hash(key) as usize) as int, self.containers_view().len() as int);
    }

    /// The arena cell of a slot in `key`'s container fits in a `usize`.
    proof fn lemma_cell_bound(&self, key: u64, ptr: TinyPointer)
        requires
            self.wf(),
            self.target(key).valid_pointer(ptr),
            self.target(key).slot_in_range(key, ptr),
        ensures
            0 <= self.container_of(key) * self.target(key).cell_count,
            0 <= self.target(key).index_of(key, ptr) < self.target(key).cell_count,
            self.container_of(key) * self.target(key).cell_count + self.target(key).index_of(key, ptr) < usize::MAX,
    {
        self.lemma_container_of(key);
        let cs = self.containers_view();
        let n = cs.len() as int;
        let c = self.container_of(key);
        let cells = cs[c].cell_count as int;
        assert(cs[c].wf() && cs[c].cell_count == cs[0].cell_count);
        cs[c].lemma_index_in_range(key, ptr);
        let i = cs[c].index_of(key, ptr);
        assert(0 <= c * cells && c * cells + i < n * cells) by (nonlinear_arith)
            requires
                0 <= c < n,
                0 <= i < cells,
        ;
    }

    /// Distinct stored keys have distinct arena cells.
    pub proof fn lemma_distinct_cells(&self, k1: u64, k2: u64)
        requires
            self.wf(),
            self.index_view().contains_key(k1),
            self.index_view().contains_key(k2),
            k1 != k2,
        ensures
            self.cell_of(k1) != self.cell_of(k2),
    {
        assert(self.key_resolves(k1));
        assert(self.key_resolves(k2));
        let p1 = self.index_view()[k1];
        let p2 = self.index_view()[k2];
        self.lemma_container_of(k1);
        self.lemma_container_of(k2);
        self.target(k1).lemma_deref_in_range(k1, p1);
        self.target(k2).lemma_deref_in_range(k2, p2);
        self.lemma_cell_bound(k1, p1);
        self.lemma_cell_bound(k2, p2);
        let c1 = self.container_of(k1);
        let c2 = self.container_of(k2);
        let cs = self.containers_view();
        assert(cs[c1].wf() && cs[c1].cell_count == cs[0].cell_count);
        assert(cs[c2].wf() && cs[c2].cell_count == cs[0].cell_count);
        let n = cs[0].cell_count as int;
        let i1 = self.target(k1).index_of(k1, p1);
        let i2 = self.target(k2).index_of(k2, p2);
        if c1 == c2 {
            self.target(k1).lemma_distinct_keys_distinct_cells(k1, p1, k2, p2);
        } else {
            assert(c1 * n + i1 != c2 * n + i2) by (nonlinear_arith)
                requires
                    c1 != c2,
                    0 <= c1,
                    0 <= c2,
                    0 <= i1 < n,
                    0 <= i2 < n,
            ;
        }
    }

    /// The map's keys are the reverse index's keys, so as many items are
    /// stored as keys.
    pub proof fn lemma_len_is_key_count(&self)
        requires
            self.wf(),
        ensures
            self@.dom() == self.index_view().dom(),
            self@.dom().finite(),
            self.spec_len() == self@.len(),
    {
        assert(self@.dom() =~= self.index_view().dom());
    }

    /// The container of a key is the hash of the whole key, by a fresh
    /// hasher fed the key's bytes, modulo the number of containers.
    pub proof fn lemma_container_of_whole_key(&self, key: u64)
        ensures
            self.container_of(key) == (DefaultHasher::spec_finish(seq![u64_hash_bytes(key)]) as usize) as int
                % (self.containers_view().len() as int),
    {
    }

    /// Container that `key` hashes to.
    fn hash_to_container(&self, key: &u64) -> (r: usize)
        requires
            self.containers@.len() >= 1,
        ensures
            r == self.container_of(*key),
            r == (DefaultHasher::spec_finish(seq![u64_hash_bytes(*key)]) as usize) as int % (self.containers@.len() as int),
            r < self.containers@.len(),
    {
        proof {
            self.lemma_container_of(*key);
        }
        (key_hash_exec(*key) as usize) % self.containers.len()
    }

    /// Number of keys stored (each takes one slot of its container).
    pub fn len(&self) -> (r: usize)
        requires
            self.wf(),
        ensures
            r == self.spec_len(),
            r == self@.len(),
    {
        proof {
            self.lemma_len_is_key_count();
        }
        let ghost cs = self.containers_view();
        proof {
            lemma_total_bounds(cs, cs[0].capacity);
        }
        let mut total: usize = 0;
        let mut i: usize = 0;
        while i < self.containers.len()
            invariant
                self.wf(),
                cs == self.containers_view(),
                i <= cs.len(),
                total == total_items(cs.take(i as int)),
                total <= i * cs[0].capacity,
            decreases cs.len() - i,
        {
            proof {
                lemma_total_items_prefix(cs, i as int);
                assert(cs[i as int] == self.containers@[i as int]@);
                assert(cs[i as int].wf());
                assert((i + 1) * cs[0].capacity <= cs.len() * cs[0].capacity) by (nonlinear_arith)
                    requires
                        i + 1 <= cs.len(),
                ;
                assert((i + 1) * cs[0].capacity == i * cs[0].capacity + cs[0].capacity) by (nonlinear_arith);
            }
            total = total + self.containers[i].item_count();
            i = i + 1;
        }
        proof {
            assert(cs.take(cs.len() as int) =~= cs);
        }
        total
    }

    /// Whether no key is stored.
    pub fn is_empty(&self) -> (r: bool)
        requires
            self.wf(),
        ensures
            r == (self.spec_len() == 0),
            r == (self@.len() == 0),
    {
        self.len() == 0
    }

    /// Total capacity: the number of containers times each one's capacity.
    pub fn capacity(&self) -> (r: usize)
        requires
            self.wf(),
        ensures
            r == self.spec_capacity(),
    {
        let ghost cs = self.containers_view();
        proof {
            lemma_total_bounds(cs, cs[0].capacity);
        }
        let mut total: usize = 0;
        let mut i: usize = 0;
        while i < self.containers.len()
            invariant
                self.wf(),
                cs == self.containers_view(),
                i <= cs.len(),
                total == i * cs[0].capacity,
            decreases cs.len() - i,
        {
            proof {
                assert(cs[i as int] == self.containers@[i as int]@);
                assert((i + 1) * cs[0].capacity <= cs.len() * cs[0].capacity) by (nonlinear_arith)
                    requires
                        i + 1 <= cs.len(),
                ;
                assert((i + 1) * cs[0].capacity == i * cs[0].capacity + cs[0].capacity) by (nonlinear_arith);
            }
            total = total + self.containers[i].capacity();
            i = i + 1;
        }
        total
    }

    /// Number of containers.
    pub fn num_containers(&self) -> (r: usize)
        ensures
            r == self.containers_view().len(),
    {
        self.containers.len()
    }

    /// The handle stored for `key`, if any.
    pub fn get(&self, key: &u64) -> (r: Option<Handle>)
        requires
            self.wf(),
        ensures
            r == self@.get(*key),
    {
        let ptr = match self.key_to_ptr.get(key) {
            Some(p) => *p,
            None => return None,
        };
        let container_idx = self.hash_to_container(key);
        proof {
            assert(self.index_view().contains_key(*key));
            assert(self.key_resolves(*key));
            assert(self.containers_view()[container_idx as int] == self.containers@[container_idx as int]@);
            self.target(*key).lemma_deref_in_range(*key, ptr);
            self.lemma_cell_bound(*key, ptr);
        }
        let container = &self.containers[container_idx];
        let local_arena_idx = match container.locate_cell(*key, &ptr) {
            Some(idx) => idx,
            None => return None,
        };
        let cells = container.cell_count();
        let arena_idx = container_idx * cells + local_arena_idx;
        if arena_idx < self.arena.len() {
            Some(self.arena[arena_idx])
        } else {
            None
        }
    }

    /// The key and its handle, if the key is stored.
    pub fn get_key_value<'a>(&self, key: &'a u64) -> (r: Option<(&'a u64, Handle)>)
        requires
            self.wf(),
        ensures
            r matches Some(kv) ==> *kv.0 == *key && self@.get(*key) == Some(kv.1),
            r is None ==> self@.get(*key) is None,
    {
        let handle = match self.get(key) {
            Some(h) => h,
            None => return None,
        };
        Some((key, handle))
    }

    /// Whether `key` is stored.
    pub fn contains_key(&self, key: &u64) -> (r: bool)
        requires
            self.wf(),
        ensures
            r == self@.contains_key(*key),
    {
        self.key_to_ptr.contains_key(key)
    }
}

impl<K> TinyPtrMap<K> {
    /// Writing `value` into the cell of a stored key changes that key's
    /// handle and no other.
    proof fn lemma_overwrite_cell(&self, next: Self, key: u64, value: Handle)
        requires
            self.wf(),
            self.index_view().contains_key(key),
            next.containers_view() == self.containers_view(),
            next.index_view() == self.index_view(),
            next.arena_view() == self.arena_view().update(self.cell_of(key), value),
        ensures
            next.wf(),
            next@ == self@.insert(key, value),
    {
        assert(self.key_resolves(key));
        self.lemma_container_of(key);
        self.target(key).lemma_deref_in_range(key, self.index_view()[key]);
        self.lemma_cell_bound(key, self.index_view()[key]);
        assert(next.arena_view().len() == self.arena_view().len());
        assert forall|k: u64| #[trigger] next.index_view().contains_key(k) implies next.key_resolves(k) by {
            assert(self.key_resolves(k));
        }
        assert forall|k: u64| #[trigger] next.index_view().contains_key(k) && k != key implies next@[k] == self@[k] by {
            assert(self.key_resolves(k));
            self.lemma_container_of(k);
            self.target(k).lemma_deref_in_range(k, self.index_view()[k]);
            self.lemma_cell_bound(k, self.index_view()[k]);
            self.lemma_distinct_cells(k, key);
            assert(next@[k] == next.arena_view()[next.cell_of(k)]);
            assert(self@[k] == self.arena_view()[self.cell_of(k)]);
        }
        assert(next@ =~= self@.insert(key, value));
    }

    /// Storing a new key in the slot its container handed out, and its
    /// handle in that slot's cell of an arena grown as needed, is the insert
    /// of a new key: the map stays well formed and no other key's handle
    /// changes.
    #[verifier::rlimit(40)]
    proof fn lemma_store_new_key(&self, next: Self, key: u64, value: Handle, p: TinyPointer, arena1: Seq<Handle>)
        requires
            self.wf(),
            !self.index_view().contains_key(key),
            self.placement(key) == Ok::<TinyPointer, Error>(p),
            next.containers_view() == self.containers_view().update(self.container_of(key), next.containers_view()[self.container_of(key)]),
            self.target(key).placed(next.containers_view()[self.container_of(key)], key, p),
            next.containers_view()[self.container_of(key)].wf(),
            next.index_view() == self.index_view().insert(key, p),
            arena1.len() == (if self.cell_of_slot(key, p) < self.arena_view().len() {
                self.arena_view().len() as int
            } else {
                self.cell_of_slot(key, p) + 1
            }),
            forall|i: int| 0 <= i < self.arena_view().len() ==> #[trigger] arena1[i] == self.arena_view()[i],
            forall|i: int| self.arena_view().len() <= i < arena1.len() ==> (#[trigger] arena1[i]).spec_get() == 1,
            next.arena_view() == arena1.update(self.cell_of_slot(key, p), value),
        ensures
            next.wf(),
            self.insert_outcome(next, key, value, Ok(())),
    {
        let cs0 = self.containers_view();
        let cs1 = next.containers_view();
        let c = self.container_of(key);
        let cell = self.cell_of_slot(key, p);
        self.lemma_container_of(key);
        assert(cs0[c].wf());
        cs0[c].lemma_allocation_ok(key, 0);
        cs0[c].lemma_slot_changed_self(cs1[c], key, p, Some(key), 1);
        cs0[c].lemma_allocation_resolves(cs1[c], key);
        self.lemma_cell_bound(key, p);
        assert(next.container_of(key) == c);
        assert(next.cell_of(key) == cell);
        let new_c = cs1[c];
        let cap = cs0[0].capacity;
        let cells0 = cs0[0].cell_count;
        lemma_total_items_update(cs0, c, new_c);
        assert(next.containers_view() == cs1);
        assert(next.index_view() == self.index_view().insert(key, p));
        assert(next.container_of(key) == c);
        assert(next.cell_of(key) == cell);
        assert forall|i: int| 0 <= i < cs1.len() implies {
            &&& (#[trigger] cs1[i]).wf()
            &&& cs1[i].capacity == cs1[0].capacity
            &&& cs1[i].cell_count == cs1[0].cell_count
            &&& cs0[i].same_layout(cs1[i])
        } by {
            assert(cs0[i].wf() && cs0[i].capacity == cap && cs0[i].cell_count == cells0);
            assert(cs0[0].wf() && cs0[0].capacity == cap);
            assert(cs1[0].capacity == cap && cs1[0].cell_count == cells0);
        }
        assert forall|k: u64| k != key && #[trigger] self.index_view().contains_key(k) implies {
            &&& next.key_resolves(k)
            &&& next.cell_of(k) == self.cell_of(k)
            &&& next@[k] == self@[k]
        } by {
            assert(self.key_resolves(k));
            let p2 = self.index_view()[k];
            let c2 = self.container_of(k);
            self.lemma_container_of(k);
            self.target(k).lemma_deref_in_range(k, p2);
            self.lemma_cell_bound(k, p2);
            assert(next.index_view()[k] == p2);
            if c2 == c {
                cs0[c].lemma_slot_changed_other(cs1[c], key, p, Some(key), 1, k, p2);
            }
            assert(next.target(k).locate(k, p2) == self.target(k).locate(k, p2));
            assert(next.target(k).index_of(k, p2) == self.target(k).index_of(k, p2));
            assert(next.target(k).cell_count == self.target(k).cell_count);
            assert(next.cell_of(k) == self.cell_of(k));
            assert(self.cell_of(k) < self.arena_view().len());
            assert(next.target(k).valid_pointer(p2));
            assert(next.key_resolves(k));
            let n = cells0 as int;
            let i2 = self.target(k).index_of(k, p2);
            let ik = cs0[c].index_of(key, p);
            assert(cs0[c2].wf() && cs0[c2].cell_count == cells0);
            assert(cs0[c].cell_count == cells0);
            if c2 == c {
                cs1[c].lemma_distinct_keys_distinct_cells(k, p2, key, p);
            } else {
                assert(c2 * n + i2 != c * n + ik) by (nonlinear_arith)
                    requires
                        c2 != c,
                        0 <= c2,
                        0 <= c,
                        0 <= i2 < n,
                        0 <= ik < n,
                ;
            }
            assert(next.cell_of(k) != cell);
            assert(next.arena_view() == arena1.update(cell, value));
            assert(next@[k] == next.arena_view()[next.cell_of(k)]);
            assert(self@[k] == self.arena_view()[self.cell_of(k)]);
            assert(arena1[next.cell_of(k)] == self.arena_view()[next.cell_of(k)]);
        }
        assert forall|k: u64| #[trigger] next.index_view().contains_key(k) implies next.key_resolves(k) by {
            if k != key {
                assert(self.index_view().contains_key(k));
            }
        }
        assert(next@ =~= self@.insert(key, value));
        assert(next.index_view().len() == self.index_view().len() + 1);
        assert forall|i: int| 0 <= i < self.arena_view().len() && i != cell implies #[trigger] next.arena_view()[i] == self.arena_view()[i] by {
            assert(arena1[i] == self.arena_view()[i]);
        }
        assert(next.key_resolves(key));
        assert forall|i: int| 0 <= i < cs0.len() implies (#[trigger] cs0[i]).same_layout(cs1[i]) by {}
    }

    /// Stores `key` with `value`. A key that is stored already keeps its
    /// slot and has its handle overwritten. A new key gets a slot from its
    /// container; its handle is written to the slot's arena cell (growing
    /// the arena with the smallest handle if needed) and the key is pointed
    /// at the slot.
    pub fn insert(&mut self, key: u64, value: Handle) -> (r: Result<(), Error>)
        requires
            old(self).wf(),
        ensures
            final(self).wf(),
            old(self).insert_outcome(*final(self), key, value, r),
    {
        let ghost cs0 = self.containers_view();
        let container_idx = self.hash_to_container(&key);
        let ghost c = container_idx as int;
        proof {
            assert(cs0[c] == self.containers@[c]@);
            assert(cs0[c].wf());
            old(self).lemma_len_is_key_count();
        }
        match self.key_to_ptr.get(&key) {
            Some(p) => {
                let ptr = *p;
                proof {
                    assert(old(self).key_resolves(key));
                    cs0[c].lemma_deref_in_range(key, ptr);
                    old(self).lemma_cell_bound(key, ptr);
                }
                let local_arena_idx = match self.containers[container_idx].locate_cell(key, &ptr) {
                    Some(idx) => idx,
                    None => return Err(Error::InvalidPointer),
                };
                let cells = self.containers[container_idx].cell_count();
                let arena_idx = container_idx * cells + local_arena_idx;
                self.arena.set(arena_idx, value);
                proof {
                    assert(old(self).cell_of(key) == arena_idx);
                    old(self).lemma_overwrite_cell(*self, key, value);
                    assert forall|i: int| 0 <= i < cs0.len() implies (#[trigger] cs0[i]).same_layout(self.containers_view()[i]) by {}
                }
                return Ok(());
            },
            None => {},
        }
        let ptr = match self.containers[container_idx].try_allocate(key) {
            Ok(p) => p,
            Err(e) => {
                proof {
                    assert(self.containers_view() =~= cs0);
                    assert forall|i: int| 0 <= i < cs0.len() implies (#[trigger] cs0[i]).same_layout(self.containers_view()[i]) by {}
                }
                return Err(e);
            },
        };
        let ghost cs1 = self.containers_view();
        proof {
            assert(cs1 =~= cs0.update(c, self.containers@[c]@));
            assert(cs0[c].alloc_from(key, 0) is Ok);
            cs0[c].lemma_allocation_ok(key, 0);
            cs0[c].lemma_slot_changed_self(cs1[c], key, ptr, Some(key), 1);
            old(self).lemma_cell_bound(key, ptr);
        }
        let local_arena_idx = match self.containers[container_idx].locate_cell(key, &ptr) {
            Some(idx) => idx,
            None => return Err(Error::InvalidPointer),
        };
        let cells = self.containers[container_idx].cell_count();
        let arena_idx = container_idx * cells + local_arena_idx;
        let ghost arena0 = self.arena@;
        let fill = Handle::min();
        if arena_idx >= self.arena.len() {
            self.arena.resize(arena_idx + 1, fill);
        }
        let ghost arena1 = self.arena@;
        proof {
            assert forall|i: int| 0 <= i < arena0.len() implies #[trigger] arena1[i] == arena0[i] by {
                if arena_idx >= arena0.len() {
                    assert(arena1.subrange(0, arena0.len() as int) == arena0);
                    assert(arena1.subrange(0, arena0.len() as int)[i] == arena1[i]);
                }
            }
            assert(arena1.len() > arena_idx);
            assert(arena1.len() == if arena_idx < arena0.len() { arena0.len() as int } else { arena_idx + 1 });
            assert forall|i: int| arena0.len() <= i < arena1.len() implies (#[trigger] arena1[i]).spec_get() == 1 by {
                assert(cloned::<Handle>(fill, arena1[i]));
            }
        }
        self.arena.set(arena_idx, value);
        self.key_to_ptr.insert(key, ptr);
        proof {
            assert(self.containers_view() == cs1);
            assert(old(self).container_of(key) == c);
            assert(arena_idx == old(self).cell_of_slot(key, ptr));
            old(self).lemma_store_new_key(*self, key, value, ptr, arena1);
        }
        Ok(())
    }
}

impl<K> TinyPtrMap<K> {
    /// Removes `key`, freeing its slot, and returns its handle.
    pub fn remove(&mut self, key: &u64) -> (r: Option<Handle>)
        requires
            old(self).wf(),
        ensures
            final(self).wf(),
            old(self).remove_outcome(*final(self), *key, r),
    {
        let ghost cs0 = self.containers_view();
        let ptr = match self.key_to_ptr.remove(key) {
            Some(p) => p,
            None => {
                proof {
                    assert(self.index_view() =~= old(self).index_view());
                    assert forall|i: int| 0 <= i < cs0.len() implies (#[trigger] cs0[i]).same_layout(self.containers_view()[i]) by {}
                }
                return None;
            },
        };
        let container_idx = self.hash_to_container(key);
        let ghost c = container_idx as int;
        proof {
            assert(old(self).index_view().contains_key(*key));
            assert(old(self).key_resolves(*key));
            assert(cs0[c] == self.containers@[c]@);
            assert(cs0[c].wf());
            cs0[c].lemma_deref_in_range(*key, ptr);
            old(self).lemma_cell_bound(*key, ptr);
        }
        let local_arena_idx = match self.containers[container_idx].locate_cell(*key, &ptr) {
            Some(idx) => idx,
            None => return None,
        };
        let cells = self.containers[container_idx].cell_count();
        let arena_idx = container_idx * cells + local_arena_idx;
        self.containers[container_idx].free(*key, &ptr);
        let ghost cs1 = self.containers_view();
        proof {
            let cap = cs0[0].capacity;
            let cells0 = cs0[0].cell_count;
            assert(cs1 =~= cs0.update(c, self.containers@[c]@));
            lemma_total_items_update(cs0, c, cs1[c]);
            assert forall|i: int| 0 <= i < cs1.len() implies {
                &&& (#[trigger] cs1[i]).wf()
                &&& cs1[i].capacity == cs1[0].capacity
                &&& cs1[i].cell_count == cs1[0].cell_count
                &&& cs0[i].same_layout(cs1[i])
            } by {
                assert(cs0[i].wf() && cs0[i].capacity == cap && cs0[i].cell_count == cells0);
                assert(cs0[0].wf() && cs0[0].capacity == cap);
                assert(cs1[0].capacity == cap && cs1[0].cell_count == cells0);
            }
            assert forall|k: u64| #[trigger] self.index_view().contains_key(k) implies {
                &&& self.key_resolves(k)
                &&& self.cell_of(k) == old(self).cell_of(k)
            } by {
                assert(old(self).index_view().contains_key(k));
                assert(old(self).key_resolves(k));
                let p2 = old(self).index_view()[k];
                let c2 = old(self).container_of(k);
                old(self).lemma_container_of(k);
                assert(self.index_view()[k] == p2);
                if c2 == c {
                    cs0[c].lemma_slot_changed_other(cs1[c], *key, ptr, None, -1, k, p2);
                }
                assert(self.target(k).locate(k, p2) == old(self).target(k).locate(k, p2));
                assert(self.target(k).index_of(k, p2) == old(self).target(k).index_of(k, p2));
            }
            assert(self@ =~= old(self)@.remove(*key));
            assert(self.index_view().len() + 1 == old(self).index_view().len());
        }
        if arena_idx < self.arena.len() {
            Some(self.arena[arena_idx])
        } else {
            None
        }
    }

    /// Removes every key: frees every slot, empties the reverse index and
    /// resets every arena cell to the smallest handle, keeping all sizes.
    pub fn clear(&mut self)
        requires
            old(self).wf(),
        ensures
            final(self).wf(),
            old(self).cleared(*final(self)),
            final(self)@ == Map::<u64, Handle>::empty(),
            final(self).spec_len() == 0,
    {
        let ghost cs0 = self.containers_view();
        let mut i: usize = 0;
        while i < self.containers.len()
            invariant
                i <= self.containers@.len(),
                self.containers@.len() == cs0.len(),
                forall|j: int| 0 <= j < i ==> cs0[j].emptied(#[trigger] self.containers@[j]@)
                    && self.containers@[j]@.wf(),
                forall|j: int| i <= j < cs0.len() ==> #[trigger] self.containers@[j]@ == cs0[j],
                forall|j: int| 0 <= j < cs0.len() ==> (#[trigger] cs0[j]).wf(),
                self.arena@ == old(self).arena@,
            decreases cs0.len() - i,
        {
            let ghost prev = self.containers@;
            self.containers[i].clear();
            proof {
                assert forall|j: int| 0 <= j < prev.len() && j != i implies #[trigger] self.containers@[j] == prev[j] by {}
            }
            i = i + 1;
        }
        self.key_to_ptr.clear();
        let ghost conts = self.containers@;
        let ghost index = self.key_to_ptr@;
        let mut j: usize = 0;
        while j < self.arena.len()
            invariant
                self.containers@ == conts,
                self.key_to_ptr@ == index,
                j <= self.arena@.len(),
                self.arena@.len() == old(self).arena@.len(),
                forall|i: int| 0 <= i < j ==> (#[trigger] self.arena@[i]).spec_get() == 1,
            decreases self.arena@.len() - j,
        {
            self.arena.set(j, Handle::min());
            j = j + 1;
        }
        proof {
            let cs1 = self.containers_view();
            let cap = cs0[0].capacity;
            let cells0 = cs0[0].cell_count;
            assert forall|i: int| 0 <= i < cs1.len() implies {
                &&& (#[trigger] cs1[i]).wf()
                &&& cs1[i].capacity == cap
                &&& cs1[i].cell_count == cells0
                &&& cs1[i].item_count == 0
                &&& cs0[i].emptied(cs1[i])
                &&& cs0[i].same_layout(cs1[i])
            } by {
                assert(cs1[i] == self.containers@[i]@);
                assert(cs0[i].wf() && cs0[i].capacity == cap && cs0[i].cell_count == cells0);
            }
            assert(cs1[0].capacity == cap);
            lemma_total_bounds(cs0, cap);
            lemma_total_bounds(cs1, cap);
            lemma_total_items_zero(cs1);
            assert(self@ =~= Map::<u64, Handle>::empty());
            assert(self.index_view() =~= Map::<u64, TinyPointer>::empty());
        }
    }
}

impl TinyPtrMap<u64> {
    /// Creates a map sized for `n` elements: `containers_for(n)` containers,
    /// each of capacity `slots_for(n)` with buckets of 16 slots. The map's
    /// arena cells, `cells_for(n)` per container, must be numbered within a
    /// `usize`.
    pub fn new(n: usize) -> (map: Self)
        requires
            containers_for(n as nat) * cells_for(n as nat) <= usize::MAX,
        ensures
            map.wf(),
            map.fresh(n as nat),
            map@ == Map::<u64, Handle>::empty(),
            map.spec_len() == 0,
            map.spec_capacity() == containers_for(n as nat) * slots_for(n as nat),
            map.spec_capacity() >= n,
            map.spec_capacity() > 0,
    {
        let lg = ceil_log2_exec(n);
        proof {
            lemma_ceil_log2_le(n as nat);
            lemma_ceil_log2_usize(n);
        }
        let num_containers = if n <= 1 { 1 } else { n / lg };
        let s = if n <= 1 { 16 } else { 2 * lg };
        let config = ContainerConfig { s, b: 16, base_hash_seed: 0x5728_9a3c };
        let ghost c_n = num_containers as int;
        let ghost s_n = s as int;
        proof {
            lemma_ceil_log2_usize(n);
            assert(s <= 128);
            vstd::arithmetic::power2::lemma2_to64();
            lemma_ceil_log2_bound(s as nat, 7);
            if n >= 2 {
                let l = lg as int;
                let nn = n as int;
                assert(nn / l >= 1) by (nonlinear_arith)
                    requires
                        1 <= l <= nn,
                ;
            }
            assert(1 <= c_n);
            if n >= 2 {
                let l = lg as int;
                let nn = n as int;
                assert(c_n * s_n >= nn) by (nonlinear_arith)
                    requires
                        c_n == nn / l,
                        s_n == 2 * l,
                        l >= 1,
                        2 * l <= nn + 2,
                ;
            }
            let ls = ceil_log2(s as nat) as int;
            let cells = built_cells(s as nat, 16, ls as nat) as int;
            assert(slots_for(n as nat) == s as nat);
            assert(containers_for(n as nat) == c_n);
            assert(cells_for(n as nat) == cells);
            assert(c_n * cells <= usize::MAX);
            assert(cells <= c_n * cells) by (nonlinear_arith)
                requires
                    1 <= c_n,
                    0 <= cells,
            ;
            lemma_ceil_log2_le(s as nat);
            assert(ls >= 1);
            lemma_built_cells_mono(s as nat, 16, 1, ls as nat);
            assert(built_cells(s as nat, 16, 1) >= s);
            assert(c_n * s_n <= c_n * cells) by (nonlinear_arith)
                requires
                    0 <= c_n,
                    s_n <= cells,
            ;
            assert(config_ok(config));
            assert(pointers_fit(config));
        }
        let mut containers: Vec<Container> = Vec::new();
        while containers.len() < num_containers
            invariant
                config_ok(config),
                pointers_fit(config),
                config.s == s,
                config.b == 16,
                config.base_hash_seed == 0x5728_9a3c,
                containers@.len() <= num_containers,
                forall|i: int| 0 <= i < containers@.len() ==> (#[trigger] containers@[i])@.built_from(config)
                    && containers@[i]@.wf(),
            decreases num_containers - containers@.len(),
        {
            containers.push(Container::new(&config));
        }
        let map = TinyPtrMap { containers, arena: Vec::new(), key_to_ptr: HashMap::new(), _phantom: PhantomData };
        proof {
            let cs = map.containers_view();
            let ls = ceil_log2(s as nat);
            assert((slots_for(n as nat) as usize) == s);
            assert(config_for(n as nat) == config);
            assert forall|i: int| 0 <= i < cs.len() implies (#[trigger] cs[i]).wf() && cs[i].capacity == s
                && cs[i].cell_count == built_cells(s as nat, 16, ls) && cs[i].item_count == 0
                && cs[i].built_from(config_for(n as nat)) by {
                assert(cs[i] == map.containers@[i]@);
            }
            lemma_total_bounds(cs, s as nat);
            lemma_total_items_zero(cs);
            assert(map@ =~= Map::<u64, Handle>::empty());
            assert(map.index_view() =~= Map::<u64, TinyPointer>::empty());
        }
        map
    }

    /// Alias of `new`.
    pub fn with_capacity(n: usize) -> (map: Self)
        requires
            containers_for(n as nat) * cells_for(n as nat) <= usize::MAX,
        ensures
            map.wf(),
            map.fresh(n as nat),
            map@ == Map::<u64, Handle>::empty(),
            map.spec_len() == 0,
            map.spec_capacity() == containers_for(n as nat) * slots_for(n as nat),
            map.spec_capacity() >= n,
            map.spec_capacity() > 0,
    {
        Self::new(n)
    }
}


/// The character of the decimal digit `d`.
pub open spec fn digit(d: nat) -> char {
    (d + 48) as char
}

/// Decimal digits of `n`, most significant first, without leading zeros.
pub open spec fn decimal(n: nat) -> Seq<char>
    decreases n,
{
    if n < 10 {
        seq![digit(n)]
    } else {
        decimal(n / 10).push(digit(n % 10))
    }
}

/// The number that a row of decimal digits spells.
pub open spec fn decimal_value(s: Seq<char>) -> nat
    decreases s.len(),
{
    if s.len() == 0 {
        0
    } else {
        decimal_value(s.drop_last()) * 10 + ((s.last() as u32) - 48) as nat
    }
}

/// `decimal(n)` spells `n` in decimal digits, with no leading zero.
pub proof fn lemma_decimal_spells(n: nat)
    ensures
        decimal(n).len() >= 1,
        forall|i: int| 0 <= i < decimal(n).len() ==> 48 <= (#[trigger] decimal(n)[i] as u32) <= 57,
        decimal_value(decimal(n)) == n,
        decimal(n).len() > 1 ==> decimal(n)[0] != '0',
    decreases n,
{
    assert(digit(n % 10) as u32 == n % 10 + 48);
    if n >= 10 {
        lemma_decimal_spells(n / 10);
        let d = decimal(n / 10);
        let s = decimal(n);
        assert(s.drop_last() =~= d);
        assert(s.last() == digit(n % 10));
        assert(s[0] == d[0]);
        assert(n == (n / 10) * 10 + n % 10);
        if n / 10 < 10 {
            assert(d[0] == digit(n / 10));
            assert(digit(n / 10) as u32 == n / 10 + 48);
            assert('0' as u32 == 48);
        } else {
            lemma_decimal_spells(n / 100);
            assert(d.len() > 1);
        }
        assert(decimal_value(s) == decimal_value(d) * 10 + ((s.last() as u32) - 48) as nat);
        assert(decimal_value(d) == n / 10);
        assert((s.last() as u32) - 48 == n % 10);
    } else {
        let s = decimal(n);
        assert(s.drop_last() =~= Seq::<char>::empty());
        assert(decimal_value(Seq::<char>::empty()) == 0);
        assert(decimal_value(s) == decimal_value(s.drop_last()) * 10 + ((s.last() as u32) - 48) as nat);
        assert(s.last() == digit(n));
    }
}

/// The summary line of a map: its container count, total capacity, item
/// count, arena size and reverse-index size, each in decimal after its name.
pub open spec fn summary_text(containers: usize, total_capacity: usize, item_count: usize, arena_size: usize, reverse_index_size: usize) -> Seq<char> {
    "TinyPtrMap { containers: "@ + decimal(containers as nat) + ", total_capacity: "@ + decimal(total_capacity as nat)
        + ", item_count: "@ + decimal(item_count as nat) + ", arena_size: "@ + decimal(arena_size as nat)
        + ", reverse_index_size: "@ + decimal(reverse_index_size as nat) + " }"@
}

/// Formats the summary line with `format!`.
///
/// Trusted: `format!` writes the fixed words as given and each `usize` in
/// decimal, as its `Display` does.
#[verifier::external_body]
fn format_summary(containers: usize, total_capacity: usize, item_count: usize, arena_size: usize, reverse_index_size: usize) -> (s: String)
    ensures
        s@ == summary_text(containers, total_capacity, item_count, arena_size, reverse_index_size),
{
    format!(
        "TinyPtrMap {{ containers: {}, total_capacity: {}, item_count: {}, arena_size: {}, reverse_index_size: {} }}",
        containers,
        total_capacity,
        item_count,
        arena_size,
        reverse_index_size,
    )
}

impl<K> TinyPtrMap<K> {
    /// One-line description: container count, total capacity, item count,
    /// arena size and reverse-index size.
    pub fn debug_string(&self) -> (s: String)
        requires
            self.wf(),
        ensures
            s@ == summary_text(
                self.containers_view().len() as usize,
                self.spec_capacity() as usize,
                self.spec_len() as usize,
                self.arena_view().len() as usize,
                self.index_view().len() as usize,
            ),
    {
        let containers = self.containers.len();
        let total_capacity = self.capacity();
        let item_count = self.len();
        let arena_size = self.arena.len();
        let reverse_index_size = self.key_to_ptr.len();
        format_summary(containers, total_capacity, item_count, arena_size, reverse_index_size)
    }

    /// A key is stored exactly when looking it up gives a handle.
    pub proof fn lemma_contains_key_matches_get(&self, key: u64)
        ensures
            self@.contains_key(key) == (self@.get(key) is Some),
    {
    }

    /// A key whose container holds no item, and whose first level has
    /// slots, is always taken.
    pub proof fn lemma_empty_container_takes_key(&self, key: u64)
        requires
            self.wf(),
            self.target(key).item_count == 0,
            self.target(key).capacity >= 1,
            self.target(key).levels.len() >= 1,
            self.target(key).levels[0].buckets[0].len() >= 1,
        ensures
            self.placement(key) is Ok,
    {
        self.lemma_container_of(key);
        assert(self.containers_view()[self.container_of(key)].wf());
        self.target(key).lemma_empty_takes_any_key(key);
    }

    /// Removing a key that an insert just stored gives back the map as it
    /// was: the same containers, pointers and handles, and the stored handle
    /// comes back.
    pub proof fn lemma_remove_undoes_insert(&self, mid: Self, next: Self, key: u64, value: Handle, r: Option<Handle>)
        requires
            self.wf(),
            !self@.contains_key(key),
            self.insert_outcome(mid, key, value, Ok(())),
            mid.remove_outcome(next, key, r),
        ensures
            r == Some(value),
            next.containers_view() == self.containers_view(),
            next.index_view() == self.index_view(),
            next@ == self@,
            next.spec_len() == self.spec_len(),
    {
        let p = self.placement(key)->Ok_0;
        let c = self.container_of(key);
        let cs = self.containers_view();
        self.lemma_container_of(key);
        assert(cs[c].wf());
        assert(mid.container_of(key) == c);
        assert(next.container_of(key) == c);
        assert(mid.index_view()[key] == p);
        cs[c].lemma_free_undoes_allocation(mid.target(key), next.target(key), key);
        assert(next.containers_view() =~= cs);
        assert(!self.index_view().contains_key(key));
        assert(next.index_view() =~= self.index_view());
        assert(next@ =~= self@);
    }

    /// Keeping the layout carries over a chain of operations.
    pub proof fn lemma_same_layout_as_trans(&self, mid: Self, other: Self)
        requires
            self.same_layout_as(mid),
            mid.same_layout_as(other),
        ensures
            self.same_layout_as(other),
    {
        assert forall|i: int| 0 <= i < self.containers_view().len() implies (#[trigger] self.containers_view()[i]).same_layout(
            other.containers_view()[i],
        ) by {
            self.containers_view()[i].lemma_same_layout_trans(mid.containers_view()[i], other.containers_view()[i]);
        }
    }

    /// Maps that agree answer every query alike: lookups, `len`,
    /// `is_empty`, `capacity`, the number of containers, the number of keys
    /// and where a new key would go.
    pub proof fn lemma_agreeing_maps_answer_alike(&self, other: Self)
        requires
            self.agrees(other),
        ensures
            self@ == other@,
            self.spec_len() == other.spec_len(),
            self.spec_capacity() == other.spec_capacity(),
            self.containers_view().len() == other.containers_view().len(),
            self.index_view().len() == other.index_view().len(),
            forall|k: u64| #[trigger] self.placement(k) == other.placement(k),
    {
    }

    /// Inserting the same key and handle into maps that agree gives the
    /// same result and leaves maps that agree; maps that also had the same
    /// arena still do.
    pub proof fn lemma_agreeing_maps_insert(
        &self,
        other: Self,
        next: Self,
        other_next: Self,
        key: u64,
        value: Handle,
        r: Result<(), Error>,
        other_r: Result<(), Error>,
    )
        requires
            self.wf(),
            other.wf(),
            next.wf(),
            other_next.wf(),
            self.agrees(other),
            self.insert_outcome(next, key, value, r),
            other.insert_outcome(other_next, key, value, other_r),
        ensures
            r == other_r,
            next.agrees(other_next),
            self.arena_view() == other.arena_view() ==> next.arena_view() == other_next.arena_view(),
    {
        let c = self.container_of(key);
        let cs = self.containers_view();
        self.lemma_container_of(key);
        assert(self.placement(key) == other.placement(key));
        if r is Ok {
            assert(other_r is Ok);
            assert(r->Ok_0 == other_r->Ok_0);
            if self@.contains_key(key) {
                assert(self.cell_of(key) == other.cell_of(key));
            } else {
                let p = self.placement(key)->Ok_0;
                assert(next.index_view().contains_key(key));
                assert(next.key_resolves(key));
                assert(next.container_of(key) == c);
                assert(other_next.container_of(key) == c);
                assert(cs[c].valid_pointer(p));
                cs[c].lemma_slot_changed_unique(next.target(key), other_next.target(key), key, p, Some(key), 1);
                assert forall|i: int| 0 <= i < cs.len() implies #[trigger] next.containers_view()[i] == other_next.containers_view()[i] by {
                    if i != c {
                        assert(next.containers_view()[i] == cs[i]);
                        assert(other_next.containers_view()[i] == other.containers_view()[i]);
                    }
                }
                assert(next.containers_view() =~= other_next.containers_view());
                assert(next.index_view() =~= other_next.index_view());
                if self.arena_view() == other.arena_view() {
                    let a = next.arena_view();
                    let b = other_next.arena_view();
                    let cell = next.cell_of(key);
                    assert(cell == other_next.cell_of(key));
                    assert(a.len() == b.len());
                    assert forall|i: int| 0 <= i < a.len() implies #[trigger] a[i] == b[i] by {
                        if i == cell {
                            assert(next@[key] == value);
                            assert(other_next@[key] == value);
                        } else if i < self.arena_view().len() {
                            assert(a[i] == self.arena_view()[i]);
                            assert(b[i] == other.arena_view()[i]);
                        } else {
                            a[i].lemma_get_determines(b[i]);
                        }
                    }
                    assert(a =~= b);
                }
            }
        } else {
            assert(other_r is Err);
            assert(r->Err_0 == other_r->Err_0);
            assert(next@ =~= self@);
            assert(other_next@ =~= other@);
        }
    }

    /// Removing the same key from maps that agree gives the same result and
    /// leaves maps that agree; maps that also had the same arena still do.
    pub proof fn lemma_agreeing_maps_remove(
        &self,
        other: Self,
        next: Self,
        other_next: Self,
        key: u64,
        r: Option<Handle>,
        other_r: Option<Handle>,
    )
        requires
            self.wf(),
            other.wf(),
            self.agrees(other),
            self.remove_outcome(next, key, r),
            other.remove_outcome(other_next, key, other_r),
        ensures
            r == other_r,
            next.agrees(other_next),
            self.arena_view() == other.arena_view() ==> next.arena_view() == other_next.arena_view(),
    {
        if r is Some {
            let c = self.container_of(key);
            let cs = self.containers_view();
            let p = self.index_view()[key];
            self.lemma_container_of(key);
            assert(self.index_view().contains_key(key));
            assert(self.key_resolves(key));
            assert(next.container_of(key) == c);
            assert(other_next.container_of(key) == c);
            cs[c].lemma_slot_changed_unique(next.target(key), other_next.target(key), key, p, None, -1);
            assert forall|i: int| 0 <= i < cs.len() implies #[trigger] next.containers_view()[i] == other_next.containers_view()[i] by {
                if i != c {
                    assert(next.containers_view()[i] == cs[i]);
                    assert(other_next.containers_view()[i] == other.containers_view()[i]);
                }
            }
            assert(next.containers_view() =~= other_next.containers_view());
            assert(next.index_view() =~= other_next.index_view());
        } else {
            assert(next@ =~= self@);
            assert(other_next@ =~= other@);
        }
    }

    /// Clearing maps that agree leaves maps that agree; maps that also had
    /// the same arena still do.
    pub proof fn lemma_agreeing_maps_clear(&self, other: Self, next: Self, other_next: Self)
        requires
            self.wf(),
            other.wf(),
            self.agrees(other),
            self.cleared(next),
            other.cleared(other_next),
        ensures
            next.agrees(other_next),
            self.arena_view() == other.arena_view() ==> next.arena_view() == other_next.arena_view(),
    {
        let cs = self.containers_view();
        assert forall|i: int| 0 <= i < cs.len() implies #[trigger] next.containers_view()[i] == other_next.containers_view()[i] by {
            let n1 = next.containers_view()[i];
            let n2 = other_next.containers_view()[i];
            assert(cs[i].emptied(n1));
            assert(other.containers_view()[i].emptied(n2));
            cs[i].lemma_emptied_blank(n1);
            cs[i].lemma_emptied_blank(n2);
            cs[i].lemma_same_layout_sym(n1);
            n1.lemma_same_layout_trans(cs[i], n2);
            n1.lemma_blank_same_layout_equal(n2);
        }
        assert(next.containers_view() =~= other_next.containers_view());
        assert(next@ =~= other_next@);
        if self.arena_view() == other.arena_view() {
            let a = next.arena_view();
            let b = other_next.arena_view();
            assert forall|i: int| 0 <= i < a.len() implies #[trigger] a[i] == b[i] by {
                a[i].lemma_get_determines(b[i]);
            }
            assert(a =~= b);
        }
    }

    /// Two maps as `new(n)` builds them agree and have the same arena: every
    /// later sequence of calls answers alike on both.
    pub proof fn lemma_fresh_maps_agree(&self, other: Self, n: nat)
        requires
            self.fresh(n),
            other.fresh(n),
        ensures
            self.agrees(other),
            self.arena_view() == other.arena_view(),
    {
        let cs = self.containers_view();
        assert forall|i: int| 0 <= i < cs.len() implies #[trigger] cs[i] == other.containers_view()[i] by {
            cs[i].lemma_built_unique(other.containers_view()[i], config_for(n));
        }
        assert(cs =~= other.containers_view());
        assert(self@ =~= other@);
        assert(self.arena_view() =~= other.arena_view());
    }

    /// Clearing a map whose layout is that of a fresh `new(n)` map (every
    /// operation keeps the layout, so every map that `new(n)` and later
    /// calls made has it) leaves a map that agrees with the fresh one.
    pub proof fn lemma_clear_restores_fresh(&self, next: Self, fresh: Self, n: nat)
        requires
            self.wf(),
            fresh.fresh(n),
            self.same_layout_as(fresh),
            self.cleared(next),
        ensures
            next.agrees(fresh),
    {
        let cs = self.containers_view();
        assert forall|i: int| 0 <= i < cs.len() implies #[trigger] next.containers_view()[i] == fresh.containers_view()[i] by {
            let n1 = next.containers_view()[i];
            let f = fresh.containers_view()[i];
            assert(cs[i].emptied(n1));
            assert(f.built_from(config_for(n)));
            cs[i].lemma_emptied_blank(n1);
            f.lemma_built_blank(config_for(n));
            cs[i].lemma_same_layout_sym(n1);
            n1.lemma_same_layout_trans(cs[i], f);
            n1.lemma_blank_same_layout_equal(f);
        }
        assert(next.containers_view() =~= fresh.containers_view());
        assert(next.index_view() =~= fresh.index_view());
        assert(next@ =~= fresh@);
    }
}

impl TinyPtrMap<u64> {
    /// Every key can be inserted into a map as `new(n)` builds it.
    pub proof fn lemma_fresh_map_takes_any_key(&self, n: usize, key: u64)
        requires
            self.wf(),
            self.fresh(n as nat),
        ensures
            self.placement(key) is Ok,
    {
        self.lemma_container_of(key);
        let c = self.target(key);
        assert(c.built_from(config_for(n as nat)));
        lemma_ceil_log2_le(n as nat);
        lemma_ceil_log2_usize(n);
        assert(slots_for(n as nat) >= 2);
        assert(slots_for(n as nat) <= 128);
        assert((slots_for(n as nat) as usize) as nat == slots_for(n as nat));
        assert(ceil_log2(slots_for(n as nat)) >= 1) by {
            lemma_ceil_log2_le(slots_for(n as nat));
        }
        assert(c.levels.len() >= 1);
        assert(c.levels[0].buckets.len() >= 1);
        assert(c.levels[0].buckets[0].len() == 16);
        self.lemma_empty_container_takes_key(key);
    }
}

} // verus!
