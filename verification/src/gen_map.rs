//! A generational map: values are addressed by handles that stay unique,
//! and a handle to a removed value never becomes valid again.
//!
//! Values live densely in insertion order (removal swaps the last value into
//! the hole). A sparse array of cells maps each handle's slot to the dense
//! position of its value, or, for a free slot, to the next free slot.

use vstd::prelude::*;
use std::marker::PhantomData;
use vstd::std_specs::iter::IteratorSpec;
use crate::index_map::{IndexMap, IndexSlice, MapIndex};

verus! {

/// How many times a slot has been freed.
#[derive(PartialEq, Eq, Structural, Clone, Copy, Debug)]
pub struct Generation(u32);

impl Generation {
    pub closed spec fn spec_value(&self) -> u32 {
        self.0
    }

    /// The number of the generation.
    pub fn value(&self) -> (r: u32)
        ensures
            r == self.spec_value(),
    {
        self.0
    }

    /// The generation of a slot that was never freed.
    pub(crate) fn new() -> (r: Self)
        ensures
            r.spec_value() == 0,
    {
        Generation(0)
    }

    pub(crate) fn next(self) -> (r: Self)
        requires
            self.spec_value() < u32::MAX,
        ensures
            r.spec_value() == self.spec_value() + 1,
    {
        Generation(self.0 + 1)
    }

    pub(crate) fn increment(&mut self)
        requires
            old(self).spec_value() < u32::MAX,
        ensures
            final(self).spec_value() == old(self).spec_value() + 1,
    {
        *self = self.next();
    }
}

/// Index of a slot in the sparse array.
#[derive(PartialEq, Eq, Structural, Clone, Copy, Debug, Hash)]
pub struct SparseIdx(u32);

impl SparseIdx {
    pub closed spec fn spec_value(&self) -> u32 {
        self.0
    }
}

impl MapIndex for SparseIdx {
    open spec fn spec_index(&self) -> nat {
        self.spec_value() as nat
    }

    open spec fn spec_max_index() -> nat {
        u32::MAX as nat
    }

    fn from_usize(idx: usize) -> (r: Self) {
        SparseIdx(idx as u32)
    }

    fn as_usize(&self) -> (r: usize) {
        self.0 as usize
    }
}

/// Position of a value in the dense array.
#[derive(PartialEq, Eq, Structural, Clone, Copy, Debug, Hash)]
pub struct DenseIdx(u32);

impl DenseIdx {
    pub closed spec fn spec_value(&self) -> u32 {
        self.0
    }
}

impl MapIndex for DenseIdx {
    open spec fn spec_index(&self) -> nat {
        self.spec_value() as nat
    }

    open spec fn spec_max_index() -> nat {
        u32::MAX as nat
    }

    fn from_usize(idx: usize) -> (r: Self) {
        DenseIdx(idx as u32)
    }

    fn as_usize(&self) -> (r: usize) {
        self.0 as usize
    }
}

/// A slot's content: a dense position when the slot holds a value,
/// the next free slot otherwise.
pub struct DenseOrSparse(u32);

impl DenseOrSparse {
    pub closed spec fn spec_value(&self) -> u32 {
        self.0
    }

    pub fn new_sparse(val: SparseIdx) -> (r: Self)
        ensures
            r.spec_value() == val.spec_value(),
    {
        DenseOrSparse(val.0)
    }

    pub fn new_dense(val: DenseIdx) -> (r: Self)
        ensures
            r.spec_value() == val.spec_value(),
    {
        DenseOrSparse(val.0)
    }

    pub fn as_sparse(&self) -> (r: SparseIdx)
        ensures
            r.spec_value() == self.spec_value(),
    {
        SparseIdx(self.0)
    }

    pub fn as_dense(&self) -> (r: DenseIdx)
        ensures
            r.spec_value() == self.spec_value(),
    {
        DenseIdx(self.0)
    }
}

/// The key of the handle to slot `sparse` at generation `generation`:
/// the slot in the low 32 bits, the generation in the high 32 bits.
pub open spec fn handle_key(sparse: u32, generation: u32) -> u64 {
    (sparse as u64) | ((generation as u64) << 32u64)
}

pub open spec fn key_sparse(key: u64) -> u32 {
    key as u32
}

pub open spec fn key_generation(key: u64) -> u32 {
    (key >> 32u64) as u32
}

/// A key holds its slot and generation, and is made of them.
pub proof fn lemma_handle_key(sparse: u32, generation: u32, key: u64)
    ensures
        key_sparse(handle_key(sparse, generation)) == sparse,
        key_generation(handle_key(sparse, generation)) == generation,
        handle_key(key_sparse(key), key_generation(key)) == key,
{
    assert(((sparse as u64) | ((generation as u64) << 32u64)) as u32 == sparse) by (bit_vector);
    assert((((sparse as u64) | ((generation as u64) << 32u64)) >> 32u64) as u32 == generation)
        by (bit_vector);
    assert(((key as u32) as u64) | ((((key >> 32u64) as u32) as u64) << 32u64) == key)
        by (bit_vector);
}

/// Addresses one value of a [`GenMap`].
#[derive(Debug)]
pub struct Handle<T> {
    data: PhantomData<T>,
    value: u64,
}

impl<T> View for Handle<T> {
    type V = u64;

    closed spec fn view(&self) -> u64 {
        self.value
    }
}

impl<T> Handle<T> {
    pub fn new(sparse: SparseIdx, generation: Generation) -> (r: Self)
        ensures
            r@ == handle_key(sparse.spec_value(), generation.spec_value()),
    {
        Handle { data: PhantomData, value: (sparse.0 as u64) | ((generation.0 as u64) << 32u64) }
    }

    pub fn sparse_index(&self) -> (r: SparseIdx)
        ensures
            r.spec_value() == key_sparse(self@),
    {
        SparseIdx(self.value as u32)
    }

    pub fn generation(&self) -> (r: Generation)
        ensures
            r.spec_value() == key_generation(self@),
    {
        Generation((self.value >> 32u64) as u32)
    }
}

impl<T> Clone for Handle<T> {
    fn clone(&self) -> (r: Self)
        ensures
            r@ == self@,
    {
        Handle { data: PhantomData, value: self.value }
    }
}

impl<T> Copy for Handle<T> {}

impl<T> PartialEq for Handle<T> {
    fn eq(&self, other: &Self) -> (r: bool) {
        self.value == other.value
    }
}

impl<T> vstd::std_specs::cmp::PartialEqSpecImpl for Handle<T> {
    open spec fn obeys_eq_spec() -> bool {
        true
    }

    open spec fn eq_spec(&self, other: &Self) -> bool {
        self@ == other@
    }
}

impl<T> Eq for Handle<T> {}

struct SparseCell {
    dense_idx_or_next_free: DenseOrSparse,
    generation: Generation,
}

struct AliveCellRef<'a>(&'a SparseCell);

impl AliveCellRef<'_> {
    fn dense_idx(&self) -> (r: DenseIdx)
        ensures
            r.0 == self.0.dense_idx_or_next_free.0,
    {
        self.0.dense_idx_or_next_free.as_dense()
    }
}

/// A map from handles to values.
pub struct GenMap<T> {
    free_head: SparseIdx,
    sparse: IndexMap<SparseCell, SparseIdx>,
    dense_to_sparse: IndexMap<SparseIdx, DenseIdx>,
    dense_values: IndexMap<T, DenseIdx>,
    /// The free slots, from the head of the free list to its end.
    free_list: Ghost<Seq<u32>>,
}

impl<T> GenMap<T> {
    /// Number of slots in the sparse array.
    pub closed spec fn slot_count(&self) -> nat {
        self.sparse@.len()
    }

    /// The values in dense order.
    pub closed spec fn values_seq(&self) -> Seq<T> {
        self.dense_values@
    }

    /// Current generation of slot `s`.
    pub closed spec fn slot_generation(&self, s: u32) -> u32 {
        self.sparse@[s as int].generation.0
    }

    /// Raw content of slot `s`: a dense position, or the next free slot.
    pub closed spec fn slot_content(&self, s: u32) -> u32 {
        self.sparse@[s as int].dense_idx_or_next_free.0
    }

    /// The slot of the value at dense position `d`.
    pub closed spec fn dense_slot(&self, d: int) -> u32 {
        self.dense_to_sparse@[d].0
    }

    /// Slot `s` holds a value.
    pub closed spec fn slot_is_live(&self, s: u32) -> bool {
        &&& (s as nat) < self.slot_count()
        &&& (self.slot_content(s) as nat) < self.dense_to_sparse@.len()
        &&& self.dense_slot(self.slot_content(s) as int) == s
    }

    /// The handle's slot exists and has the handle's generation: what
    /// [`GenMap::has`] tests.
    pub closed spec fn is_valid_key(&self, key: u64) -> bool {
        &&& (key_sparse(key) as nat) < self.slot_count()
        &&& self.slot_generation(key_sparse(key)) == key_generation(key)
    }

    /// `key` was handed out by `insert` (it may have been removed since).
    pub closed spec fn was_issued(&self, key: u64) -> bool {
        let s = key_sparse(key);
        &&& (s as nat) < self.slot_count()
        &&& (key_generation(key) < self.slot_generation(s) || (key_generation(key)
            == self.slot_generation(s) && self.slot_is_live(s)))
    }

    /// `key` was handed out by `insert` and its value was removed since.
    pub open spec fn is_stale(&self, key: u64) -> bool {
        self.was_issued(key) && !self@.contains_key(key)
    }

    /// The head of the free list; equal to the slot count when no slot is free.
    pub closed spec fn free_slot(&self) -> nat {
        self.free_head.0 as nat
    }

    /// Both maps have the same slots, generations and dense-to-slot links.
    pub closed spec fn same_slots(&self, other: &Self) -> bool {
        &&& self.free_head == other.free_head
        &&& self.sparse@ == other.sparse@
        &&& self.dense_to_sparse@ == other.dense_to_sparse@
        &&& self.free_list@ == other.free_list@
        &&& self.dense_values@.len() == other.dense_values@.len()
    }

    /// A map with the same slots as a well-formed map, and as many values,
    /// is well-formed.
    pub broadcast proof fn lemma_same_slots_wf(a: &Self, b: &Self)
        requires
            a.wf(),
        ensures
            #![trigger a.wf(), b.wf()]
            b.same_slots(a) ==> b.wf(),
    {
        reveal(GenMap::wf);
        if !b.same_slots(a) {
            return;
        }
        assert forall|d: int| 0 <= d < b.dense_values@.len() implies (#[trigger] b.dense_slot(d) as nat) < b.sparse@.len()
            && b.slot_content(b.dense_slot(d)) == d by {
            assert(a.dense_slot(d) == b.dense_slot(d));
        }
    }

    /// Writing through a live handle changes only that handle's value.
    pub broadcast proof fn lemma_same_slots_view(a: &Self, b: &Self, k: u64, v: T)
        requires
            a.wf(),
            b.same_slots(a),
            a@.contains_key(k),
            b.values_seq() == a.values_seq().update(a.slot_content(key_sparse(k)) as int, v),
        ensures
            #![trigger b.view(), a.view().insert(k, v)]
            b@ == a@.insert(k, v),
    {
        reveal(GenMap::wf);
        assert forall|k2: u64| #[trigger] b@.contains_key(k2) == a@.insert(k, v).contains_key(k2) by {
            if k2 == k {
            }
        }
        assert forall|k2: u64| #[trigger] b@.contains_key(k2) implies b@[k2] == a@.insert(k, v)[k2] by {
            if k2 != k {
                let c = a.slot_content(key_sparse(k)) as int;
                let c2 = a.slot_content(key_sparse(k2)) as int;
                if c == c2 {
                    lemma_handle_key(0, 0, k);
                    lemma_handle_key(0, 0, k2);
                    assert(key_sparse(k) == a.dense_slot(c));
                    assert(key_sparse(k2) == a.dense_slot(c2));
                }
            }
        }
        assert(b@ =~= a@.insert(k, v));
    }

    #[verifier::opaque]
    pub closed spec fn wf(&self) -> bool {
        let n = self.sparse@.len();
        let m = self.dense_to_sparse@.len();
        let fl = self.free_list@;
        &&& n <= u32::MAX
        &&& self.dense_values@.len() == m
        &&& fl.len() + m == n
        &&& forall|d: int|
            0 <= d < m ==> (#[trigger] self.dense_slot(d) as nat) < n && self.slot_content(
                self.dense_slot(d),
            ) == d
        &&& forall|i: int| 0 <= i < fl.len() ==> (#[trigger] fl[i] as nat) < n
        &&& forall|i: int, j: int| 0 <= i < j < fl.len() ==> fl[i] != fl[j]
        &&& forall|i: int| 0 <= i < fl.len() ==> !self.slot_is_live(#[trigger] fl[i])
        &&& self.free_head.0 == (if fl.len() > 0 {
            fl[0]
        } else {
            n as u32
        })
        &&& forall|i: int|
            0 <= i < fl.len() ==> self.slot_content(#[trigger] fl[i]) == (if i + 1 < fl.len() {
                fl[i + 1]
            } else {
                n as u32
            })
    }
}

impl<T> View for GenMap<T> {
    type V = Map<u64, T>;

    /// Each live slot's handle, mapped to its value.
    closed spec fn view(&self) -> Map<u64, T> {
        Map::new(
            |k: u64|
                self.is_valid_key(k) && self.slot_is_live(key_sparse(k)),
            |k: u64| self.dense_values@[self.slot_content(key_sparse(k)) as int],
        )
    }
}

impl<T> GenMap<T> {
    /// Every live handle is valid and was issued; an issued handle that is
    /// still valid is live.
    pub proof fn lemma_handles(&self, key: u64)
        requires
            self.wf(),
        ensures
            self@.contains_key(key) ==> self.is_valid_key(key) && self.was_issued(key),
            self.was_issued(key) && self.is_valid_key(key) ==> self@.contains_key(key),
            self@.contains_key(key) ==> (self.slot_content(key_sparse(key)) as nat)
                < self.values_seq().len() && self@[key] == self.values_seq()[self.slot_content(
                key_sparse(key),
            ) as int],
    {
        reveal(GenMap::wf);
    }

    /// Different live handles have different dense positions.
    pub proof fn lemma_live_keys_apart(&self, k1: u64, k2: u64)
        requires
            self.wf(),
            self@.contains_key(k1),
            self@.contains_key(k2),
            k1 != k2,
        ensures
            self.slot_content(key_sparse(k1)) != self.slot_content(key_sparse(k2)),
    {
        lemma_handle_key(0, 0, k1);
        lemma_handle_key(0, 0, k2);
    }

    /// There are no more values than slots, and no more slots than `u32`
    /// numbers.
    pub proof fn lemma_value_count(&self)
        requires
            self.wf(),
        ensures
            self.values_seq().len() <= self.slot_count() <= u32::MAX,
    {
        reveal(GenMap::wf);
    }

    /// The handle of the value at dense position `d`.
    pub closed spec fn dense_key(&self, d: int) -> u64 {
        handle_key(self.dense_slot(d), self.slot_generation(self.dense_slot(d)))
    }

    /// Each value of the dense array belongs to a live handle.
    pub proof fn lemma_dense_value(&self, d: int)
        requires
            self.wf(),
            0 <= d < self.values_seq().len(),
        ensures
            self@.contains_key(self.dense_key(d)),
            self@[self.dense_key(d)] == self.values_seq()[d],
    {
        reveal(GenMap::wf);
        lemma_handle_key(self.dense_slot(d), self.slot_generation(self.dense_slot(d)), 0);
    }

    /// A live handle is the handle of its slot at the slot's generation, and
    /// the handle of the value at its dense position.
    pub proof fn lemma_live_handle(&self, k: u64)
        requires
            self.wf(),
            self@.contains_key(k),
        ensures
            self.slot_generation(key_sparse(k)) == key_generation(k),
            handle_key(key_sparse(k), self.slot_generation(key_sparse(k))) == k,
            (self.slot_content(key_sparse(k)) as nat) < self.values_seq().len(),
            self.dense_slot(self.slot_content(key_sparse(k)) as int) == key_sparse(k),
            self.dense_key(self.slot_content(key_sparse(k)) as int) == k,
            (key_sparse(k) as nat) < self.slot_count(),
    {
        reveal(GenMap::wf);
        lemma_handle_key(0, 0, k);
    }

    /// A handle whose value was removed is no longer valid: `has` is false
    /// for it, `get` and `get_mut` give nothing and `remove` removes nothing.
    pub proof fn lemma_stale_handle_invalid(&self, key: u64)
        requires
            self.wf(),
            self.is_stale(key),
        ensures
            !self.is_valid_key(key),
    {
        self.lemma_handles(key);
    }

    proof fn lemma_free_not_live(&self, i: int)
        requires
            self.wf(),
            0 <= i < self.free_list@.len(),
        ensures
            !self.slot_is_live(self.free_list@[i]),
    {
        reveal(GenMap::wf);
        let s = self.free_list@[i];
        if self.slot_is_live(s) {
            let d = self.slot_content(s) as int;
            assert(self.dense_slot(d) == s);
        }
    }

    proof fn lemma_dense_injective(&self, d1: int, d2: int)
        requires
            self.wf(),
            0 <= d1 < self.dense_values@.len(),
            0 <= d2 < self.dense_values@.len(),
            self.dense_slot(d1) == self.dense_slot(d2),
        ensures
            d1 == d2,
    {
        reveal(GenMap::wf);
        assert(self.slot_content(self.dense_slot(d1)) == d1);
        assert(self.slot_content(self.dense_slot(d2)) == d2);
    }

    pub fn new() -> (r: Self)
        ensures
            r.wf(),
            r@ == Map::<u64, T>::empty(),
            r.values_seq() == Seq::<T>::empty(),
            r.slot_count() == 0,
    {
        proof {
            reveal(GenMap::wf);
        }
        let r = GenMap {
            free_head: SparseIdx::from_usize(0),
            sparse: IndexMap::new(),
            dense_to_sparse: IndexMap::new(),
            dense_values: IndexMap::new(),
            free_list: Ghost(Seq::empty()),
        };
        assert(r@ =~= Map::<u64, T>::empty());
        r
    }

    fn get_cell(&self, handle: Handle<T>) -> (r: Option<AliveCellRef<'_>>)
        requires
            self.wf(),
        ensures
            r.is_some() == self.is_valid_key(handle@),
            r.is_some() ==> r.unwrap().0.dense_idx_or_next_free.0 == self.slot_content(
                key_sparse(handle@),
            ),
    {
        let s = handle.sparse_index();
        match self.sparse.as_slice().get(&s) {
            Some(cell) => {
                if cell.generation == handle.generation() {
                    Some(AliveCellRef(cell))
                } else {
                    None
                }
            },
            None => None,
        }
    }

    fn assume_cell_alive(&self, index: SparseIdx) -> (r: AliveCellRef<'_>)
        requires
            (index.spec_value() as nat) < self.slot_count(),
        ensures
            r.0.dense_idx_or_next_free.0 == self.slot_content(index.spec_value()),
            r.0.generation.0 == self.slot_generation(index.spec_value()),
    {
        AliveCellRef(self.sparse.as_slice().at(&index))
    }

    /// True if and only if the handle's slot exists and has its generation;
    /// for a handle that `insert` returned, iff its value is still in the map.
    pub fn has(&self, handle: Handle<T>) -> (r: bool)
        requires
            self.wf(),
        ensures
            r == self.is_valid_key(handle@),
            self.was_issued(handle@) ==> r == self@.contains_key(handle@),
    {
        self.get_cell(handle).is_some()
    }

    /// The handle to the value at dense position `index`, if there is one.
    pub fn from_dense_index(&self, index: DenseIdx) -> (r: Option<Handle<T>>)
        requires
            self.wf(),
        ensures
            (index.spec_value() as nat) >= self.values_seq().len() ==> r.is_none(),
            (index.spec_value() as nat) < self.values_seq().len() ==> r.is_some() && self@.contains_key(
                r.unwrap()@,
            ) && self@[r.unwrap()@] == self.values_seq()[index.spec_value() as int]
                && key_sparse(r.unwrap()@) == self.dense_slot(index.spec_value() as int)
                && r.unwrap()@ == self.dense_key(index.spec_value() as int)
                && self.slot_content(key_sparse(r.unwrap()@)) == index.spec_value(),
    {
        proof {
            reveal(GenMap::wf);
        }
        let sparse_idx = match self.dense_to_sparse.as_slice().get(&index) {
            Some(s) => *s,
            None => return None,
        };
        assert(self.dense_slot(index.spec_value() as int) == sparse_idx.spec_value());
        let generation = self.sparse.as_slice().at(&sparse_idx).generation;
        let h = Handle::new(sparse_idx, generation);
        proof {
            lemma_handle_key(sparse_idx.0, generation.0, 0);
        }
        Some(h)
    }

    /// The handle made of slot `sparse_index` and its current generation.
    /// For a free slot the handle addresses no value.
    pub fn unsafe_from_sparse_index(&self, sparse_index: SparseIdx) -> (r: Handle<T>)
        requires
            self.wf(),
            (sparse_index.spec_value() as nat) < self.slot_count(),
        ensures
            r@ == handle_key(sparse_index.spec_value(), self.slot_generation(sparse_index.spec_value())),
            self.is_valid_key(r@),
            self.slot_is_live(sparse_index.spec_value()) ==> self@.contains_key(r@),
    {
        proof {
            reveal(GenMap::wf);
        }
        let generation = self.sparse.as_slice().at(&sparse_index).generation;
        proof {
            lemma_handle_key(sparse_index.spec_value(), generation.0, 0);
        }
        Handle::new(sparse_index, generation)
    }

    /// The raw content of slot `sparse_index`: the dense position of its value
    /// if it holds one, an arbitrary number otherwise.
    pub fn unsafe_get_dense_index(&self, sparse_index: SparseIdx) -> (r: DenseIdx)
        requires
            self.wf(),
            (sparse_index.spec_value() as nat) < self.slot_count(),
        ensures
            r.spec_value() == self.slot_content(sparse_index.spec_value()),
    {
        self.assume_cell_alive(sparse_index).dense_idx()
    }

    /// The value at the dense position held by slot `sparse_index`.
    pub fn unsafe_get(&self, sparse_index: SparseIdx) -> (r: &T)
        requires
            self.wf(),
            (sparse_index.spec_value() as nat) < self.slot_count(),
            (self.slot_content(sparse_index.spec_value()) as nat) < self.values_seq().len(),
        ensures
            *r == self.values_seq()[self.slot_content(sparse_index.spec_value()) as int],
    {
        let idx = self.unsafe_get_dense_index(sparse_index);
        broadcast use GenMap::lemma_same_slots_wf;
        self.dense_values.as_slice().at(&idx)
    }

    /// See [`GenMap::unsafe_get`].
    pub fn unsafe_get_mut(&mut self, sparse_index: SparseIdx) -> (r: &mut T)
        requires
            old(self).wf(),
            (sparse_index.spec_value() as nat) < old(self).slot_count(),
            (old(self).slot_content(sparse_index.spec_value()) as nat) < old(self).values_seq().len(),
        ensures
            *r == old(self).values_seq()[old(self).slot_content(sparse_index.spec_value()) as int],
            final(self).wf(),
            final(self).values_seq() == old(self).values_seq().update(
                old(self).slot_content(sparse_index.spec_value()) as int,
                *final(r),
            ),
            final(self).same_slots(old(self)),
    {
        let idx = self.unsafe_get_dense_index(sparse_index);
        broadcast use GenMap::lemma_same_slots_wf;
        self.dense_values.as_mut_slice().at_mut(&idx)
    }

    /// The dense position of the handle's value, if the handle is valid.
    /// The position may change when another value is removed.
    pub fn get_dense_index(&self, handle: Handle<T>) -> (r: Option<DenseIdx>)
        requires
            self.wf(),
        ensures
            r.is_some() == self.is_valid_key(handle@),
            r.is_some() ==> r.unwrap().spec_value() == self.slot_content(key_sparse(handle@)),
            self@.contains_key(handle@) ==> r.is_some() && (r.unwrap().spec_value() as nat)
                < self.values_seq().len() && self.values_seq()[r.unwrap().spec_value() as int]
                == self@[handle@],
    {
        proof {
            reveal(GenMap::wf);
        }
        match self.get_cell(handle) {
            Some(cell) => Some(cell.dense_idx()),
            None => None,
        }
    }

    /// The value of the handle, if the handle is valid.
    pub fn get(&self, handle: Handle<T>) -> (r: Option<&T>)
        requires
            self.wf(),
            self.is_valid_key(handle@) ==> (self.slot_content(key_sparse(handle@)) as nat)
                < self.values_seq().len(),
        ensures
            r.is_some() == self.is_valid_key(handle@),
            r.is_some() ==> *r.unwrap() == self.values_seq()[self.slot_content(
                key_sparse(handle@),
            ) as int],
            self@.contains_key(handle@) ==> r == Some(&self@[handle@]),
            self.was_issued(handle@) && !self@.contains_key(handle@) ==> r.is_none(),
    {
        proof {
            self.lemma_handles(handle@);
        }
        let idx = match self.get_dense_index(handle) {
            Some(i) => i,
            None => return None,
        };
        Some(self.dense_values.as_slice().at(&idx))
    }

    /// The value of the handle, mutably, if the handle is valid.
    pub fn get_mut(&mut self, handle: Handle<T>) -> (r: Option<&mut T>)
        requires
            old(self).wf(),
            old(self).is_valid_key(handle@) ==> (old(self).slot_content(key_sparse(handle@)) as nat)
                < old(self).values_seq().len(),
        ensures
            final(self).wf(),
            final(self).same_slots(old(self)),
            r.is_some() == old(self).is_valid_key(handle@),
            r.is_none() ==> final(self).values_seq() == old(self).values_seq(),
            r.is_some() ==> *r.unwrap() == old(self).values_seq()[old(self).slot_content(
                key_sparse(handle@),
            ) as int] && final(self).values_seq() == old(self).values_seq().update(
                old(self).slot_content(key_sparse(handle@)) as int,
                *final(r.unwrap()),
            ),
            old(self)@.contains_key(handle@) ==> r.is_some() && *r.unwrap() == old(self)@[handle@]
                && final(self)@ == old(self)@.insert(handle@, *final(r.unwrap())),
            final(self).values_seq().len() == old(self).values_seq().len(),
            forall|k: u64| #[trigger] final(self).is_valid_key(k) == old(self).is_valid_key(k),
            forall|k: u64| #[trigger] final(self).slot_content(key_sparse(k)) == old(self).slot_content(key_sparse(k)),
            forall|k: u64| #[trigger] final(self).was_issued(k) == old(self).was_issued(k),
    {
        proof {
            self.lemma_handles(handle@);
        }
        broadcast use GenMap::lemma_same_slots_wf, GenMap::lemma_same_slots_view;
        let idx = match self.get_dense_index(handle) {
            Some(i) => i,
            None => return None,
        };
        let r = self.dense_values.as_mut_slice().at_mut(&idx);
        Some(r)
    }

    /// Inserts `value` and returns a new handle to it. The value is appended
    /// to the dense array, so no other value moves.
    pub fn insert(&mut self, value: T) -> (r: Handle<T>)
        requires
            old(self).wf(),
            old(self).values_seq().len() < old(self).slot_count() || old(self).slot_count()
                < u32::MAX,
        ensures
            final(self).wf(),
            !old(self).was_issued(r@),
            forall|k: u64|
                #[trigger] final(self).was_issued(k) == (old(self).was_issued(k) || k == r@),
            final(self)@ == old(self)@.insert(r@, value),
            final(self).values_seq() == old(self).values_seq().push(value),
            forall|k: u64| old(self).is_stale(k) ==> #[trigger] final(self).is_stale(k),
            final(self).slot_content(key_sparse(r@)) == old(self).values_seq().len(),
            forall|k: u64| #[trigger] old(self)@.contains_key(k) ==> final(self).slot_content(key_sparse(k)) == old(self).slot_content(key_sparse(k)),
            old(self).values_seq().len() == old(self).slot_count() ==> key_generation(r@) == 0,
            old(self).values_seq().len() < old(self).slot_count() ==> key_generation(r@) == old(self).slot_generation(key_sparse(r@)),
            final(self).slot_count() == old(self).slot_count() + (if old(self).values_seq().len() == old(self).slot_count() {
                1nat
            } else {
                0nat
            }),
            (key_sparse(r@) as nat) < final(self).slot_count(),
            final(self).slot_generation(key_sparse(r@)) == key_generation(r@),
    {
        proof {
            reveal(GenMap::wf);
        }
        let ghost old_self = *self;
        let n = self.sparse.len();
        if self.free_head.as_usize() == n {
            proof {
                if self.free_list@.len() > 0 {
                    assert((self.free_list@[0] as nat) < n);
                }
                assert(self.free_list@.len() == 0);
            }
            let generation = Generation::new();
            let dense_idx = self.dense_values.push(value);
            let sparse_idx = self.sparse.push(
                SparseCell { dense_idx_or_next_free: DenseOrSparse::new_dense(dense_idx), generation },
            );
            self.dense_to_sparse.push(sparse_idx);
            self.free_head = SparseIdx::from_usize(self.sparse.len());
            let r = Handle::new(sparse_idx, generation);
            proof {
                lemma_handle_key(sparse_idx.0, 0, 0);
                let m = old_self.dense_to_sparse@.len();
                assert(self.dense_slot(m as int) == n);
                assert forall|d: int| 0 <= d < m implies #[trigger] self.dense_slot(d) == old_self.dense_slot(d) by {}
                assert forall|t: u32| (t as nat) < n implies #[trigger] self.slot_content(t) == old_self.slot_content(t)
                    && self.slot_generation(t) == old_self.slot_generation(t)
                    && (self.slot_is_live(t) == old_self.slot_is_live(t)) by {
                    if old_self.slot_content(t) == m {
                        assert(self.dense_slot(m as int) == n);
                    }
                }
                self.lemma_insert_view(old_self, r@, value);
            }
            r
        } else {
            let sparse_idx = self.free_head;
            let cell_generation = self.sparse.as_slice().at(&sparse_idx).generation;
            let next_free = self.sparse.as_slice().at(&sparse_idx).dense_idx_or_next_free.as_sparse();
            let dense_idx = self.dense_values.push(value);
            self.dense_to_sparse.push(sparse_idx);
            self.sparse.as_mut_slice().set(
                &sparse_idx,
                SparseCell {
                    dense_idx_or_next_free: DenseOrSparse::new_dense(dense_idx),
                    generation: cell_generation,
                },
            );
            self.free_head = next_free;
            proof {
                let fl = old_self.free_list@;
                assert(fl.len() > 0);
                old_self.lemma_free_not_live(0);
                self.free_list@ = fl.drop_first();
            }
            let r = Handle::new(sparse_idx, cell_generation);
            proof {
                let fl = old_self.free_list@;
                let s = sparse_idx.0;
                let m = old_self.dense_to_sparse@.len();
                lemma_handle_key(s, cell_generation.0, 0);
                assert(self.dense_slot(m as int) == s);
                assert forall|d: int| 0 <= d < m implies #[trigger] self.dense_slot(d) == old_self.dense_slot(d) && old_self.dense_slot(d) != s by {
                    assert(old_self.slot_content(old_self.dense_slot(d)) == d);
                }
                assert forall|t: u32| (t as nat) < n && t != s implies #[trigger] self.slot_content(t) == old_self.slot_content(t)
                    && self.slot_generation(t) == old_self.slot_generation(t)
                    && (self.slot_is_live(t) == old_self.slot_is_live(t)) by {
                    if old_self.slot_content(t) == m {
                        assert(self.dense_slot(m as int) == s);
                    }
                }
                assert(self.slot_is_live(s));
                assert forall|i: int| 0 <= i < self.free_list@.len() implies #[trigger] self.free_list@[i] == fl[i + 1]
                    && fl[i + 1] != s && !self.slot_is_live(self.free_list@[i]) by {
                    old_self.lemma_free_not_live(i + 1);
                }
                self.lemma_insert_view(old_self, r@, value);
            }
            r
        }
    }

    proof fn lemma_insert_view(&self, old_self: Self, key: u64, value: T)
        requires
            old_self.dense_values@.len() == old_self.dense_to_sparse@.len(),
            self.dense_values@.len() == self.dense_to_sparse@.len(),
            (key_sparse(key) as nat) < self.slot_count(),
            self.slot_count() >= old_self.slot_count(),
            key_generation(key) == self.slot_generation(key_sparse(key)),
            self.slot_is_live(key_sparse(key)),
            (key_sparse(key) as nat) < old_self.slot_count() ==> !old_self.slot_is_live(
                key_sparse(key),
            ) && old_self.slot_generation(key_sparse(key)) == key_generation(key),
            self.slot_count() > old_self.slot_count() ==> key_sparse(key) == old_self.slot_count()
                && key_generation(key) == 0 && self.slot_count() == old_self.slot_count() + 1,
            self.values_seq() == old_self.values_seq().push(value),
            self.slot_content(key_sparse(key)) == old_self.values_seq().len(),
            forall|t: u32|
                (t as nat) < old_self.slot_count() && t != key_sparse(key) ==> #[trigger] self.slot_content(t)
                    == old_self.slot_content(t) && self.slot_generation(t) == old_self.slot_generation(t)
                    && (self.slot_is_live(t) == old_self.slot_is_live(t)),
        ensures
            self@ == old_self@.insert(key, value),
            !old_self.was_issued(key),
            forall|k: u64|
                #[trigger] self.was_issued(k) == (old_self.was_issued(k) || k == key),
    {
        let s = key_sparse(key);
        lemma_handle_key(0, 0, key);
        assert forall|k: u64| #[trigger] self@.contains_key(k) == old_self@.insert(key, value).contains_key(k) by {
            lemma_handle_key(0, 0, k);
            let t = key_sparse(k);
            if t == s {
                assert(!old_self@.contains_key(k));
            } else if (t as nat) < old_self.slot_count() {
                assert(self.slot_content(t) == old_self.slot_content(t));
            } else {
            }
        }
        assert forall|k: u64| #[trigger] self@.contains_key(k) implies self@[k] == old_self@.insert(key, value)[k] by {
            lemma_handle_key(0, 0, k);
            let t = key_sparse(k);
            if k != key {
                assert(t != s);
                assert(self.slot_content(t) == old_self.slot_content(t));
                assert(old_self.slot_is_live(t));
            }
        }
        assert(self@ =~= old_self@.insert(key, value));
        assert forall|k: u64| #[trigger] self.was_issued(k) == (old_self.was_issued(k) || k == key) by {
            lemma_handle_key(0, 0, k);
            let t = key_sparse(k);
            if t == s {
            } else if (t as nat) < old_self.slot_count() {
                assert(self.slot_content(t) == old_self.slot_content(t));
            } else {
            }
        }
    }

    /// Removes and returns the handle's value. The last value of the dense
    /// array moves into the freed position.
    pub fn remove(&mut self, handle: Handle<T>) -> (r: Option<T>)
        requires
            old(self).wf(),
            old(self).is_valid_key(handle@) ==> old(self)@.contains_key(handle@),
            old(self)@.contains_key(handle@) ==> key_generation(handle@) < u32::MAX,
        ensures
            final(self).wf(),
            !old(self)@.contains_key(handle@) ==> r.is_none() && final(self)@ == old(self)@
                && final(self).values_seq() == old(self).values_seq(),
            old(self)@.contains_key(handle@) ==> r == Some(old(self)@[handle@]) && final(self)@
                == old(self)@.remove(handle@) && final(self).values_seq() == old(self).values_seq().update(
                old(self).slot_content(key_sparse(handle@)) as int,
                old(self).values_seq().last(),
            ).drop_last(),
            forall|k: u64| #[trigger] final(self).was_issued(k) == old(self).was_issued(k),
            forall|k: u64| old(self).is_stale(k) ==> #[trigger] final(self).is_stale(k),
            old(self)@.contains_key(handle@) ==> final(self).is_stale(handle@),
            final(self).slot_count() == old(self).slot_count(),
            old(self)@.contains_key(handle@) ==> final(self).slot_generation(key_sparse(handle@)) == key_generation(handle@) + 1,
    {
        proof {
            reveal(GenMap::wf);
            self.lemma_handles(handle@);
        }
        let ghost old_self = *self;
        let cell = match self.get_cell(handle) {
            Some(c) => c,
            None => return None,
        };
        let dense_idx = cell.dense_idx();
        let last = self.dense_values.len() - 1;
        let sparse_idx: SparseIdx;
        let result: T;
        if dense_idx.as_usize() == last {
            sparse_idx = self.dense_to_sparse.pop().unwrap();
            result = self.dense_values.pop().unwrap();
        } else {
            let last_idx = DenseIdx::from_usize(last);
            let moved_sparse = *self.dense_to_sparse.as_slice().at(&last_idx);
            proof {
                assert(old_self.dense_slot(last as int) == moved_sparse.0);
            }
            let moved_generation = self.sparse.as_slice().at(&moved_sparse).generation;
            proof {
                assert(old_self.slot_content(moved_sparse.0) == last);
            }
            self.sparse.as_mut_slice().set(
                &moved_sparse,
                SparseCell {
                    dense_idx_or_next_free: DenseOrSparse::new_dense(dense_idx),
                    generation: moved_generation,
                },
            );
            sparse_idx = self.dense_to_sparse.swap_remove(&dense_idx);
            result = self.dense_values.swap_remove(&dense_idx);
        }
        proof {
            assert(sparse_idx.0 == key_sparse(handle@));
        }
        let generation = self.sparse.as_slice().at(&sparse_idx).generation.next();
        let old_free_head = self.free_head;
        self.sparse.as_mut_slice().set(
            &sparse_idx,
            SparseCell { dense_idx_or_next_free: DenseOrSparse::new_sparse(old_free_head), generation },
        );
        self.free_head = sparse_idx;
        proof {
            self.free_list@ = seq![sparse_idx.0].add(old_self.free_list@);
            let s = key_sparse(handle@);
            let c = old_self.slot_content(s) as int;
            let m = old_self.dense_to_sparse@.len() as int;
            let t = old_self.dense_slot(m - 1);
            assert(self.sparse@.len() == old_self.sparse@.len());
            assert(self.dense_values@ =~= old_self.dense_values@.update(c, old_self.dense_values@.last()).drop_last());
            assert(self.dense_to_sparse@ =~= old_self.dense_to_sparse@.update(c, old_self.dense_to_sparse@.last()).drop_last());
            assert(self.slot_generation(s) == old_self.slot_generation(s) + 1);
            assert(self.slot_content(s) == old_self.free_head.0);
            assert(c != m - 1 ==> self.slot_content(t) == c && self.slot_generation(t) == old_self.slot_generation(t));
            assert(forall|u: u32| #![trigger self.slot_content(u)] #![trigger self.slot_generation(u)]
                    (u as nat) < old_self.sparse@.len() && u != s && u != t ==>
                    self.slot_content(u) == old_self.slot_content(u) && self.slot_generation(u) == old_self.slot_generation(u));
            self.lemma_remove(old_self, handle@);
        }
        Some(result)
    }


    /// The dense array. Without removals it is in insertion order.
    pub fn values(&self) -> (r: &IndexSlice<T, DenseIdx>)
        ensures
            r@ == self.values_seq(),
    {
        self.dense_values.as_slice()
    }

    /// The dense array, mutably. The map stays well-formed as long as the
    /// slice keeps its length, which the slice's own methods do.
    pub fn values_mut(&mut self) -> (r: &mut IndexSlice<T, DenseIdx>)
        requires
            old(self).wf(),
        ensures
            r@ == old(self).values_seq(),
            final(self).values_seq() == final(r)@,
            final(r)@.len() == r@.len() ==> final(self).same_slots(old(self)) && final(self).wf(),
    {
        broadcast use GenMap::lemma_same_slots_wf;
        self.dense_values.as_mut_slice()
    }

    /// The values, each handed out mutably, in dense order. Every handle
    /// keeps its slot and its dense position.
    pub fn iter_mut(&mut self) -> (r: std::slice::IterMut<'_, T>)
        requires
            old(self).wf(),
        ensures
            final(self).wf(),
            final(self).same_slots(old(self)),
            final(self).values_seq().len() == old(self).values_seq().len(),
            forall|k: u64| #[trigger] final(self).is_valid_key(k) == old(self).is_valid_key(k),
            forall|k: u64| #[trigger] final(self).slot_content(key_sparse(k)) == old(self).slot_content(key_sparse(k)),
            forall|k: u64| #[trigger] final(self).was_issued(k) == old(self).was_issued(k),
    {
        self.values_mut().iter_mut()
    }

    /// The number of values in the map.
    pub fn len(&self) -> (r: usize)
        requires
            self.wf(),
        ensures
            r == self.values_seq().len(),
            r == self@.len(),
    {
        proof {
            self.lemma_len();
        }
        self.dense_values.len()
    }

    proof fn lemma_len(&self)
        requires
            self.wf(),
        ensures
            self@.dom().finite(),
            self@.len() == self.values_seq().len(),
    {
        reveal(GenMap::wf);
        let m = self.dense_to_sparse@.len();
        let keys = Seq::new(m, |d: int| handle_key(self.dense_slot(d), self.slot_generation(self.dense_slot(d))));
        assert forall|k: u64| #[trigger] self@.dom().contains(k) == keys.to_set().contains(k) by {
            lemma_handle_key(0, 0, k);
            if self@.dom().contains(k) {
                let d = self.slot_content(key_sparse(k)) as int;
                lemma_handle_key(key_sparse(k), key_generation(k), 0);
                assert(keys[d] == k);
            }
            if keys.to_set().contains(k) {
                let d = choose|d: int| 0 <= d < keys.len() && keys[d] == k;
                lemma_handle_key(self.dense_slot(d), self.slot_generation(self.dense_slot(d)), 0);
            }
        }
        assert(self@.dom() =~= keys.to_set());
        assert forall|i: int, j: int| 0 <= i < j < keys.len() implies keys[i] != keys[j] by {
            lemma_handle_key(self.dense_slot(i), self.slot_generation(self.dense_slot(i)), 0);
            lemma_handle_key(self.dense_slot(j), self.slot_generation(self.dense_slot(j)), 0);
            if keys[i] == keys[j] {
                self.lemma_dense_injective(i, j);
            }
        }
        keys.unique_seq_to_set();
    }

    /// Iterates over references to all values, in dense order.
    pub fn iter(&self) -> (r: std::slice::Iter<'_, T>)
        ensures
            r.remaining() == self.values_seq().map_values(|v: T| &v),
    {
        self.dense_values.as_slice().iter()
    }

    /// The slot of each value, in dense order.
    pub fn iter_sparse_indexes(&self) -> (r: Vec<SparseIdx>)
        requires
            self.wf(),
        ensures
            r@.len() == self.values_seq().len(),
            forall|d: int| 0 <= d < r@.len() ==> (#[trigger] r@[d]).spec_value() == self.dense_slot(d),
            forall|a: int, b: int| 0 <= a < b < r@.len() ==> (#[trigger] r@[a]).spec_value() != (#[trigger] r@[b]).spec_value(),
    {
        proof {
            reveal(GenMap::wf);
        }
        let m = self.dense_to_sparse.len();
        assert(m <= self.sparse@.len());
        let mut out: Vec<SparseIdx> = Vec::new();
        let mut d: usize = 0;
        while d < m
            invariant
                d <= m,
                m == self.dense_to_sparse@.len(),
                m <= u32::MAX,
                out@.len() == d,
                forall|e: int| 0 <= e < d ==> (#[trigger] out@[e]).spec_value() == self.dense_slot(e),
            decreases m - d,
        {
            let idx = DenseIdx::from_usize(d);
            out.push(*self.dense_to_sparse.as_slice().at(&idx));
            d = d + 1;
        }
        proof {
            assert forall|a: int, b: int| 0 <= a < b < out@.len() implies (#[trigger] out@[a]).spec_value() != (#[trigger] out@[b]).spec_value() by {
                if out@[a].spec_value() == out@[b].spec_value() {
                    self.lemma_dense_injective(a, b);
                }
            }
        }
        out
    }

    /// The dense positions `0..len`.
    pub fn iter_dense_indexes(&self) -> (r: crate::index_map::IndexesIterator<DenseIdx>)
        ensures
            r.spec_len() == self.values_seq().len(),
    {
        self.dense_values.as_slice().indexes()
    }

    /// Each value with its slot and dense position, in dense order.
    pub fn enumerated(&self) -> (r: Vec<(SparseIdx, DenseIdx, &T)>)
        requires
            self.wf(),
        ensures
            r@.len() == self.values_seq().len(),
            forall|d: int|
                0 <= d < r@.len() ==> (#[trigger] r@[d]).0.spec_value() == self.dense_slot(d)
                    && r@[d].1.spec_index() == d && *r@[d].2 == self.values_seq()[d],
    {
        proof {
            reveal(GenMap::wf);
        }
        let m = self.dense_values.len();
        let mut out: Vec<(SparseIdx, DenseIdx, &T)> = Vec::new();
        let mut d: usize = 0;
        while d < m
            invariant
                d <= m,
                m == self.dense_to_sparse@.len(),
                m == self.dense_values@.len(),
                m <= u32::MAX,
                out@.len() == d,
                forall|e: int|
                    0 <= e < d ==> (#[trigger] out@[e]).0.spec_value() == self.dense_slot(e)
                        && out@[e].1.spec_index() == e && *out@[e].2 == self.dense_values@[e],
            decreases m - d,
        {
            let idx = DenseIdx::from_usize(d);
            out.push((*self.dense_to_sparse.as_slice().at(&idx), idx, self.dense_values.as_slice().at(&idx)));
            d = d + 1;
        }
        out
    }
    proof fn lemma_remove(&self, old_self: Self, key: u64)
        requires
            old_self.wf(),
            old_self@.contains_key(key),
            ({
                let s = key_sparse(key);
                let c = old_self.slot_content(s) as int;
                let m = old_self.dense_to_sparse@.len() as int;
                let t = old_self.dense_slot(m - 1);
                &&& self.sparse@.len() == old_self.sparse@.len()
                &&& self.dense_values@ == old_self.dense_values@.update(c, old_self.dense_values@.last()).drop_last()
                &&& self.dense_to_sparse@ == old_self.dense_to_sparse@.update(c, old_self.dense_to_sparse@.last()).drop_last()
                &&& self.slot_generation(s) == old_self.slot_generation(s) + 1
                &&& self.slot_content(s) == old_self.free_head.0
                &&& self.free_head.0 == s
                &&& self.free_list@ == seq![s].add(old_self.free_list@)
                &&& c != m - 1 ==> self.slot_content(t) == c && self.slot_generation(t) == old_self.slot_generation(t)
                &&& forall|u: u32| #![trigger self.slot_content(u)] #![trigger self.slot_generation(u)]
                    (u as nat) < old_self.sparse@.len() && u != s && u != t ==>
                    self.slot_content(u) == old_self.slot_content(u) && self.slot_generation(u) == old_self.slot_generation(u)
            }),
        ensures
            self.wf(),
            self@ == old_self@.remove(key),
            forall|k: u64| #[trigger] self.was_issued(k) == old_self.was_issued(k),
    {
        reveal(GenMap::wf);
        let s = key_sparse(key);
        let c = old_self.slot_content(s) as int;
        let m = old_self.dense_to_sparse@.len() as int;
        let t = old_self.dense_slot(m - 1);
        let n = old_self.sparse@.len();
        lemma_handle_key(0, 0, key);
        assert(old_self.dense_slot(c) == s);
        assert(old_self.slot_content(t) == m - 1);
        assert(c != m - 1 ==> t != s);
        // the new dense-to-slot links
        assert forall|d: int| 0 <= d < m - 1 implies #[trigger] self.dense_slot(d) == (if d == c { t } else { old_self.dense_slot(d) }) by {}
        assert forall|d: int| 0 <= d < m - 1 implies #[trigger] self.dense_slot(d) != s by {
            if d != c {
                if old_self.dense_slot(d) == s {
                    old_self.lemma_dense_injective(d, c);
                }
            }
        }
        // liveness of each slot other than s is unchanged
        assert forall|u: u32| (u as nat) < n && u != s implies (#[trigger] self.slot_is_live(u) == old_self.slot_is_live(u))
            && (self.slot_is_live(u) ==> self.dense_values@[self.slot_content(u) as int] == old_self.dense_values@[old_self.slot_content(u) as int])
            && self.slot_generation(u) == old_self.slot_generation(u) by {
            if u == t && c != m - 1 {
                assert(self.dense_slot(c) == t);
            } else {
                let d = old_self.slot_content(u) as int;
                if 0 <= d < m && old_self.dense_slot(d) == u {
                    assert(d != c);
                    assert(d != m - 1);
                } else if 0 <= d < m - 1 && d == c {
                    if c != m - 1 {
                        assert(self.dense_slot(c) == t);
                    }
                }
            }
        }
        assert(!self.slot_is_live(s));
        // well-formedness
        let fl = self.free_list@;
        assert forall|i: int| 0 <= i < fl.len() implies (#[trigger] fl[i] as nat) < n && !self.slot_is_live(fl[i]) by {
            if i > 0 {
                assert(fl[i] == old_self.free_list@[i - 1]);
                old_self.lemma_free_not_live(i - 1);
            }
        }
        assert forall|i: int, j: int| 0 <= i < j < fl.len() implies fl[i] != fl[j] by {
            if i == 0 {
                old_self.lemma_free_not_live(j - 1);
            } else {
                assert(fl[i] == old_self.free_list@[i - 1]);
            }
        }
        assert forall|i: int| 0 <= i < fl.len() implies self.slot_content(#[trigger] fl[i]) == (if i + 1 < fl.len() { fl[i + 1] } else { n as u32 }) by {
            if i > 0 {
                let u = old_self.free_list@[i - 1];
                old_self.lemma_free_not_live(i - 1);
                assert(u != s);
                assert(u != t);
            }
        }
        assert forall|d: int| 0 <= d < m - 1 implies (#[trigger] self.dense_slot(d) as nat) < n && self.slot_content(self.dense_slot(d)) == d by {
            if d != c {
                let u = old_self.dense_slot(d);
                assert(old_self.slot_content(u) == d);
                if u == t {
                    old_self.lemma_dense_injective(d, m - 1);
                }
            }
        }
        assert(self.wf());
        // the view
        assert forall|k: u64| #[trigger] self@.contains_key(k) == old_self@.remove(key).contains_key(k) by {
            lemma_handle_key(0, 0, k);
        }
        assert forall|k: u64| #[trigger] self@.contains_key(k) implies self@[k] == old_self@.remove(key)[k] by {
            lemma_handle_key(0, 0, k);
        }
        assert(self@ =~= old_self@.remove(key));
        assert forall|k: u64| #[trigger] self.was_issued(k) == old_self.was_issued(k) by {
            lemma_handle_key(0, 0, k);
        }
    }
}

impl<T> Default for GenMap<T> {
    fn default() -> (r: Self)
        ensures
            r.wf(),
            r@ == Map::<u64, T>::empty(),
            r.values_seq() == Seq::<T>::empty(),
    {
        GenMap::new()
    }
}

} // verus!
