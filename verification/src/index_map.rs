//! Vectors and slices indexed by a typed index instead of a bare `usize`.

use vstd::prelude::*;
use std::marker::PhantomData;
use vstd::std_specs::iter::IteratorSpec;

verus! {

/// A typed index into an [`IndexMap`] or [`IndexSlice`].
///
/// An index stands for a natural number, `spec_index`, no larger than
/// `spec_max_index`; `from_usize` builds one from any number in that range.
pub trait MapIndex: Sized {
    spec fn spec_index(&self) -> nat;

    spec fn spec_max_index() -> nat;

    fn from_usize(idx: usize) -> (r: Self)
        requires
            idx <= Self::spec_max_index(),
        ensures
            r.spec_index() == idx,
    ;

    fn as_usize(&self) -> (r: usize)
        ensures
            r == self.spec_index(),
    ;
}

/// The indexes `0..len` of a slice, as values of the index type `I`.
pub struct IndexesIterator<I> {
    i: PhantomData<I>,
    len: usize,
}

impl<I> IndexesIterator<I> {
    pub closed spec fn spec_len(&self) -> nat {
        self.len as nat
    }

    /// The same range of indexes, typed with another index type.
    pub fn as_with_index<O>(self) -> (r: IndexesIterator<O>)
        ensures
            r.spec_len() == self.spec_len(),
    {
        IndexesIterator { i: PhantomData, len: self.len }
    }

    pub fn len(self) -> (r: usize)
        ensures
            r == self.spec_len(),
    {
        self.len
    }

    pub fn is_empty(self) -> (r: bool)
        ensures
            r == (self.spec_len() == 0),
    {
        self.len == 0
    }
}

impl<I: MapIndex> IndexesIterator<I> {
    /// All the indexes of the range, in increasing order.
    pub fn to_vec(self) -> (r: Vec<I>)
        requires
            self.spec_len() == 0 || self.spec_len() - 1 <= I::spec_max_index(),
        ensures
            r@.len() == self.spec_len(),
            forall|k: int| 0 <= k < r@.len() ==> (#[trigger] r@[k]).spec_index() == k,
    {
        let mut out: Vec<I> = Vec::new();
        let mut k: usize = 0;
        while k < self.len
            invariant
                k <= self.len,
                self.len == 0 || self.len - 1 <= I::spec_max_index(),
                out@.len() == k,
                forall|j: int| 0 <= j < out@.len() ==> (#[trigger] out@[j]).spec_index() == j,
            decreases self.len - k,
        {
            out.push(I::from_usize(k));
            k = k + 1;
        }
        out
    }
}

impl<I> Clone for IndexesIterator<I> {
    fn clone(&self) -> (r: Self)
        ensures
            r.spec_len() == self.spec_len(),
    {
        IndexesIterator { i: PhantomData, len: self.len }
    }
}

#[verifier::external_type_specification]
#[verifier::external_body]
#[verifier::reject_recursive_types(T)]
pub struct ExIterMut<'a, T: 'a>(std::slice::IterMut<'a, T>);

/// `<[T]>::iter_mut`: an iterator handing out each value of the slice
/// mutably, in order. Whatever is done through it, the slice keeps its
/// length; what the values become is left to the caller.
#[verifier::external_body]
fn slice_iter_mut<'a, T>(s: &'a mut [T]) -> (r: std::slice::IterMut<'a, T>)
    ensures
        final(s)@.len() == old(s)@.len(),
{
    s.iter_mut()
}

/// A slice of values addressed by the index type `I`.
///
/// Its length never changes through its own methods; only the
/// [`IndexMap`] that owns it can grow or shrink it.
pub struct IndexSlice<T, I> {
    index: PhantomData<I>,
    values: Vec<T>,
}

impl<T, I> View for IndexSlice<T, I> {
    type V = Seq<T>;

    closed spec fn view(&self) -> Seq<T> {
        self.values@
    }
}

impl<T, I> IndexSlice<T, I> {
    /// The same values, addressed by another index type.
    pub fn as_with_index<N>(self) -> (r: IndexSlice<T, N>)
        ensures
            r@ == self@,
    {
        IndexSlice { index: PhantomData, values: self.values }
    }

    /// The same values, addressed by another index type (mutable form).
    pub fn as_with_index_mut<N>(self) -> (r: IndexSlice<T, N>)
        ensures
            r@ == self@,
    {
        IndexSlice { index: PhantomData, values: self.values }
    }

    pub fn as_std_slice(&self) -> (r: &[T])
        ensures
            r@ == self@,
    {
        self.values.as_slice()
    }

    pub fn as_std_slice_mut(&mut self) -> (r: &mut [T])
        ensures
            r@ == old(self)@,
            final(r)@ == final(self)@,
    {
        self.values.as_mut_slice()
    }

    pub fn len(&self) -> (r: usize)
        ensures
            r == self@.len(),
    {
        self.values.len()
    }

    pub fn is_empty(&self) -> (r: bool)
        ensures
            r == (self@.len() == 0),
    {
        self.values.len() == 0
    }

    pub fn first(&self) -> (r: Option<&T>)
        ensures
            self@.len() == 0 ==> r.is_none(),
            self@.len() > 0 ==> r == Some(&self@[0]),
    {
        if self.values.len() == 0 {
            None
        } else {
            Some(&self.values[0])
        }
    }

    pub fn first_mut(&mut self) -> (r: Option<&mut T>)
        ensures
            old(self)@.len() == 0 ==> r.is_none() && final(self)@ == old(self)@,
            old(self)@.len() > 0 ==> r.is_some() && *r.unwrap() == old(self)@[0]
                && final(self)@ == old(self)@.update(0, *final(r.unwrap())),
    {
        if self.values.len() == 0 {
            None
        } else {
            Some(&mut self.values[0])
        }
    }

    pub fn last(&self) -> (r: Option<&T>)
        ensures
            self@.len() == 0 ==> r.is_none(),
            self@.len() > 0 ==> r == Some(&self@.last()),
    {
        let n = self.values.len();
        if n == 0 {
            None
        } else {
            Some(&self.values[n - 1])
        }
    }

    pub fn last_mut(&mut self) -> (r: Option<&mut T>)
        ensures
            old(self)@.len() == 0 ==> r.is_none() && final(self)@ == old(self)@,
            old(self)@.len() > 0 ==> r.is_some() && *r.unwrap() == old(self)@.last()
                && final(self)@ == old(self)@.update(old(self)@.len() - 1, *final(r.unwrap())),
    {
        let n = self.values.len();
        if n == 0 {
            None
        } else {
            Some(&mut self.values[n - 1])
        }
    }

    /// The values, each handed out mutably, in index order. The slice keeps
    /// its length.
    pub fn iter_mut(&mut self) -> (r: std::slice::IterMut<'_, T>)
        ensures
            final(self)@.len() == old(self)@.len(),
    {
        slice_iter_mut(self.as_std_slice_mut())
    }

    pub fn iter(&self) -> (r: std::slice::Iter<'_, T>)
        ensures
            r.remaining() == self@.map_values(|v: T| &v),
    {
        proof {
            broadcast use vstd::std_specs::slice::axiom_spec_slice_iter;
        }
        let s = self.values.as_slice();
        let it = s.iter();
        assert(s@.as_ref() =~= self@.map_values(|v: T| &v));
        it
    }
}

impl<T, I: MapIndex> IndexSlice<T, I> {
    pub fn get(&self, idx: &I) -> (r: Option<&T>)
        ensures
            idx.spec_index() < self@.len() ==> r == Some(&self@[idx.spec_index() as int]),
            idx.spec_index() >= self@.len() ==> r.is_none(),
    {
        let i = idx.as_usize();
        if i < self.values.len() {
            Some(&self.values[i])
        } else {
            None
        }
    }

    pub fn get_mut(&mut self, idx: &I) -> (r: Option<&mut T>)
        ensures
            final(self)@.len() == old(self)@.len(),
            idx.spec_index() < old(self)@.len() ==> r.is_some()
                && *r.unwrap() == old(self)@[idx.spec_index() as int]
                && final(self)@ == old(self)@.update(idx.spec_index() as int, *final(r.unwrap())),
            idx.spec_index() >= old(self)@.len() ==> r.is_none() && final(self)@ == old(self)@,
    {
        let i = idx.as_usize();
        if i < self.values.len() {
            Some(&mut self.values[i])
        } else {
            None
        }
    }

    /// The index of the last value, if there is one.
    pub fn last_index(&self) -> (r: Option<I>)
        requires
            self@.len() == 0 || self@.len() - 1 <= I::spec_max_index(),
        ensures
            self@.len() == 0 ==> r.is_none(),
            self@.len() > 0 ==> r.is_some() && r.unwrap().spec_index() == self@.len() - 1,
    {
        let n = self.values.len();
        if n == 0 {
            None
        } else {
            Some(I::from_usize(n - 1))
        }
    }

    pub fn indexes(&self) -> (r: IndexesIterator<I>)
        ensures
            r.spec_len() == self@.len(),
    {
        IndexesIterator { i: PhantomData, len: self.values.len() }
    }

    /// Every value with its index, in order.
    pub fn enumerated(&self) -> (r: Vec<(I, &T)>)
        requires
            self@.len() == 0 || self@.len() - 1 <= I::spec_max_index(),
        ensures
            r@.len() == self@.len(),
            forall|k: int|
                0 <= k < r@.len() ==> (#[trigger] r@[k]).0.spec_index() == k && r@[k].1 == &self@[k],
    {
        let mut out: Vec<(I, &T)> = Vec::new();
        let mut k: usize = 0;
        let n = self.values.len();
        while k < n
            invariant
                k <= n,
                n == self@.len(),
                n == 0 || n - 1 <= I::spec_max_index(),
                out@.len() == k,
                forall|j: int|
                    0 <= j < out@.len() ==> (#[trigger] out@[j]).0.spec_index() == j && out@[j].1
                        == &self@[j],
            decreases n - k,
        {
            out.push((I::from_usize(k), &self.values[k]));
            k = k + 1;
        }
        out
    }

    /// The value at `idx`; `idx` must be in bounds.
    pub fn at(&self, idx: &I) -> (r: &T)
        requires
            idx.spec_index() < self@.len(),
        ensures
            *r == self@[idx.spec_index() as int],
    {
        &self.values[idx.as_usize()]
    }

    /// The value at `idx`, mutably; `idx` must be in bounds.
    pub fn at_mut(&mut self, idx: &I) -> (r: &mut T)
        requires
            idx.spec_index() < old(self)@.len(),
        ensures
            *r == old(self)@[idx.spec_index() as int],
            final(self)@ == old(self)@.update(idx.spec_index() as int, *final(r)),
    {
        let i = idx.as_usize();
        &mut self.values[i]
    }

    /// Replaces the value at `idx`; `idx` must be in bounds.
    pub fn set(&mut self, idx: &I, value: T)
        requires
            idx.spec_index() < old(self)@.len(),
        ensures
            final(self)@ == old(self)@.update(idx.spec_index() as int, value),
    {
        let i = idx.as_usize();
        self.values.set(i, value);
    }
}

/// A growable vector of values addressed by the index type `I`.
pub struct IndexMap<T, I> {
    slice: IndexSlice<T, I>,
}

impl<T, I> View for IndexMap<T, I> {
    type V = Seq<T>;

    closed spec fn view(&self) -> Seq<T> {
        self.slice@
    }
}

impl<T, I> IndexMap<T, I> {
    pub fn new() -> (r: Self)
        ensures
            r@ == Seq::<T>::empty(),
    {
        IndexMap { slice: IndexSlice { index: PhantomData, values: Vec::new() } }
    }

    pub fn as_slice(&self) -> (r: &IndexSlice<T, I>)
        ensures
            r@ == self@,
    {
        &self.slice
    }

    pub fn as_mut_slice(&mut self) -> (r: &mut IndexSlice<T, I>)
        ensures
            r@ == old(self)@,
            final(r)@ == final(self)@,
    {
        &mut self.slice
    }

    pub fn into_with_index<N>(self) -> (r: IndexMap<T, N>)
        ensures
            r@ == self@,
    {
        IndexMap { slice: IndexSlice { index: PhantomData, values: self.slice.values } }
    }

    pub fn from_vec(values: Vec<T>) -> (r: Self)
        ensures
            r@ == values@,
    {
        IndexMap { slice: IndexSlice { index: PhantomData, values } }
    }

    pub fn into_vec(self) -> (r: Vec<T>)
        ensures
            r@ == self@,
    {
        self.slice.values
    }

    pub fn reserve(&mut self, additional: usize)
        ensures
            final(self)@ == old(self)@,
    {
        self.slice.values.reserve(additional);
    }

    pub fn pop(&mut self) -> (r: Option<T>)
        ensures
            old(self)@.len() == 0 ==> r.is_none() && final(self)@ == old(self)@,
            old(self)@.len() > 0 ==> r == Some(old(self)@.last()) && final(self)@ == old(self)@.drop_last(),
    {
        self.slice.values.pop()
    }

    pub fn len(&self) -> (r: usize)
        ensures
            r == self@.len(),
    {
        self.slice.values.len()
    }
}

impl<T, I: MapIndex> IndexMap<T, I> {
    /// Appends `val` and returns its index.
    pub fn push(&mut self, val: T) -> (r: I)
        requires
            old(self)@.len() <= I::spec_max_index(),
        ensures
            final(self)@ == old(self)@.push(val),
            r.spec_index() == old(self)@.len(),
    {
        let idx = self.slice.values.len();
        self.slice.values.push(val);
        I::from_usize(idx)
    }

    /// Removes the value at `idx`, shifting the following values down.
    pub fn remove(&mut self, idx: &I) -> (r: T)
        requires
            idx.spec_index() < old(self)@.len(),
        ensures
            r == old(self)@[idx.spec_index() as int],
            final(self)@ == old(self)@.remove(idx.spec_index() as int),
    {
        self.slice.values.remove(idx.as_usize())
    }

    /// Removes the value at `idx`, moving the last value into its place.
    pub fn swap_remove(&mut self, idx: &I) -> (r: T)
        requires
            idx.spec_index() < old(self)@.len(),
        ensures
            r == old(self)@[idx.spec_index() as int],
            final(self)@ == old(self)@.update(idx.spec_index() as int, old(self)@.last()).drop_last(),
    {
        self.slice.values.swap_remove(idx.as_usize())
    }
}

impl<T, I> Default for IndexMap<T, I> {
    fn default() -> (r: Self)
        ensures
            r@ == Seq::<T>::empty(),
    {
        IndexMap::new()
    }
}

} // verus!
