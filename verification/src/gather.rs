//! Picking some elements of a list, each at most once, in a given order.
use vstd::prelude::*;

verus! {

/// A list whose elements can be picked out by index, each at most once.
pub trait Gather: Sized {
    type Value;

    /// The elements, in order.
    spec fn gather_source(&self) -> Seq<Self::Value>;

    /// The elements at `idxs`, in the order of `idxs`.
    fn gather(self, idxs: &[usize]) -> (r: Vec<Self::Value>)
        requires
            forall|i: int| 0 <= i < idxs.len() ==> #[trigger] idxs[i] < self.gather_source().len(),
            forall|i: int, j: int| 0 <= i < j < idxs.len() ==> idxs[i] != idxs[j],
        ensures
            r.len() == idxs.len(),
            forall|i: int| 0 <= i < idxs.len() ==> #[trigger] r@[i] == self.gather_source()[idxs[i] as int],
    ;
}

impl<T> Gather for Vec<T> {
    type Value = T;

    open spec fn gather_source(&self) -> Seq<T> {
        self@
    }

    fn gather(self, idxs: &[usize]) -> (r: Vec<T>) {
        gather_vec(self, idxs)
    }
}

/// The elements of `values` at `idxs`, in the order of `idxs`; each index
/// may be used once, so the elements are moved out rather than copied.
pub fn gather_vec<T>(values: Vec<T>, idxs: &[usize]) -> (r: Vec<T>)
    requires
        forall|i: int| 0 <= i < idxs.len() ==> #[trigger] idxs[i] < values.len(),
        forall|i: int, j: int| 0 <= i < j < idxs.len() ==> idxs[i] != idxs[j],
    ensures
        r.len() == idxs.len(),
        forall|i: int| 0 <= i < idxs.len() ==> #[trigger] r@[i] == values@[idxs[i] as int],
{
    let ghost given = values@;
    let n = values.len();
    let mut values = values;
    let mut slots: Vec<Option<T>> = Vec::new();
    while values.len() > 0
        invariant
            values.len() + slots.len() == n,
            n == given.len(),
            values@ == given.take(values.len() as int),
            forall|k: int| 0 <= k < slots.len() ==> #[trigger] slots@[k] == Some(given[n - 1 - k]),
        decreases values.len(),
    {
        let v = values.pop().unwrap();
        slots.push(Some(v));
        proof {
            assert(values@ =~= given.take(values.len() as int));
        }
    }
    let mut r: Vec<T> = Vec::new();
    let mut i: usize = 0;
    while i < idxs.len()
        invariant
            i <= idxs.len(),
            slots.len() == n,
            n == given.len(),
            forall|k: int| 0 <= k < idxs.len() ==> #[trigger] idxs[k] < n,
            forall|a: int, b: int| 0 <= a < b < idxs.len() ==> idxs[a] != idxs[b],
            r.len() == i,
            forall|k: int| 0 <= k < i ==> #[trigger] r@[k] == given[idxs[k] as int],
            forall|k: int| 0 <= k < n ==> (#[trigger] slots@[k] is None) == (exists|m: int| 0 <= m < i && idxs[m] == n - 1 - k),
            forall|k: int| 0 <= k < n && slots@[k] is Some ==> #[trigger] slots@[k] == Some(given[n - 1 - k]),
        decreases idxs.len() - i,
    {
        proof {
            assert(idxs[i as int] < n);
        }
        let j = n - 1 - idxs[i];
        proof {
            assert(slots@[j as int] is Some) by {
                if slots@[j as int] is None {
                    let m = choose|m: int| 0 <= m < i && idxs[m] == n - 1 - j;
                    assert(idxs[m] == idxs[i as int]);
                }
            }
        }
        let ghost before = slots@;
        slots.push(None);
        let taken = slots.swap_remove(j);
        proof {
            assert(slots@ =~= before.update(j as int, None));
        }
        match taken {
            Some(v) => {
                r.push(v);
            },
            None => {},
        }
        proof {
            assert forall|k: int| 0 <= k < n implies (#[trigger] slots@[k] is None) == (exists|m: int| 0 <= m < i + 1 && idxs[m] == n - 1 - k) by {
                if k == j {
                    assert(idxs[i as int] == n - 1 - k);
                } else if exists|m: int| 0 <= m < i + 1 && idxs[m] == n - 1 - k {
                    let m = choose|m: int| 0 <= m < i + 1 && idxs[m] == n - 1 - k;
                    assert(m != i);
                }
            }
        }
        i = i + 1;
    }
    r
}

} // verus!
