//! Resolution of a render graph's resources: for each resource a node
//! consumes or borrows, which of the resource's producers it takes it from.

use vstd::prelude::*;
use crate::graph::{InputOrNode, ResolvedInput, ResolvedResources};
use crate::compiled::{GraphShape, list_contains, lemma_producer_is_node};

verus! {

/// A pair (after, before) of the ordering search: a producer and a node.
pub open spec fn pair_in_range(p: (InputOrNode, usize), n: nat) -> bool {
    &&& (p.1 as nat) < n
    &&& (p.0 matches InputOrNode::Node(x) ==> (x as nat) < n)
}

/// A number for each pair in range, different for different pairs.
pub open spec fn pair_code(p: (InputOrNode, usize), n: nat) -> int {
    match p.0 {
        InputOrNode::Input => p.1 as int,
        InputOrNode::Node(x) => (x as int + 1) * (n as int) + p.1 as int,
    }
}

proof fn lemma_pair_code(p: (InputOrNode, usize), q: (InputOrNode, usize), n: nat)
    requires
        pair_in_range(p, n),
        pair_in_range(q, n),
    ensures
        0 <= pair_code(p, n) < (n + 1) * n,
        pair_code(p, n) == pair_code(q, n) ==> p == q,
{
    match p.0 {
        InputOrNode::Input => {
            assert(0 <= (p.1 as int) < (n + 1) * n) by (nonlinear_arith)
                requires
                    (p.1 as int) < n,
            ;
        },
        InputOrNode::Node(x) => {
            assert(0 <= (x as int + 1) * (n as int) + (p.1 as int) < (n + 1) * n) by (nonlinear_arith)
                requires
                    (x as int) < n,
                    (p.1 as int) < n,
                    0 <= p.1,
            ;
        },
    }
    if pair_code(p, n) == pair_code(q, n) {
        let a: int = match p.0 {
            InputOrNode::Input => 0,
            InputOrNode::Node(x) => x as int + 1,
        };
        let b: int = match q.0 {
            InputOrNode::Input => 0,
            InputOrNode::Node(x) => x as int + 1,
        };
        assert(pair_code(p, n) == a * n + p.1);
        assert(pair_code(q, n) == b * n + q.1);
        assert(a == b && p.1 == q.1) by (nonlinear_arith)
            requires
                a * n + p.1 == b * n + q.1,
                0 <= p.1 < n,
                0 <= q.1 < n,
                0 <= a,
                0 <= b,
        ;
    }
}

/// Distinct pairs in range are at most `(n + 1) * n`.
proof fn lemma_pairs_bound(s: Seq<(InputOrNode, usize)>, n: nat)
    requires
        forall|i: int| 0 <= i < s.len() ==> pair_in_range(#[trigger] s[i], n),
        forall|i: int, j: int| 0 <= i < j < s.len() ==> s[i] != s[j],
    ensures
        s.len() <= (n + 1) * n,
{
    let codes = Seq::new(s.len(), |i: int| pair_code(s[i], n));
    assert forall|i: int, j: int| 0 <= i < j < codes.len() implies codes[i] != codes[j] by {
        lemma_pair_code(s[i], s[j], n);
    }
    codes.unique_seq_to_set();
    let range = vstd::set_lib::set_int_range(0, ((n + 1) * n) as int);
    vstd::set_lib::lemma_int_range(0, ((n + 1) * n) as int);
    assert forall|c: int| codes.to_set().contains(c) implies range.contains(c) by {
        let i = choose|i: int| 0 <= i < codes.len() && codes[i] == c;
        lemma_pair_code(s[i], s[i], n);
    }
    vstd::set_lib::lemma_len_subset(codes.to_set(), range);
}

/// True if `v` holds the pair `p`.
fn pairs_contain(v: &Vec<(InputOrNode, usize)>, p: (InputOrNode, usize)) -> (r: bool)
    ensures
        r == v@.contains(p),
{
    let mut i: usize = 0;
    while i < v.len()
        invariant
            i <= v@.len(),
            forall|j: int| 0 <= j < i ==> v@[j] != p,
        decreases v@.len() - i,
    {
        let q = v[i];
        if q.0 == p.0 && q.1 == p.1 {
            assert(v@[i as int] == p);
            return true;
        }
        i = i + 1;
    }
    false
}

/// Adds `p` to the set `v` unless it is there.
fn pairs_insert(v: &mut Vec<(InputOrNode, usize)>, p: (InputOrNode, usize))
    ensures
        forall|q: (InputOrNode, usize)| #[trigger] final(v)@.contains(q) == (old(v)@.contains(q) || q == p),
{
    if !pairs_contain(v, p) {
        let ghost before = v@;
        v.push(p);
        proof {
            assert forall|q: (InputOrNode, usize)| #[trigger] v@.contains(q) == (before.contains(q) || q == p) by {
                if v@.contains(q) && q != p {
                    let i = choose|i: int| 0 <= i < v@.len() && v@[i] == q;
                    assert(before[i] == q);
                }
                if before.contains(q) {
                    let i = choose|i: int| 0 <= i < before.len() && before[i] == q;
                    assert(v@[i] == q);
                }
                if q == p {
                    assert(v@[before.len() as int] == p);
                }
            }
        }
    }
}

/// A copy of the pairs in `v`.
fn copy_pairs(v: &Vec<(InputOrNode, usize)>) -> (r: Vec<(InputOrNode, usize)>)
    ensures
        r@ == v@,
{
    let mut out: Vec<(InputOrNode, usize)> = Vec::new();
    let mut i: usize = 0;
    while i < v.len()
        invariant
            i <= v@.len(),
            out@ == v@.take(i as int),
        decreases v@.len() - i,
    {
        out.push(v[i]);
        i = i + 1;
        assert(out@ =~= v@.take(i as int));
    }
    assert(v@.take(v@.len() as int) =~= v@);
    out
}

/// The resolution in progress: for each node, the resolved input of each
/// resource it consumes and of each resource it borrows, where one was
/// chosen, and the memory of the ordering search.
pub struct GraphResourceResolver {
    node_count: usize,
    explicit_orderings: Vec<(usize, usize)>,
    resolved_inputs: Vec<Vec<Option<ResolvedInput>>>,
    resolved_borrows: Vec<Vec<Option<ResolvedInput>>>,
    after_or_equal_cache: Vec<(InputOrNode, usize)>,
    after_or_equal_cache_inv: Vec<(InputOrNode, usize)>,
}

impl GraphResourceResolver {
    pub closed spec fn nodes(&self) -> nat {
        self.node_count as nat
    }

    /// The resolved inputs of the consumed resources of node `n`.
    pub closed spec fn input_slots(&self, n: int) -> Seq<Option<ResolvedInput>> {
        self.resolved_inputs@[n]@
    }

    /// The resolved inputs of the borrowed resources of node `n`.
    pub closed spec fn borrow_slots(&self, n: int) -> Seq<Option<ResolvedInput>> {
        self.resolved_borrows@[n]@
    }

    pub closed spec fn orderings(&self) -> Seq<(usize, usize)> {
        self.explicit_orderings@
    }

    pub closed spec fn wf(&self) -> bool {
        &&& self.resolved_inputs@.len() == self.node_count
        &&& self.resolved_borrows@.len() == self.node_count
    }

    /// The search remembers as holding only pairs that start with a node.
    pub closed spec fn memory_ok(&self) -> bool {
        &&& forall|p: (InputOrNode, usize)| #[trigger] self.after_or_equal_cache@.contains(p) ==> p.0 is Node
        &&& forall|p: (InputOrNode, usize)| #[trigger] self.after_or_equal_cache_inv@.contains(p) && p.0 == InputOrNode::Node(p.1)
            ==> self.after_or_equal_cache@.contains(p)
    }

    /// The search remembers as holding only pairs of a node and itself.
    pub closed spec fn memory_plain(&self) -> bool {
        forall|p: (InputOrNode, usize)| #[trigger] self.after_or_equal_cache@.contains(p) ==> p.0 == InputOrNode::Node(p.1)
    }

    /// Both hold the same resolution; only what the search remembers may
    /// differ.
    pub closed spec fn same_resolution(&self, other: &Self) -> bool {
        &&& self.node_count == other.node_count
        &&& self.explicit_orderings@ == other.explicit_orderings@
        &&& self.resolved_inputs@ == other.resolved_inputs@
        &&& self.resolved_borrows@ == other.resolved_borrows@
    }

    /// Every consumed and every borrowed resource is resolved.
    pub closed spec fn complete(&self) -> bool {
        &&& forall|n: int, i: int|
            0 <= n < self.nodes() && 0 <= i < self.input_slots(n).len() ==> (#[trigger] self.input_slots(n)[i]) is Some
        &&& forall|n: int, i: int|
            0 <= n < self.nodes() && 0 <= i < self.borrow_slots(n).len() ==> (#[trigger] self.borrow_slots(n)[i]) is Some
    }

    /// True if every consumed and borrowed resource is resolved.
    pub fn is_complete(&self) -> (r: bool)
        requires
            self.wf(),
        ensures
            r == self.complete(),
    {
        let mut n: usize = 0;
        while n < self.node_count
            invariant
                self.wf(),
                n <= self.node_count,
                forall|m: int, i: int|
                    0 <= m < n && 0 <= i < self.input_slots(m).len() ==> (#[trigger] self.input_slots(m)[i]) is Some,
                forall|m: int, i: int|
                    0 <= m < n && 0 <= i < self.borrow_slots(m).len() ==> (#[trigger] self.borrow_slots(m)[i]) is Some,
            decreases self.node_count - n,
        {
            let row = &self.resolved_inputs[n];
            let mut i: usize = 0;
            while i < row.len()
                invariant
                    n < self.nodes(),
                    row@ == self.input_slots(n as int),
                    i <= row@.len(),
                    forall|j: int| 0 <= j < i ==> (#[trigger] row@[j]) is Some,
                decreases row@.len() - i,
            {
                if row[i].is_none() {
                    proof {
                        assert(self.input_slots(n as int)[i as int] is None);
                    }
                    return false;
                }
                i = i + 1;
            }
            let row = &self.resolved_borrows[n];
            let mut i: usize = 0;
            while i < row.len()
                invariant
                    n < self.nodes(),
                    row@ == self.borrow_slots(n as int),
                    i <= row@.len(),
                    forall|j: int| 0 <= j < i ==> (#[trigger] row@[j]) is Some,
                decreases row@.len() - i,
            {
                if row[i].is_none() {
                    proof {
                        assert(self.borrow_slots(n as int)[i as int] is None);
                    }
                    return false;
                }
                i = i + 1;
            }
            n = n + 1;
        }
        true
    }

    /// True if every consumed resource of `node` is unresolved.
    fn inputs_all_unresolved(&self, node: usize) -> (r: bool)
        requires
            self.wf(),
            node < self.nodes(),
        ensures
            r == forall|i: int| 0 <= i < self.input_slots(node as int).len() ==> (#[trigger] self.input_slots(node as int)[i]) is None,
    {
        let row = &self.resolved_inputs[node];
        let mut i: usize = 0;
        while i < row.len()
            invariant
                row@ == self.input_slots(node as int),
                i <= row@.len(),
                forall|j: int| 0 <= j < i ==> (#[trigger] row@[j]) is None,
            decreases row@.len() - i,
        {
            if row[i].is_some() {
                return false;
            }
            i = i + 1;
        }
        true
    }

    /// True if a resolved consumed or borrowed resource of `node` comes from
    /// node `before`.
    fn takes_from(&self, node: usize, before: usize) -> (r: bool)
        requires
            self.wf(),
            node < self.nodes(),
        ensures
            r == self.takes_from_spec(node as int, before),
    {
        let row = &self.resolved_inputs[node];
        let mut i: usize = 0;
        while i < row.len()
            invariant
                row@ == self.input_slots(node as int),
                i <= row@.len(),
                forall|j: int| 0 <= j < i ==> !comes_from(#[trigger] row@[j], before),
            decreases row@.len() - i,
        {
            if let Some(x) = row[i] {
                if x.producer == InputOrNode::Node(before) {
                    proof {
                        assert(comes_from(self.input_slots(node as int)[i as int], before));
                    }
                    return true;
                }
            }
            i = i + 1;
        }
        let row = &self.resolved_borrows[node];
        let mut i: usize = 0;
        while i < row.len()
            invariant
                row@ == self.borrow_slots(node as int),
                i <= row@.len(),
                forall|j: int| 0 <= j < self.input_slots(node as int).len() ==> !comes_from(#[trigger] self.input_slots(node as int)[j], before),
                forall|j: int| 0 <= j < i ==> !comes_from(#[trigger] row@[j], before),
            decreases row@.len() - i,
        {
            if let Some(x) = row[i] {
                if x.producer == InputOrNode::Node(before) {
                    proof {
                        assert(comes_from(self.borrow_slots(node as int)[i as int], before));
                    }
                    return true;
                }
            }
            i = i + 1;
        }
        false
    }

    /// True if a resolved consumed resource of `after` is a resolved borrowed
    /// resource of `before`.
    fn consumes_what_is_borrowed(&self, after: usize, before: usize) -> (r: bool)
        requires
            self.wf(),
            after < self.nodes(),
            before < self.nodes(),
        ensures
            r == self.consumes_borrowed_spec(after as int, before as int),
    {
        let row = &self.resolved_inputs[after];
        let other = &self.resolved_borrows[before];
        let mut i: usize = 0;
        while i < row.len()
            invariant
                row@ == self.input_slots(after as int),
                other@ == self.borrow_slots(before as int),
                i <= row@.len(),
                forall|a: int, b: int| 0 <= a < i && 0 <= b < other@.len() ==> !shared_slot(#[trigger] row@[a], #[trigger] other@[b]),
            decreases row@.len() - i,
        {
            if let Some(x) = row[i] {
                let mut j: usize = 0;
                while j < other.len()
                    invariant
                        row@ == self.input_slots(after as int),
                        other@ == self.borrow_slots(before as int),
                        i < row@.len(),
                        row@[i as int] == Some(x),
                        j <= other@.len(),
                        forall|a: int, b: int| 0 <= a < i && 0 <= b < other@.len() ==> !shared_slot(#[trigger] row@[a], #[trigger] other@[b]),
                        forall|b: int| 0 <= b < j ==> !shared_slot(row@[i as int], #[trigger] other@[b]),
                    decreases other@.len() - j,
                {
                    if let Some(y) = other[j] {
                        if x == y {
                            proof {
                                assert(shared_slot(row@[i as int], other@[j as int]));
                            }
                            return true;
                        }
                    }
                    j = j + 1;
                }
            }
            i = i + 1;
        }
        false
    }

    /// True if (before, after) is an explicit ordering.
    fn explicitly_ordered(&self, before: usize, after: usize) -> (r: bool)
        ensures
            r == self.orderings().contains((before, after)),
    {
        let mut i: usize = 0;
        while i < self.explicit_orderings.len()
            invariant
                i <= self.explicit_orderings@.len(),
                forall|j: int| 0 <= j < i ==> self.explicit_orderings@[j] != (before, after),
            decreases self.explicit_orderings@.len() - i,
        {
            let o = self.explicit_orderings[i];
            if o.0 == before && o.1 == after {
                proof {
                    assert(self.orderings()[i as int] == (before, after));
                }
                return true;
            }
            i = i + 1;
        }
        false
    }

    /// A resolved consumed or borrowed resource of `node` comes from node
    /// `before`.
    pub open spec fn takes_from_spec(&self, node: int, before: usize) -> bool {
        ||| exists|i: int| 0 <= i < self.input_slots(node).len() && comes_from(#[trigger] self.input_slots(node)[i], before)
        ||| exists|i: int| 0 <= i < self.borrow_slots(node).len() && comes_from(#[trigger] self.borrow_slots(node)[i], before)
    }

    /// A resolved consumed resource of `after` is a resolved borrowed
    /// resource of `before`.
    pub open spec fn consumes_borrowed_spec(&self, after: int, before: int) -> bool {
        exists|a: int, b: int|
            0 <= a < self.input_slots(after).len() && 0 <= b < self.borrow_slots(before).len()
                && shared_slot(#[trigger] self.input_slots(after)[a], #[trigger] self.borrow_slots(before)[b])
    }
}

/// The slot is resolved to node `before`.
pub open spec fn comes_from(slot: Option<ResolvedInput>, before: usize) -> bool {
    slot matches Some(x) && x.producer == InputOrNode::Node(before)
}

/// Both slots are resolved, to the same resource and producer.
pub open spec fn shared_slot(a: Option<ResolvedInput>, b: Option<ResolvedInput>) -> bool {
    a is Some && a == b
}

impl GraphResourceResolver {
    /// The search remembers that the pair holds.
    pub closed spec fn remembered_after(&self, p: (InputOrNode, usize)) -> bool {
        self.after_or_equal_cache@.contains(p)
    }

    /// The search remembers that the pair does not hold.
    pub closed spec fn remembered_not_after(&self, p: (InputOrNode, usize)) -> bool {
        self.after_or_equal_cache_inv@.contains(p)
    }

    /// Everything `old` remembers, `self` remembers too.
    pub open spec fn memory_grows(&self, old: &Self) -> bool {
        &&& forall|p: (InputOrNode, usize)| #[trigger] old.remembered_after(p) ==> self.remembered_after(p)
        &&& forall|p: (InputOrNode, usize)| #[trigger] old.remembered_not_after(p) ==> self.remembered_not_after(p)
    }

    /// The answer of the ordering search for (after, before) where it does
    /// not search through a third node: from memory (looked up with the
    /// pair itself), false for a pair already being searched and for the
    /// graph's inputs, true for a node and itself, false when either node
    /// has no resolved consumed resource, true through an explicit
    /// ordering, a resource taken from `before`, or a resource `after`
    /// consumes that `before` borrows. `None` where the search goes on
    /// through third nodes.
    pub open spec fn search_answer(&self, recursive: Seq<(InputOrNode, usize)>, after: InputOrNode, before: usize) -> Option<bool> {
        if self.remembered_after((after, before)) {
            Some(true)
        } else if self.remembered_not_after((after, before)) {
            Some(false)
        } else if recursive.contains((after, before)) {
            Some(false)
        } else {
            match after {
                InputOrNode::Input => Some(false),
                InputOrNode::Node(a) => {
                    if a == before {
                        Some(true)
                    } else if self.no_input_resolved(a as int) || self.no_input_resolved(before as int) {
                        Some(false)
                    } else if self.orderings().contains((before, a)) || self.takes_from_spec(a as int, before)
                        || self.consumes_borrowed_spec(a as int, before as int) {
                        Some(true)
                    } else {
                        None
                    }
                },
            }
        }
    }

    /// With its memory in order, the search answers that a node is after
    /// or equal to itself.
    proof fn lemma_self_after(&self, n: usize)
        requires
            self.memory_ok(),
        ensures
            self.search_answer(Seq::empty(), InputOrNode::Node(n), n) == Some(true),
    {
        if self.remembered_not_after((InputOrNode::Node(n), n)) {
            assert(self.after_or_equal_cache_inv@.contains((InputOrNode::Node(n), n)));
        }
    }

    /// No consumed resource of node `n` is resolved yet.
    pub open spec fn no_input_resolved(&self, n: int) -> bool {
        forall|i: int| 0 <= i < self.input_slots(n).len() ==> (#[trigger] self.input_slots(n)[i]) is None
    }

    /// No consumed resource of any node is resolved yet.
    pub open spec fn no_inputs_resolved(&self) -> bool {
        forall|n: int| 0 <= n < self.nodes() ==> #[trigger] self.no_input_resolved(n)
    }

    /// Whether any consumed resource is resolved depends on the resolution
    /// only.
    proof fn lemma_same_no_inputs(s1: &Self, s2: &Self)
        requires
            s2.same_resolution(s1),
            s1.no_inputs_resolved(),
        ensures
            s2.no_inputs_resolved(),
    {
        assert forall|n: int| 0 <= n < s2.nodes() implies #[trigger] s2.no_input_resolved(n) by {
            assert(s2.input_slots(n) == s1.input_slots(n));
            assert(s1.no_input_resolved(n));
        }
    }

    /// Before any consumed resource is resolved, with nothing but a node
    /// and itself remembered as holding, the search answers that exactly
    /// the node itself is after or equal to it.
    proof fn lemma_fresh_search(&self, cand: InputOrNode, n: usize)
        requires
            self.memory_ok(),
            self.memory_plain(),
            self.no_inputs_resolved(),
            (n as nat) < self.nodes(),
            cand matches InputOrNode::Node(x) ==> (x as nat) < self.nodes(),
        ensures
            self.search_answer(Seq::empty(), cand, n) == Some(cand == InputOrNode::Node(n)),
    {
        if cand == InputOrNode::Node(n) {
            self.lemma_self_after(n);
        } else {
            if self.remembered_after((cand, n)) {
                assert(self.after_or_equal_cache@.contains((cand, n)));
            }
            if let InputOrNode::Node(a) = cand {
                assert(self.no_input_resolved(a as int));
            }
        }
    }
}

impl GraphResourceResolver {
    /// The ordering search: true if `after` has to run after `before`, or
    /// is `before`. It is false for the graph's inputs and for a node none
    /// of whose consumed resources is resolved yet; otherwise it holds
    /// through an explicit ordering, a resolved resource taken from
    /// `before`, a resolved resource `after` consumes that `before` borrows,
    /// or a third node in between. `recursive` holds the pairs already
    /// being searched, which count as false. Each result is remembered:
    /// a true one as the pair reversed, together with the pairs it
    /// extends; a false one, reversed, in the second memory. A remembered
    /// pair is answered from memory.
    fn is_after_or_equal_rec(&mut self, recursive: Vec<(InputOrNode, usize)>, after: InputOrNode, before: usize) -> (r: bool)
        requires
            old(self).wf(),
            pair_in_range((after, before), old(self).nodes()),
            forall|i: int| 0 <= i < recursive@.len() ==> pair_in_range(#[trigger] recursive@[i], old(self).nodes()),
            forall|i: int, j: int| 0 <= i < j < recursive@.len() ==> recursive@[i] != recursive@[j],
        ensures
            final(self).wf(),
            final(self).same_resolution(old(self)),
            final(self).memory_grows(old(self)),
            old(self).memory_ok() ==> final(self).memory_ok(),
            old(self).search_answer(recursive@, after, before) matches Some(b) ==> r == b,
            old(self).search_answer(recursive@, after, before) is None ==> {
                &&& (r ==> final(self).remembered_after((InputOrNode::Node(before), after->0)))
                &&& (!r ==> final(self).remembered_not_after((InputOrNode::Node(before), after->0)))
            },
            old(self).no_inputs_resolved() && old(self).memory_plain() ==> final(self).memory_plain(),
        decreases (old(self).nodes() + 1) * old(self).nodes() - recursive@.len(),
    {
        let n = self.node_count;
        let ghost fresh = old(self).no_inputs_resolved() && old(self).memory_plain();
        if pairs_contain(&self.after_or_equal_cache, (after, before)) {
            return true;
        }
        if pairs_contain(&self.after_or_equal_cache_inv, (after, before)) {
            return false;
        }
        if pairs_contain(&recursive, (after, before)) {
            return false;
        }
        let mut trail = copy_pairs(&recursive);
        let ghost rec0 = recursive@;
        trail.push((after, before));
        proof {
            assert forall|i: int| 0 <= i < trail@.len() implies pair_in_range(#[trigger] trail@[i], n as nat) by {
                if i < rec0.len() {
                    assert(trail@[i] == rec0[i]);
                }
            }
            assert forall|i: int, j: int| 0 <= i < j < trail@.len() implies trail@[i] != trail@[j] by {
                if j == rec0.len() {
                    assert(trail@[i] == rec0[i]);
                    assert(rec0.contains(rec0[i]));
                } else {
                    assert(trail@[i] == rec0[i] && trail@[j] == rec0[j]);
                }
            }
            lemma_pairs_bound(trail@, n as nat);
        }
        let after = match after {
            InputOrNode::Input => return false,
            InputOrNode::Node(node) => node,
        };
        proof {
            if fresh {
                assert(self.no_input_resolved(after as int));
            }
        }
        let result = if after == before {
            true
        } else if self.inputs_all_unresolved(after) || self.inputs_all_unresolved(before) {
            false
        } else if self.explicitly_ordered(before, after) {
            true
        } else if self.takes_from(after, before) {
            true
        } else if self.consumes_what_is_borrowed(after, before) {
            true
        } else {
            let mut found = false;
            let mut third: usize = 0;
            while third < n && !found
                invariant
                    self.wf(),
                    self.same_resolution(old(self)),
                    n == self.nodes(),
                    after < n,
                    before < n,
                    forall|i: int| 0 <= i < trail@.len() ==> pair_in_range(#[trigger] trail@[i], n as nat),
                    forall|i: int, j: int| 0 <= i < j < trail@.len() ==> trail@[i] != trail@[j],
                    trail@.len() <= (n + 1) * n,
                    trail@.len() == recursive@.len() + 1,
                    old(self).nodes() == n as nat,
                    self.memory_grows(old(self)),
                    old(self).memory_ok() ==> self.memory_ok(),
                decreases n - third,
            {
                assert((old(self).nodes() + 1) * old(self).nodes() == (n + 1) * n);
                let first_leg = self.is_after_or_equal_rec(copy_pairs(&trail), InputOrNode::Node(after), third);
                if first_leg {
                    let second_leg = self.is_after_or_equal_rec(copy_pairs(&trail), InputOrNode::Node(third), before);
                    if second_leg {
                        found = true;
                    }
                }
                third = third + 1;
            }
            found
        };
        proof {
            assert(fresh ==> (result ==> after == before) && self.memory_plain());
        }
        if result {
            pairs_insert(&mut self.after_or_equal_cache, (InputOrNode::Node(before), after));
            let snapshot = copy_pairs(&self.after_or_equal_cache);
            let ghost ok0 = old(self).memory_ok();
            let mut k: usize = 0;
            while k < snapshot.len()
                invariant
                    self.wf(),
                    self.same_resolution(old(self)),
                    self.memory_grows(old(self)),
                    self.remembered_after((InputOrNode::Node(before), after)),
                    ok0 == old(self).memory_ok(),
                    ok0 ==> self.memory_ok(),
                    ok0 ==> forall|p: (InputOrNode, usize)| #[trigger] snapshot@.contains(p) ==> p.0 is Node,
                    fresh ==> after == before,
                    fresh ==> self.memory_plain(),
                    fresh ==> forall|p: (InputOrNode, usize)| #[trigger] snapshot@.contains(p) ==> p.0 == InputOrNode::Node(p.1),
                    k <= snapshot@.len(),
                decreases snapshot@.len() - k,
            {
                let entry = snapshot[k];
                proof {
                    assert(snapshot@.contains(snapshot@[k as int]));
                }
                if entry.1 == after {
                    pairs_insert(&mut self.after_or_equal_cache, (entry.0, before));
                }
                k = k + 1;
            }
        } else {
            proof {
                assert(after != before);
            }
            pairs_insert(&mut self.after_or_equal_cache_inv, (InputOrNode::Node(before), after));
        }
        result
    }

    /// The ordering search from a fresh start.
    fn is_after_or_equal(&mut self, after: InputOrNode, before: usize) -> (r: bool)
        requires
            old(self).wf(),
            pair_in_range((after, before), old(self).nodes()),
        ensures
            final(self).wf(),
            final(self).same_resolution(old(self)),
            final(self).memory_grows(old(self)),
            old(self).memory_ok() ==> final(self).memory_ok(),
            old(self).search_answer(Seq::empty(), after, before) matches Some(b) ==> r == b,
            old(self).search_answer(Seq::empty(), after, before) is None ==> {
                &&& (r ==> final(self).remembered_after((InputOrNode::Node(before), after->0)))
                &&& (!r ==> final(self).remembered_not_after((InputOrNode::Node(before), after->0)))
            },
            old(self).no_inputs_resolved() && old(self).memory_plain() ==> final(self).memory_plain(),
    {
        let empty: Vec<(InputOrNode, usize)> = Vec::new();
        proof {
            assert(empty@ =~= Seq::<(InputOrNode, usize)>::empty());
        }
        self.is_after_or_equal_rec(empty, after, before)
    }
}

/// The number of unresolved entries of `row`.
pub open spec fn unresolved_in(row: Seq<Option<ResolvedInput>>) -> nat
    decreases row.len(),
{
    if row.len() == 0 {
        0
    } else {
        unresolved_in(row.drop_last()) + if row.last() is None {
            1nat
        } else {
            0nat
        }
    }
}

/// The number of unresolved entries of the first `k` rows.
pub open spec fn unresolved_rows(rows: Seq<Vec<Option<ResolvedInput>>>, k: nat) -> nat
    decreases k,
{
    if k == 0 {
        0
    } else {
        unresolved_rows(rows, (k - 1) as nat) + unresolved_in(rows[k - 1]@)
    }
}

proof fn lemma_unresolved_in_set(row: Seq<Option<ResolvedInput>>, i: int, x: ResolvedInput)
    requires
        0 <= i < row.len(),
    ensures
        unresolved_in(row.update(i, Some(x))) + (if row[i] is None { 1nat } else { 0nat }) == unresolved_in(row),
    decreases row.len(),
{
    let t = row.update(i, Some(x));
    if i == row.len() - 1 {
        assert(t.drop_last() =~= row.drop_last());
    } else {
        lemma_unresolved_in_set(row.drop_last(), i, x);
        assert(t.drop_last() =~= row.drop_last().update(i, Some(x)));
    }
}

proof fn lemma_unresolved_rows_set(rows: Seq<Vec<Option<ResolvedInput>>>, rows2: Seq<Vec<Option<ResolvedInput>>>, n: int, k: nat)
    requires
        rows2.len() == rows.len(),
        0 <= n < rows.len(),
        k <= rows.len(),
        forall|m: int| 0 <= m < rows.len() && m != n ==> #[trigger] rows2[m]@ == rows[m]@,
    ensures
        n < k ==> unresolved_rows(rows2, k) + unresolved_in(rows[n]@) == unresolved_rows(rows, k) + unresolved_in(rows2[n]@),
        n >= k ==> unresolved_rows(rows2, k) == unresolved_rows(rows, k),
    decreases k,
{
    if k > 0 {
        lemma_unresolved_rows_set(rows, rows2, n, (k - 1) as nat);
        if k - 1 != n {
            assert(rows2[k - 1]@ == rows[k - 1]@);
        }
    }
}

/// The claims on one unresolved consumed resource: the node, the
/// position of the resource among those it consumes, and whether the
/// producer was picked among several because the resource is unordered
/// and the node also outputs it.
#[derive(Clone, Copy)]
pub struct ConsumeClaim {
    pub node: usize,
    pub input_idx: usize,
    pub is_from_unordered: bool,
}

/// The claims of one round of resolution, grouped by the resolved input
/// they claim, in the order the resolved inputs were first claimed.
pub struct Claims {
    keys: Vec<ResolvedInput>,
    consumes: Vec<(usize, ConsumeClaim)>,
    borrows: Vec<(usize, (usize, usize))>,
}

impl GraphResourceResolver {
    /// Resolves the consumed resource `i` of node `n` to `x`.
    fn set_input_slot(&mut self, n: usize, i: usize, x: ResolvedInput)
        requires
            old(self).wf(),
            n < old(self).nodes(),
            i < old(self).input_slots(n as int).len(),
        ensures
            final(self).wf(),
            final(self).nodes() == old(self).nodes(),
            final(self).orderings() == old(self).orderings(),
            forall|m: int| 0 <= m < final(self).nodes() ==> #[trigger] final(self).borrow_slots(m) == old(self).borrow_slots(m),
            forall|m: int| 0 <= m < final(self).nodes() && m != n ==> #[trigger] final(self).input_slots(m) == old(self).input_slots(m),
            final(self).input_slots(n as int) == old(self).input_slots(n as int).update(i as int, Some(x)),
            final(self).memory_ok() == old(self).memory_ok(),
            final(self).unresolved() + (if old(self).input_slots(n as int)[i as int] is None { 1nat } else { 0nat }) == old(self).unresolved(),
    {
        let ghost before = self.resolved_inputs@;
        let mut row = copy_slots(&self.resolved_inputs[n]);
        row.set(i, Some(x));
        self.resolved_inputs.set(n, row);
        proof {
            lemma_unresolved_in_set(before[n as int]@, i as int, x);
            lemma_unresolved_rows_set(before, self.resolved_inputs@, n as int, self.node_count as nat);
            assert(self.after_or_equal_cache@ == old(self).after_or_equal_cache@);
            assert(self.after_or_equal_cache_inv@ == old(self).after_or_equal_cache_inv@);
            assert(self.memory_ok() == old(self).memory_ok());
        }
    }

    /// Resolves the borrowed resource `i` of node `n` to `x`.
    fn set_borrow_slot(&mut self, n: usize, i: usize, x: ResolvedInput)
        requires
            old(self).wf(),
            n < old(self).nodes(),
            i < old(self).borrow_slots(n as int).len(),
        ensures
            final(self).wf(),
            final(self).nodes() == old(self).nodes(),
            final(self).orderings() == old(self).orderings(),
            forall|m: int| 0 <= m < final(self).nodes() ==> #[trigger] final(self).input_slots(m) == old(self).input_slots(m),
            forall|m: int| 0 <= m < final(self).nodes() && m != n ==> #[trigger] final(self).borrow_slots(m) == old(self).borrow_slots(m),
            final(self).borrow_slots(n as int) == old(self).borrow_slots(n as int).update(i as int, Some(x)),
            final(self).memory_ok() == old(self).memory_ok(),
            final(self).unresolved() + (if old(self).borrow_slots(n as int)[i as int] is None { 1nat } else { 0nat }) == old(self).unresolved(),
    {
        let ghost before = self.resolved_borrows@;
        let mut row = copy_slots(&self.resolved_borrows[n]);
        row.set(i, Some(x));
        self.resolved_borrows.set(n, row);
        proof {
            lemma_unresolved_in_set(before[n as int]@, i as int, x);
            lemma_unresolved_rows_set(before, self.resolved_borrows@, n as int, self.node_count as nat);
            assert(self.after_or_equal_cache@ == old(self).after_or_equal_cache@);
            assert(self.after_or_equal_cache_inv@ == old(self).after_or_equal_cache_inv@);
            assert(self.memory_ok() == old(self).memory_ok());
        }
    }

    /// The number of unresolved consumed and borrowed resources.
    pub closed spec fn unresolved(&self) -> nat {
        unresolved_rows(self.resolved_inputs@, self.node_count as nat) + unresolved_rows(self.resolved_borrows@, self.node_count as nat)
    }
}

/// A copy of `row`.
fn copy_slots(row: &Vec<Option<ResolvedInput>>) -> (r: Vec<Option<ResolvedInput>>)
    ensures
        r@ == row@,
{
    let mut out: Vec<Option<ResolvedInput>> = Vec::new();
    let mut i: usize = 0;
    while i < row.len()
        invariant
            i <= row@.len(),
            out@ == row@.take(i as int),
        decreases row@.len() - i,
    {
        out.push(row[i]);
        i = i + 1;
        assert(out@ =~= row@.take(i as int));
    }
    assert(row@.take(row@.len() as int) =~= row@);
    out
}

/// `list` without `p`.
fn without(list: &Vec<InputOrNode>, p: InputOrNode) -> (r: Vec<InputOrNode>)
    ensures
        forall|q: InputOrNode| #[trigger] r@.contains(q) == (list@.contains(q) && q != p),
{
    let mut out: Vec<InputOrNode> = Vec::new();
    let mut i: usize = 0;
    while i < list.len()
        invariant
            i <= list@.len(),
            forall|q: InputOrNode| #[trigger] out@.contains(q) == (list@.take(i as int).contains(q) && q != p),
        decreases list@.len() - i,
    {
        let ghost o0 = out@;
        let x = list[i];
        if x != p {
            out.push(x);
        }
        proof {
            let t0 = list@.take(i as int);
            let t1 = list@.take(i as int + 1);
            assert forall|q: InputOrNode| #[trigger] out@.contains(q) == (t1.contains(q) && q != p) by {
                if t1.contains(q) {
                    let j = choose|j: int| 0 <= j < t1.len() && t1[j] == q;
                    if j < i {
                        assert(t0[j] == q);
                    }
                }
                if t0.contains(q) {
                    let j = choose|j: int| 0 <= j < t0.len() && t0[j] == q;
                    assert(t1[j] == q);
                }
                if q == x {
                    assert(t1[i as int] == q);
                }
                if out@.contains(q) {
                    let j = choose|j: int| 0 <= j < out@.len() && out@[j] == q;
                    if j < o0.len() {
                        assert(o0[j] == q);
                    }
                }
                if o0.contains(q) {
                    let j = choose|j: int| 0 <= j < o0.len() && o0[j] == q;
                    assert(out@[j] == q);
                }
                if q == x && x != p {
                    assert(out@[o0.len() as int] == q);
                }
            }
        }
        i = i + 1;
    }
    proof {
        assert(list@.take(list@.len() as int) =~= list@);
    }
    out
}
impl Claims {
    /// The claims fit the resolver `s` of `shape`, whose consumable
    /// producers are `producers`: each claims an unresolved resource of a
    /// node, for one of its producers.
    pub closed spec fn fits(&self, s: &GraphResourceResolver, shape: &GraphShape, producers: Seq<Vec<InputOrNode>>) -> bool {
        &&& forall|a: int, b: int| 0 <= a < b < self.keys@.len() ==> self.keys@[a] != self.keys@[b]
        &&& forall|j: int|
            0 <= j < self.consumes@.len() ==> {
                let (k, c) = #[trigger] self.consumes@[j];
                &&& k < self.keys@.len()
                &&& c.node < s.nodes()
                &&& c.input_idx < s.input_slots(c.node as int).len()
                &&& s.input_slots(c.node as int)[c.input_idx as int] is None
                &&& self.keys@[k as int].resource == shape.consumes(c.node as int)[c.input_idx as int]
                &&& producers[self.keys@[k as int].resource as int]@.contains(self.keys@[k as int].producer)
                &&& self.keys@[k as int].producer != InputOrNode::Node(c.node)
            }
        &&& forall|j: int|
            0 <= j < self.borrows@.len() ==> {
                let (k, (bn, bi)) = #[trigger] self.borrows@[j];
                &&& k < self.keys@.len()
                &&& bn < s.nodes()
                &&& bi < s.borrow_slots(bn as int).len()
                &&& s.borrow_slots(bn as int)[bi as int] is None
                &&& self.keys@[k as int].resource == shape.borrows(bn as int)[bi as int]
                &&& shape.producers_spec(self.keys@[k as int].resource).contains(self.keys@[k as int].producer)
                &&& self.keys@[k as int].producer != InputOrNode::Node(bn)
            }
        &&& forall|k: int| 0 <= k < self.keys@.len() ==> #[trigger] self.claimed(k)
    }

    /// Some claim is on the `k`-th resolved input.
    pub closed spec fn claimed(&self, k: int) -> bool {
        ||| exists|j: int| 0 <= j < self.consumes@.len() && #[trigger] self.consumes@[j].0 == k
        ||| exists|j: int| 0 <= j < self.borrows@.len() && #[trigger] self.borrows@[j].0 == k
    }

    /// The position of `key`, added at the end when it is not there.
    fn key_index(&mut self, key: ResolvedInput) -> (k: usize)
        requires
            forall|a: int, b: int| 0 <= a < b < old(self).keys@.len() ==> old(self).keys@[a] != old(self).keys@[b],
        ensures
            forall|a: int, b: int| 0 <= a < b < final(self).keys@.len() ==> final(self).keys@[a] != final(self).keys@[b],
            k < final(self).keys@.len(),
            final(self).keys@[k as int] == key,
            final(self).keys@ == old(self).keys@ || (final(self).keys@ == old(self).keys@.push(key) && k == old(self).keys@.len()),
            final(self).consumes@ == old(self).consumes@,
            final(self).borrows@ == old(self).borrows@,
    {
        let mut i: usize = 0;
        while i < self.keys.len()
            invariant
                self.keys@ == old(self).keys@,
                self.consumes@ == old(self).consumes@,
                self.borrows@ == old(self).borrows@,
                forall|a: int, b: int| 0 <= a < b < self.keys@.len() ==> self.keys@[a] != self.keys@[b],
                i <= self.keys@.len(),
                forall|j: int| 0 <= j < i ==> self.keys@[j] != key,
            decreases self.keys@.len() - i,
        {
            if self.keys[i] == key {
                return i;
            }
            i = i + 1;
        }
        let ghost before = self.keys@;
        self.keys.push(key);
        proof {
            assert forall|a: int, b: int| 0 <= a < b < self.keys@.len() implies self.keys@[a] != self.keys@[b] by {
                if b == before.len() {
                    assert(self.keys@[a] == before[a]);
                } else {
                    assert(self.keys@[a] == before[a] && self.keys@[b] == before[b]);
                }
            }
        }
        i
    }
}

impl GraphResourceResolver {
    /// The slots have the lengths of the consumed and borrowed lists.
    pub closed spec fn slots_fit(&self, shape: &GraphShape) -> bool {
        &&& self.wf()
        &&& self.node_count as nat == shape.node_count()
        &&& forall|n: int| 0 <= n < self.node_count ==> (#[trigger] self.input_slots(n)).len() == shape.consumes(n).len()
        &&& forall|n: int| 0 <= n < self.node_count ==> (#[trigger] self.borrow_slots(n)).len() == shape.borrows(n).len()
    }

    /// True if every consumed and borrowed resource of `node` is resolved.
    fn node_finished(&self, node: usize) -> (r: bool)
        requires
            self.wf(),
            node < self.nodes(),
        ensures
            r == self.finished(node as int),
    {
        let row = &self.resolved_inputs[node];
        let mut i: usize = 0;
        while i < row.len()
            invariant
                row@ == self.input_slots(node as int),
                i <= row@.len(),
                forall|j: int| 0 <= j < i ==> (#[trigger] row@[j]) is Some,
            decreases row@.len() - i,
        {
            if row[i].is_none() {
                proof {
                    assert(self.input_slots(node as int)[i as int] is None);
                }
                return false;
            }
            i = i + 1;
        }
        let row = &self.resolved_borrows[node];
        let mut i: usize = 0;
        while i < row.len()
            invariant
                row@ == self.borrow_slots(node as int),
                i <= row@.len(),
                forall|j: int| 0 <= j < self.input_slots(node as int).len() ==> (#[trigger] self.input_slots(node as int)[j]) is Some,
                forall|j: int| 0 <= j < i ==> (#[trigger] row@[j]) is Some,
            decreases row@.len() - i,
        {
            if row[i].is_none() {
                proof {
                    assert(self.borrow_slots(node as int)[i as int] is None);
                }
                return false;
            }
            i = i + 1;
        }
        true
    }

    /// Every consumed and borrowed resource of node `n` is resolved.
    pub open spec fn finished(&self, n: int) -> bool {
        &&& forall|i: int| 0 <= i < self.input_slots(n).len() ==> (#[trigger] self.input_slots(n)[i]) is Some
        &&& forall|i: int| 0 <= i < self.borrow_slots(n).len() ==> (#[trigger] self.borrow_slots(n)[i]) is Some
    }

    /// The first node whose resolved consumed resources hold `ri`.
    fn consumer(&self, ri: ResolvedInput) -> (r: Option<usize>)
        requires
            self.wf(),
        ensures
            r matches Some(c) ==> c < self.nodes() && self.input_slots(c as int).contains(Some(ri)),
            r is None ==> forall|c: int| 0 <= c < self.nodes() ==> !#[trigger] self.input_slots(c).contains(Some(ri)),
    {
        let mut n: usize = 0;
        while n < self.node_count
            invariant
                self.wf(),
                n <= self.node_count,
                forall|c: int| 0 <= c < n ==> !#[trigger] self.input_slots(c).contains(Some(ri)),
            decreases self.node_count - n,
        {
            let row = &self.resolved_inputs[n];
            let mut i: usize = 0;
            while i < row.len()
                invariant
                    n < self.node_count,
                    row@ == self.input_slots(n as int),
                    i <= row@.len(),
                    forall|j: int| 0 <= j < i ==> row@[j] != Some(ri),
                decreases row@.len() - i,
            {
                if let Some(x) = row[i] {
                    if x == ri {
                        assert(row@[i as int] == Some(ri));
                        return Some(n);
                    }
                }
                i = i + 1;
            }
            n = n + 1;
        }
        None
    }
}

impl Claims {
    fn new() -> (r: Claims)
        ensures
            r.keys@.len() == 0,
            r.consumes@.len() == 0,
            r.borrows@.len() == 0,
    {
        Claims { keys: Vec::new(), consumes: Vec::new(), borrows: Vec::new() }
    }

    /// Adds a claim on the consumed resource `c` for `key`.
    fn add_consume(
        &mut self,
        key: ResolvedInput,
        c: ConsumeClaim,
        Ghost(s): Ghost<GraphResourceResolver>,
        shape: &GraphShape,
        Ghost(producers): Ghost<Seq<Vec<InputOrNode>>>,
    )
        requires
            old(self).fits(&s, shape, producers),
            c.node < s.nodes(),
            c.input_idx < s.input_slots(c.node as int).len(),
            s.input_slots(c.node as int)[c.input_idx as int] is None,
            key.resource == shape.consumes(c.node as int)[c.input_idx as int],
            producers[key.resource as int]@.contains(key.producer),
            key.producer != InputOrNode::Node(c.node),
        ensures
            final(self).fits(&s, shape, producers),
            final(self).consume_claims() == old(self).consume_claims().push((key, c)),
            final(self).borrow_claims() == old(self).borrow_claims(),
    {
        let ghost keys0 = self.keys@;
        let ghost cons0 = self.consumes@;
        let k = self.key_index(key);
        self.consumes.push((k, c));
        proof {
            assert(self.consumes@[cons0.len() as int] == (k, c));
            assert forall|j: int| 0 <= j < self.consumes@.len() implies {
                let (k2, c2) = #[trigger] self.consumes@[j];
                &&& k2 < self.keys@.len()
                &&& c2.node < s.nodes()
                &&& c2.input_idx < s.input_slots(c2.node as int).len()
                &&& s.input_slots(c2.node as int)[c2.input_idx as int] is None
                &&& self.keys@[k2 as int].resource == shape.consumes(c2.node as int)[c2.input_idx as int]
                &&& producers[self.keys@[k2 as int].resource as int]@.contains(self.keys@[k2 as int].producer)
                &&& self.keys@[k2 as int].producer != InputOrNode::Node(c2.node)
            } by {
                if j < cons0.len() {
                    assert(self.consumes@[j] == cons0[j]);
                    let (k2, c2) = cons0[j];
                    assert(k2 < keys0.len());
                    assert(self.keys@[k2 as int] == keys0[k2 as int]);
                }
            }
            assert forall|j: int| 0 <= j < self.borrows@.len() implies {
                let (k2, (bn, bi)) = #[trigger] self.borrows@[j];
                &&& k2 < self.keys@.len()
                &&& bn < s.nodes()
                &&& bi < s.borrow_slots(bn as int).len()
                &&& s.borrow_slots(bn as int)[bi as int] is None
                &&& self.keys@[k2 as int].resource == shape.borrows(bn as int)[bi as int]
                &&& shape.producers_spec(self.keys@[k2 as int].resource).contains(self.keys@[k2 as int].producer)
                &&& self.keys@[k2 as int].producer != InputOrNode::Node(bn)
            } by {
                let (k2, _) = self.borrows@[j];
                assert(k2 < keys0.len());
                assert(self.keys@[k2 as int] == keys0[k2 as int]);
            }
            assert forall|k2: int| 0 <= k2 < self.keys@.len() implies #[trigger] self.claimed(k2) by {
                if k2 == k as int {
                    assert(self.consumes@[cons0.len() as int].0 == k2);
                } else {
                    assert(k2 < keys0.len());
                    assert(old(self).claimed(k2));
                    if exists|j: int| 0 <= j < cons0.len() && #[trigger] cons0[j].0 == k2 {
                        let j = choose|j: int| 0 <= j < cons0.len() && #[trigger] cons0[j].0 == k2;
                        assert(self.consumes@[j].0 == k2);
                    } else {
                        let j = choose|j: int| 0 <= j < self.borrows@.len() && #[trigger] self.borrows@[j].0 == k2;
                        assert(self.borrows@[j].0 == k2);
                    }
                }
            }
        }
    }

    /// Adds a claim on the borrowed resource `i` of node `node` for `key`.
    fn add_borrow(
        &mut self,
        key: ResolvedInput,
        node: usize,
        i: usize,
        Ghost(s): Ghost<GraphResourceResolver>,
        shape: &GraphShape,
        Ghost(producers): Ghost<Seq<Vec<InputOrNode>>>,
    )
        requires
            old(self).fits(&s, shape, producers),
            node < s.nodes(),
            i < s.borrow_slots(node as int).len(),
            s.borrow_slots(node as int)[i as int] is None,
            key.resource == shape.borrows(node as int)[i as int],
            shape.producers_spec(key.resource).contains(key.producer),
            key.producer != InputOrNode::Node(node),
        ensures
            final(self).fits(&s, shape, producers),
            final(self).borrow_claims() == old(self).borrow_claims().push((key, (node, i))),
            final(self).consume_claims() == old(self).consume_claims(),
    {
        let ghost keys0 = self.keys@;
        let ghost brs0 = self.borrows@;
        let k = self.key_index(key);
        self.borrows.push((k, (node, i)));
        proof {
            assert(self.borrows@[brs0.len() as int] == (k, (node, i)));
            assert forall|j: int| 0 <= j < self.consumes@.len() implies {
                let (k2, c2) = #[trigger] self.consumes@[j];
                &&& k2 < self.keys@.len()
                &&& c2.node < s.nodes()
                &&& c2.input_idx < s.input_slots(c2.node as int).len()
                &&& s.input_slots(c2.node as int)[c2.input_idx as int] is None
                &&& self.keys@[k2 as int].resource == shape.consumes(c2.node as int)[c2.input_idx as int]
                &&& producers[self.keys@[k2 as int].resource as int]@.contains(self.keys@[k2 as int].producer)
                &&& self.keys@[k2 as int].producer != InputOrNode::Node(c2.node)
            } by {
                let (k2, _) = self.consumes@[j];
                assert(k2 < keys0.len());
                assert(self.keys@[k2 as int] == keys0[k2 as int]);
            }
            assert forall|j: int| 0 <= j < self.borrows@.len() implies {
                let (k2, (bn, bi)) = #[trigger] self.borrows@[j];
                &&& k2 < self.keys@.len()
                &&& bn < s.nodes()
                &&& bi < s.borrow_slots(bn as int).len()
                &&& s.borrow_slots(bn as int)[bi as int] is None
                &&& self.keys@[k2 as int].resource == shape.borrows(bn as int)[bi as int]
                &&& shape.producers_spec(self.keys@[k2 as int].resource).contains(self.keys@[k2 as int].producer)
                &&& self.keys@[k2 as int].producer != InputOrNode::Node(bn)
            } by {
                if j < brs0.len() {
                    assert(self.borrows@[j] == brs0[j]);
                    let (k2, _) = brs0[j];
                    assert(k2 < keys0.len());
                    assert(self.keys@[k2 as int] == keys0[k2 as int]);
                }
            }
            assert forall|k2: int| 0 <= k2 < self.keys@.len() implies #[trigger] self.claimed(k2) by {
                if k2 == k as int {
                    assert(self.borrows@[brs0.len() as int].0 == k2);
                } else {
                    assert(k2 < keys0.len());
                    assert(old(self).claimed(k2));
                    if exists|j: int| 0 <= j < brs0.len() && #[trigger] brs0[j].0 == k2 {
                        let j = choose|j: int| 0 <= j < brs0.len() && #[trigger] brs0[j].0 == k2;
                        assert(self.borrows@[j].0 == k2);
                    } else {
                        let j = choose|j: int| 0 <= j < self.consumes@.len() && #[trigger] self.consumes@[j].0 == k2;
                        assert(self.consumes@[j].0 == k2);
                    }
                }
            }
        }
    }

    /// Claims that fit a resolver fit one with the same resolution.
    proof fn lemma_fits_same(&self, s1: &GraphResourceResolver, s2: &GraphResourceResolver, shape: &GraphShape, producers: Seq<Vec<InputOrNode>>)
        requires
            self.fits(s1, shape, producers),
            s2.same_resolution(s1),
        ensures
            self.fits(s2, shape, producers),
    {
    }
}

/// Every producer in the lists is the graph's inputs or one of its `n` nodes.
pub open spec fn producers_in_range(producers: Seq<Vec<InputOrNode>>, n: nat) -> bool {
    forall|r: int, i: int|
        0 <= r < producers.len() && 0 <= i < producers[r]@.len() ==> ((#[trigger] producers[r]@[i]) matches InputOrNode::Node(x) ==> (x as nat) < n)
}

impl GraphResourceResolver {
    /// A resolver with the same resolution as one whose slots fit `shape`
    /// has slots that fit it too.
    proof fn lemma_slots_fit_same(s1: &Self, s2: &Self, shape: &GraphShape)
        requires
            s1.slots_fit(shape),
            s2.same_resolution(s1),
        ensures
            s2.slots_fit(shape),
            s2.nodes() == s1.nodes(),
            forall|m: int| 0 <= m < s2.nodes() ==> #[trigger] s2.input_slots(m) == s1.input_slots(m),
            forall|m: int| 0 <= m < s2.nodes() ==> #[trigger] s2.borrow_slots(m) == s1.borrow_slots(m),
    {
        assert forall|m: int| 0 <= m < s2.node_count implies (#[trigger] s2.input_slots(m)).len() == shape.consumes(m).len() by {
            assert(s2.input_slots(m) == s1.input_slots(m));
        }
        assert forall|m: int| 0 <= m < s2.node_count implies (#[trigger] s2.borrow_slots(m)).len() == shape.borrows(m).len() by {
            assert(s2.borrow_slots(m) == s1.borrow_slots(m));
        }
    }
}

impl GraphResourceResolver {
    /// One round of claims: for each unresolved consumed resource of a node
    /// not yet fully resolved, the producer it can take it from when
    /// exactly one producer can be before the node (or, for an unordered
    /// resource the node also outputs, the first of several); for each
    /// unresolved borrowed resource, the producer when exactly one can be
    /// before the node without its consumer being before the node. The
    /// candidates are tried in order until a second one is found.
    fn collect_claims(&mut self, shape: &GraphShape, producers: &Vec<Vec<InputOrNode>>, borrow_producers: &Vec<Vec<InputOrNode>>) -> (c: Claims)
        requires
            old(self).slots_fit(shape),
            old(self).memory_ok(),
            shape.wf(),
            producers@.len() == shape.resource_count(),
            borrow_producers@.len() == shape.resource_count(),
            forall|r: int| 0 <= r < shape.resource_count() ==> (#[trigger] borrow_producers@[r])@ == shape.producers_spec(r as usize),
            producers_in_range(producers@, shape.node_count()),
        ensures
            final(self).slots_fit(shape),
            final(self).same_resolution(old(self)),
            c.fits(final(self), shape, producers@),
            final(self).memory_ok(),
            forall|m: int, i: int| #[trigger] old(self).input_forced(shape, producers@, m, i)
                ==> c.consume_claims().contains(input_claim(shape, m, i)),
            c.slots_distinct(),
            old(self).no_inputs_resolved() && old(self).memory_plain() ==> forall|m: int, i: int| #[trigger] old(self).sole_slot(shape, producers@, m, i)
                ==> c.consume_claims().contains(sole_claim(shape, producers@, m, i)),
            old(self).no_inputs_resolved() && old(self).memory_plain() ==> forall|m: int, i: int| #[trigger] old(self).sole_borrow(shape, m, i)
                ==> c.borrow_claims().contains(sole_borrow_claim(shape, m, i)),
    {
        let n = self.node_count;
        let ghost fresh = old(self).no_inputs_resolved() && old(self).memory_plain();
        let mut claims = Claims::new();
        let mut node: usize = 0;
        while node < n
            invariant
                self.slots_fit(shape),
                self.same_resolution(old(self)),
                shape.wf(),
                n == self.nodes(),
                node <= n,
                producers@.len() == shape.resource_count(),
                borrow_producers@.len() == shape.resource_count(),
                forall|r: int| 0 <= r < shape.resource_count() ==> (#[trigger] borrow_producers@[r])@ == shape.producers_spec(r as usize),
                producers_in_range(producers@, shape.node_count()),
                claims.fits(self, shape, producers@),
                self.memory_ok(),
                forall|m: int, i: int| m < node && #[trigger] old(self).input_forced(shape, producers@, m, i)
                    ==> claims.consume_claims().contains(input_claim(shape, m, i)),
                claims.slots_distinct(),
                forall|j: int| 0 <= j < claims.consume_claims().len() ==> (#[trigger] claims.consume_claims()[j]).1.node < node,
                fresh ==> self.memory_plain() && self.no_inputs_resolved(),
                fresh ==> forall|m: int, i: int| m < node && #[trigger] old(self).sole_slot(shape, producers@, m, i)
                    ==> claims.consume_claims().contains(sole_claim(shape, producers@, m, i)),
                fresh ==> forall|m: int, i: int| m < node && #[trigger] old(self).sole_borrow(shape, m, i)
                    ==> claims.borrow_claims().contains(sole_borrow_claim(shape, m, i)),
            decreases n - node,
        {
            if !self.node_finished(node) {
                let cons = &shape.nodes[node].consumes;
                let mut idx: usize = 0;
                while idx < cons.len()
                    invariant
                        self.slots_fit(shape),
                        self.same_resolution(old(self)),
                        shape.wf(),
                        n == self.nodes(),
                        node < n,
                        cons@ == shape.consumes(node as int),
                        producers@.len() == shape.resource_count(),
                        producers_in_range(producers@, shape.node_count()),
                        claims.fits(self, shape, producers@),
                        self.memory_ok(),
                        forall|m: int, i: int| (m < node || (m == node && i < idx)) && #[trigger] old(self).input_forced(shape, producers@, m, i)
                            ==> claims.consume_claims().contains(input_claim(shape, m, i)),
                        claims.slots_distinct(),
                        forall|j: int| 0 <= j < claims.consume_claims().len() ==> (#[trigger] claims.consume_claims()[j]).1.node < node
                            || (claims.consume_claims()[j].1.node == node && claims.consume_claims()[j].1.input_idx < idx),
                        fresh ==> self.memory_plain() && self.no_inputs_resolved(),
                        fresh ==> forall|m: int, i: int| (m < node || (m == node && i < idx)) && #[trigger] old(self).sole_slot(shape, producers@, m, i)
                            ==> claims.consume_claims().contains(sole_claim(shape, producers@, m, i)),
                        fresh ==> forall|m: int, i: int| m < node && #[trigger] old(self).sole_borrow(shape, m, i)
                            ==> claims.borrow_claims().contains(sole_borrow_claim(shape, m, i)),
                    decreases cons@.len() - idx,
                {
                    proof {
                        assert(self.input_slots(node as int).len() == shape.consumes(node as int).len());
                    }
                    let ghost cc0 = claims.consume_claims();
                    if self.resolved_inputs[node][idx].is_none() {
                        let resource = cons[idx];
                        let potential = &producers[resource];
                        let mut first: Option<InputOrNode> = None;
                        let mut count: usize = 0;
                        let mut t: usize = 0;
                        let ghost s_before = *self;
                        while t < potential.len() && count < 2
                            invariant
                                self.slots_fit(shape),
                                self.same_resolution(old(self)),
                                self.same_resolution(&s_before),
                                n == self.nodes(),
                                node < n,
                                (resource as nat) < shape.resource_count(),
                                potential@ == producers@[resource as int]@,
                                producers@.len() == shape.resource_count(),
                                producers_in_range(producers@, shape.node_count()),
                                shape.node_count() == n,
                                t <= potential@.len(),
                                count <= 2,
                                (count > 0) == (first is Some),
                                first matches Some(f) ==> potential@.contains(f),
                                first matches Some(f) ==> f != InputOrNode::Node(node),
                                self.memory_ok(),
                                pair_in_range((InputOrNode::Input, node), self.nodes()),
                                potential@ == seq![InputOrNode::Input] ==> (t == 0 && count == 0) || (t == 1 && count == 1 && first == Some(InputOrNode::Input)),
                                fresh ==> self.memory_plain() && self.no_inputs_resolved(),
                                fresh ==> count as int == others(potential@.take(t as int), node).len(),
                                fresh && count > 0 ==> first == Some(others(potential@.take(t as int), node)[0]),
                            decreases potential@.len() - t,
                        {
                            let cand = potential[t];
                            proof {
                                assert(!self.remembered_after((InputOrNode::Input, node)));
                                assert(producers@[resource as int]@[t as int] == cand);
                                assert(cand matches InputOrNode::Node(x) ==> (x as nat) < n);
                                assert(pair_in_range((cand, node), self.nodes()));
                            }
                            let ghost s_call = *self;
                            proof {
                                self.lemma_self_after(node);
                                if fresh {
                                    self.lemma_fresh_search(cand, node);
                                    lemma_others_step(potential@, node, t as int);
                                }
                            }
                            if !self.is_after_or_equal(cand, node) {
                                if count == 0 {
                                    first = Some(cand);
                                    assert(potential@[t as int] == cand);
                                }
                                count = count + 1;
                            }
                            proof {
                                Self::lemma_slots_fit_same(&s_call, self, shape);
                                if fresh {
                                    Self::lemma_same_no_inputs(&s_call, self);
                                }
                            }
                            t = t + 1;
                        }
                        proof {
                            claims.lemma_fits_same(old(self), self, shape, producers@);
                        }
                        let is_mutator = list_contains(&shape.nodes[node].outputs, resource);
                        let is_unordered = shape.unordered[resource];
                        let chosen: Option<(InputOrNode, bool)> = if is_mutator && is_unordered && count != 1 {
                            match first {
                                Some(p) => Some((p, true)),
                                None => None,
                            }
                        } else if count == 1 {
                            match first {
                                Some(p) => Some((p, false)),
                                None => None,
                            }
                        } else {
                            None
                        };
                        match chosen {
                            Some((p, from_unordered)) => {
                                claims.add_consume(
                                    ResolvedInput { resource, producer: p },
                                    ConsumeClaim { node, input_idx: idx, is_from_unordered: from_unordered },
                                    Ghost(*self),
                                    shape,
                                    Ghost(producers@),
                                );
                            },
                            None => {},
                        }
                        proof {
                            if old(self).input_forced(shape, producers@, node as int, idx as int) {
                                assert(self.input_slots(node as int) == old(self).input_slots(node as int));
                                assert(potential@ == seq![InputOrNode::Input]);
                                assert(claims.consume_claims() == cc0.push(input_claim(shape, node as int, idx as int)));
                            }
                            if fresh && old(self).sole_slot(shape, producers@, node as int, idx as int) {
                                lemma_others_prefix(potential@, node, t as int);
                                assert(count < 2);
                                assert(t == potential@.len());
                                assert(potential@.take(t as int) =~= potential@);
                                assert(claims.consume_claims() == cc0.push(sole_claim(shape, producers@, node as int, idx as int)));
                            }
                        }
                    } else {
                        proof {
                            assert(self.input_slots(node as int) == old(self).input_slots(node as int));
                            assert(!old(self).input_forced(shape, producers@, node as int, idx as int));
                            assert(!old(self).sole_slot(shape, producers@, node as int, idx as int));
                        }
                    }
                    proof {
                        let cc1 = claims.consume_claims();
                        assert(cc1.len() >= cc0.len());
                        assert(cc1.len() <= cc0.len() + 1);
                        assert forall|j: int| 0 <= j < cc1.len() implies (#[trigger] cc1[j]).1.node < node
                            || (cc1[j].1.node == node && cc1[j].1.input_idx < idx + 1) by {
                            if j < cc0.len() {
                                assert(cc1[j] == cc0[j]);
                            }
                        }
                        assert forall|j1: int, j2: int| 0 <= j1 < j2 < cc1.len() implies
                            ((#[trigger] cc1[j1]).1.node, cc1[j1].1.input_idx) != ((#[trigger] cc1[j2]).1.node, cc1[j2].1.input_idx) by {
                            if j2 < cc0.len() {
                                assert(cc1[j1] == cc0[j1] && cc1[j2] == cc0[j2]);
                            } else {
                                assert(cc1[j1] == cc0[j1]);
                            }
                        }
                        assert forall|j: int| 0 <= j < cc0.len() implies cc1[j] == cc0[j] by {}
                        assert forall|m: int, i: int| (m < node || (m == node && i < idx + 1)) && #[trigger] old(self).input_forced(shape, producers@, m, i)
                            implies cc1.contains(input_claim(shape, m, i)) by {
                            if m == node && i == idx {
                                assert(cc1[cc0.len() as int] == input_claim(shape, m, i));
                            } else {
                                let j = choose|j: int| 0 <= j < cc0.len() && cc0[j] == input_claim(shape, m, i);
                                assert(cc1[j] == input_claim(shape, m, i));
                            }
                        }
                        if fresh {
                            assert forall|m: int, i: int| (m < node || (m == node && i < idx + 1)) && #[trigger] old(self).sole_slot(shape, producers@, m, i)
                                implies cc1.contains(sole_claim(shape, producers@, m, i)) by {
                                if m == node && i == idx {
                                    assert(cc1[cc0.len() as int] == sole_claim(shape, producers@, m, i));
                                } else {
                                    let j = choose|j: int| 0 <= j < cc0.len() && cc0[j] == sole_claim(shape, producers@, m, i);
                                    assert(cc1[j] == sole_claim(shape, producers@, m, i));
                                }
                            }
                        }
                    }
                    idx = idx + 1;
                }
                let brs = &shape.nodes[node].borrows;
                let mut idx: usize = 0;
                while idx < brs.len()
                    invariant
                        self.slots_fit(shape),
                        self.same_resolution(old(self)),
                        shape.wf(),
                        n == self.nodes(),
                        node < n,
                        brs@ == shape.borrows(node as int),
                        producers@.len() == shape.resource_count(),
                        borrow_producers@.len() == shape.resource_count(),
                        forall|r: int| 0 <= r < shape.resource_count() ==> (#[trigger] borrow_producers@[r])@ == shape.producers_spec(r as usize),
                        claims.fits(self, shape, producers@),
                        self.memory_ok(),
                        forall|m: int, i: int| m <= node && #[trigger] old(self).input_forced(shape, producers@, m, i)
                            ==> claims.consume_claims().contains(input_claim(shape, m, i)),
                        claims.slots_distinct(),
                        forall|j: int| 0 <= j < claims.consume_claims().len() ==> (#[trigger] claims.consume_claims()[j]).1.node <= node,
                        fresh ==> self.memory_plain() && self.no_inputs_resolved(),
                        fresh ==> forall|m: int, i: int| m <= node && #[trigger] old(self).sole_slot(shape, producers@, m, i)
                            ==> claims.consume_claims().contains(sole_claim(shape, producers@, m, i)),
                        fresh ==> forall|m: int, i: int| (m < node || (m == node && i < idx)) && #[trigger] old(self).sole_borrow(shape, m, i)
                            ==> claims.borrow_claims().contains(sole_borrow_claim(shape, m, i)),
                    decreases brs@.len() - idx,
                {
                    proof {
                        assert(self.borrow_slots(node as int).len() == shape.borrows(node as int).len());
                    }
                    let ghost cb0 = claims.borrow_claims();
                    if self.resolved_borrows[node][idx].is_none() {
                        let resource = brs[idx];
                        let potential = &borrow_producers[resource];
                        let mut first: Option<InputOrNode> = None;
                        let mut count: usize = 0;
                        let mut t: usize = 0;
                        let ghost s_before = *self;
                        while t < potential.len() && count < 2
                            invariant
                                self.slots_fit(shape),
                                self.same_resolution(old(self)),
                                self.same_resolution(&s_before),
                                shape.wf(),
                                n == self.nodes(),
                                node < n,
                                (resource as nat) < shape.resource_count(),
                                potential@ == shape.producers_spec(resource),
                                shape.node_count() == n,
                                self.memory_ok(),
                                t <= potential@.len(),
                                count <= 2,
                                (count > 0) == (first is Some),
                                first matches Some(f) ==> potential@.contains(f),
                                first matches Some(f) ==> f != InputOrNode::Node(node),
                                fresh ==> self.memory_plain() && self.no_inputs_resolved(),
                                fresh ==> count as int == others(potential@.take(t as int), node).len(),
                                fresh && count > 0 ==> first == Some(others(potential@.take(t as int), node)[0]),
                            decreases potential@.len() - t,
                        {
                            let cand = potential[t];
                            proof {
                                lemma_producer_is_node(shape, resource, t as int);
                            }
                            let ghost s_call = *self;
                            proof {
                                self.lemma_self_after(node);
                                if fresh {
                                    self.lemma_fresh_search(cand, node);
                                    lemma_others_step(potential@, node, t as int);
                                }
                            }
                            if !self.is_after_or_equal(cand, node) {
                                proof {
                                    Self::lemma_slots_fit_same(&s_call, self, shape);
                                }
                                let ghost s_call2 = *self;
                                let consumer_of = self.consumer(ResolvedInput { resource, producer: cand });
                                proof {
                                    if fresh {
                                        Self::lemma_same_no_inputs(&s_call, self);
                                        match consumer_of {
                                            Some(c) => {
                                                assert(self.no_input_resolved(c as int));
                                                let ri = ResolvedInput { resource, producer: cand };
                                                let j = choose|j: int| 0 <= j < self.input_slots(c as int).len() && self.input_slots(c as int)[j] == Some(ri);
                                                assert(self.input_slots(c as int)[j] is None);
                                            },
                                            None => {},
                                        }
                                    }
                                }
                                let free = match consumer_of {
                                    None => true,
                                    Some(c) => !self.is_after_or_equal(InputOrNode::Node(node), c),
                                };
                                proof {
                                    Self::lemma_slots_fit_same(&s_call2, self, shape);
                                }
                                if free {
                                    if count == 0 {
                                        first = Some(cand);
                                        assert(potential@[t as int] == cand);
                                    }
                                    count = count + 1;
                                }
                            }
                            proof {
                                Self::lemma_slots_fit_same(&s_call, self, shape);
                                if fresh {
                                    Self::lemma_same_no_inputs(&s_call, self);
                                }
                            }
                            t = t + 1;
                        }
                        proof {
                            claims.lemma_fits_same(old(self), self, shape, producers@);
                        }
                        if count == 1 {
                            match first {
                                Some(p) => {
                                    claims.add_borrow(
                                        ResolvedInput { resource, producer: p },
                                        node,
                                        idx,
                                        Ghost(*self),
                                        shape,
                                        Ghost(producers@),
                                    );
                                },
                                None => {},
                            }
                        }
                        proof {
                            if fresh && old(self).sole_borrow(shape, node as int, idx as int) {
                                lemma_others_prefix(potential@, node, t as int);
                                assert(count < 2);
                                assert(t == potential@.len());
                                assert(potential@.take(t as int) =~= potential@);
                                assert(claims.borrow_claims() == cb0.push(sole_borrow_claim(shape, node as int, idx as int)));
                            }
                        }
                    } else {
                        proof {
                            assert(self.borrow_slots(node as int) == old(self).borrow_slots(node as int));
                            assert(!old(self).sole_borrow(shape, node as int, idx as int));
                        }
                    }
                    proof {
                        let cb1 = claims.borrow_claims();
                        assert(cb1.len() >= cb0.len());
                        assert forall|j: int| 0 <= j < cb0.len() implies cb1[j] == cb0[j] by {}
                        if fresh {
                            assert forall|m: int, i: int| (m < node || (m == node && i < idx + 1)) && #[trigger] old(self).sole_borrow(shape, m, i)
                                implies cb1.contains(sole_borrow_claim(shape, m, i)) by {
                                if m == node && i == idx {
                                    assert(cb1[cb0.len() as int] == sole_borrow_claim(shape, m, i));
                                } else {
                                    let j = choose|j: int| 0 <= j < cb0.len() && cb0[j] == sole_borrow_claim(shape, m, i);
                                    assert(cb1[j] == sole_borrow_claim(shape, m, i));
                                }
                            }
                        }
                    }
                    idx = idx + 1;
                }
            } else {
                proof {
                    assert(self.input_slots(node as int) == old(self).input_slots(node as int));
                    assert(self.borrow_slots(node as int) == old(self).borrow_slots(node as int));
                    assert forall|i: int| !#[trigger] old(self).sole_slot(shape, producers@, node as int, i) by {}
                    assert forall|i: int| !#[trigger] old(self).sole_borrow(shape, node as int, i) by {}
                }
            }
            node = node + 1;
        }
        claims
    }
}

impl GraphResourceResolver {
    /// Every resolved input names the resource of its place and one of the
    /// producers of that resource.
    pub closed spec fn slots_valid(&self, shape: &GraphShape) -> bool {
        &&& forall|n: int, i: int|
            0 <= n < self.node_count && 0 <= i < self.input_slots(n).len() && (#[trigger] self.input_slots(n)[i]) is Some ==> {
                let x = self.input_slots(n)[i]->0;
                x.resource == shape.consumes(n)[i] && shape.producers_spec(x.resource).contains(x.producer)
            }
        &&& forall|n: int, i: int|
            0 <= n < self.node_count && 0 <= i < self.borrow_slots(n).len() && (#[trigger] self.borrow_slots(n)[i]) is Some ==> {
                let x = self.borrow_slots(n)[i]->0;
                x.resource == shape.borrows(n)[i] && shape.producers_spec(x.resource).contains(x.producer)
            }
    }

    /// No resolved resource of a node is taken from the node itself.
    pub closed spec fn slots_not_self(&self) -> bool {
        &&& forall|n: int, i: int|
            0 <= n < self.node_count && 0 <= i < self.input_slots(n).len() && (#[trigger] self.input_slots(n)[i]) is Some
                ==> self.input_slots(n)[i]->0.producer != InputOrNode::Node(n as usize)
        &&& forall|n: int, i: int|
            0 <= n < self.node_count && 0 <= i < self.borrow_slots(n).len() && (#[trigger] self.borrow_slots(n)[i]) is Some
                ==> self.borrow_slots(n)[i]->0.producer != InputOrNode::Node(n as usize)
    }

    /// No two consumed resources are resolved to the same resolved input.
    pub closed spec fn consumed_unique(&self) -> bool {
        forall|n1: int, i1: int, n2: int, i2: int|
            0 <= n1 < self.node_count && 0 <= n2 < self.node_count && 0 <= i1 < self.input_slots(n1).len() && 0 <= i2
                < self.input_slots(n2).len() && (n1 != n2 || i1 != i2) && (#[trigger] self.input_slots(n1)[i1]) is Some
                && (#[trigger] self.input_slots(n2)[i2]) is Some ==> self.input_slots(n1)[i1] != self.input_slots(n2)[i2]
    }

    /// The producer of every resolved consumed resource is gone from the
    /// producers its resource can still be consumed from.
    pub closed spec fn consumed_gone(&self, producers: Seq<Vec<InputOrNode>>) -> bool {
        forall|n: int, i: int|
            0 <= n < self.node_count && 0 <= i < self.input_slots(n).len() && (#[trigger] self.input_slots(n)[i]) is Some ==> !producers[self.input_slots(
                n,
            )[i]->0.resource as int]@.contains(self.input_slots(n)[i]->0.producer)
    }
}

/// The producers a resource can still be consumed from are among its
/// producers.
pub open spec fn producers_within(shape: &GraphShape, producers: Seq<Vec<InputOrNode>>) -> bool {
    &&& producers.len() == shape.resource_count()
    &&& forall|r: int, q: InputOrNode| 0 <= r < producers.len() && #[trigger] producers[r]@.contains(q) ==> shape.producers_spec(r as usize).contains(q)
}

impl Claims {
    /// True if a borrow is claimed for the `k`-th resolved input.
    fn has_borrow_claims(&self, k: usize) -> (r: bool)
        ensures
            r == exists|j: int| 0 <= j < self.borrows@.len() && #[trigger] self.borrows@[j].0 == k,
    {
        let mut j: usize = 0;
        while j < self.borrows.len()
            invariant
                j <= self.borrows@.len(),
                forall|t: int| 0 <= t < j ==> #[trigger] self.borrows@[t].0 != k,
            decreases self.borrows@.len() - j,
        {
            if self.borrows[j].0 == k {
                return true;
            }
            j = j + 1;
        }
        false
    }

    /// The consume claims for the `k`-th resolved input, in order.
    fn consume_claims_of(&self, k: usize) -> (r: Vec<ConsumeClaim>)
        ensures
            forall|t: int| 0 <= t < r@.len() ==> exists|j: int| 0 <= j < self.consumes@.len() && #[trigger] self.consumes@[j] == (k, #[trigger] r@[t]),
            (r@.len() > 0) == exists|j: int| 0 <= j < self.consumes@.len() && #[trigger] self.consumes@[j].0 == k,
            r@ == claims_with_key(self.consumes@, k),
    {
        let mut out: Vec<ConsumeClaim> = Vec::new();
        let mut j: usize = 0;
        while j < self.consumes.len()
            invariant
                j <= self.consumes@.len(),
                out@ == claims_with_key(self.consumes@.take(j as int), k),
                forall|t: int| 0 <= t < out@.len() ==> exists|i: int| 0 <= i < self.consumes@.len() && #[trigger] self.consumes@[i] == (k, #[trigger] out@[t]),
                (out@.len() > 0) == exists|i: int| 0 <= i < j && #[trigger] self.consumes@[i].0 == k,
            decreases self.consumes@.len() - j,
        {
            let entry = self.consumes[j];
            if entry.0 == k {
                let ghost o0 = out@;
                out.push(entry.1);
                proof {
                    assert forall|t: int| 0 <= t < out@.len() implies exists|i: int| 0 <= i < self.consumes@.len() && #[trigger] self.consumes@[i] == (k, #[trigger] out@[t]) by {
                        if t == o0.len() {
                            assert(self.consumes@[j as int] == (k, out@[t]));
                        } else {
                            assert(out@[t] == o0[t]);
                        }
                    }
                    assert(self.consumes@[j as int].0 == k);
                }
            }
            proof {
                assert(self.consumes@.take(j + 1).drop_last() =~= self.consumes@.take(j as int));
            }
            j = j + 1;
        }
        proof {
            assert(self.consumes@.take(j as int) =~= self.consumes@);
        }
        out
    }

    /// The borrow claims for the `k`-th resolved input, in order.
    fn borrow_claims_of(&self, k: usize) -> (r: Vec<(usize, usize)>)
        ensures
            forall|t: int| 0 <= t < r@.len() ==> self.borrows@.contains((k, #[trigger] r@[t])),
            (r@.len() > 0) == exists|j: int| 0 <= j < self.borrows@.len() && #[trigger] self.borrows@[j].0 == k,
            forall|j: int| 0 <= j < self.borrows@.len() && (#[trigger] self.borrows@[j]).0 == k ==> r@.contains(self.borrows@[j].1),
    {
        let mut out: Vec<(usize, usize)> = Vec::new();
        let mut j: usize = 0;
        while j < self.borrows.len()
            invariant
                j <= self.borrows@.len(),
                forall|t: int| 0 <= t < out@.len() ==> self.borrows@.contains((k, #[trigger] out@[t])),
                (out@.len() > 0) == exists|i: int| 0 <= i < j && #[trigger] self.borrows@[i].0 == k,
                forall|i: int| 0 <= i < j && (#[trigger] self.borrows@[i]).0 == k ==> out@.contains(self.borrows@[i].1),
            decreases self.borrows@.len() - j,
        {
            let entry = self.borrows[j];
            if entry.0 == k {
                let ghost o0 = out@;
                out.push(entry.1);
                proof {
                    assert forall|t: int| 0 <= t < out@.len() implies self.borrows@.contains((k, #[trigger] out@[t])) by {
                        if t == o0.len() {
                            assert(self.borrows@[j as int] == (k, out@[t]));
                        } else {
                            assert(out@[t] == o0[t]);
                        }
                    }
                    assert(self.borrows@[j as int].0 == k);
                    assert forall|i: int| 0 <= i < j + 1 && (#[trigger] self.borrows@[i]).0 == k implies out@.contains(self.borrows@[i].1) by {
                        if i == j {
                            assert(out@[o0.len() as int] == entry.1);
                        } else {
                            let t = choose|t: int| 0 <= t < o0.len() && o0[t] == self.borrows@[i].1;
                            assert(out@[t] == o0[t]);
                        }
                    }
                }
            }
            j = j + 1;
        }
        out
    }

    /// True if no borrow is claimed and every consume claim picked its
    /// producer among several.
    fn only_unordered(&self) -> (r: bool)
        ensures
            r == (self.borrow_claims().len() == 0
                && forall|j: int| 0 <= j < self.consume_claims().len() ==> (#[trigger] self.consume_claims()[j]).1.is_from_unordered),
    {
        if self.borrows.len() != 0 {
            return false;
        }
        let mut j: usize = 0;
        while j < self.consumes.len()
            invariant
                j <= self.consumes@.len(),
                self.borrows@.len() == 0,
                forall|t: int| 0 <= t < j ==> (#[trigger] self.consumes@[t]).1.is_from_unordered,
            decreases self.consumes@.len() - j,
        {
            if !self.consumes[j].1.is_from_unordered {
                proof {
                    assert(!self.consume_claims()[j as int].1.is_from_unordered);
                }
                return false;
            }
            j = j + 1;
        }
        proof {
            assert forall|t: int| 0 <= t < self.consume_claims().len() implies (#[trigger] self.consume_claims()[t]).1.is_from_unordered by {
                assert(self.consumes@[t].1.is_from_unordered);
            }
        }
        true
    }

    /// The `k`-th resolved input is claimed by exactly one consume claim,
    /// which did not pick its producer among several.
    pub closed spec fn sole_plain(&self, k: usize) -> bool {
        &&& (k as nat) < self.keys@.len()
        &&& claims_with_key(self.consumes@, k).len() == 1
        &&& !claims_with_key(self.consumes@, k)[0].is_from_unordered
    }

    /// There is no borrow claim, and each claimed resolved input is claimed
    /// by exactly one consume claim, which did not pick its producer among
    /// several.
    pub closed spec fn all_sole(&self) -> bool {
        &&& self.borrows@.len() == 0
        &&& forall|k: usize| (k as nat) < self.keys@.len() ==> #[trigger] self.sole_plain(k)
    }

    /// Each claimed resolved input is either claimed to be borrowed and by
    /// no consume claim, or claimed by exactly one consume claim, which did
    /// not pick its producer among several.
    pub closed spec fn settles(&self) -> bool {
        &&& forall|k: usize| #![trigger self.sole_plain(k)]
            (k as nat) < self.keys@.len() ==> (exists|j: int| 0 <= j < self.borrows@.len() && #[trigger] self.borrows@[j].0 == k) || self.sole_plain(k)
        &&& forall|j1: int, j2: int|
            0 <= j1 < self.consumes@.len() && 0 <= j2 < self.borrows@.len() ==> (#[trigger] self.consumes@[j1]).0 != (#[trigger] self.borrows@[j2]).0
    }

    proof fn lemma_all_sole_settles(&self)
        requires
            self.all_sole(),
        ensures
            self.settles(),
    {
        assert forall|k: usize| (k as nat) < self.keys@.len() implies (exists|j: int| 0 <= j < self.borrows@.len() && #[trigger] self.borrows@[j].0 == k) || #[trigger] self.sole_plain(k) by {
            assert(self.sole_plain(k));
        }
    }

    /// Applying the claims resolves something: there is a borrow claim, or
    /// a resolved input claimed by exactly one consume claim that did not
    /// pick its producer among several.
    pub closed spec fn must_resolve(&self) -> bool {
        ||| self.borrows@.len() > 0
        ||| exists|k: usize| #[trigger] self.sole_plain(k)
    }

    /// No two consume claims are on the same consumed resource of the same
    /// node.
    pub open spec fn slots_distinct(&self) -> bool {
        forall|j1: int, j2: int| 0 <= j1 < j2 < self.consume_claims().len() ==>
            ((#[trigger] self.consume_claims()[j1]).1.node, self.consume_claims()[j1].1.input_idx)
                != ((#[trigger] self.consume_claims()[j2]).1.node, self.consume_claims()[j2].1.input_idx)
    }

    /// The consume claims, each with the resolved input it claims.
    pub closed spec fn consume_claims(&self) -> Seq<(ResolvedInput, ConsumeClaim)> {
        self.consumes@.map_values(|e: (usize, ConsumeClaim)| (self.keys@[e.0 as int], e.1))
    }

    /// The borrow claims, each with the resolved input it claims and the
    /// (node, borrow index) that claims it.
    pub closed spec fn borrow_claims(&self) -> Seq<(ResolvedInput, (usize, usize))> {
        self.borrows@.map_values(|e: (usize, (usize, usize))| (self.keys@[e.0 as int], e.1))
    }
}

/// True if every claim in `list` picked its producer among several.
fn all_from_unordered(list: &Vec<ConsumeClaim>) -> (r: bool)
    ensures
        r == forall|j: int| 0 <= j < list@.len() ==> (#[trigger] list@[j]).is_from_unordered,
{
    let mut j: usize = 0;
    while j < list.len()
        invariant
            j <= list@.len(),
            forall|t: int| 0 <= t < j ==> (#[trigger] list@[t]).is_from_unordered,
        decreases list@.len() - j,
    {
        if !list[j].is_from_unordered {
            return false;
        }
        j = j + 1;
    }
    true
}

impl GraphResourceResolver {
    /// Resolving an unresolved... consumed resource to a resolved input whose
    /// producer can still be consumed from, and removing that producer,
    /// keeps the resolution valid.
    proof fn lemma_set_input_keeps(
        s0: &Self,
        s1: &Self,
        shape: &GraphShape,
        p0: Seq<Vec<InputOrNode>>,
        p1: Seq<Vec<InputOrNode>>,
        n: int,
        i: int,
        key: ResolvedInput,
    )
        requires
            shape.wf(),
            s0.slots_fit(shape),
            s0.slots_valid(shape),
            s0.consumed_unique(),
            s0.consumed_gone(p0),
            producers_within(shape, p0),
            0 <= n < s0.nodes(),
            0 <= i < s0.input_slots(n).len(),
            s1.wf(),
            s1.nodes() == s0.nodes(),
            forall|m: int| 0 <= m < s1.nodes() ==> #[trigger] s1.borrow_slots(m) == s0.borrow_slots(m),
            forall|m: int| 0 <= m < s1.nodes() && m != n ==> #[trigger] s1.input_slots(m) == s0.input_slots(m),
            s1.input_slots(n) == s0.input_slots(n).update(i, Some(key)),
            key.resource == shape.consumes(n)[i],
            p0[key.resource as int]@.contains(key.producer),
            p1.len() == p0.len(),
            forall|r: int| 0 <= r < p1.len() && r != key.resource ==> #[trigger] p1[r] == p0[r],
            forall|q: InputOrNode| #[trigger] p1[key.resource as int]@.contains(q) == (p0[key.resource as int]@.contains(q) && q != key.producer),
        ensures
            s1.slots_fit(shape),
            s1.slots_valid(shape),
            s1.consumed_unique(),
            s1.consumed_gone(p1),
            producers_within(shape, p1),
    {
        assert((key.resource as nat) < shape.resource_count()) by {
            assert(shape.consumes(n)[i] == key.resource);
        }
        assert(shape.producers_spec(key.resource).contains(key.producer));
        assert forall|m: int| 0 <= m < s1.node_count implies (#[trigger] s1.input_slots(m)).len() == shape.consumes(m).len() by {
            if m != n {
                assert(s1.input_slots(m) == s0.input_slots(m));
            }
        }
        assert forall|m: int| 0 <= m < s1.node_count implies (#[trigger] s1.borrow_slots(m)).len() == shape.borrows(m).len() by {
            assert(s1.borrow_slots(m) == s0.borrow_slots(m));
        }
        assert forall|m: int, j: int|
            0 <= m < s1.node_count && 0 <= j < s1.input_slots(m).len() && (#[trigger] s1.input_slots(m)[j]) is Some implies {
                let x = s1.input_slots(m)[j]->0;
                x.resource == shape.consumes(m)[j] && shape.producers_spec(x.resource).contains(x.producer)
            } by {
            if m != n || j != i {
                if m != n {
                    assert(s1.input_slots(m) == s0.input_slots(m));
                }
                assert(s1.input_slots(m)[j] == s0.input_slots(m)[j]);
            }
        }
        assert forall|m: int, j: int|
            0 <= m < s1.node_count && 0 <= j < s1.borrow_slots(m).len() && (#[trigger] s1.borrow_slots(m)[j]) is Some implies {
                let x = s1.borrow_slots(m)[j]->0;
                x.resource == shape.borrows(m)[j] && shape.producers_spec(x.resource).contains(x.producer)
            } by {
            assert(s1.borrow_slots(m) == s0.borrow_slots(m));
        }
        assert forall|n1: int, i1: int, n2: int, i2: int|
            0 <= n1 < s1.node_count && 0 <= n2 < s1.node_count && 0 <= i1 < s1.input_slots(n1).len() && 0 <= i2
                < s1.input_slots(n2).len() && (n1 != n2 || i1 != i2) && (#[trigger] s1.input_slots(n1)[i1]) is Some
                && (#[trigger] s1.input_slots(n2)[i2]) is Some implies s1.input_slots(n1)[i1] != s1.input_slots(n2)[i2] by {
            let a = if n1 != n || i1 != i { s0.input_slots(n1)[i1] } else { Some(key) };
            let b = if n2 != n || i2 != i { s0.input_slots(n2)[i2] } else { Some(key) };
            if n1 != n {
                assert(s1.input_slots(n1) == s0.input_slots(n1));
            }
            if n2 != n {
                assert(s1.input_slots(n2) == s0.input_slots(n2));
            }
            assert(s1.input_slots(n1)[i1] == a);
            assert(s1.input_slots(n2)[i2] == b);
            if n1 != n || i1 != i {
                assert(s0.input_slots(n1)[i1] is Some);
                assert(!p0[s0.input_slots(n1)[i1]->0.resource as int]@.contains(s0.input_slots(n1)[i1]->0.producer));
            }
            if n2 != n || i2 != i {
                assert(s0.input_slots(n2)[i2] is Some);
                assert(!p0[s0.input_slots(n2)[i2]->0.resource as int]@.contains(s0.input_slots(n2)[i2]->0.producer));
            }
        }
        assert forall|m: int, j: int|
            0 <= m < s1.node_count && 0 <= j < s1.input_slots(m).len() && (#[trigger] s1.input_slots(m)[j]) is Some implies !p1[s1.input_slots(
                m,
            )[j]->0.resource as int]@.contains(s1.input_slots(m)[j]->0.producer) by {
            if m != n || j != i {
                if m != n {
                    assert(s1.input_slots(m) == s0.input_slots(m));
                }
                let x = s0.input_slots(m)[j]->0;
                assert(s1.input_slots(m)[j] == s0.input_slots(m)[j]);
                assert(!p0[x.resource as int]@.contains(x.producer));
                assert(x.resource == shape.consumes(m)[j]);
                assert((x.resource as nat) < shape.resource_count());
                if x.resource == key.resource {
                    assert(!p1[x.resource as int]@.contains(x.producer));
                } else {
                    assert(p1[x.resource as int] == p0[x.resource as int]);
                }
            }
        }
        assert forall|r: int, q: InputOrNode| 0 <= r < p1.len() && #[trigger] p1[r]@.contains(q) implies shape.producers_spec(r as usize).contains(q) by {
            if r != key.resource {
                assert(p1[r] == p0[r]);
            }
        }
    }

    /// Resolving a borrowed resource to a resolved input that names its
    /// resource and one of its producers keeps the resolution valid.
    proof fn lemma_set_borrow_keeps(s0: &Self, s1: &Self, shape: &GraphShape, p: Seq<Vec<InputOrNode>>, n: int, i: int, key: ResolvedInput)
        requires
            s0.slots_fit(shape),
            s0.slots_valid(shape),
            s0.consumed_unique(),
            s0.consumed_gone(p),
            0 <= n < s0.nodes(),
            0 <= i < s0.borrow_slots(n).len(),
            s1.wf(),
            s1.nodes() == s0.nodes(),
            forall|m: int| 0 <= m < s1.nodes() ==> #[trigger] s1.input_slots(m) == s0.input_slots(m),
            forall|m: int| 0 <= m < s1.nodes() && m != n ==> #[trigger] s1.borrow_slots(m) == s0.borrow_slots(m),
            s1.borrow_slots(n) == s0.borrow_slots(n).update(i, Some(key)),
            key.resource == shape.borrows(n)[i],
            shape.producers_spec(key.resource).contains(key.producer),
        ensures
            s1.slots_fit(shape),
            s1.slots_valid(shape),
            s1.consumed_unique(),
            s1.consumed_gone(p),
    {
        assert forall|m: int| 0 <= m < s1.node_count implies (#[trigger] s1.input_slots(m)).len() == shape.consumes(m).len() by {
            assert(s1.input_slots(m) == s0.input_slots(m));
        }
        assert forall|m: int| 0 <= m < s1.node_count implies (#[trigger] s1.borrow_slots(m)).len() == shape.borrows(m).len() by {
            if m != n {
                assert(s1.borrow_slots(m) == s0.borrow_slots(m));
            }
        }
        assert forall|m: int, j: int|
            0 <= m < s1.node_count && 0 <= j < s1.input_slots(m).len() && (#[trigger] s1.input_slots(m)[j]) is Some implies {
                let x = s1.input_slots(m)[j]->0;
                x.resource == shape.consumes(m)[j] && shape.producers_spec(x.resource).contains(x.producer)
            } by {
            assert(s1.input_slots(m) == s0.input_slots(m));
        }
        assert forall|m: int, j: int|
            0 <= m < s1.node_count && 0 <= j < s1.borrow_slots(m).len() && (#[trigger] s1.borrow_slots(m)[j]) is Some implies {
                let x = s1.borrow_slots(m)[j]->0;
                x.resource == shape.borrows(m)[j] && shape.producers_spec(x.resource).contains(x.producer)
            } by {
            if m != n || j != i {
                if m != n {
                    assert(s1.borrow_slots(m) == s0.borrow_slots(m));
                }
                assert(s1.borrow_slots(m)[j] == s0.borrow_slots(m)[j]);
            }
        }
        assert forall|n1: int, i1: int, n2: int, i2: int|
            0 <= n1 < s1.node_count && 0 <= n2 < s1.node_count && 0 <= i1 < s1.input_slots(n1).len() && 0 <= i2
                < s1.input_slots(n2).len() && (n1 != n2 || i1 != i2) && (#[trigger] s1.input_slots(n1)[i1]) is Some
                && (#[trigger] s1.input_slots(n2)[i2]) is Some implies s1.input_slots(n1)[i1] != s1.input_slots(n2)[i2] by {
            assert(s1.input_slots(n1) == s0.input_slots(n1));
            assert(s1.input_slots(n2) == s0.input_slots(n2));
        }
        assert forall|m: int, j: int|
            0 <= m < s1.node_count && 0 <= j < s1.input_slots(m).len() && (#[trigger] s1.input_slots(m)[j]) is Some implies !p[s1.input_slots(
                m,
            )[j]->0.resource as int]@.contains(s1.input_slots(m)[j]->0.producer) by {
            assert(s1.input_slots(m) == s0.input_slots(m));
        }
    }
}

impl GraphResourceResolver {
    /// Applies one round of claims, taking the claimed resolved inputs in
    /// the order they were first claimed. A resolved input that some node
    /// borrows goes to every node that claimed to borrow it. Otherwise it
    /// goes to the node that claimed to consume it, when that claim is the
    /// only one and was not picked among several producers (or when every
    /// claim of the round was so picked), or to the first claimer when
    /// every claim of the round and of this resolved input was so picked;
    /// its producer can then no longer be consumed from, and a claim picked
    /// among several ends the round. True if anything was resolved.
    fn apply_claims(&mut self, claims: &Claims, shape: &GraphShape, producers: &mut Vec<Vec<InputOrNode>>) -> (found: bool)
        requires
            shape.wf(),
            old(self).slots_fit(shape),
            claims.fits(old(self), shape, old(producers)@),
            old(self).slots_valid(shape),
            old(self).consumed_unique(),
            old(self).consumed_gone(old(producers)@),
            producers_within(shape, old(producers)@),
            old(self).slots_not_self(),
        ensures
            final(self).slots_not_self(),
            final(self).slots_fit(shape),
            final(self).slots_valid(shape),
            final(self).consumed_unique(),
            final(self).consumed_gone(final(producers)@),
            producers_within(shape, final(producers)@),
            final(self).orderings() == old(self).orderings(),
            final(self).unresolved() <= old(self).unresolved(),
            found ==> final(self).unresolved() < old(self).unresolved(),
            !found ==> final(self).unresolved() == old(self).unresolved(),
            claims.must_resolve() ==> found,
            final(self).memory_ok() == old(self).memory_ok(),
            claims.settles() ==> forall|j: int| 0 <= j < claims.consume_claims().len()
                ==> (#[trigger] final(self).input_slots(claims.consume_claims()[j].1.node as int))[claims.consume_claims()[j].1.input_idx as int] is Some,
            claims.settles() ==> forall|j: int| 0 <= j < claims.borrow_claims().len()
                ==> (#[trigger] final(self).borrow_slots(claims.borrow_claims()[j].1.0 as int))[claims.borrow_claims()[j].1.1 as int] is Some,
            claims.all_sole() ==> forall|j: int| 0 <= j < claims.consume_claims().len()
                ==> (#[trigger] final(self).input_slots(claims.consume_claims()[j].1.node as int))[claims.consume_claims()[j].1.input_idx as int] is Some,
    {
        let accept_unordered = claims.only_unordered();
        let mut found = false;
        let mut stop = false;
        let ghost s0 = *self;
        let ghost p0 = producers@;
        let mut k: usize = 0;
        while k < claims.keys.len() && !stop
            invariant
                shape.wf(),
                self.slots_fit(shape),
                self.slots_valid(shape),
                self.consumed_unique(),
                self.consumed_gone(producers@),
                producers_within(shape, producers@),
                self.orderings() == s0.orderings(),
                self.nodes() == s0.nodes(),
                self.memory_ok() == s0.memory_ok(),
                self.slots_not_self(),
                claims.fits(&s0, shape, p0),
                s0.slots_fit(shape),
                !found ==> forall|m: int| 0 <= m < self.nodes() ==> #[trigger] self.input_slots(m) == s0.input_slots(m),
                !found ==> forall|m: int| 0 <= m < self.nodes() ==> #[trigger] self.borrow_slots(m) == s0.borrow_slots(m),
                !found ==> self.unresolved() == s0.unresolved(),
                found ==> self.unresolved() < s0.unresolved(),
                self.unresolved() <= s0.unresolved(),
                forall|j: int|
                    0 <= j < claims.consumes@.len() && (#[trigger] claims.consumes@[j]).0 >= k ==> producers@[claims.keys@[claims.consumes@[j].0 as int].resource as int]@.contains(
                        claims.keys@[claims.consumes@[j].0 as int].producer,
                    ),
                !found ==> forall|j: int| 0 <= j < claims.borrows@.len() ==> (#[trigger] claims.borrows@[j]).0 >= k,
                !found ==> forall|k2: usize| k2 < k ==> !#[trigger] claims.sole_plain(k2),
                stop ==> found,
                claims.settles() ==> !stop,
                claims.settles() ==> forall|j: int| 0 <= j < claims.borrows@.len() && (#[trigger] claims.borrows@[j]).0 < k
                    ==> self.borrow_slots(claims.borrows@[j].1.0 as int)[claims.borrows@[j].1.1 as int] is Some,
                claims.settles() ==> forall|j: int| 0 <= j < claims.consumes@.len() && (#[trigger] claims.consumes@[j]).0 < k
                    ==> self.input_slots(claims.consumes@[j].1.node as int)[claims.consumes@[j].1.input_idx as int] is Some,
            decreases claims.keys@.len() - k,
        {
            let key = claims.keys[k];
            proof {
                assert(claims.claimed(k as int));
            }
            if !claims.has_borrow_claims(k) {
                let list = claims.consume_claims_of(k);
                let c0 = list[0];
                proof {
                    assert forall|j: int| 0 <= j < claims.borrows@.len() implies (#[trigger] claims.borrows@[j]).0 != k by {}
                }
                let winner: Option<ConsumeClaim> = if list.len() == 1 && (!c0.is_from_unordered || accept_unordered) {
                    Some(c0)
                } else if accept_unordered && all_from_unordered(&list) {
                    Some(c0)
                } else {
                    None
                };
                match winner {
                    Some(c) => {
                        let ghost s1 = *self;
                        let ghost pr1 = producers@;
                        proof {
                            assert(list@[0] == c);
                            let j = choose|j: int| 0 <= j < claims.consumes@.len() && #[trigger] claims.consumes@[j] == (k, list@[0]);
                            assert(claims.consumes@[j].0 == k);
                            assert(c.node < s0.nodes());
                            assert(c.input_idx < s0.input_slots(c.node as int).len());
                            assert(key.resource == shape.consumes(c.node as int)[c.input_idx as int]);
                            assert(producers@[key.resource as int]@.contains(key.producer));
                            assert(self.input_slots(c.node as int).len() == shape.consumes(c.node as int).len());
                            assert(s0.input_slots(c.node as int).len() == shape.consumes(c.node as int).len());
                            if !found {
                                assert(self.input_slots(c.node as int) == s0.input_slots(c.node as int));
                                assert(s0.input_slots(c.node as int)[c.input_idx as int] is None);
                            }
                            assert((key.resource as nat) < shape.resource_count());
                        }
                        let ghost s2 = *self;
                        proof {
                            let j = choose|j: int| 0 <= j < claims.consumes@.len() && #[trigger] claims.consumes@[j] == (k, list@[0]);
                            assert(claims.consumes@[j].0 == k);
                            assert(key.producer != InputOrNode::Node(c.node));
                        }
                        self.set_input_slot(c.node, c.input_idx, key);
                        proof {
                            assert forall|n: int, i: int|
                                0 <= n < self.node_count && 0 <= i < self.input_slots(n).len() && (#[trigger] self.input_slots(n)[i]) is Some
                                    implies self.input_slots(n)[i]->0.producer != InputOrNode::Node(n as usize) by {
                                if n != c.node {
                                    assert(self.input_slots(n) == s2.input_slots(n));
                                } else if i != c.input_idx {
                                    assert(self.input_slots(n)[i] == s2.input_slots(n)[i]);
                                }
                            }
                            assert forall|n: int, i: int|
                                0 <= n < self.node_count && 0 <= i < self.borrow_slots(n).len() && (#[trigger] self.borrow_slots(n)[i]) is Some
                                    implies self.borrow_slots(n)[i]->0.producer != InputOrNode::Node(n as usize) by {
                                assert(self.borrow_slots(n) == s2.borrow_slots(n));
                            }
                        }
                        proof {
                            if claims.settles() {
                                assert forall|j: int| 0 <= j < claims.borrows@.len() && (#[trigger] claims.borrows@[j]).0 < k + 1
                                    implies self.borrow_slots(claims.borrows@[j].1.0 as int)[claims.borrows@[j].1.1 as int] is Some by {
                                    assert(claims.borrows@[j].0 != k);
                                    let bn = claims.borrows@[j].1.0;
                                    assert(bn < s0.nodes());
                                    assert(self.borrow_slots(bn as int) == s2.borrow_slots(bn as int));
                                }
                                assert(claims.sole_plain(k));
                                assert forall|j: int| 0 <= j < claims.consumes@.len() && (#[trigger] claims.consumes@[j]).0 < k + 1
                                    implies self.input_slots(claims.consumes@[j].1.node as int)[claims.consumes@[j].1.input_idx as int] is Some by {
                                    let cj = claims.consumes@[j].1;
                                    assert(cj.node < s0.nodes());
                                    if claims.consumes@[j].0 == k {
                                        lemma_claim_with_key(claims.consumes@, k, j);
                                        assert(cj == c);
                                    } else {
                                        assert(s2.input_slots(cj.node as int)[cj.input_idx as int] is Some);
                                        if cj.node != c.node {
                                            assert(self.input_slots(cj.node as int) == s2.input_slots(cj.node as int));
                                        }
                                    }
                                }
                            }
                        }
                        let row = without(&producers[key.resource], key.producer);
                        producers.set(key.resource, row);
                        proof {
                            Self::lemma_set_input_keeps(
                                &s1,
                                self,
                                shape,
                                pr1,
                                producers@,
                                c.node as int,
                                c.input_idx as int,
                                key,
                            );
                            assert forall|j: int|
                                0 <= j < claims.consumes@.len() && (#[trigger] claims.consumes@[j]).0 >= k + 1 implies producers@[claims.keys@[claims.consumes@[j].0 as int].resource as int]@.contains(
                                    claims.keys@[claims.consumes@[j].0 as int].producer,
                                ) by {
                                let k2 = claims.consumes@[j].0;
                                let key2 = claims.keys@[k2 as int];
                                assert(pr1[key2.resource as int]@.contains(key2.producer));
                                assert(key2 != key);
                                assert(key2.resource == shape.consumes(claims.consumes@[j].1.node as int)[claims.consumes@[j].1.input_idx as int]);
                                assert((key2.resource as nat) < shape.resource_count());
                                if key2.resource != key.resource {
                                    assert(producers@[key2.resource as int] == pr1[key2.resource as int]);
                                }
                            }
                        }
                        found = true;
                        proof {
                            if claims.settles() {
                                assert(claims.sole_plain(k));
                                assert(!c.is_from_unordered);
                            }
                        }
                        if c.is_from_unordered {
                            stop = true;
                        }
                    },
                    None => {
                        proof {
                            if claims.settles() {
                                assert(claims.sole_plain(k));
                                assert(list@ == claims_with_key(claims.consumes@, k));
                                assert(false);
                            }
                        }
                    },
                }
            } else {
                let list = claims.borrow_claims_of(k);
                let mut t: usize = 0;
                let ghost found0 = found;
                while t < list.len()
                    invariant
                        shape.wf(),
                        self.slots_fit(shape),
                        self.slots_valid(shape),
                        self.consumed_unique(),
                        self.consumed_gone(producers@),
                        producers_within(shape, producers@),
                        self.orderings() == s0.orderings(),
                        self.nodes() == s0.nodes(),
                        self.memory_ok() == s0.memory_ok(),
                        self.slots_not_self(),
                        claims.fits(&s0, shape, p0),
                        s0.slots_fit(shape),
                        k < claims.keys@.len(),
                        key == claims.keys@[k as int],
                        forall|t2: int| 0 <= t2 < list@.len() ==> claims.borrows@.contains((k, #[trigger] list@[t2])),
                        list@.len() > 0,
                        !found0 && t == 0 ==> forall|m: int| 0 <= m < self.nodes() ==> #[trigger] self.input_slots(m) == s0.input_slots(m),
                        !found0 && t == 0 ==> forall|m: int| 0 <= m < self.nodes() ==> #[trigger] self.borrow_slots(m) == s0.borrow_slots(m),
                        !found0 && t == 0 ==> self.unresolved() == s0.unresolved(),
                        (found0 || t > 0) ==> self.unresolved() < s0.unresolved(),
                        self.unresolved() <= s0.unresolved(),
                        forall|m: int| 0 <= m < self.nodes() ==> #[trigger] self.input_slots(m) == s0.input_slots(m) || found0,
                        forall|j: int|
                            0 <= j < claims.consumes@.len() && (#[trigger] claims.consumes@[j]).0 >= k ==> producers@[claims.keys@[claims.consumes@[j].0 as int].resource as int]@.contains(
                                claims.keys@[claims.consumes@[j].0 as int].producer,
                            ),
                        claims.settles() ==> forall|t2: int| 0 <= t2 < t
                            ==> self.borrow_slots((#[trigger] list@[t2]).0 as int)[list@[t2].1 as int] is Some,
                        claims.settles() ==> forall|j: int| 0 <= j < claims.borrows@.len() && (#[trigger] claims.borrows@[j]).0 < k
                            ==> self.borrow_slots(claims.borrows@[j].1.0 as int)[claims.borrows@[j].1.1 as int] is Some,
                        claims.settles() ==> forall|j: int| 0 <= j < claims.consumes@.len() && (#[trigger] claims.consumes@[j]).0 < k
                            ==> self.input_slots(claims.consumes@[j].1.node as int)[claims.consumes@[j].1.input_idx as int] is Some,
                    decreases list@.len() - t,
                {
                    let (bn, bi) = list[t];
                    let ghost s1 = *self;
                    proof {
                        assert(claims.borrows@.contains((k, list@[t as int])));
                        let j = choose|j: int| 0 <= j < claims.borrows@.len() && claims.borrows@[j] == (k, list@[t as int]);
                        assert(claims.borrows@[j] == (k, (bn, bi)));
                        assert(bn < s0.nodes());
                        assert(bi < s0.borrow_slots(bn as int).len());
                        assert(self.borrow_slots(bn as int).len() == shape.borrows(bn as int).len());
                        assert(s0.borrow_slots(bn as int).len() == shape.borrows(bn as int).len());
                        assert(key.resource == shape.borrows(bn as int)[bi as int]);
                        assert(shape.producers_spec(key.resource).contains(key.producer));
                        if !found0 && t == 0 {
                            assert(self.borrow_slots(bn as int) == s0.borrow_slots(bn as int));
                            assert(s0.borrow_slots(bn as int)[bi as int] is None);
                        }
                    }
                    proof {
                        let j = choose|j: int| 0 <= j < claims.borrows@.len() && claims.borrows@[j] == (k, list@[t as int]);
                        assert(key.producer != InputOrNode::Node(bn));
                    }
                    self.set_borrow_slot(bn, bi, key);
                    proof {
                        assert forall|n: int, i: int|
                            0 <= n < self.node_count && 0 <= i < self.borrow_slots(n).len() && (#[trigger] self.borrow_slots(n)[i]) is Some
                                implies self.borrow_slots(n)[i]->0.producer != InputOrNode::Node(n as usize) by {
                            if n != bn {
                                assert(self.borrow_slots(n) == s1.borrow_slots(n));
                            } else if i != bi {
                                assert(self.borrow_slots(n)[i] == s1.borrow_slots(n)[i]);
                            }
                        }
                        assert forall|n: int, i: int|
                            0 <= n < self.node_count && 0 <= i < self.input_slots(n).len() && (#[trigger] self.input_slots(n)[i]) is Some
                                implies self.input_slots(n)[i]->0.producer != InputOrNode::Node(n as usize) by {
                            assert(self.input_slots(n) == s1.input_slots(n));
                        }
                    }
                    proof {
                        Self::lemma_set_borrow_keeps(&s1, self, shape, producers@, bn as int, bi as int, key);
                        assert forall|m: int| 0 <= m < self.nodes() implies #[trigger] self.input_slots(m) == s0.input_slots(m) || found0 by {
                            assert(self.input_slots(m) == s1.input_slots(m));
                        }
                        if claims.settles() {
                            assert forall|t2: int| 0 <= t2 < t + 1
                                implies self.borrow_slots((#[trigger] list@[t2]).0 as int)[list@[t2].1 as int] is Some by {
                                let (b2, i2) = list@[t2];
                                assert(claims.borrows@.contains((k, list@[t2])));
                                let j = choose|j: int| 0 <= j < claims.borrows@.len() && claims.borrows@[j] == (k, list@[t2]);
                                assert(claims.borrows@[j] == (k, (b2, i2)));
                                assert(b2 < s0.nodes() && i2 < s0.borrow_slots(b2 as int).len());
                                assert(s1.borrow_slots(b2 as int).len() == shape.borrows(b2 as int).len());
                                assert(s0.borrow_slots(b2 as int).len() == shape.borrows(b2 as int).len());
                                if t2 < t {
                                    if b2 != bn {
                                        assert(self.borrow_slots(b2 as int) == s1.borrow_slots(b2 as int));
                                    } else if i2 != bi {
                                        assert(self.borrow_slots(b2 as int)[i2 as int] == s1.borrow_slots(b2 as int)[i2 as int]);
                                    }
                                }
                            }
                            assert forall|j: int| 0 <= j < claims.borrows@.len() && (#[trigger] claims.borrows@[j]).0 < k
                                implies self.borrow_slots(claims.borrows@[j].1.0 as int)[claims.borrows@[j].1.1 as int] is Some by {
                                let (b2, i2) = claims.borrows@[j].1;
                                assert(b2 < s0.nodes() && i2 < s0.borrow_slots(b2 as int).len());
                                assert(s1.borrow_slots(b2 as int).len() == shape.borrows(b2 as int).len());
                                assert(s0.borrow_slots(b2 as int).len() == shape.borrows(b2 as int).len());
                                if b2 != bn {
                                    assert(self.borrow_slots(b2 as int) == s1.borrow_slots(b2 as int));
                                } else if i2 != bi {
                                    assert(self.borrow_slots(b2 as int)[i2 as int] == s1.borrow_slots(b2 as int)[i2 as int]);
                                }
                            }
                            assert forall|j: int| 0 <= j < claims.consumes@.len() && (#[trigger] claims.consumes@[j]).0 < k
                                implies self.input_slots(claims.consumes@[j].1.node as int)[claims.consumes@[j].1.input_idx as int] is Some by {
                                let cn = claims.consumes@[j].1.node;
                                assert(cn < s0.nodes());
                                assert(self.input_slots(cn as int) == s1.input_slots(cn as int));
                            }
                        }
                    }
                    t = t + 1;
                }
                proof {
                    if claims.settles() {
                        assert forall|j: int| 0 <= j < claims.borrows@.len() && (#[trigger] claims.borrows@[j]).0 < k + 1
                            implies self.borrow_slots(claims.borrows@[j].1.0 as int)[claims.borrows@[j].1.1 as int] is Some by {
                            if claims.borrows@[j].0 == k {
                                assert(list@.contains(claims.borrows@[j].1));
                                let t2 = choose|t2: int| 0 <= t2 < list@.len() && list@[t2] == claims.borrows@[j].1;
                                assert(self.borrow_slots(list@[t2].0 as int)[list@[t2].1 as int] is Some);
                            }
                        }
                        let jb = choose|jb: int| 0 <= jb < claims.borrows@.len() && #[trigger] claims.borrows@[jb].0 == k;
                        assert forall|j: int| 0 <= j < claims.consumes@.len() && (#[trigger] claims.consumes@[j]).0 < k + 1
                            implies self.input_slots(claims.consumes@[j].1.node as int)[claims.consumes@[j].1.input_idx as int] is Some by {
                            assert(claims.consumes@[j].0 != claims.borrows@[jb].0);
                        }
                    }
                }
                found = true;
            }
            k = k + 1;
        }
        proof {
            if !found {
                assert(k >= claims.keys@.len());
                if claims.borrows@.len() > 0 {
                    let (k2, _) = claims.borrows@[0];
                    assert(k2 < claims.keys@.len());
                }
                assert forall|k2: usize| k2 < claims.keys@.len() implies !#[trigger] claims.sole_plain(k2) by {}
            }
            if claims.all_sole() {
                claims.lemma_all_sole_settles();
            }
            if claims.settles() {
                assert forall|j: int| 0 <= j < claims.borrow_claims().len()
                    implies (#[trigger] self.borrow_slots(claims.borrow_claims()[j].1.0 as int))[claims.borrow_claims()[j].1.1 as int] is Some by {
                    assert(claims.borrows@[j].0 < claims.keys@.len());
                }
                assert forall|j: int| 0 <= j < claims.consume_claims().len()
                    implies (#[trigger] self.input_slots(claims.consume_claims()[j].1.node as int))[claims.consume_claims()[j].1.input_idx as int] is Some by {
                    assert(claims.consumes@[j].0 < claims.keys@.len());
                }
            }
        }
        found
    }
}

impl ResolvedResources {
    /// Each consumed and each borrowed resource of each node comes from the
    /// one producer of that resource other than the node itself.
    pub open spec fn sole_sources(&self, shape: &GraphShape) -> bool {
        &&& forall|n: int, i: int| 0 <= n < self.node_count && 0 <= i < self.inputs@[n]@.len()
            ==> (#[trigger] self.inputs@[n]@[i]).producer == others(shape.producers_spec(shape.consumes(n)[i]), n as usize)[0]
        &&& forall|n: int, i: int| 0 <= n < self.node_count && 0 <= i < self.borrows@[n]@.len()
            ==> (#[trigger] self.borrows@[n]@[i]).producer == others(shape.producers_spec(shape.borrows(n)[i]), n as usize)[0]
    }

    /// On a single-sourced graph, a resolution that takes nothing from the
    /// node that takes it takes each resource from its one producer other
    /// than the node: there is exactly one such resolution.
    pub proof fn lemma_single_sourced_resolution(&self, shape: &GraphShape)
        requires
            single_sourced(shape),
            self.resolves(shape),
            self.not_self_produced(),
        ensures
            self.sole_sources(shape),
    {
        assert forall|n: int, i: int| 0 <= n < self.node_count && 0 <= i < self.inputs@[n]@.len()
            implies (#[trigger] self.inputs@[n]@[i]).producer == others(shape.producers_spec(shape.consumes(n)[i]), n as usize)[0] by {
            let x = self.inputs@[n]@[i];
            let o = others(shape.producers_spec(shape.consumes(n)[i]), n as usize);
            lemma_others_contains(shape.producers_spec(shape.consumes(n)[i]), n as usize, x.producer);
            assert(o.len() == 1);
        }
        assert forall|n: int, i: int| 0 <= n < self.node_count && 0 <= i < self.borrows@[n]@.len()
            implies (#[trigger] self.borrows@[n]@[i]).producer == others(shape.producers_spec(shape.borrows(n)[i]), n as usize)[0] by {
            let x = self.borrows@[n]@[i];
            let o = others(shape.producers_spec(shape.borrows(n)[i]), n as usize);
            lemma_others_contains(shape.producers_spec(shape.borrows(n)[i]), n as usize, x.producer);
            assert(o.len() == 1);
        }
    }

    /// The resolution answers `shape`: it has its nodes and explicit
    /// orderings, resolves each consumed and borrowed resource of each node,
    /// in order, to one of the resource's producers, and no two consumed
    /// resources to the same resolved input.
    pub open spec fn resolves(&self, shape: &GraphShape) -> bool {
        &&& self.wf()
        &&& self.node_count as nat == shape.node_count()
        &&& self.explicit_orderings@ == shape.explicit_orderings@
        &&& forall|n: int| 0 <= n < self.node_count ==> (#[trigger] self.inputs@[n])@.len() == shape.consumes(n).len()
        &&& forall|n: int| 0 <= n < self.node_count ==> (#[trigger] self.borrows@[n])@.len() == shape.borrows(n).len()
        &&& forall|n: int, i: int|
            0 <= n < self.node_count && 0 <= i < self.inputs@[n]@.len() ==> (#[trigger] self.inputs@[n]@[i]).resource == shape.consumes(n)[i]
                && shape.producers_spec(self.inputs@[n]@[i].resource).contains(self.inputs@[n]@[i].producer)
        &&& forall|n: int, i: int|
            0 <= n < self.node_count && 0 <= i < self.borrows@[n]@.len() ==> (#[trigger] self.borrows@[n]@[i]).resource == shape.borrows(n)[i]
                && shape.producers_spec(self.borrows@[n]@[i].resource).contains(self.borrows@[n]@[i].producer)
        &&& forall|n1: int, i1: int, n2: int, i2: int|
            0 <= n1 < self.node_count && 0 <= n2 < self.node_count && 0 <= i1 < self.inputs@[n1]@.len() && 0 <= i2
                < self.inputs@[n2]@.len() && (n1 != n2 || i1 != i2) ==> #[trigger] self.inputs@[n1]@[i1] != #[trigger] self.inputs@[n2]@[i2]
    }
}

proof fn lemma_within_in_range(shape: &GraphShape, producers: Seq<Vec<InputOrNode>>)
    requires
        shape.wf(),
        producers_within(shape, producers),
    ensures
        producers_in_range(producers, shape.node_count()),
{
    assert forall|r: int, i: int|
        0 <= r < producers.len() && 0 <= i < producers[r]@.len() implies ((#[trigger] producers[r]@[i]) matches InputOrNode::Node(x) ==> (x as nat) < shape.node_count()) by {
        let q = producers[r]@[i];
        assert(producers[r]@.contains(q));
        assert(shape.producers_spec(r as usize).contains(q));
        let k = choose|k: int| 0 <= k < shape.producers_spec(r as usize).len() && #[trigger] shape.producers_spec(r as usize)[k] == q;
        lemma_producer_is_node(shape, r as usize, k);
    }
}

/// A row of `len` unresolved entries.
fn unresolved_row(len: usize) -> (r: Vec<Option<ResolvedInput>>)
    ensures
        r@.len() == len,
        forall|i: int| 0 <= i < len ==> (#[trigger] r@[i]) is None,
{
    let mut out: Vec<Option<ResolvedInput>> = Vec::new();
    let mut i: usize = 0;
    while i < len
        invariant
            i <= len,
            out@.len() == i,
            forall|j: int| 0 <= j < i ==> (#[trigger] out@[j]) is None,
        decreases len - i,
    {
        out.push(None);
        i = i + 1;
    }
    out
}

/// The resolved inputs of a fully resolved row.
fn unwrap_row(row: &Vec<Option<ResolvedInput>>) -> (r: Vec<ResolvedInput>)
    requires
        forall|i: int| 0 <= i < row@.len() ==> (#[trigger] row@[i]) is Some,
    ensures
        r@.len() == row@.len(),
        forall|i: int| 0 <= i < row@.len() ==> Some(#[trigger] r@[i]) == row@[i],
{
    let mut out: Vec<ResolvedInput> = Vec::new();
    let mut i: usize = 0;
    while i < row.len()
        invariant
            i <= row@.len(),
            forall|j: int| 0 <= j < row@.len() ==> (#[trigger] row@[j]) is Some,
            out@.len() == i,
            forall|j: int| 0 <= j < i ==> Some(#[trigger] out@[j]) == row@[j],
        decreases row@.len() - i,
    {
        match row[i] {
            Some(x) => out.push(x),
            None => {
                assert(row@[i as int] is Some);
            },
        }
        i = i + 1;
    }
    out
}

/// The claim on the consumed resource `i` of node `m` from the graph's
/// inputs.
pub open spec fn input_claim(shape: &GraphShape, m: int, i: int) -> (ResolvedInput, ConsumeClaim) {
    (
        ResolvedInput { resource: shape.consumes(m)[i], producer: InputOrNode::Input },
        ConsumeClaim { node: m as usize, input_idx: i as usize, is_from_unordered: false },
    )
}

impl GraphResourceResolver {
    /// The consumed resource `i` of node `m` is unresolved and its only
    /// remaining producer is the graph's inputs.
    pub open spec fn input_forced(&self, shape: &GraphShape, producers: Seq<Vec<InputOrNode>>, m: int, i: int) -> bool {
        &&& 0 <= m < self.nodes()
        &&& 0 <= i < self.input_slots(m).len()
        &&& self.input_slots(m)[i] is None
        &&& producers[shape.consumes(m)[i] as int]@ == seq![InputOrNode::Input]
    }
}

/// The producers of `list` other than node `n`, in order.
pub open spec fn others(list: Seq<InputOrNode>, n: usize) -> Seq<InputOrNode>
    decreases list.len(),
{
    if list.len() == 0 {
        Seq::empty()
    } else {
        let rest = others(list.drop_last(), n);
        if list.last() != InputOrNode::Node(n) {
            rest.push(list.last())
        } else {
            rest
        }
    }
}

/// One more producer of `list` joins the others when it is not `n`.
proof fn lemma_others_step(list: Seq<InputOrNode>, n: usize, t: int)
    requires
        0 <= t < list.len(),
    ensures
        others(list.take(t + 1), n) == if list[t] != InputOrNode::Node(n) {
            others(list.take(t), n).push(list[t])
        } else {
            others(list.take(t), n)
        },
{
    assert(list.take(t + 1).drop_last() =~= list.take(t));
    assert(list.take(t + 1).last() == list[t]);
}

/// A prefix of `list` has no more producers other than `n` than `list`.
proof fn lemma_others_prefix(list: Seq<InputOrNode>, n: usize, t: int)
    requires
        0 <= t <= list.len(),
    ensures
        others(list.take(t), n).len() <= others(list, n).len(),
    decreases list.len(),
{
    if t == list.len() {
        assert(list.take(t) =~= list);
    } else {
        assert(list.drop_last().take(t) =~= list.take(t));
        lemma_others_prefix(list.drop_last(), n, t);
    }
}

/// A producer of `list` other than `n` is among the others.
proof fn lemma_others_contains(list: Seq<InputOrNode>, n: usize, x: InputOrNode)
    requires
        list.contains(x),
        x != InputOrNode::Node(n),
    ensures
        others(list, n).contains(x),
    decreases list.len(),
{
    let rest = others(list.drop_last(), n);
    if list.last() == x {
        assert(rest.push(x)[rest.len() as int] == x);
    } else {
        let j = choose|j: int| 0 <= j < list.len() && list[j] == x;
        assert(list.drop_last()[j] == x);
        lemma_others_contains(list.drop_last(), n, x);
        let t = choose|t: int| 0 <= t < rest.len() && rest[t] == x;
        if list.last() != InputOrNode::Node(n) {
            assert(rest.push(list.last())[t] == x);
        }
    }
}

/// The claim on the consumed resource `i` of node `m` from the one
/// remaining producer other than `m`.
pub open spec fn sole_claim(shape: &GraphShape, producers: Seq<Vec<InputOrNode>>, m: int, i: int) -> (ResolvedInput, ConsumeClaim) {
    (
        ResolvedInput {
            resource: shape.consumes(m)[i],
            producer: others(producers[shape.consumes(m)[i] as int]@, m as usize)[0],
        },
        ConsumeClaim { node: m as usize, input_idx: i as usize, is_from_unordered: false },
    )
}

/// The claim on the borrowed resource `i` of node `m` from its one
/// producer other than `m`.
pub open spec fn sole_borrow_claim(shape: &GraphShape, m: int, i: int) -> (ResolvedInput, (usize, usize)) {
    (
        ResolvedInput {
            resource: shape.borrows(m)[i],
            producer: others(shape.producers_spec(shape.borrows(m)[i]), m as usize)[0],
        },
        (m as usize, i as usize),
    )
}

impl GraphResourceResolver {
    /// The consumed resource `i` of node `m` is unresolved and exactly one
    /// of its remaining producers is not `m` itself.
    pub open spec fn sole_slot(&self, shape: &GraphShape, producers: Seq<Vec<InputOrNode>>, m: int, i: int) -> bool {
        &&& 0 <= m < self.nodes()
        &&& 0 <= i < self.input_slots(m).len()
        &&& self.input_slots(m)[i] is None
        &&& others(producers[shape.consumes(m)[i] as int]@, m as usize).len() == 1
    }

    /// The borrowed resource `i` of node `m` is unresolved and exactly one
    /// of its producers is not `m` itself.
    pub open spec fn sole_borrow(&self, shape: &GraphShape, m: int, i: int) -> bool {
        &&& 0 <= m < self.nodes()
        &&& 0 <= i < self.borrow_slots(m).len()
        &&& self.borrow_slots(m)[i] is None
        &&& others(shape.producers_spec(shape.borrows(m)[i]), m as usize).len() == 1
    }
}

/// The consume claims of `cs` on the `k`-th resolved input, in order.
pub open spec fn claims_with_key(cs: Seq<(usize, ConsumeClaim)>, k: usize) -> Seq<ConsumeClaim>
    decreases cs.len(),
{
    if cs.len() == 0 {
        Seq::empty()
    } else {
        let rest = claims_with_key(cs.drop_last(), k);
        if cs.last().0 == k { rest.push(cs.last().1) } else { rest }
    }
}

/// A claim on the `k`-th resolved input is among the claims with that key.
proof fn lemma_claim_with_key(cs: Seq<(usize, ConsumeClaim)>, k: usize, j: int)
    requires
        0 <= j < cs.len(),
        cs[j].0 == k,
    ensures
        claims_with_key(cs, k).contains(cs[j].1),
    decreases cs.len(),
{
    let rest = claims_with_key(cs.drop_last(), k);
    if j == cs.len() - 1 {
        assert(rest.push(cs[j].1)[rest.len() as int] == cs[j].1);
    } else {
        lemma_claim_with_key(cs.drop_last(), k, j);
        let t = choose|t: int| 0 <= t < rest.len() && rest[t] == cs[j].1;
        if cs.last().0 == k {
            assert(rest.push(cs.last().1)[t] == cs[j].1);
        }
    }
}

/// The only claim on the `k`-th resolved input is the `j`-th.
proof fn lemma_single_claim(cs: Seq<(usize, ConsumeClaim)>, k: usize, j: int)
    requires
        0 <= j < cs.len(),
        cs[j].0 == k,
        forall|j2: int| 0 <= j2 < cs.len() && j2 != j ==> (#[trigger] cs[j2]).0 != k,
    ensures
        claims_with_key(cs, k) == seq![cs[j].1],
    decreases cs.len(),
{
    if j == cs.len() - 1 {
        lemma_no_claim(cs.drop_last(), k);
        assert(claims_with_key(cs.drop_last(), k).push(cs[j].1) =~= seq![cs[j].1]);
    } else {
        assert forall|j2: int| 0 <= j2 < cs.drop_last().len() && j2 != j implies (#[trigger] cs.drop_last()[j2]).0 != k by {
            assert(cs.drop_last()[j2] == cs[j2]);
        }
        lemma_single_claim(cs.drop_last(), k, j);
        assert(cs.last() == cs[cs.len() - 1]);
    }
}

/// No claim is on the `k`-th resolved input.
proof fn lemma_no_claim(cs: Seq<(usize, ConsumeClaim)>, k: usize)
    requires
        forall|j: int| 0 <= j < cs.len() ==> (#[trigger] cs[j]).0 != k,
    ensures
        claims_with_key(cs, k).len() == 0,
    decreases cs.len(),
{
    if cs.len() > 0 {
        assert forall|j: int| 0 <= j < cs.drop_last().len() implies (#[trigger] cs.drop_last()[j]).0 != k by {
            assert(cs.drop_last()[j] == cs[j]);
        }
        lemma_no_claim(cs.drop_last(), k);
        assert(cs.last() == cs[cs.len() - 1]);
    }
}

/// Every node borrows nothing and consumes only resources that the graph's
/// inputs alone produce, each consumed once in the whole graph.
pub open spec fn inputs_only(shape: &GraphShape) -> bool {
    &&& forall|n: int| 0 <= n < shape.node_count() ==> #[trigger] shape.borrows(n).len() == 0
    &&& forall|n: int, i: int|
        0 <= n < shape.node_count() && 0 <= i < shape.consumes(n).len() ==> shape.producers_spec(#[trigger] shape.consumes(n)[i])
            == seq![InputOrNode::Input]
    &&& forall|n1: int, i1: int, n2: int, i2: int|
        0 <= n1 < shape.node_count() && 0 <= i1 < shape.consumes(n1).len() && 0 <= n2 < shape.node_count() && 0 <= i2
            < shape.consumes(n2).len() && (n1 != n2 || i1 != i2) ==> #[trigger] shape.consumes(n1)[i1] != #[trigger] shape.consumes(n2)[i2]
}

/// Every resource that a node consumes or borrows has exactly one producer
/// other than the node itself; no resource is consumed at two places, and
/// none is both consumed and borrowed.
pub open spec fn single_sourced(shape: &GraphShape) -> bool {
    &&& forall|n: int, i: int|
        0 <= n < shape.node_count() && 0 <= i < shape.consumes(n).len()
            ==> others(shape.producers_spec(#[trigger] shape.consumes(n)[i]), n as usize).len() == 1
    &&& forall|n: int, i: int|
        0 <= n < shape.node_count() && 0 <= i < shape.borrows(n).len()
            ==> others(shape.producers_spec(#[trigger] shape.borrows(n)[i]), n as usize).len() == 1
    &&& forall|n1: int, i1: int, n2: int, i2: int|
        0 <= n1 < shape.node_count() && 0 <= i1 < shape.consumes(n1).len() && 0 <= n2 < shape.node_count() && 0 <= i2
            < shape.consumes(n2).len() && (n1 != n2 || i1 != i2) ==> #[trigger] shape.consumes(n1)[i1] != #[trigger] shape.consumes(n2)[i2]
    &&& forall|n1: int, i1: int, n2: int, i2: int|
        0 <= n1 < shape.node_count() && 0 <= i1 < shape.consumes(n1).len() && 0 <= n2 < shape.node_count() && 0 <= i2
            < shape.borrows(n2).len() ==> #[trigger] shape.consumes(n1)[i1] != #[trigger] shape.borrows(n2)[i2]
}

impl Claims {
    /// Claims on a single-sourced graph that claim each unresolved consumed
    /// resource from its one remaining producer, each once, settle: a
    /// resolved input claimed by a consume claim is claimed by that one
    /// claim only, and by no borrow claim.
    proof fn lemma_settles(&self, s: &GraphResourceResolver, shape: &GraphShape, producers: Seq<Vec<InputOrNode>>)
        requires
            self.fits(s, shape, producers),
            self.slots_distinct(),
            s.slots_fit(shape),
            single_sourced(shape),
            forall|m: int, i: int| #[trigger] s.sole_slot(shape, producers, m, i)
                ==> self.consume_claims().contains(sole_claim(shape, producers, m, i)),
            forall|m: int, i: int| 0 <= m < s.nodes() && 0 <= i < s.input_slots(m).len() && (#[trigger] s.input_slots(m)[i]) is None
                ==> others(producers[shape.consumes(m)[i] as int]@, m as usize).len() == 1,
        ensures
            self.settles(),
    {
        assert forall|j1: int, j2: int| 0 <= j1 < self.consumes@.len() && 0 <= j2 < self.borrows@.len()
            implies (#[trigger] self.consumes@[j1]).0 != (#[trigger] self.borrows@[j2]).0 by {
            let c = self.consumes@[j1].1;
            let (bn, bi) = self.borrows@[j2].1;
            assert(s.input_slots(c.node as int).len() == shape.consumes(c.node as int).len());
            assert(s.borrow_slots(bn as int).len() == shape.borrows(bn as int).len());
            assert(shape.consumes(c.node as int)[c.input_idx as int] != shape.borrows(bn as int)[bi as int]);
        }
        assert forall|k: usize| (k as nat) < self.keys@.len() implies (exists|j: int| 0 <= j < self.borrows@.len() && #[trigger] self.borrows@[j].0 == k) || #[trigger] self.sole_plain(k) by {
            assert(self.claimed(k as int));
            if !(exists|j: int| 0 <= j < self.borrows@.len() && #[trigger] self.borrows@[j].0 == k) {
                let j = choose|j: int| 0 <= j < self.consumes@.len() && #[trigger] self.consumes@[j].0 == k;
                let c = self.consumes@[j].1;
                let m = c.node as int;
                let i = c.input_idx as int;
                assert(self.consume_claims()[j] == (self.keys@[k as int], c));
                assert(s.input_slots(m).len() == shape.consumes(m).len());
                assert(s.sole_slot(shape, producers, m, i));
                let j3 = choose|j3: int| 0 <= j3 < self.consume_claims().len() && self.consume_claims()[j3] == sole_claim(shape, producers, m, i);
                if j3 != j {
                    if j < j3 {
                        assert((self.consume_claims()[j].1.node, self.consume_claims()[j].1.input_idx)
                            != (self.consume_claims()[j3].1.node, self.consume_claims()[j3].1.input_idx));
                    } else {
                        assert((self.consume_claims()[j3].1.node, self.consume_claims()[j3].1.input_idx)
                            != (self.consume_claims()[j].1.node, self.consume_claims()[j].1.input_idx));
                    }
                }
                assert(!c.is_from_unordered);
                assert forall|j2: int| 0 <= j2 < self.consumes@.len() && j2 != j implies (#[trigger] self.consumes@[j2]).0 != k by {
                    if self.consumes@[j2].0 == k {
                        let c2 = self.consumes@[j2].1;
                        assert(self.consume_claims()[j2] == (self.keys@[k as int], c2));
                        assert(shape.consumes(c2.node as int)[c2.input_idx as int] == shape.consumes(m)[i]);
                        assert(s.input_slots(c2.node as int).len() == shape.consumes(c2.node as int).len());
                        if j < j2 {
                            assert((self.consume_claims()[j].1.node, self.consume_claims()[j].1.input_idx)
                                != (self.consume_claims()[j2].1.node, self.consume_claims()[j2].1.input_idx));
                        } else {
                            assert((self.consume_claims()[j2].1.node, self.consume_claims()[j2].1.input_idx)
                                != (self.consume_claims()[j].1.node, self.consume_claims()[j].1.input_idx));
                        }
                    }
                }
                lemma_single_claim(self.consumes@, k, j);
            }
        }
    }

    /// Claims on a graph that takes only its inputs, which claim every
    /// unresolved consumed resource from the inputs, each once, are all
    /// sole claims.
    proof fn lemma_all_sole(&self, s: &GraphResourceResolver, shape: &GraphShape, producers: Seq<Vec<InputOrNode>>)
        requires
            self.fits(s, shape, producers),
            self.slots_distinct(),
            s.slots_fit(shape),
            inputs_only(shape),
            forall|m: int, i: int| #[trigger] s.input_forced(shape, producers, m, i)
                ==> self.consume_claims().contains(input_claim(shape, m, i)),
            forall|m: int, i: int| 0 <= m < s.nodes() && 0 <= i < s.input_slots(m).len() && (#[trigger] s.input_slots(m)[i]) is None
                ==> producers[shape.consumes(m)[i] as int]@ == seq![InputOrNode::Input],
        ensures
            self.all_sole(),
            self.consumes@.len() > 0 ==> self.must_resolve(),
    {
        if self.borrows@.len() > 0 {
            let (k, (bn, bi)) = self.borrows@[0];
            assert(s.borrow_slots(bn as int).len() == shape.borrows(bn as int).len());
        }
        assert forall|k: usize| (k as nat) < self.keys@.len() implies #[trigger] self.sole_plain(k) by {
            assert(self.claimed(k as int));
            let j = choose|j: int| 0 <= j < self.consumes@.len() && #[trigger] self.consumes@[j].0 == k;
            let c = self.consumes@[j].1;
            assert(self.consume_claims()[j] == (self.keys@[k as int], c));
            assert forall|j2: int| 0 <= j2 < self.consumes@.len() && j2 != j implies (#[trigger] self.consumes@[j2]).0 != k by {
                if self.consumes@[j2].0 == k {
                    let c2 = self.consumes@[j2].1;
                    assert(self.consume_claims()[j2] == (self.keys@[k as int], c2));
                    assert(shape.consumes(c2.node as int)[c2.input_idx as int] == shape.consumes(c.node as int)[c.input_idx as int]);
                    assert(s.input_slots(c.node as int).len() == shape.consumes(c.node as int).len());
                    assert(s.input_slots(c2.node as int).len() == shape.consumes(c2.node as int).len());
                    if j < j2 {
                        assert((self.consume_claims()[j].1.node, self.consume_claims()[j].1.input_idx)
                            != (self.consume_claims()[j2].1.node, self.consume_claims()[j2].1.input_idx));
                    } else {
                        assert((self.consume_claims()[j2].1.node, self.consume_claims()[j2].1.input_idx)
                            != (self.consume_claims()[j].1.node, self.consume_claims()[j].1.input_idx));
                    }
                }
            }
            lemma_single_claim(self.consumes@, k, j);
            let m = c.node as int;
            let i = c.input_idx as int;
            assert(s.input_slots(m).len() == shape.consumes(m).len());
            assert(s.input_forced(shape, producers, m, i));
            let j3 = choose|j3: int| 0 <= j3 < self.consume_claims().len() && self.consume_claims()[j3] == input_claim(shape, m, i);
            if j3 != j {
                if j < j3 {
                    assert((self.consume_claims()[j].1.node, self.consume_claims()[j].1.input_idx)
                        != (self.consume_claims()[j3].1.node, self.consume_claims()[j3].1.input_idx));
                } else {
                    assert((self.consume_claims()[j3].1.node, self.consume_claims()[j3].1.input_idx)
                        != (self.consume_claims()[j].1.node, self.consume_claims()[j].1.input_idx));
                }
            }
        }
        if self.consumes@.len() > 0 {
            let k = self.consumes@[0].0;
            assert(self.sole_plain(k));
        }
    }
}

/// `q` is the pair (`Node(v)`, `k`) of the remembered pair `p` =
/// (`Node(k)`, `v`).
pub open spec fn inverse_of(p: (InputOrNode, usize), q: (InputOrNode, usize)) -> bool {
    p.0 matches InputOrNode::Node(k) && q == (InputOrNode::Node(p.1), k)
}

/// `p` is (`Node(v)`, `k`) where (`Node(k)`, `v`) is remembered by `s`.
pub open spec fn inverse_remembered(s: &GraphResourceResolver, p: (InputOrNode, usize)) -> bool {
    p.0 matches InputOrNode::Node(v) && s.remembered_after((InputOrNode::Node(p.1), v))
}

impl GraphResourceResolver {
    /// Rebuilds the second memory of the ordering search from the first:
    /// the pair (`Node(v)`, `k`) for each remembered pair (`Node(k)`, `v`).
    fn rebuild_inverse_cache(&mut self)
        ensures
            final(self).same_resolution(old(self)),
            final(self).wf() == old(self).wf(),
            final(self).unresolved() == old(self).unresolved(),
            forall|p: (InputOrNode, usize)| #[trigger] final(self).remembered_after(p) == old(self).remembered_after(p),
            forall|p: (InputOrNode, usize)| #[trigger] final(self).remembered_not_after(p) == inverse_remembered(old(self), p),
            old(self).memory_ok() ==> final(self).memory_ok(),
    {
        let mut inv: Vec<(InputOrNode, usize)> = Vec::new();
        let mut i: usize = 0;
        while i < self.after_or_equal_cache.len()
            invariant
                *self == *old(self),
                i <= self.after_or_equal_cache@.len(),
                forall|p: (InputOrNode, usize)| #[trigger] inv@.contains(p) == (exists|j: int| 0 <= j < i && inverse_of(#[trigger] self.after_or_equal_cache@[j], p)),
            decreases self.after_or_equal_cache@.len() - i,
        {
            let entry = self.after_or_equal_cache[i];
            let ghost inv0 = inv@;
            match entry.0 {
                InputOrNode::Node(k) => {
                    pairs_insert(&mut inv, (InputOrNode::Node(entry.1), k));
                },
                InputOrNode::Input => {},
            }
            proof {
                assert forall|p: (InputOrNode, usize)| #[trigger] inv@.contains(p) == (exists|j: int| 0 <= j < i + 1 && inverse_of(#[trigger] self.after_or_equal_cache@[j], p)) by {
                    if inverse_of(entry, p) {
                        assert(self.after_or_equal_cache@[i as int] == entry);
                    }
                    if exists|j: int| 0 <= j < i + 1 && inverse_of(#[trigger] self.after_or_equal_cache@[j], p) {
                        let j = choose|j: int| 0 <= j < i + 1 && inverse_of(#[trigger] self.after_or_equal_cache@[j], p);
                        if j < i {
                            assert(inv0.contains(p));
                        }
                    }
                }
            }
            i = i + 1;
        }
        proof {
            assert forall|p: (InputOrNode, usize)| #[trigger] inv@.contains(p) == inverse_remembered(old(self), p) by {
                if inverse_remembered(old(self), p) {
                    let q = (InputOrNode::Node(p.1), p.0->0);
                    let j = choose|j: int| 0 <= j < self.after_or_equal_cache@.len() && self.after_or_equal_cache@[j] == q;
                    assert(inverse_of(self.after_or_equal_cache@[j], p));
                }
                if inv@.contains(p) {
                    let j = choose|j: int| 0 <= j < i && inverse_of(#[trigger] self.after_or_equal_cache@[j], p);
                    assert(self.after_or_equal_cache@.contains(self.after_or_equal_cache@[j]));
                }
            }
        }
        self.after_or_equal_cache_inv = inv;
        proof {
            assert forall|p: (InputOrNode, usize)| #[trigger] self.after_or_equal_cache_inv@.contains(p) && p.0 == InputOrNode::Node(p.1)
                implies self.after_or_equal_cache@.contains(p) by {
                assert(inverse_remembered(old(self), p));
            }
        }
    }
}

impl GraphResourceResolver {
    /// What holds of a resolution holds of the same resolution.
    proof fn lemma_same_keeps(s1: &Self, s2: &Self, shape: &GraphShape, p: Seq<Vec<InputOrNode>>)
        requires
            s2.same_resolution(s1),
        ensures
            s1.slots_fit(shape) ==> s2.slots_fit(shape),
            s1.slots_valid(shape) ==> s2.slots_valid(shape),
            s1.consumed_unique() ==> s2.consumed_unique(),
            s1.consumed_gone(p) ==> s2.consumed_gone(p),
            s2.unresolved() == s1.unresolved(),
            s1.slots_not_self() ==> s2.slots_not_self(),
    {
        assert forall|m: int| #[trigger] s2.input_slots(m) == s1.input_slots(m) by {}
        assert forall|m: int| #[trigger] s2.borrow_slots(m) == s1.borrow_slots(m) by {}
        if s1.slots_fit(shape) {
            Self::lemma_slots_fit_same(s1, s2, shape);
        }
    }
}

/// A round of claims on the partial resolution `t`, whose resources can
/// still be consumed from `p`, resolves nothing: `t` is a valid, incomplete
/// resolution; the round's claims `c` claim unresolved resources from their
/// producers (never from the claiming node), each resource at most once,
/// including every resource whose only remaining producer is the graph's
/// inputs; and yet `c` holds no borrow claim and no resolved input claimed
/// by exactly one consume claim that did not pick among several producers.
pub open spec fn stalls(shape: &GraphShape, t: &GraphResourceResolver, c: &Claims, p: Seq<Vec<InputOrNode>>) -> bool {
    &&& t.slots_fit(shape)
    &&& t.slots_valid(shape)
    &&& t.consumed_unique()
    &&& t.consumed_gone(p)
    &&& producers_within(shape, p)
    &&& t.slots_not_self()
    &&& !t.complete()
    &&& c.fits(t, shape, p)
    &&& c.slots_distinct()
    &&& forall|m: int, i: int| #[trigger] t.input_forced(shape, p, m, i) ==> c.consume_claims().contains(input_claim(shape, m, i))
    &&& !c.must_resolve()
}

/// Resolves each resource that each node consumes or borrows to one of its
/// producers, in rounds of claims, until everything is resolved; nothing
/// when a round resolves nothing.
pub fn resolve_resources(shape: &GraphShape) -> (r: Option<ResolvedResources>)
    requires
        shape.wf(),
        forall|n: int, i: int|
            0 <= n < shape.node_count() && 0 <= i < shape.consumes(n).len() ==> shape.producers_spec(#[trigger] shape.consumes(n)[i]).len() > 0,
        forall|n: int, i: int|
            0 <= n < shape.node_count() && 0 <= i < shape.borrows(n).len() ==> shape.producers_spec(#[trigger] shape.borrows(n)[i]).len() > 0,
    ensures
        r matches Some(res) ==> res.resolves(shape),
        inputs_only(shape) ==> r is Some,
        r is None ==> exists|t: GraphResourceResolver, c: Claims, p: Seq<Vec<InputOrNode>>| #[trigger] stalls(shape, &t, &c, p),
        r matches Some(res) ==> res.not_self_produced(),
        single_sourced(shape) ==> r is Some && r->0.sole_sources(shape),
{
    let mut producers = shape.compute_producers();
    let borrow_producers = shape.compute_producers();
    let n = shape.nodes.len();
    let mut resolved_inputs: Vec<Vec<Option<ResolvedInput>>> = Vec::new();
    let mut resolved_borrows: Vec<Vec<Option<ResolvedInput>>> = Vec::new();
    let mut m: usize = 0;
    while m < n
        invariant
            n == shape.node_count(),
            m <= n,
            resolved_inputs@.len() == m,
            resolved_borrows@.len() == m,
            forall|j: int| 0 <= j < m ==> (#[trigger] resolved_inputs@[j])@.len() == shape.consumes(j).len(),
            forall|j: int| 0 <= j < m ==> (#[trigger] resolved_borrows@[j])@.len() == shape.borrows(j).len(),
            forall|j: int, i: int| 0 <= j < m && 0 <= i < resolved_inputs@[j]@.len() ==> (#[trigger] resolved_inputs@[j]@[i]) is None,
            forall|j: int, i: int| 0 <= j < m && 0 <= i < resolved_borrows@[j]@.len() ==> (#[trigger] resolved_borrows@[j]@[i]) is None,
            forall|j: int| 0 <= j < m ==> #[trigger] shape.borrows(j).len() <= usize::MAX,
        decreases n - m,
    {
        resolved_inputs.push(unresolved_row(shape.nodes[m].consumes.len()));
        resolved_borrows.push(unresolved_row(shape.nodes[m].borrows.len()));
        m = m + 1;
    }
    let mut orderings: Vec<(usize, usize)> = Vec::new();
    let mut k: usize = 0;
    while k < shape.explicit_orderings.len()
        invariant
            k <= shape.explicit_orderings@.len(),
            orderings@ == shape.explicit_orderings@.take(k as int),
        decreases shape.explicit_orderings@.len() - k,
    {
        orderings.push(shape.explicit_orderings[k]);
        k = k + 1;
        assert(orderings@ =~= shape.explicit_orderings@.take(k as int));
    }
    assert(shape.explicit_orderings@.take(shape.explicit_orderings@.len() as int) =~= shape.explicit_orderings@);
    let mut this = GraphResourceResolver {
        node_count: n,
        explicit_orderings: orderings,
        resolved_inputs,
        resolved_borrows,
        after_or_equal_cache: Vec::new(),
        after_or_equal_cache_inv: Vec::new(),
    };
    proof {
        assert(this.slots_fit(shape));
        assert(this.memory_ok());
        assert(this.memory_plain());
        assert(this.slots_not_self());
        assert(producers_within(shape, producers@)) by {
            assert forall|r: int, q: InputOrNode| 0 <= r < producers@.len() && #[trigger] producers@[r]@.contains(q) implies shape.producers_spec(r as usize).contains(q) by {
                assert(producers@[r]@ == shape.producers_spec(r as usize));
            }
        }
    }
    while !this.is_complete()
        invariant
            shape.wf(),
            this.slots_fit(shape),
            this.slots_valid(shape),
            this.consumed_unique(),
            this.consumed_gone(producers@),
            producers_within(shape, producers@),
            this.orderings() == shape.explicit_orderings@,
            this.memory_ok(),
            this.slots_not_self(),
            inputs_only(shape) ==> this.complete() || (
                (forall|m: int, i: int| 0 <= m < this.nodes() && 0 <= i < this.input_slots(m).len() ==> (#[trigger] this.input_slots(m)[i]) is None)
                && forall|r: int| 0 <= r < shape.resource_count() ==> (#[trigger] producers@[r])@ == shape.producers_spec(r as usize)),
            single_sourced(shape) ==> this.complete() || (this.no_inputs_resolved()
                && (forall|m: int, i: int| 0 <= m < this.nodes() && 0 <= i < this.borrow_slots(m).len() ==> (#[trigger] this.borrow_slots(m)[i]) is None)
                && this.memory_plain()
                && forall|r: int| 0 <= r < shape.resource_count() ==> (#[trigger] producers@[r])@ == shape.producers_spec(r as usize)),
            borrow_producers@.len() == shape.resource_count(),
            forall|r: int| 0 <= r < shape.resource_count() ==> (#[trigger] borrow_producers@[r])@ == shape.producers_spec(r as usize),
            forall|j: int| 0 <= j < shape.node_count() ==> #[trigger] shape.borrows(j).len() <= usize::MAX,
        decreases this.unresolved(),
    {
        let ghost t0 = this;
        this.rebuild_inverse_cache();
        proof {
            lemma_within_in_range(shape, producers@);
            GraphResourceResolver::lemma_same_keeps(&t0, &this, shape, producers@);
        }
        let ghost t1 = this;
        let claims = this.collect_claims(shape, &producers, &borrow_producers);
        proof {
            GraphResourceResolver::lemma_same_keeps(&t1, &this, shape, producers@);
        }
        let ghost t2 = this;
        let ghost p2 = producers@;
        proof {
            if single_sourced(shape) {
                assert(!t0.complete());
                GraphResourceResolver::lemma_same_no_inputs(&t0, &t1);
                assert(t1.memory_plain()) by {
                    assert forall|q: (InputOrNode, usize)| #[trigger] t1.after_or_equal_cache@.contains(q) implies q.0 == InputOrNode::Node(q.1) by {
                        assert(t1.remembered_after(q));
                        assert(t0.remembered_after(q));
                    }
                }
                assert forall|m: int, i: int| 0 <= m < t1.nodes() && 0 <= i < t1.input_slots(m).len() && (#[trigger] t1.input_slots(m)[i]) is None
                    implies others(p2[shape.consumes(m)[i] as int]@, m as usize).len() == 1 by {
                    assert(t1.input_slots(m).len() == shape.consumes(m).len());
                    lemma_producer_is_node(shape, shape.consumes(m)[i], 0);
                }
                claims.lemma_fits_same(&t2, &t1, shape, p2);
                claims.lemma_settles(&t1, shape, p2);
            }
            if inputs_only(shape) {
                assert(t2.slots_fit(shape));
                assert forall|m: int, i: int| 0 <= m < t2.nodes() && 0 <= i < t2.input_slots(m).len() && (#[trigger] t2.input_slots(m)[i]) is None
                    implies p2[shape.consumes(m)[i] as int]@ == seq![InputOrNode::Input] by {
                    assert(t2.input_slots(m).len() == shape.consumes(m).len());
                    assert(t2.input_slots(m) == t0.input_slots(m));
                    if t0.complete() {
                        assert(t0.input_slots(m)[i] is Some);
                    }
                    lemma_producer_is_node(shape, shape.consumes(m)[i], 0);
                }
                assert forall|m: int, i: int| #[trigger] t2.input_forced(shape, p2, m, i)
                    implies claims.consume_claims().contains(input_claim(shape, m, i)) by {
                    assert(t2.input_slots(m) == t1.input_slots(m));
                    assert(t1.input_forced(shape, p2, m, i));
                }
                claims.lemma_all_sole(&t2, shape, p2);
                assert(!t0.complete());
                assert forall|n: int, i: int| 0 <= n < t0.nodes() && 0 <= i < t0.borrow_slots(n).len()
                    implies (#[trigger] t0.borrow_slots(n)[i]) is Some by {
                    assert(t0.borrow_slots(n).len() == shape.borrows(n).len());
                }
                assert(exists|n: int, i: int| 0 <= n < t0.nodes() && 0 <= i < t0.input_slots(n).len() && !((#[trigger] t0.input_slots(n)[i]) is Some));
                let (n, i) = choose|n: int, i: int| 0 <= n < t0.nodes() && 0 <= i < t0.input_slots(n).len() && !((#[trigger] t0.input_slots(n)[i]) is Some);
                assert(t2.input_slots(n) == t0.input_slots(n));
                assert(t2.input_forced(shape, p2, n, i));
                assert(claims.consume_claims().contains(input_claim(shape, n, i)));
                assert(claims.consume_claims().len() > 0);
            }
        }
        let found = this.apply_claims(&claims, shape, &mut producers);
        proof {
            if single_sourced(shape) {
                assert forall|m: int, i: int| 0 <= m < this.nodes() && 0 <= i < this.input_slots(m).len() implies (#[trigger] this.input_slots(m)[i]) is Some by {
                    assert(this.input_slots(m).len() == shape.consumes(m).len());
                    assert(t1.input_slots(m).len() == shape.consumes(m).len());
                    assert(t1.input_slots(m) == t0.input_slots(m));
                    assert(t0.no_input_resolved(m));
                    assert(t1.sole_slot(shape, p2, m, i));
                    let j = choose|j: int| 0 <= j < claims.consume_claims().len() && claims.consume_claims()[j] == sole_claim(shape, p2, m, i);
                    assert(this.input_slots(claims.consume_claims()[j].1.node as int)[claims.consume_claims()[j].1.input_idx as int] is Some);
                }
                assert forall|m: int, i: int| 0 <= m < this.nodes() && 0 <= i < this.borrow_slots(m).len() implies (#[trigger] this.borrow_slots(m)[i]) is Some by {
                    assert(this.borrow_slots(m).len() == shape.borrows(m).len());
                    assert(t1.borrow_slots(m).len() == shape.borrows(m).len());
                    assert(t1.borrow_slots(m) == t0.borrow_slots(m));
                    assert(t0.borrow_slots(m)[i] is None);
                    assert(others(shape.producers_spec(shape.borrows(m)[i]), m as usize).len() == 1);
                    assert(t1.sole_borrow(shape, m, i));
                    assert(claims.borrow_claims().contains(sole_borrow_claim(shape, m, i)));
                    let j = choose|j: int| 0 <= j < claims.borrow_claims().len() && claims.borrow_claims()[j] == sole_borrow_claim(shape, m, i);
                    assert(claims.borrow_claims()[j].1 == (m as usize, i as usize));
                    assert(shape.borrows(m).len() <= usize::MAX);
                    assert(this.borrow_slots(claims.borrow_claims()[j].1.0 as int)[claims.borrow_claims()[j].1.1 as int] is Some);
                }
                assert(this.complete());
                if exists|m: int, i: int| 0 <= m < t0.nodes() && 0 <= i < t0.input_slots(m).len() && (#[trigger] t0.input_slots(m)[i]) is None {
                    let (m, i) = choose|m: int, i: int| 0 <= m < t0.nodes() && 0 <= i < t0.input_slots(m).len() && (#[trigger] t0.input_slots(m)[i]) is None;
                    assert(t1.input_slots(m) == t0.input_slots(m));
                    assert(t1.input_slots(m).len() == shape.consumes(m).len());
                    assert(t1.sole_slot(shape, p2, m, i));
                    let j = choose|j: int| 0 <= j < claims.consume_claims().len() && claims.consume_claims()[j] == sole_claim(shape, p2, m, i);
                    let k = claims.consumes@[j].0;
                    assert forall|j2: int| 0 <= j2 < claims.borrows@.len() implies (#[trigger] claims.borrows@[j2]).0 != k by {
                        assert(claims.consumes@[j].0 != claims.borrows@[j2].0);
                    }
                    assert((k as nat) < claims.keys@.len());
                    assert(claims.sole_plain(k));
                    assert(claims.must_resolve());
                } else {
                    let (m, i) = choose|m: int, i: int| 0 <= m < t0.nodes() && 0 <= i < t0.borrow_slots(m).len() && (#[trigger] t0.borrow_slots(m)[i]) is None;
                    assert(t1.borrow_slots(m) == t0.borrow_slots(m));
                    assert(t1.borrow_slots(m).len() == shape.borrows(m).len());
                    assert(t1.sole_borrow(shape, m, i));
                    let j = choose|j: int| 0 <= j < claims.borrow_claims().len() && claims.borrow_claims()[j] == sole_borrow_claim(shape, m, i);
                    assert(claims.borrows@.len() > 0);
                    assert(claims.must_resolve());
                }
                assert(found);
            }
            if inputs_only(shape) {
                assert forall|m: int, i: int| 0 <= m < this.nodes() && 0 <= i < this.input_slots(m).len() implies (#[trigger] this.input_slots(m)[i]) is Some by {
                    assert(this.input_slots(m).len() == shape.consumes(m).len());
                    assert(t2.input_slots(m).len() == shape.consumes(m).len());
                    assert(t2.input_slots(m) == t0.input_slots(m));
                    assert(t2.input_slots(m)[i] is None);
                    assert(t2.input_forced(shape, p2, m, i));
                    let j = choose|j: int| 0 <= j < claims.consume_claims().len() && claims.consume_claims()[j] == input_claim(shape, m, i);
                    assert(this.input_slots(claims.consume_claims()[j].1.node as int)[claims.consume_claims()[j].1.input_idx as int] is Some);
                }
                assert forall|m: int, i: int| 0 <= m < this.nodes() && 0 <= i < this.borrow_slots(m).len() implies (#[trigger] this.borrow_slots(m)[i]) is Some by {
                    assert(this.borrow_slots(m).len() == shape.borrows(m).len());
                }
                assert(this.complete());
            }
        }
        if !found {
            proof {
                assert forall|m: int, i: int| #[trigger] t2.input_forced(shape, p2, m, i)
                    implies claims.consume_claims().contains(input_claim(shape, m, i)) by {
                    assert(t2.input_slots(m) == t1.input_slots(m));
                    assert(t1.input_forced(shape, p2, m, i));
                }
                assert(!t2.complete()) by {
                    assert(!t0.complete());
                    assert(t2.same_resolution(&t0));
                    GraphResourceResolver::lemma_slots_fit_same(&t0, &t2, shape);
                    if t2.complete() {
                        assert forall|n: int, i: int| 0 <= n < t0.nodes() && 0 <= i < t0.input_slots(n).len()
                            implies (#[trigger] t0.input_slots(n)[i]) is Some by {
                            assert(t2.input_slots(n) == t0.input_slots(n));
                        }
                        assert forall|n: int, i: int| 0 <= n < t0.nodes() && 0 <= i < t0.borrow_slots(n).len()
                            implies (#[trigger] t0.borrow_slots(n)[i]) is Some by {
                            assert(t2.borrow_slots(n) == t0.borrow_slots(n));
                        }
                    }
                }
                assert(stalls(shape, &t2, &claims, p2));
            }
            return None;
        }
    }
    let mut inputs: Vec<Vec<ResolvedInput>> = Vec::new();
    let mut borrows: Vec<Vec<ResolvedInput>> = Vec::new();
    let mut m: usize = 0;
    while m < n
        invariant
            n == this.nodes(),
            this.slots_fit(shape),
            this.complete(),
            m <= n,
            inputs@.len() == m,
            borrows@.len() == m,
            forall|j: int| 0 <= j < m ==> (#[trigger] inputs@[j])@.len() == this.input_slots(j).len(),
            forall|j: int| 0 <= j < m ==> (#[trigger] borrows@[j])@.len() == this.borrow_slots(j).len(),
            forall|j: int, i: int| 0 <= j < m && 0 <= i < inputs@[j]@.len() ==> Some(#[trigger] inputs@[j]@[i]) == this.input_slots(j)[i],
            forall|j: int, i: int| 0 <= j < m && 0 <= i < borrows@[j]@.len() ==> Some(#[trigger] borrows@[j]@[i]) == this.borrow_slots(j)[i],
        decreases n - m,
    {
        proof {
            assert forall|i: int| 0 <= i < this.input_slots(m as int).len() implies (#[trigger] this.input_slots(m as int)[i]) is Some by {}
            assert forall|i: int| 0 <= i < this.borrow_slots(m as int).len() implies (#[trigger] this.borrow_slots(m as int)[i]) is Some by {}
        }
        inputs.push(unwrap_row(&this.resolved_inputs[m]));
        borrows.push(unwrap_row(&this.resolved_borrows[m]));
        m = m + 1;
    }
    let res = ResolvedResources { node_count: n, explicit_orderings: this.explicit_orderings, inputs, borrows };
    proof {
        assert forall|j: int, i: int| 0 <= j < res.node_count && 0 <= i < res.inputs@[j]@.len()
            implies (#[trigger] res.inputs@[j]@[i]).producer != InputOrNode::Node(j as usize) by {
            assert(Some(res.inputs@[j]@[i]) == this.input_slots(j)[i]);
        }
        assert forall|j: int, i: int| 0 <= j < res.node_count && 0 <= i < res.borrows@[j]@.len()
            implies (#[trigger] res.borrows@[j]@[i]).producer != InputOrNode::Node(j as usize) by {
            assert(Some(res.borrows@[j]@[i]) == this.borrow_slots(j)[i]);
        }
        assert forall|j: int, i: int|
            0 <= j < res.node_count && 0 <= i < res.inputs@[j]@.len() implies (#[trigger] res.inputs@[j]@[i]).resource == shape.consumes(j)[i]
                && shape.producers_spec(res.inputs@[j]@[i].resource).contains(res.inputs@[j]@[i].producer) by {
            assert(Some(res.inputs@[j]@[i]) == this.input_slots(j)[i]);
        }
        assert forall|j: int, i: int|
            0 <= j < res.node_count && 0 <= i < res.borrows@[j]@.len() implies (#[trigger] res.borrows@[j]@[i]).resource == shape.borrows(j)[i]
                && shape.producers_spec(res.borrows@[j]@[i].resource).contains(res.borrows@[j]@[i].producer) by {
            assert(Some(res.borrows@[j]@[i]) == this.borrow_slots(j)[i]);
        }
        assert forall|n1: int, i1: int, n2: int, i2: int|
            0 <= n1 < res.node_count && 0 <= n2 < res.node_count && 0 <= i1 < res.inputs@[n1]@.len() && 0 <= i2
                < res.inputs@[n2]@.len() && (n1 != n2 || i1 != i2) implies #[trigger] res.inputs@[n1]@[i1] != #[trigger] res.inputs@[n2]@[i2] by {
            assert(Some(res.inputs@[n1]@[i1]) == this.input_slots(n1)[i1]);
            assert(Some(res.inputs@[n2]@[i2]) == this.input_slots(n2)[i2]);
        }
        if single_sourced(shape) {
            res.lemma_single_sourced_resolution(shape);
        }
    }
    Some(res)
}

} // verus!
