//! The render graph as the compiler reads it, the producers of each
//! resource, and what marking a resource dirty and computing a resource do.

use vstd::prelude::*;
use crate::graph::{InputOrNode, ResolvedInput, ResolvedResources};

verus! {

/// The resources one node consumes, borrows and outputs.
pub struct NodeIo {
    pub consumes: Vec<usize>,
    pub borrows: Vec<usize>,
    pub outputs: Vec<usize>,
}

/// What the compiler reads of a render graph: its nodes, whether each
/// resource is permanent and whether its producers are unordered, the
/// resources given as inputs and the orderings given explicitly (before,
/// after). Nodes and resources are numbered densely.
pub struct GraphShape {
    pub nodes: Vec<NodeIo>,
    pub permanent: Vec<bool>,
    pub unordered: Vec<bool>,
    pub inputs: Vec<usize>,
    pub explicit_orderings: Vec<(usize, usize)>,
}

/// A producer `Node(n)` for each time `r` occurs in `outs`.
pub open spec fn hits(outs: Seq<usize>, r: usize, n: usize) -> Seq<InputOrNode>
    decreases outs.len(),
{
    if outs.len() == 0 {
        Seq::empty()
    } else {
        hits(outs.drop_last(), r, n) + (if outs.last() == r {
            seq![InputOrNode::Node(n)]
        } else {
            Seq::empty()
        })
    }
}

impl GraphShape {
    pub open spec fn resource_count(&self) -> nat {
        self.permanent@.len()
    }

    pub open spec fn node_count(&self) -> nat {
        self.nodes@.len()
    }

    pub open spec fn outputs(&self, n: int) -> Seq<usize> {
        self.nodes@[n].outputs@
    }

    pub open spec fn consumes(&self, n: int) -> Seq<usize> {
        self.nodes@[n].consumes@
    }

    pub open spec fn borrows(&self, n: int) -> Seq<usize> {
        self.nodes@[n].borrows@
    }

    /// Every resource named is a resource of the graph, every node named a
    /// node, and no resource is given as input twice.
    pub open spec fn wf(&self) -> bool {
        &&& self.unordered@.len() == self.permanent@.len()
        &&& forall|n: int, i: int|
            0 <= n < self.node_count() && 0 <= i < self.consumes(n).len() ==> (#[trigger] self.consumes(n)[i] as nat)
                < self.resource_count()
        &&& forall|n: int, i: int|
            0 <= n < self.node_count() && 0 <= i < self.borrows(n).len() ==> (#[trigger] self.borrows(n)[i] as nat)
                < self.resource_count()
        &&& forall|n: int, i: int|
            0 <= n < self.node_count() && 0 <= i < self.outputs(n).len() ==> (#[trigger] self.outputs(n)[i] as nat)
                < self.resource_count()
        &&& forall|i: int| 0 <= i < self.inputs@.len() ==> (#[trigger] self.inputs@[i] as nat) < self.resource_count()
        &&& forall|i: int, j: int| 0 <= i < j < self.inputs@.len() ==> self.inputs@[i] != self.inputs@[j]
        &&& forall|i: int|
            0 <= i < self.explicit_orderings@.len() ==> (#[trigger] self.explicit_orderings@[i]).0 < self.node_count()
                && self.explicit_orderings@[i].1 < self.node_count()
    }

    /// The nodes among the first `k` that output `r`, once per output.
    pub open spec fn node_producers(&self, r: usize, k: nat) -> Seq<InputOrNode>
        decreases k,
    {
        if k == 0 {
            Seq::empty()
        } else {
            self.node_producers(r, (k - 1) as nat) + hits(self.outputs(k - 1), r, (k - 1) as usize)
        }
    }

    /// The two shapes have the same nodes, resources, inputs and orderings.
    pub open spec fn same_views(&self, other: &GraphShape) -> bool {
        &&& self.nodes@.len() == other.nodes@.len()
        &&& forall|n: int| #![trigger self.nodes@[n]] 0 <= n < self.nodes@.len() ==> {
            &&& self.consumes(n) == other.consumes(n)
            &&& self.borrows(n) == other.borrows(n)
            &&& self.outputs(n) == other.outputs(n)
        }
        &&& self.permanent@ == other.permanent@
        &&& self.unordered@ == other.unordered@
        &&& self.inputs@ == other.inputs@
        &&& self.explicit_orderings@ == other.explicit_orderings@
    }

    /// Shapes with the same views have the same producers.
    pub proof fn lemma_same_producers(&self, other: &GraphShape, r: usize)
        requires
            self.same_views(other),
        ensures
            self.producers_spec(r) == other.producers_spec(r),
    {
        self.lemma_node_producers(other, r, self.node_count());
    }

    proof fn lemma_node_producers(&self, other: &GraphShape, r: usize, k: nat)
        requires
            self.same_views(other),
            k <= self.node_count(),
        ensures
            self.node_producers(r, k) == other.node_producers(r, k),
        decreases k,
    {
        if k > 0 {
            self.lemma_node_producers(other, r, (k - 1) as nat);
            assert(self.outputs(k - 1) == other.outputs(k - 1));
        }
    }

    /// The producers of `r`: the nodes that output it, in node order, then
    /// the graph's inputs if `r` is one of them.
    pub open spec fn producers_spec(&self, r: usize) -> Seq<InputOrNode> {
        self.node_producers(r, self.node_count()) + (if self.inputs@.contains(r) {
            seq![InputOrNode::Input]
        } else {
            Seq::empty()
        })
    }

    /// The producers of resource `r`.
    pub fn producers_of(&self, r: usize) -> (v: Vec<InputOrNode>)
        ensures
            v@ == self.producers_spec(r),
    {
        let mut out: Vec<InputOrNode> = Vec::new();
        let mut n: usize = 0;
        while n < self.nodes.len()
            invariant
                n <= self.node_count(),
                out@ == self.node_producers(r, n as nat),
            decreases self.node_count() - n,
        {
            let outs = &self.nodes[n].outputs;
            let mut j: usize = 0;
            while j < outs.len()
                invariant
                    n < self.node_count(),
                    outs@ == self.outputs(n as int),
                    j <= outs@.len(),
                    out@ == self.node_producers(r, n as nat) + hits(outs@.take(j as int), r, n),
                decreases outs@.len() - j,
            {
                proof {
                    assert(outs@.take(j as int + 1).drop_last() =~= outs@.take(j as int));
                }
                if outs[j] == r {
                    out.push(InputOrNode::Node(n));
                }
                j = j + 1;
                proof {
                    assert(out@ =~= self.node_producers(r, n as nat) + hits(outs@.take(j as int), r, n));
                }
            }
            proof {
                assert(outs@.take(outs@.len() as int) =~= outs@);
            }
            n = n + 1;
        }
        let mut k: usize = 0;
        let mut is_input = false;
        while k < self.inputs.len()
            invariant
                k <= self.inputs@.len(),
                is_input == self.inputs@.take(k as int).contains(r),
            decreases self.inputs@.len() - k,
        {
            proof {
                assert(self.inputs@.take(k as int + 1) =~= self.inputs@.take(k as int).push(self.inputs@[k as int]));
            }
            if self.inputs[k] == r {
                is_input = true;
            }
            proof {
                let t = self.inputs@.take(k as int + 1);
                if self.inputs@[k as int] == r {
                    assert(t[k as int] == r);
                }
                if t.contains(r) && self.inputs@[k as int] != r {
                    let i = choose|i: int| 0 <= i < t.len() && t[i] == r;
                    assert(self.inputs@.take(k as int)[i] == r);
                }
                if self.inputs@.take(k as int).contains(r) {
                    let i = choose|i: int| 0 <= i < k && self.inputs@.take(k as int)[i] == r;
                    assert(t[i] == r);
                }
            }
            k = k + 1;
        }
        proof {
            assert(self.inputs@.take(self.inputs@.len() as int) =~= self.inputs@);
        }
        if is_input {
            out.push(InputOrNode::Input);
        }
        proof {
            assert(out@ =~= self.producers_spec(r));
        }
        out
    }

    /// The producers of every resource.
    pub fn compute_producers(&self) -> (v: Vec<Vec<InputOrNode>>)
        requires
            self.wf(),
        ensures
            v@.len() == self.resource_count(),
            forall|r: int| 0 <= r < v@.len() ==> (#[trigger] v@[r])@ == self.producers_spec(r as usize),
    {
        let mut out: Vec<Vec<InputOrNode>> = Vec::new();
        let mut r: usize = 0;
        while r < self.permanent.len()
            invariant
                r <= self.resource_count(),
                out@.len() == r,
                forall|q: int| 0 <= q < r ==> (#[trigger] out@[q])@ == self.producers_spec(q as usize),
            decreases self.resource_count() - r,
        {
            out.push(self.producers_of(r));
            r = r + 1;
        }
        out
    }
}

} // verus!

verus! {

/// The position `n`, once for each time `x` occurs in `s`.
pub open spec fn node_hits(s: Seq<ResolvedInput>, x: ResolvedInput, n: usize) -> Seq<usize>
    decreases s.len(),
{
    if s.len() == 0 {
        Seq::empty()
    } else {
        node_hits(s.drop_last(), x, n) + (if s.last() == x {
            seq![n]
        } else {
            Seq::empty()
        })
    }
}

/// `node_hits(s, x, n)` holds `w` exactly when `w` is `n` and `s` holds `x`.
proof fn lemma_node_hits(s: Seq<ResolvedInput>, x: ResolvedInput, n: usize, w: usize)
    ensures
        node_hits(s, x, n).contains(w) <==> (w == n && s.contains(x)),
        forall|i: int| 0 <= i < node_hits(s, x, n).len() ==> #[trigger] node_hits(s, x, n)[i] == n,
    decreases s.len(),
{
    if s.len() > 0 {
        lemma_node_hits(s.drop_last(), x, n, w);
        let prev = node_hits(s.drop_last(), x, n);
        let tail: Seq<usize> = if s.last() == x { seq![n] } else { Seq::empty() };
        let all = prev + tail;
        assert(all == node_hits(s, x, n));
        if all.contains(w) {
            let i = choose|i: int| 0 <= i < all.len() && all[i] == w;
            if i < prev.len() {
                assert(prev[i] == w);
                let j = choose|j: int| 0 <= j < s.drop_last().len() && s.drop_last()[j] == x;
                assert(s[j] == x);
            } else {
                assert(tail[i - prev.len()] == w);
                assert(s[s.len() - 1] == x);
            }
        }
        if w == n && s.contains(x) {
            let j = choose|j: int| 0 <= j < s.len() && s[j] == x;
            if j == s.len() - 1 {
                assert(all[prev.len() as int] == n);
            } else {
                assert(s.drop_last()[j] == x);
                let i = choose|i: int| 0 <= i < prev.len() && prev[i] == w;
                assert(all[i] == w);
            }
        }
        assert forall|i: int| 0 <= i < all.len() implies #[trigger] all[i] == n by {
            if i < prev.len() {
                assert(all[i] == prev[i]);
            }
        }
    }
}

impl ResolvedResources {
    /// The nodes among the first `k` that consume `x`, once per consumption.
    pub open spec fn consumers_upto(&self, x: ResolvedInput, k: nat) -> Seq<usize>
        decreases k,
    {
        if k == 0 {
            Seq::empty()
        } else {
            self.consumers_upto(x, (k - 1) as nat) + node_hits(self.inputs@[k - 1]@, x, (k - 1) as usize)
        }
    }

    /// The nodes among the first `k` that borrow `x`, once per borrow.
    pub open spec fn borrowers_upto(&self, x: ResolvedInput, k: nat) -> Seq<usize>
        decreases k,
    {
        if k == 0 {
            Seq::empty()
        } else {
            self.borrowers_upto(x, (k - 1) as nat) + node_hits(self.borrows@[k - 1]@, x, (k - 1) as usize)
        }
    }

    /// The users of `x`: its consumers, then its borrowers, in node order.
    pub open spec fn users_spec(&self, x: ResolvedInput) -> Seq<usize> {
        self.consumers_upto(x, self.node_count as nat) + self.borrowers_upto(x, self.node_count as nat)
    }

    proof fn lemma_consumers_upto(&self, x: ResolvedInput, k: nat, w: usize)
        requires
            self.wf(),
            k <= self.node_count,
        ensures
            self.consumers_upto(x, k).contains(w) <==> (w < k && self.inputs@[w as int]@.contains(x)),
            self.borrowers_upto(x, k).contains(w) <==> (w < k && self.borrows@[w as int]@.contains(x)),
            forall|i: int| 0 <= i < self.consumers_upto(x, k).len() ==> #[trigger] self.consumers_upto(x, k)[i] < k,
            forall|i: int| 0 <= i < self.borrowers_upto(x, k).len() ==> #[trigger] self.borrowers_upto(x, k)[i] < k,
        decreases k,
    {
        if k > 0 {
            let k1 = (k - 1) as nat;
            self.lemma_consumers_upto(x, k1, w);
            lemma_node_hits(self.inputs@[k1 as int]@, x, k1 as usize, w);
            lemma_node_hits(self.borrows@[k1 as int]@, x, k1 as usize, w);
            let a = self.consumers_upto(x, k1);
            let b = node_hits(self.inputs@[k1 as int]@, x, k1 as usize);
            let c = self.borrowers_upto(x, k1);
            let d = node_hits(self.borrows@[k1 as int]@, x, k1 as usize);
            assert((a + b).contains(w) <==> a.contains(w) || b.contains(w)) by {
                if (a + b).contains(w) {
                    let i = choose|i: int| 0 <= i < (a + b).len() && (a + b)[i] == w;
                    if i < a.len() {
                        assert(a[i] == w);
                    } else {
                        assert(b[i - a.len()] == w);
                    }
                }
                if a.contains(w) {
                    let i = choose|i: int| 0 <= i < a.len() && a[i] == w;
                    assert((a + b)[i] == w);
                }
                if b.contains(w) {
                    let i = choose|i: int| 0 <= i < b.len() && b[i] == w;
                    assert((a + b)[i + a.len()] == w);
                }
            }
            assert((c + d).contains(w) <==> c.contains(w) || d.contains(w)) by {
                if (c + d).contains(w) {
                    let i = choose|i: int| 0 <= i < (c + d).len() && (c + d)[i] == w;
                    if i < c.len() {
                        assert(c[i] == w);
                    } else {
                        assert(d[i - c.len()] == w);
                    }
                }
                if c.contains(w) {
                    let i = choose|i: int| 0 <= i < c.len() && c[i] == w;
                    assert((c + d)[i] == w);
                }
                if d.contains(w) {
                    let i = choose|i: int| 0 <= i < d.len() && d[i] == w;
                    assert((c + d)[i + c.len()] == w);
                }
            }
            assert forall|i: int| 0 <= i < (a + b).len() implies #[trigger] (a + b)[i] < k by {
                if i >= a.len() {
                    assert(b[i - a.len()] == k1);
                }
            }
            assert forall|i: int| 0 <= i < (c + d).len() implies #[trigger] (c + d)[i] < k by {
                if i >= c.len() {
                    assert(d[i - c.len()] == k1);
                }
            }
        }
    }

    /// Node `w` is among the users of `x` exactly when it consumes or
    /// borrows `x`; every user is a node.
    pub proof fn lemma_users(&self, x: ResolvedInput, w: usize)
        requires
            self.wf(),
        ensures
            self.users_spec(x).contains(w) <==> (w < self.node_count && self.combined(w as int).contains(x)),
            forall|i: int| 0 <= i < self.users_spec(x).len() ==> #[trigger] self.users_spec(x)[i] < self.node_count,
    {
        let n = self.node_count as nat;
        self.lemma_consumers_upto(x, n, w);
        let a = self.consumers_upto(x, n);
        let c = self.borrowers_upto(x, n);
        if (a + c).contains(w) {
            let i = choose|i: int| 0 <= i < (a + c).len() && (a + c)[i] == w;
            if i < a.len() {
                assert(a[i] == w);
            } else {
                assert(c[i - a.len()] == w);
            }
        }
        if a.contains(w) {
            let i = choose|i: int| 0 <= i < a.len() && a[i] == w;
            assert((a + c)[i] == w);
        }
        if c.contains(w) {
            let i = choose|i: int| 0 <= i < c.len() && c[i] == w;
            assert((a + c)[i + a.len()] == w);
        }
        if w < self.node_count {
            let ins = self.inputs@[w as int]@;
            let brs = self.borrows@[w as int]@;
            let comb = self.combined(w as int);
            if comb.contains(x) {
                let i = choose|i: int| 0 <= i < comb.len() && comb[i] == x;
                if i < ins.len() {
                    assert(ins[i] == x);
                } else {
                    assert(brs[i - ins.len()] == x);
                }
            }
            if ins.contains(x) {
                let i = choose|i: int| 0 <= i < ins.len() && ins[i] == x;
                assert(comb[i] == x);
            }
            if brs.contains(x) {
                let i = choose|i: int| 0 <= i < brs.len() && brs[i] == x;
                assert(comb[i + ins.len()] == x);
            }
        }
        assert forall|i: int| 0 <= i < (a + c).len() implies #[trigger] (a + c)[i] < self.node_count by {
            if i < a.len() {
                assert(a[i] < n);
            } else {
                assert(c[i - a.len()] < n);
            }
        }
    }

    /// The nodes that use `res`: the node that consumes it, if any, then the
    /// nodes that borrow it.
    pub fn users(&self, res: ResolvedInput) -> (r: Vec<usize>)
        requires
            self.wf(),
        ensures
            r@ == self.users_spec(res),
    {
        let mut consumers: Vec<usize> = Vec::new();
        let mut borrowers: Vec<usize> = Vec::new();
        let mut n: usize = 0;
        while n < self.node_count
            invariant
                self.wf(),
                n <= self.node_count,
                consumers@ == self.consumers_upto(res, n as nat),
                borrowers@ == self.borrowers_upto(res, n as nat),
            decreases self.node_count - n,
        {
            let ins = &self.inputs[n];
            let mut i: usize = 0;
            while i < ins.len()
                invariant
                    n < self.node_count,
                    ins@ == self.inputs@[n as int]@,
                    i <= ins@.len(),
                    consumers@ == self.consumers_upto(res, n as nat) + node_hits(ins@.take(i as int), res, n),
                decreases ins@.len() - i,
            {
                proof {
                    assert(ins@.take(i as int + 1).drop_last() =~= ins@.take(i as int));
                }
                if ins[i] == res {
                    consumers.push(n);
                }
                i = i + 1;
                proof {
                    assert(consumers@ =~= self.consumers_upto(res, n as nat) + node_hits(ins@.take(i as int), res, n));
                }
            }
            proof {
                assert(ins@.take(ins@.len() as int) =~= ins@);
            }
            let brs = &self.borrows[n];
            let mut j: usize = 0;
            while j < brs.len()
                invariant
                    n < self.node_count,
                    brs@ == self.borrows@[n as int]@,
                    j <= brs@.len(),
                    borrowers@ == self.borrowers_upto(res, n as nat) + node_hits(brs@.take(j as int), res, n),
                decreases brs@.len() - j,
            {
                proof {
                    assert(brs@.take(j as int + 1).drop_last() =~= brs@.take(j as int));
                }
                if brs[j] == res {
                    borrowers.push(n);
                }
                j = j + 1;
                proof {
                    assert(borrowers@ =~= self.borrowers_upto(res, n as nat) + node_hits(brs@.take(j as int), res, n));
                }
            }
            proof {
                assert(brs@.take(brs@.len() as int) =~= brs@);
            }
            n = n + 1;
        }
        let mut k: usize = 0;
        let ghost cons = consumers@;
        while k < borrowers.len()
            invariant
                k <= borrowers@.len(),
                consumers@ == cons + borrowers@.take(k as int),
            decreases borrowers@.len() - k,
        {
            consumers.push(borrowers[k]);
            k = k + 1;
            proof {
                assert(consumers@ =~= cons + borrowers@.take(k as int));
            }
        }
        proof {
            assert(borrowers@.take(borrowers@.len() as int) =~= borrowers@);
        }
        consumers
    }
}

} // verus!

verus! {

/// The number of `true` entries of `s`.
pub open spec fn count_true(s: Seq<bool>) -> nat
    decreases s.len(),
{
    if s.len() == 0 {
        0
    } else {
        count_true(s.drop_last()) + if s.last() {
            1nat
        } else {
            0nat
        }
    }
}

proof fn lemma_count_true_bound(s: Seq<bool>)
    ensures
        count_true(s) <= s.len(),
    decreases s.len(),
{
    if s.len() > 0 {
        lemma_count_true_bound(s.drop_last());
    }
}

proof fn lemma_count_true_set(s: Seq<bool>, i: int)
    requires
        0 <= i < s.len(),
        !s[i],
    ensures
        count_true(s.update(i, true)) == count_true(s) + 1,
    decreases s.len(),
{
    let t = s.update(i, true);
    if i == s.len() - 1 {
        assert(t.drop_last() =~= s.drop_last());
    } else {
        lemma_count_true_set(s.drop_last(), i);
        assert(t.drop_last() =~= s.drop_last().update(i, true));
    }
}

/// The entries of `s` increase strictly: it is sorted and holds no
/// duplicate.
pub open spec fn strictly_increasing(s: Seq<usize>) -> bool {
    forall|i: int, j: int| 0 <= i < j < s.len() ==> s[i] < s[j]
}

/// Removes `x` from the sorted list `v`, if it is there.
pub fn remove_value(v: &mut Vec<usize>, x: usize)
    requires
        strictly_increasing(old(v)@),
    ensures
        strictly_increasing(final(v)@),
        forall|y: usize| #[trigger] final(v)@.contains(y) == (old(v)@.contains(y) && y != x),
{
    let mut i: usize = 0;
    while i < v.len()
        invariant
            v@ == old(v)@,
            strictly_increasing(v@),
            i <= v@.len(),
            forall|j: int| 0 <= j < i ==> v@[j] != x,
        decreases v@.len() - i,
    {
        if v[i] == x {
            let ghost before = v@;
            v.remove(i);
            proof {
                assert(v@ =~= before.subrange(0, i as int) + before.subrange(i as int + 1, before.len() as int));
                assert forall|a: int, b: int| 0 <= a < b < v@.len() implies v@[a] < v@[b] by {
                    let a2 = if a < i { a } else { a + 1 };
                    let b2 = if b < i { b } else { b + 1 };
                    assert(v@[a] == before[a2]);
                    assert(v@[b] == before[b2]);
                }
                assert forall|y: usize| #[trigger] v@.contains(y) == (before.contains(y) && y != x) by {
                    if v@.contains(y) {
                        let a = choose|a: int| 0 <= a < v@.len() && v@[a] == y;
                        let a2 = if a < i { a } else { a + 1 };
                        assert(before[a2] == y);
                        if y == x {
                            assert(before[i as int] == x);
                        }
                    }
                    if before.contains(y) && y != x {
                        let a = choose|a: int| 0 <= a < before.len() && before[a] == y;
                        assert(a != i);
                        if a < i {
                            assert(v@[a] == y);
                        } else {
                            assert(v@[a - 1] == y);
                        }
                    }
                }
            }
            return;
        }
        i = i + 1;
    }
    proof {
        assert forall|y: usize| #[trigger] v@.contains(y) == (v@.contains(y) && y != x) by {
            if v@.contains(y) && y == x {
                let a = choose|a: int| 0 <= a < v@.len() && v@[a] == y;
                assert(v@[a] != x);
            }
        }
    }
}

impl ResolvedResources {
    /// Node `v` uses a resource that node `u` outputs, taken from `u`.
    pub open spec fn feeds(&self, shape: &GraphShape, u: int, v: int) -> bool {
        exists|i: int|
            0 <= i < self.combined(v).len() && #[trigger] self.combined(v)[i].producer == InputOrNode::Node(
                u as usize,
            ) && shape.outputs(u).contains(self.combined(v)[i].resource)
    }

    pub open spec fn feeds_at(&self, shape: &GraphShape, c: Seq<int>, i: int) -> bool {
        self.feeds(shape, c[i], c[i + 1])
    }

    /// `c` goes from a node that uses `res` along nodes that each use an
    /// output of the one before.
    pub open spec fn dirty_chain(&self, shape: &GraphShape, res: ResolvedInput, c: Seq<int>) -> bool {
        &&& c.len() >= 1
        &&& forall|i: int| 0 <= i < c.len() ==> 0 <= #[trigger] c[i] < self.node_count
        &&& self.combined(c[0]).contains(res)
        &&& forall|i: int| 0 <= i < c.len() - 1 ==> #[trigger] self.feeds_at(shape, c, i)
    }

    /// Node `v` is reached from the users of `res` along used outputs.
    pub open spec fn dirtied(&self, shape: &GraphShape, res: ResolvedInput, v: int) -> bool {
        exists|c: Seq<int>| #[trigger] self.dirty_chain(shape, res, c) && c.last() == v
    }

    /// Marking `res` dirty reaches resource `r`: `r` is the resource of
    /// `res`, or an output of a node reached from its users.
    pub open spec fn affects(&self, shape: &GraphShape, res: ResolvedInput, r: usize) -> bool {
        ||| r == res.resource
        ||| exists|u: int| 0 <= u < self.node_count && #[trigger] self.dirtied(shape, res, u) && shape.outputs(u).contains(r)
    }

    /// Resource `r` was dropped by the work done so far: it is the resource
    /// of `res`, an output of a node in `done`, or in `extra`.
    pub open spec fn dropped(&self, shape: &GraphShape, res: ResolvedInput, done: Set<int>, extra: Seq<usize>, r: usize) -> bool {
        ||| r == res.resource
        ||| exists|u: int| #[trigger] done.contains(u) && shape.outputs(u).contains(r)
        ||| extra.contains(r)
    }

    proof fn lemma_chain_push(&self, shape: &GraphShape, res: ResolvedInput, c: Seq<int>, v: int)
        requires
            self.dirty_chain(shape, res, c),
            0 <= v < self.node_count,
            self.feeds(shape, c.last(), v),
        ensures
            self.dirty_chain(shape, res, c.push(v)),
    {
        let d = c.push(v);
        assert forall|i: int| 0 <= i < d.len() - 1 implies #[trigger] self.feeds_at(shape, d, i) by {
            if i < c.len() - 1 {
                assert(self.feeds_at(shape, c, i));
            }
        }
        assert forall|i: int| 0 <= i < d.len() implies 0 <= #[trigger] d[i] < self.node_count by {
            if i < c.len() {
                assert(d[i] == c[i]);
            }
        }
    }

    proof fn lemma_closed_contains_chain(&self, shape: &GraphShape, res: ResolvedInput, c: Seq<int>, s: Set<int>, k: int)
        requires
            self.dirty_chain(shape, res, c),
            0 <= k < c.len(),
            forall|v: int| 0 <= v < self.node_count && self.combined(v).contains(res) ==> #[trigger] s.contains(v),
            forall|u: int, v: int| #![trigger s.contains(u), self.feeds(shape, u, v)] s.contains(u) && 0 <= v < self.node_count && self.feeds(shape, u, v) ==> s.contains(v),
        ensures
            s.contains(c[k]),
        decreases k,
    {
        if k > 0 {
            self.lemma_closed_contains_chain(shape, res, c, s, k - 1);
            assert(self.feeds_at(shape, c, k - 1));
        } else {
            assert(s.contains(c[0]));
        }
    }

    /// Marks `res` dirty: removes from the sorted list `not_dirty` every
    /// permanent resource that `res` affects.
    pub fn mark_dirty(&self, not_dirty: &mut Vec<usize>, shape: &GraphShape, res: ResolvedInput)
        requires
            self.wf(),
            shape.wf(),
            shape.node_count() == self.node_count,
            (res.resource as nat) < shape.resource_count(),
            strictly_increasing(old(not_dirty)@),
            forall|i: int| 0 <= i < old(not_dirty)@.len() ==> (#[trigger] old(not_dirty)@[i] as nat) < shape.resource_count(),
        ensures
            strictly_increasing(final(not_dirty)@),
            forall|i: int| 0 <= i < final(not_dirty)@.len() ==> (#[trigger] final(not_dirty)@[i] as nat) < shape.resource_count(),
            forall|r: usize|
                #[trigger] final(not_dirty)@.contains(r) == (old(not_dirty)@.contains(r) && !(shape.permanent@[r as int]
                    && self.affects(shape, res, r))),
    {
        let n = self.node_count;
        let ghost nd0 = not_dirty@;
        let mut visited: Vec<bool> = Vec::new();
        let mut q: usize = 0;
        while q < n
            invariant
                q <= n,
                visited@.len() == q,
                forall|j: int| 0 <= j < q ==> !#[trigger] visited@[j],
            decreases n - q,
        {
            visited.push(false);
            q = q + 1;
        }
        proof {
            assert(count_true(visited@) == 0) by {
                assert forall|m: nat| m <= visited@.len() implies #[trigger] count_true(visited@.take(m as int)) == 0 by {
                    lemma_count_true_zero(visited@, m);
                }
                assert(visited@.take(n as int) =~= visited@);
            }
        }
        let ghost mut done: Set<int> = Set::empty();
        if shape.permanent[res.resource] {
            remove_value(not_dirty, res.resource);
        }
        proof {
            assert forall|i: int| 0 <= i < not_dirty@.len() implies (#[trigger] not_dirty@[i] as nat) < shape.resource_count() by {
                assert(not_dirty@.contains(not_dirty@[i]));
                let t = choose|t: int| 0 <= t < nd0.len() && nd0[t] == not_dirty@[i];
            }
            assert forall|r: usize|
                #[trigger] not_dirty@.contains(r) == (nd0.contains(r) && !(shape.permanent@[r as int] && self.dropped(
                    shape,
                    res,
                    done,
                    Seq::empty(),
                    r,
                ))) by {
                if r != res.resource && self.dropped(shape, res, done, Seq::empty(), r) {
                    if Seq::<usize>::empty().contains(r) {
                        let t = choose|t: int| 0 <= t < Seq::<usize>::empty().len() && Seq::<usize>::empty()[t] == r;
                    }
                }
            }
        }
        let mut stack: Vec<usize> = Vec::new();
        let first = self.users(res);
        let mut k: usize = 0;
        while k < first.len()
            invariant
                self.wf(),
                n == self.node_count,
                first@ == self.users_spec(res),
                k <= first@.len(),
                visited@.len() == n,
                done == Set::<int>::empty(),
                forall|v: int| 0 <= v < n ==> (#[trigger] visited@[v] <==> stack@.contains(v as usize)),
                forall|i: int| 0 <= i < stack@.len() ==> (#[trigger] stack@[i] as int) < n,
                forall|v: int| 0 <= v < n && #[trigger] visited@[v] ==> self.dirtied(shape, res, v),
                forall|i: int| 0 <= i < k ==> #[trigger] visited@[first@[i] as int],
                2 * (n - count_true(visited@)) + stack@.len() <= 2 * n,
                count_true(visited@) <= n,
            decreases first@.len() - k,
        {
            proof {
                self.lemma_users(res, first@[k as int]);
                assert(self.users_spec(res).contains(first@[k as int]));
            }
            let v = first[k];
            if !visited[v] {
                proof {
                    lemma_count_true_set(visited@, v as int);
                    lemma_count_true_bound(visited@.update(v as int, true));
                    assert(self.dirty_chain(shape, res, seq![v as int]));
                    assert(seq![v as int].last() == v as int);
                }
                let ghost vis0 = visited@;
                let ghost st0 = stack@;
                visited.set(v, true);
                stack.push(v);
                proof {
                    assert forall|w: int| 0 <= w < n implies (#[trigger] visited@[w] <==> stack@.contains(w as usize)) by {
                        if w == v as int {
                            assert(stack@[st0.len() as int] == v);
                        } else {
                            if stack@.contains(w as usize) {
                                let i = choose|i: int| 0 <= i < stack@.len() && stack@[i] == w as usize;
                                assert(st0[i] == w as usize);
                            }
                            if st0.contains(w as usize) {
                                let i = choose|i: int| 0 <= i < st0.len() && st0[i] == w as usize;
                                assert(stack@[i] == w as usize);
                            }
                        }
                    }
                }
            }
            k = k + 1;
        }
        proof {
            assert forall|v: int| 0 <= v < n && self.combined(v).contains(res) implies #[trigger] visited@[v] by {
                self.lemma_users(res, v as usize);
                let i = choose|i: int| 0 <= i < first@.len() && first@[i] == v as usize;
                assert(visited@[first@[i] as int]);
            }
        }
        while stack.len() > 0
            invariant
                self.wf(),
                shape.wf(),
                shape.node_count() == self.node_count,
                n == self.node_count,
                (res.resource as nat) < shape.resource_count(),
                visited@.len() == n,
                forall|v: int| 0 <= v < n ==> (#[trigger] visited@[v] <==> (done.contains(v) || stack@.contains(v as usize))),
                forall|u: int| #[trigger] done.contains(u) ==> 0 <= u < n,
                forall|i: int| 0 <= i < stack@.len() ==> (#[trigger] stack@[i] as int) < n,
                forall|v: int| 0 <= v < n && #[trigger] visited@[v] ==> self.dirtied(shape, res, v),
                forall|v: int| 0 <= v < n && self.combined(v).contains(res) ==> #[trigger] visited@[v],
                forall|u: int, v: int| #[trigger] done.contains(u) && 0 <= v < n && self.feeds(shape, u, v) ==> #[trigger] visited@[v],
                count_true(visited@) <= n,
                strictly_increasing(not_dirty@),
                forall|i: int| 0 <= i < not_dirty@.len() ==> (#[trigger] not_dirty@[i] as nat) < shape.resource_count(),
                forall|r: usize|
                    #[trigger] not_dirty@.contains(r) == (nd0.contains(r) && !(shape.permanent@[r as int] && self.dropped(
                        shape,
                        res,
                        done,
                        Seq::empty(),
                        r,
                    ))),
            decreases 2 * (n - count_true(visited@)) + stack@.len(),
        {
            let ghost m0 = 2 * (n - count_true(visited@)) + stack@.len();
            let ghost st_before = stack@;
            let u = stack.pop().unwrap();
            proof {
                assert(st_before[st_before.len() - 1] == u);
                assert(stack@ =~= st_before.drop_last());
                assert forall|v: int|
                    0 <= v < n implies (#[trigger] visited@[v] <==> (done.contains(v) || v == u as int || stack@.contains(v as usize))) by {
                    if st_before.contains(v as usize) {
                        let i = choose|i: int| 0 <= i < st_before.len() && st_before[i] == v as usize;
                        if i < st_before.len() - 1 {
                            assert(stack@[i] == v as usize);
                        }
                    }
                    if stack@.contains(v as usize) {
                        let i = choose|i: int| 0 <= i < stack@.len() && stack@[i] == v as usize;
                        assert(st_before[i] == v as usize);
                    }
                }
            }
            let outs = &shape.nodes[u].outputs;
            let mut j: usize = 0;
            while j < outs.len()
                invariant
                    self.wf(),
                    shape.wf(),
                    shape.node_count() == self.node_count,
                    n == self.node_count,
                    (u as int) < n,
                    outs@ == shape.outputs(u as int),
                    j <= outs@.len(),
                    visited@.len() == n,
                    visited@[u as int],
                    forall|v: int|
                        0 <= v < n ==> (#[trigger] visited@[v] <==> (done.contains(v) || v == u as int || stack@.contains(v as usize))),
                    forall|u2: int| #[trigger] done.contains(u2) ==> 0 <= u2 < n,
                    forall|i: int| 0 <= i < stack@.len() ==> (#[trigger] stack@[i] as int) < n,
                    forall|v: int| 0 <= v < n && #[trigger] visited@[v] ==> self.dirtied(shape, res, v),
                    forall|v: int| 0 <= v < n && self.combined(v).contains(res) ==> #[trigger] visited@[v],
                    forall|u2: int, v: int|
                        #[trigger] done.contains(u2) && 0 <= v < n && self.feeds(shape, u2, v) ==> #[trigger] visited@[v],
                    forall|t: int, v: int|
                        0 <= t < j && 0 <= v < n && #[trigger] self.combined(v).contains(
                            ResolvedInput { resource: outs@[t], producer: InputOrNode::Node(u) },
                        ) ==> #[trigger] visited@[v],
                    count_true(visited@) <= n,
                    2 * (n - count_true(visited@)) + stack@.len() < m0,
                    strictly_increasing(not_dirty@),
                    forall|i: int| 0 <= i < not_dirty@.len() ==> (#[trigger] not_dirty@[i] as nat) < shape.resource_count(),
                    forall|r: usize|
                        #[trigger] not_dirty@.contains(r) == (nd0.contains(r) && !(shape.permanent@[r as int] && self.dropped(
                            shape,
                            res,
                            done,
                            outs@.take(j as int),
                            r,
                        ))),
                decreases outs@.len() - j,
            {
                let o = outs[j];
                proof {
                    assert(outs@.take(j as int + 1) =~= outs@.take(j as int).push(o));
                }
                let ghost nd_before = not_dirty@;
                if shape.permanent[o] {
                    remove_value(not_dirty, o);
                }
                proof {
                    assert forall|i: int| 0 <= i < not_dirty@.len() implies (#[trigger] not_dirty@[i] as nat) < shape.resource_count() by {
                        assert(not_dirty@.contains(not_dirty@[i]));
                        let t = choose|t: int| 0 <= t < nd_before.len() && nd_before[t] == not_dirty@[i];
                    }
                    assert forall|r: usize|
                        #[trigger] not_dirty@.contains(r) == (nd0.contains(r) && !(shape.permanent@[r as int] && self.dropped(
                            shape,
                            res,
                            done,
                            outs@.take(j as int + 1),
                            r,
                        ))) by {
                        let e0 = outs@.take(j as int);
                        let e1 = outs@.take(j as int + 1);
                        assert(e1.contains(r) == (e0.contains(r) || r == o)) by {
                            if e1.contains(r) {
                                let i = choose|i: int| 0 <= i < e1.len() && e1[i] == r;
                                if i < j {
                                    assert(e0[i] == r);
                                }
                            }
                            if e0.contains(r) {
                                let i = choose|i: int| 0 <= i < e0.len() && e0[i] == r;
                                assert(e1[i] == r);
                            }
                            if r == o {
                                assert(e1[j as int] == r);
                            }
                        }
                        assert(nd_before.contains(r) == (nd0.contains(r) && !(shape.permanent@[r as int] && self.dropped(
                            shape,
                            res,
                            done,
                            e0,
                            r,
                        ))));
                    }
                }
                let key = ResolvedInput { resource: o, producer: InputOrNode::Node(u) };
                let us = self.users(key);
                proof {
                    assert forall|i: int| 0 <= i < us@.len() implies #[trigger] self.feeds(shape, u as int, us@[i] as int) by {
                        self.lemma_users(key, us@[i]);
                        assert(us@.contains(us@[i]));
                        let c = self.combined(us@[i] as int);
                        let i0 = choose|i0: int| 0 <= i0 < c.len() && c[i0] == key;
                        assert(outs@[j as int] == o);
                        assert(shape.outputs(u as int).contains(o));
                        assert(c[i0].producer == InputOrNode::Node(u));
                    }
                }
                let mut k2: usize = 0;
                while k2 < us.len()
                    invariant
                        self.wf(),
                        n == self.node_count,
                        us@ == self.users_spec(key),
                        k2 <= us@.len(),
                        (u as int) < n,
                        visited@.len() == n,
                        visited@[u as int],
                        forall|v: int|
                            0 <= v < n ==> (#[trigger] visited@[v] <==> (done.contains(v) || v == u as int || stack@.contains(v as usize))),
                        forall|i: int| 0 <= i < stack@.len() ==> (#[trigger] stack@[i] as int) < n,
                        forall|v: int| 0 <= v < n && #[trigger] visited@[v] ==> self.dirtied(shape, res, v),
                        forall|i: int| 0 <= i < k2 ==> #[trigger] visited@[us@[i] as int],
                        forall|i: int| 0 <= i < us@.len() ==> #[trigger] self.feeds(shape, u as int, us@[i] as int),
                        forall|v: int| 0 <= v < n && self.combined(v).contains(res) ==> #[trigger] visited@[v],
                        forall|u2: int, v: int|
                            #[trigger] done.contains(u2) && 0 <= v < n && self.feeds(shape, u2, v) ==> #[trigger] visited@[v],
                        forall|t: int, v: int|
                            0 <= t < j && 0 <= v < n && #[trigger] self.combined(v).contains(
                                ResolvedInput { resource: outs@[t], producer: InputOrNode::Node(u) },
                            ) ==> #[trigger] visited@[v],
                        count_true(visited@) <= n,
                        2 * (n - count_true(visited@)) + stack@.len() < m0,
                    decreases us@.len() - k2,
                {
                    proof {
                        self.lemma_users(key, us@[k2 as int]);
                    }
                    let v = us[k2];
                    if !visited[v] {
                        proof {
                            lemma_count_true_set(visited@, v as int);
                            lemma_count_true_bound(visited@.update(v as int, true));
                            assert(self.dirtied(shape, res, u as int));
                            let c = choose|c: Seq<int>| #[trigger] self.dirty_chain(shape, res, c) && c.last() == u as int;
                            assert(self.feeds(shape, u as int, v as int));
                            self.lemma_chain_push(shape, res, c, v as int);
                            assert(c.push(v as int).last() == v as int);
                        }
                        let ghost st0 = stack@;
                        visited.set(v, true);
                        stack.push(v);
                        proof {
                            assert forall|w: int|
                                0 <= w < n implies (#[trigger] visited@[w] <==> (done.contains(w) || w == u as int || stack@.contains(w as usize))) by {
                                if w == v as int {
                                    assert(stack@[st0.len() as int] == v);
                                } else {
                                    if stack@.contains(w as usize) {
                                        let i = choose|i: int| 0 <= i < stack@.len() && stack@[i] == w as usize;
                                        assert(st0[i] == w as usize);
                                    }
                                    if st0.contains(w as usize) {
                                        let i = choose|i: int| 0 <= i < st0.len() && st0[i] == w as usize;
                                        assert(stack@[i] == w as usize);
                                    }
                                }
                            }
                        }
                    }
                    k2 = k2 + 1;
                }
                proof {
                    assert forall|v: int|
                        0 <= v < n && #[trigger] self.combined(v).contains(key) implies visited@[v] by {
                        self.lemma_users(key, v as usize);
                        let i = choose|i: int| 0 <= i < us@.len() && us@[i] == v as usize;
                        assert(visited@[us@[i] as int]);
                    }
                }
                j = j + 1;
            }
            proof {
                let done2 = done.insert(u as int);
                assert(outs@.take(outs@.len() as int) =~= outs@);
                assert forall|u2: int, v: int|
                    #[trigger] done2.contains(u2) && 0 <= v < n && self.feeds(shape, u2, v) implies #[trigger] visited@[v] by {
                    if u2 == u as int && !done.contains(u2) {
                        let i = choose|i: int|
                            0 <= i < self.combined(v).len() && #[trigger] self.combined(v)[i].producer == InputOrNode::Node(
                                u2 as usize,
                            ) && shape.outputs(u2).contains(self.combined(v)[i].resource);
                        let x = self.combined(v)[i];
                        let t = choose|t: int| 0 <= t < outs@.len() && outs@[t] == x.resource;
                        assert(x == ResolvedInput { resource: outs@[t], producer: InputOrNode::Node(u) });
                        assert(self.combined(v).contains(x));
                    }
                }
                assert forall|r: usize|
                    #[trigger] not_dirty@.contains(r) == (nd0.contains(r) && !(shape.permanent@[r as int] && self.dropped(
                        shape,
                        res,
                        done2,
                        Seq::empty(),
                        r,
                    ))) by {
                    let a = self.dropped(shape, res, done, outs@, r);
                    let b = self.dropped(shape, res, done2, Seq::empty(), r);
                    if a {
                        if outs@.contains(r) {
                            assert(done2.contains(u as int) && shape.outputs(u as int).contains(r));
                        } else if r != res.resource {
                            let u3 = choose|u3: int| #[trigger] done.contains(u3) && shape.outputs(u3).contains(r);
                            assert(done2.contains(u3));
                        }
                    }
                    if b && r != res.resource {
                        let u3 = choose|u3: int| #[trigger] done2.contains(u3) && shape.outputs(u3).contains(r);
                        if u3 != u as int {
                            assert(done.contains(u3));
                        }
                    }
                }
                done = done2;
                assert forall|v: int|
                    0 <= v < n implies (#[trigger] visited@[v] <==> (done.contains(v) || stack@.contains(v as usize))) by {}
            }
        }
        proof {
            let s = Set::new(|v: int| 0 <= v < n && visited@[v]);
            assert forall|r: usize|
                #[trigger] not_dirty@.contains(r) == (nd0.contains(r) && !(shape.permanent@[r as int]
                    && self.affects(shape, res, r))) by {
                let a = self.dropped(shape, res, done, Seq::empty(), r);
                let b = self.affects(shape, res, r);
                if a && r != res.resource {
                    let u3 = choose|u3: int| #[trigger] done.contains(u3) && shape.outputs(u3).contains(r);
                    assert(visited@[u3]);
                    assert(self.dirtied(shape, res, u3));
                }
                if b && r != res.resource {
                    let u3 = choose|u3: int| 0 <= u3 < self.node_count && #[trigger] self.dirtied(shape, res, u3) && shape.outputs(u3).contains(r);
                    let c = choose|c: Seq<int>| #[trigger] self.dirty_chain(shape, res, c) && c.last() == u3;
                    assert forall|v: int| 0 <= v < self.node_count && self.combined(v).contains(res) implies #[trigger] s.contains(v) by {
                        assert(visited@[v]);
                    }
                    assert forall|u4: int, v: int| #![trigger s.contains(u4), self.feeds(shape, u4, v)] s.contains(u4) && 0 <= v < self.node_count && self.feeds(shape, u4, v) implies s.contains(v) by {
                        assert(visited@[u4]);
                        assert(done.contains(u4));
                        assert(visited@[v]);
                    }
                    self.lemma_closed_contains_chain(shape, res, c, s, c.len() - 1);
                    assert(visited@[u3]);
                    assert(done.contains(u3));
                }
            }
        }
    }
}

proof fn lemma_count_true_zero(s: Seq<bool>, m: nat)
    requires
        m <= s.len(),
        forall|j: int| 0 <= j < s.len() ==> !#[trigger] s[j],
    ensures
        count_true(s.take(m as int)) == 0,
    decreases m,
{
    if m > 0 {
        lemma_count_true_zero(s, (m - 1) as nat);
        assert(s.take(m as int).drop_last() =~= s.take(m - 1));
    }
}

} // verus!

verus! {

/// The entries `v` of `order` with `flags[v]` set, in the order of `order`.
pub open spec fn select(order: Seq<usize>, flags: Seq<bool>) -> Seq<usize>
    decreases order.len(),
{
    if order.len() == 0 {
        Seq::empty()
    } else {
        select(order.drop_last(), flags) + (if flags[order.last() as int] {
            seq![order.last()]
        } else {
            Seq::empty()
        })
    }
}

proof fn lemma_select(order: Seq<usize>, flags: Seq<bool>, v: usize)
    ensures
        select(order, flags).contains(v) <==> (order.contains(v) && flags[v as int]),
    decreases order.len(),
{
    if order.len() > 0 {
        lemma_select(order.drop_last(), flags, v);
        let a = select(order.drop_last(), flags);
        let b: Seq<usize> = if flags[order.last() as int] { seq![order.last()] } else { Seq::empty() };
        assert(select(order, flags) == a + b);
        if (a + b).contains(v) {
            let i = choose|i: int| 0 <= i < (a + b).len() && (a + b)[i] == v;
            if i < a.len() {
                assert(a[i] == v);
                let j = choose|j: int| 0 <= j < order.drop_last().len() && order.drop_last()[j] == v;
                assert(order[j] == v);
            } else {
                assert(b[i - a.len()] == v);
                assert(order[order.len() - 1] == v);
            }
        }
        if order.contains(v) && flags[v as int] {
            let j = choose|j: int| 0 <= j < order.len() && order[j] == v;
            if j == order.len() - 1 {
                assert((a + b)[a.len() as int] == v);
            } else {
                assert(order.drop_last()[j] == v);
                let i = choose|i: int| 0 <= i < a.len() && a[i] == v;
                assert((a + b)[i] == v);
            }
        }
    }
}

/// The outcome of computing a resource: the graph inputs it needs, the
/// nodes to run, in order, and the permanent resources running them
/// creates.
pub struct ComputeResult {
    pub required_inputs: Vec<usize>,
    pub steps: Vec<usize>,
    output_new_permanents: Vec<usize>,
}

impl ComputeResult {
    /// The graph inputs that the steps take.
    pub closed spec fn required_inputs_view(&self) -> Seq<usize> {
        self.required_inputs@
    }

    /// The nodes to run, in order.
    pub closed spec fn steps_view(&self) -> Seq<usize> {
        self.steps@
    }

    /// The permanent resources that running the steps creates.
    pub closed spec fn new_permanents(&self) -> Seq<usize> {
        self.output_new_permanents@
    }

    /// The permanent resources that running the steps creates.
    pub fn output_new_permanents(&self) -> (r: &Vec<usize>)
        ensures
            r@ == self.new_permanents(),
    {
        &self.output_new_permanents
    }

    /// A copy of the result.
    pub fn duplicate(&self) -> (r: ComputeResult)
        ensures
            r.required_inputs_view() == self.required_inputs_view(),
            r.steps_view() == self.steps_view(),
            r.new_permanents() == self.new_permanents(),
    {
        ComputeResult {
            required_inputs: copy_list(&self.required_inputs),
            steps: copy_list(&self.steps),
            output_new_permanents: copy_list(&self.output_new_permanents),
        }
    }
}

impl Default for ComputeResult {
    fn default() -> (r: Self)
        ensures
            r.required_inputs_view().len() == 0,
            r.steps_view().len() == 0,
            r.new_permanents().len() == 0,
    {
        ComputeResult { required_inputs: Vec::new(), steps: Vec::new(), output_new_permanents: Vec::new() }
    }
}

/// A copy of `v`.
pub fn copy_list(v: &Vec<usize>) -> (r: Vec<usize>)
    ensures
        r@ == v@,
{
    let mut out: Vec<usize> = Vec::new();
    let mut i: usize = 0;
    while i < v.len()
        invariant
            i <= v@.len(),
            out@ == v@.take(i as int),
        decreases v@.len() - i,
    {
        out.push(v[i]);
        i = i + 1;
        assert(out@ =~= v@.take(i as int));
    }
    assert(v@.take(v@.len() as int) =~= v@);
    out
}

/// True if `v` holds `x`.
pub fn list_contains(v: &Vec<usize>, x: usize) -> (r: bool)
    ensures
        r == v@.contains(x),
{
    let mut i: usize = 0;
    while i < v.len()
        invariant
            i <= v@.len(),
            forall|j: int| 0 <= j < i ==> v@[j] != x,
        decreases v@.len() - i,
    {
        if v[i] == x {
            assert(v@[i as int] == x);
            return true;
        }
        i = i + 1;
    }
    false
}

impl ResolvedResources {
    /// Every resolved input names one of the producers of its resource.
    pub open spec fn producers_valid(&self, shape: &GraphShape) -> bool {
        forall|m: int, i: int|
            0 <= m < self.node_count && 0 <= i < self.combined(m).len() ==> shape.producers_spec(
                (#[trigger] self.combined(m)[i]).resource,
            ).contains(self.combined(m)[i].producer) && (self.combined(m)[i].resource as nat) < shape.resource_count()
    }

    /// The resource of `x` has to be produced: it is not a permanent
    /// resource that is up to date.
    pub open spec fn active(shape: &GraphShape, not_dirty: Seq<usize>, x: ResolvedInput) -> bool {
        !(shape.permanent@[x.resource as int] && not_dirty.contains(x.resource))
    }

    /// Node `m` takes a resource that has to be produced from node `v`.
    pub open spec fn needs(&self, shape: &GraphShape, not_dirty: Seq<usize>, m: int, v: int) -> bool {
        exists|i: int|
            0 <= i < self.combined(m).len() && #[trigger] self.combined(m)[i].producer == InputOrNode::Node(
                v as usize,
            ) && Self::active(shape, not_dirty, self.combined(m)[i])
    }

    pub open spec fn needs_at(&self, shape: &GraphShape, not_dirty: Seq<usize>, c: Seq<int>, i: int) -> bool {
        self.needs(shape, not_dirty, c[i], c[i + 1])
    }

    /// `c` goes from `p` along nodes whose resources the node before needs.
    pub open spec fn need_chain(&self, shape: &GraphShape, not_dirty: Seq<usize>, p: int, c: Seq<int>) -> bool {
        &&& c.len() >= 1
        &&& c[0] == p
        &&& forall|i: int| 0 <= i < c.len() ==> 0 <= #[trigger] c[i] < self.node_count
        &&& forall|i: int| 0 <= i < c.len() - 1 ==> #[trigger] self.needs_at(shape, not_dirty, c, i)
    }

    /// Node `v` is reached from `p` through resources that have to be
    /// produced.
    pub open spec fn needed_from(&self, shape: &GraphShape, not_dirty: Seq<usize>, p: int, v: int) -> bool {
        exists|c: Seq<int>| #[trigger] self.need_chain(shape, not_dirty, p, c) && c.last() == v
    }

    /// Node `m` takes resource `r` from the graph's inputs.
    pub open spec fn takes_input(&self, m: int, r: usize) -> bool {
        exists|i: int|
            0 <= i < self.combined(m).len() && #[trigger] self.combined(m)[i] == (ResolvedInput {
                resource: r,
                producer: InputOrNode::Input,
            })
    }

    /// When the flagged nodes include `p` and every node that a flagged node
    /// takes a resource that has to be produced from, every node reached
    /// from `p` is flagged.
    proof fn lemma_needed_closed(&self, shape: &GraphShape, nd: Seq<usize>, p: int, c: Seq<int>, flags: Seq<bool>)
        requires
            self.need_chain(shape, nd, p, c),
            flags.len() == self.node_count,
            flags[p],
            forall|m: int, i: int|
                0 <= m < self.node_count && flags[m] && 0 <= i < self.combined(m).len() && (#[trigger] self.combined(m)[i]).producer is Node
                    && Self::active(shape, nd, self.combined(m)[i]) ==> flags[self.combined(m)[i].producer->0 as int],
        ensures
            flags[c.last()],
        decreases c.len(),
    {
        if c.len() > 1 {
            let d = c.drop_last();
            assert forall|i: int| 0 <= i < d.len() - 1 implies #[trigger] self.needs_at(shape, nd, d, i) by {
                assert(self.needs_at(shape, nd, c, i));
            }
            assert forall|i: int| 0 <= i < d.len() implies 0 <= #[trigger] d[i] < self.node_count by {
                assert(c[i] == d[i]);
            }
            self.lemma_needed_closed(shape, nd, p, d, flags);
            let k = c.len() - 2;
            assert(self.needs_at(shape, nd, c, k));
            assert(0 <= c[k + 1] < self.node_count);
            let i = choose|i: int|
                0 <= i < self.combined(c[k]).len() && #[trigger] self.combined(c[k])[i].producer == InputOrNode::Node(c[k + 1] as usize)
                    && Self::active(shape, nd, self.combined(c[k])[i]);
            assert(d.last() == c[k]);
            assert(flags[self.combined(c[k])[i].producer->0 as int]);
        }
    }

    proof fn lemma_need_chain_push(&self, shape: &GraphShape, nd: Seq<usize>, p: int, c: Seq<int>, v: int)
        requires
            self.need_chain(shape, nd, p, c),
            0 <= v < self.node_count,
            self.needs(shape, nd, c.last(), v),
        ensures
            self.need_chain(shape, nd, p, c.push(v)),
    {
        let d = c.push(v);
        assert forall|i: int| 0 <= i < d.len() - 1 implies #[trigger] self.needs_at(shape, nd, d, i) by {
            if i < c.len() - 1 {
                assert(self.needs_at(shape, nd, c, i));
            }
        }
        assert forall|i: int| 0 <= i < d.len() implies 0 <= #[trigger] d[i] < self.node_count by {
            if i < c.len() {
                assert(d[i] == c[i]);
            }
        }
    }

    /// What computing the output of node `p` takes, when the permanent
    /// resources in `not_dirty` are up to date: walking back from `p`
    /// through the resources that have to be produced, the steps are the
    /// nodes reached, in `order`. A node met only through an up-to-date
    /// permanent resource is not a step.
    pub fn plan(&self, shape: &GraphShape, not_dirty: &Vec<usize>, order: &Vec<usize>, p: usize) -> (r: ComputeResult)
        requires
            self.wf(),
            shape.wf(),
            shape.node_count() == self.node_count,
            self.producers_valid(shape),
            forall|x: usize| (x as nat) < shape.resource_count() && shape.permanent@[x as int] ==> #[trigger] shape.producers_spec(x).len() == 1,
            self.is_total_order(order@),
            p < self.node_count,
        ensures
            exists|flags: Seq<bool>| flags.len() == self.node_count && r.steps_view() == select(order@, flags),
            r.steps_view().contains(p),
            forall|v: usize| #[trigger] r.steps_view().contains(v) ==> self.needed_from(shape, not_dirty@, p as int, v as int),
            forall|v: usize| self.needed_from(shape, not_dirty@, p as int, v as int) ==> #[trigger] r.steps_view().contains(v),
            forall|m: usize, i: int|
                #[trigger] r.steps_view().contains(m) && 0 <= i < self.combined(m as int).len() && (#[trigger] self.combined(m as int)[i]).producer
                    is Input ==> r.required_inputs_view().contains(self.combined(m as int)[i].resource),
            forall|x: usize| #[trigger] r.required_inputs_view().contains(x) ==> exists|m: usize| #[trigger] r.steps_view().contains(m) && self.takes_input(m as int, x),
            forall|i: int, j: int| 0 <= i < j < r.required_inputs_view().len() ==> r.required_inputs_view()[i] != r.required_inputs_view()[j],
            forall|i: int, j: int| 0 <= i < j < r.new_permanents().len() ==> r.new_permanents()[i] != r.new_permanents()[j],
            forall|i: int|
                0 <= i < r.new_permanents().len() ==> shape.permanent@[(#[trigger] r.new_permanents()[i]) as int] && !not_dirty@.contains(
                    r.new_permanents()[i],
                ) && exists|v: usize| #[trigger] r.steps_view().contains(v) && shape.producers_spec(r.new_permanents()[i]) == seq![InputOrNode::Node(v)],
    {
        let n = self.node_count;
        let mut done: Vec<bool> = Vec::new();
        let mut needed: Vec<bool> = Vec::new();
        let mut q: usize = 0;
        while q < n
            invariant
                q <= n,
                done@.len() == q,
                needed@.len() == q,
                forall|j: int| 0 <= j < q ==> !#[trigger] done@[j],
                forall|j: int| 0 <= j < q ==> !#[trigger] needed@[j],
            decreases n - q,
        {
            done.push(false);
            needed.push(false);
            q = q + 1;
        }
        proof {
            assert forall|m: nat| m <= done@.len() implies #[trigger] count_true(done@.take(m as int)) == 0 by {
                lemma_count_true_zero(done@, m);
            }
            assert(done@.take(n as int) =~= done@);
            lemma_count_true_set(done@, p as int);
            lemma_count_true_bound(done@.update(p as int, true));
            assert(self.need_chain(shape, not_dirty@, p as int, seq![p as int]));
            assert(seq![p as int].last() == p as int);
        }
        done.set(p, true);
        needed.set(p, true);
        let mut stack: Vec<usize> = Vec::new();
        stack.push(p);
        let mut required: Vec<usize> = Vec::new();
        let mut created: Vec<usize> = Vec::new();
        let ghost mut finished: Set<int> = Set::empty();
        let ghost mut makers: Seq<usize> = Seq::empty();
        proof {
            assert forall|v: int| 0 <= v < n implies (#[trigger] needed@[v] <==> (finished.contains(v) || stack@.contains(v as usize))) by {
                if v == p as int {
                    assert(stack@[0] == p);
                }
            }
        }
        while stack.len() > 0
            invariant
                self.wf(),
                shape.wf(),
                shape.node_count() == self.node_count,
                self.producers_valid(shape),
                forall|x: usize| (x as nat) < shape.resource_count() && shape.permanent@[x as int] ==> #[trigger] shape.producers_spec(x).len() == 1,
                n == self.node_count,
                p < n,
                done@.len() == n,
                needed@.len() == n,
                needed@[p as int],
                forall|v: int| 0 <= v < n && #[trigger] needed@[v] ==> done@[v],
                forall|v: int| 0 <= v < n && #[trigger] done@[v] ==> needed@[v],
                forall|m2: int, i: int|
                    #[trigger] finished.contains(m2) && 0 <= i < self.combined(m2).len() && (#[trigger] self.combined(m2)[i]).producer is Node
                        && Self::active(shape, not_dirty@, self.combined(m2)[i]) ==> needed@[self.combined(m2)[i].producer->0 as int],
                forall|v: int| 0 <= v < n ==> (#[trigger] needed@[v] <==> (finished.contains(v) || stack@.contains(v as usize))),
                forall|v: int| #[trigger] finished.contains(v) ==> 0 <= v < n,
                forall|i: int| 0 <= i < stack@.len() ==> (#[trigger] stack@[i] as int) < n,
                forall|v: int| 0 <= v < n && #[trigger] needed@[v] ==> self.needed_from(shape, not_dirty@, p as int, v),
                forall|m: int, i: int|
                    #[trigger] finished.contains(m) && 0 <= i < self.combined(m).len() && (#[trigger] self.combined(m)[i]).producer
                        is Input ==> required@.contains(self.combined(m)[i].resource),
                forall|x: usize| #[trigger] required@.contains(x) ==> exists|m: int| #[trigger] finished.contains(m) && self.takes_input(m, x),
                forall|i: int, j: int| 0 <= i < j < required@.len() ==> required@[i] != required@[j],
                makers.len() == created@.len(),
                forall|i: int| 0 <= i < created@.len() ==> shape.permanent@[(#[trigger] created@[i]) as int] && !not_dirty@.contains(created@[i])
                    && (makers[i] as int) < n && needed@[makers[i] as int] && shape.producers_spec(created@[i]) == seq![InputOrNode::Node(makers[i])],
                forall|i: int, j: int| 0 <= i < j < makers.len() ==> makers[i] != makers[j],
                forall|i: int| 0 <= i < makers.len() ==> done@[#[trigger] makers[i] as int],
                count_true(done@) <= n,
            decreases 2 * (n - count_true(done@)) + stack@.len(),
        {
            let ghost m0 = 2 * (n - count_true(done@)) + stack@.len();
            let ghost st_before = stack@;
            let m = stack.pop().unwrap();
            proof {
                assert(st_before[st_before.len() - 1] == m);
                assert(stack@ =~= st_before.drop_last());
                assert forall|v: int|
                    0 <= v < n implies (#[trigger] needed@[v] <==> (finished.contains(v) || v == m as int || stack@.contains(v as usize))) by {
                    if st_before.contains(v as usize) {
                        let i = choose|i: int| 0 <= i < st_before.len() && st_before[i] == v as usize;
                        if i < st_before.len() - 1 {
                            assert(stack@[i] == v as usize);
                        }
                    }
                    if stack@.contains(v as usize) {
                        let i = choose|i: int| 0 <= i < stack@.len() && stack@[i] == v as usize;
                        assert(st_before[i] == v as usize);
                    }
                }
            }
            let inputs = self.combined_inputs(m);
            let mut j: usize = 0;
            while j < inputs.len()
                invariant
                    self.wf(),
                    shape.wf(),
                    shape.node_count() == self.node_count,
                    self.producers_valid(shape),
                    forall|x: usize| (x as nat) < shape.resource_count() && shape.permanent@[x as int] ==> #[trigger] shape.producers_spec(x).len() == 1,
                    n == self.node_count,
                    p < n,
                    (m as int) < n,
                    inputs@ == self.combined(m as int),
                    j <= inputs@.len(),
                    done@.len() == n,
                    needed@.len() == n,
                    needed@[p as int],
                    needed@[m as int],
                    forall|v: int| 0 <= v < n && #[trigger] needed@[v] ==> done@[v],
                    forall|v: int| 0 <= v < n && #[trigger] done@[v] ==> needed@[v],
                    forall|m2: int, i: int|
                        #[trigger] finished.contains(m2) && 0 <= i < self.combined(m2).len() && (#[trigger] self.combined(m2)[i]).producer is Node
                            && Self::active(shape, not_dirty@, self.combined(m2)[i]) ==> needed@[self.combined(m2)[i].producer->0 as int],
                    forall|i: int| 0 <= i < j && (#[trigger] inputs@[i]).producer is Node && Self::active(shape, not_dirty@, inputs@[i])
                        ==> needed@[inputs@[i].producer->0 as int],
                    forall|v: int|
                        0 <= v < n ==> (#[trigger] needed@[v] <==> (finished.contains(v) || v == m as int || stack@.contains(v as usize))),
                    forall|v: int| #[trigger] finished.contains(v) ==> 0 <= v < n,
                    forall|i: int| 0 <= i < stack@.len() ==> (#[trigger] stack@[i] as int) < n,
                    forall|v: int| 0 <= v < n && #[trigger] needed@[v] ==> self.needed_from(shape, not_dirty@, p as int, v),
                    forall|m2: int, i: int|
                        #[trigger] finished.contains(m2) && 0 <= i < self.combined(m2).len() && (#[trigger] self.combined(m2)[i]).producer
                            is Input ==> required@.contains(self.combined(m2)[i].resource),
                    forall|i: int| 0 <= i < j && (#[trigger] inputs@[i]).producer is Input ==> required@.contains(inputs@[i].resource),
                    forall|x: usize|
                        #[trigger] required@.contains(x) ==> (exists|m2: int| #[trigger] finished.contains(m2) && self.takes_input(m2, x))
                            || self.takes_input(m as int, x),
                    forall|i: int, k: int| 0 <= i < k < required@.len() ==> required@[i] != required@[k],
                    makers.len() == created@.len(),
                    forall|i: int|
                        0 <= i < created@.len() ==> shape.permanent@[(#[trigger] created@[i]) as int] && !not_dirty@.contains(created@[i])
                            && (makers[i] as int) < n && needed@[makers[i] as int] && shape.producers_spec(created@[i]) == seq![
                            InputOrNode::Node(makers[i]),
                        ],
                    forall|i: int, k: int| 0 <= i < k < makers.len() ==> makers[i] != makers[k],
                    forall|i: int| 0 <= i < makers.len() ==> done@[#[trigger] makers[i] as int],
                    count_true(done@) <= n,
                    2 * (n - count_true(done@)) + stack@.len() < m0,
                decreases inputs@.len() - j,
            {
                let x = inputs[j];
                let ghost needed_before = needed@;
                proof {
                    assert(self.combined(m as int)[j as int] == x);
                    assert(shape.producers_spec(x.resource).contains(x.producer));
                }
                match x.producer {
                    InputOrNode::Input => {
                        if !list_contains(&required, x.resource) {
                            let ghost r0 = required@;
                            required.push(x.resource);
                            proof {
                                assert forall|i: int, k: int| 0 <= i < k < required@.len() implies required@[i] != required@[k] by {
                                    if k == r0.len() {
                                        assert(required@[k] == x.resource);
                                        assert(required@[i] == r0[i]);
                                        assert(r0.contains(r0[i]));
                                    } else {
                                        assert(required@[i] == r0[i] && required@[k] == r0[k]);
                                    }
                                }
                                assert forall|y: usize| #[trigger] required@.contains(y) implies (exists|m2: int| #[trigger] finished.contains(m2) && self.takes_input(m2, y))
                                    || self.takes_input(m as int, y) by {
                                    if y == x.resource {
                                        assert(self.combined(m as int)[j as int] == (ResolvedInput { resource: y, producer: InputOrNode::Input }));
                                    } else {
                                        let i = choose|i: int| 0 <= i < required@.len() && required@[i] == y;
                                        assert(r0[i] == y);
                                        assert(r0.contains(y));
                                    }
                                }
                                assert(required@[r0.len() as int] == x.resource);
                                assert forall|m2: int, i: int|
                                    #[trigger] finished.contains(m2) && 0 <= i < self.combined(m2).len() && (#[trigger] self.combined(m2)[i]).producer
                                        is Input implies required@.contains(self.combined(m2)[i].resource) by {
                                    let y = self.combined(m2)[i].resource;
                                    let t = choose|t: int| 0 <= t < r0.len() && r0[t] == y;
                                    assert(required@[t] == y);
                                }
                                assert forall|i: int| 0 <= i < j + 1 && (#[trigger] inputs@[i]).producer is Input implies required@.contains(inputs@[i].resource) by {
                                    if i < j {
                                        let y = inputs@[i].resource;
                                        let t = choose|t: int| 0 <= t < r0.len() && r0[t] == y;
                                        assert(required@[t] == y);
                                    }
                                }
                            }
                        }
                    },
                    InputOrNode::Node(v) => {
                        proof {
                            assert(shape.producers_spec(x.resource).contains(InputOrNode::Node(v)));
                            let k = choose|k: int| 0 <= k < shape.producers_spec(x.resource).len() && shape.producers_spec(x.resource)[k] == InputOrNode::Node(v);
                            lemma_producer_is_node(shape, x.resource, k);
                        }
                        if !done[v] {
                            proof {
                                assert forall|i: int| 0 <= i < makers.len() implies makers[i] != v by {
                                    assert(done@[makers[i] as int]);
                                }
                                lemma_count_true_set(done@, v as int);
                                lemma_count_true_bound(done@.update(v as int, true));
                            }
                            let ghost c0 = created@;
                            let ghost mk0 = makers;
                            let ghost nd_flags0 = needed@;
                            let ghost done0 = done@;
                            proof {
                                assert forall|i: int| 0 <= i < mk0.len() implies done0[#[trigger] mk0[i] as int] && nd_flags0[mk0[i] as int] && shape.producers_spec(c0[i]) == seq![InputOrNode::Node(mk0[i])]
                                    && shape.permanent@[c0[i] as int] && !not_dirty@.contains(c0[i]) && (mk0[i] as int) < n by {
                                    assert(done@[makers[i] as int]);
                                    assert(shape.permanent@[created@[i] as int]);
                                }
                            }
                            let take = if shape.permanent[x.resource] {
                                if !list_contains(not_dirty, x.resource) {
                                    proof {
                                        assert(shape.producers_spec(x.resource).len() == 1);
                                        let k = choose|k: int| 0 <= k < shape.producers_spec(x.resource).len() && shape.producers_spec(x.resource)[k] == InputOrNode::Node(v);
                                        assert(shape.producers_spec(x.resource) =~= seq![InputOrNode::Node(v)]);
                                    }
                                    created.push(x.resource);
                                    proof {
                                        makers = makers.push(v);
                                    }
                                    true
                                } else {
                                    false
                                }
                            } else {
                                true
                            };
                            proof {
                                assert(created@.len() == c0.len() || (created@ == c0.push(x.resource) && makers == mk0.push(v) && take));
                            }
                            if take {
                                proof {
                                    assert(Self::active(shape, not_dirty@, x));
                                    assert(self.needs(shape, not_dirty@, m as int, v as int));
                                    let c = choose|c: Seq<int>| #[trigger] self.need_chain(shape, not_dirty@, p as int, c) && c.last() == m as int;
                                    self.lemma_need_chain_push(shape, not_dirty@, p as int, c, v as int);
                                    assert(c.push(v as int).last() == v as int);
                                }
                                let ghost st0 = stack@;
                                done.set(v, true);
                                needed.set(v, true);
                                stack.push(v);
                                proof {
                                    assert forall|w: int|
                                        0 <= w < n implies (#[trigger] needed@[w] <==> (finished.contains(w) || w == m as int || stack@.contains(w as usize))) by {
                                        if w == v as int {
                                            assert(stack@[st0.len() as int] == v);
                                        } else {
                                            if stack@.contains(w as usize) {
                                                let i = choose|i: int| 0 <= i < stack@.len() && stack@[i] == w as usize;
                                                assert(st0[i] == w as usize);
                                            }
                                            if st0.contains(w as usize) {
                                                let i = choose|i: int| 0 <= i < st0.len() && st0[i] == w as usize;
                                                assert(stack@[i] == w as usize);
                                            }
                                        }
                                    }
                                }
                            }
                            proof {
                                assert forall|i: int| 0 <= i < makers.len() implies done@[#[trigger] makers[i] as int] by {
                                    if i < mk0.len() {
                                        assert(makers[i] == mk0[i]);
                                        assert(done0[mk0[i] as int]);
                                    }
                                }
                                assert forall|i: int|
                                    0 <= i < created@.len() implies shape.permanent@[(#[trigger] created@[i]) as int] && !not_dirty@.contains(created@[i])
                                        && (makers[i] as int) < n && needed@[makers[i] as int] && shape.producers_spec(created@[i]) == seq![
                                        InputOrNode::Node(makers[i]),
                                    ] by {
                                    if i < c0.len() {
                                        assert(created@[i] == c0[i] && makers[i] == mk0[i]);
                                        assert(nd_flags0[mk0[i] as int]);
                                    }
                                }
                            }
                        }
                    },
                }
                proof {
                    assert forall|w: int| 0 <= w < n && needed_before[w] implies #[trigger] needed@[w] by {}
                    assert forall|m2: int, i: int|
                        #[trigger] finished.contains(m2) && 0 <= i < self.combined(m2).len() && (#[trigger] self.combined(m2)[i]).producer is Node
                            && Self::active(shape, not_dirty@, self.combined(m2)[i]) implies needed@[self.combined(m2)[i].producer->0 as int] by {
                        let w = self.combined(m2)[i].producer->0 as int;
                        assert(needed_before[w]);
                        assert(0 <= w < n) by {
                            assert(self.producers_valid(shape));
                            assert(0 <= m2 < n);
                            let k = choose|k: int| 0 <= k < shape.producers_spec(self.combined(m2)[i].resource).len()
                                && shape.producers_spec(self.combined(m2)[i].resource)[k] == self.combined(m2)[i].producer;
                            lemma_producer_is_node(shape, self.combined(m2)[i].resource, k);
                        }
                    }
                    assert forall|i: int| 0 <= i < j + 1 && (#[trigger] inputs@[i]).producer is Node && Self::active(shape, not_dirty@, inputs@[i])
                        implies needed@[inputs@[i].producer->0 as int] by {
                        let w = inputs@[i].producer->0 as int;
                        assert(self.combined(m as int)[i] == inputs@[i]);
                        assert(0 <= w < n) by {
                            let k = choose|k: int| 0 <= k < shape.producers_spec(inputs@[i].resource).len()
                                && shape.producers_spec(inputs@[i].resource)[k] == inputs@[i].producer;
                            lemma_producer_is_node(shape, inputs@[i].resource, k);
                        }
                        if i < j {
                            assert(needed_before[w]);
                        }
                    }
                }
                j = j + 1;
            }
            proof {
                let f2 = finished.insert(m as int);
                assert forall|m2: int, i: int|
                    #[trigger] f2.contains(m2) && 0 <= i < self.combined(m2).len() && (#[trigger] self.combined(m2)[i]).producer
                        is Input implies required@.contains(self.combined(m2)[i].resource) by {
                    if m2 == m as int && !finished.contains(m2) {
                        assert(inputs@[i] == self.combined(m2)[i]);
                    }
                }
                assert forall|y: usize| #[trigger] required@.contains(y) implies exists|m2: int| #[trigger] f2.contains(m2) && self.takes_input(m2, y) by {
                    if self.takes_input(m as int, y) {
                        assert(f2.contains(m as int));
                    } else {
                        let m2 = choose|m2: int| #[trigger] finished.contains(m2) && self.takes_input(m2, y);
                        assert(f2.contains(m2));
                    }
                }
                finished = f2;
                assert forall|v: int| 0 <= v < n implies (#[trigger] needed@[v] <==> (finished.contains(v) || stack@.contains(v as usize))) by {}
            }
        }
        let steps = select_steps(order, &needed);
        proof {
            assert forall|m2: int, i: int|
                0 <= m2 < n && needed@[m2] && 0 <= i < self.combined(m2).len() && (#[trigger] self.combined(m2)[i]).producer is Node
                    && Self::active(shape, not_dirty@, self.combined(m2)[i]) implies needed@[self.combined(m2)[i].producer->0 as int] by {
                assert(finished.contains(m2));
            }
            assert(needed@.len() == self.node_count);
            lemma_total_order_covers(self, order@);
            assert forall|v: usize| #[trigger] steps@.contains(v) <==> ((v as int) < n && needed@[v as int]) by {
                lemma_select(order@, needed@, v);
                if (v as int) < n {
                    assert(order@.contains(v));
                }
            }
            assert(steps@.contains(p));
            assert forall|v: usize| self.needed_from(shape, not_dirty@, p as int, v as int) implies #[trigger] steps@.contains(v) by {
                let c = choose|c: Seq<int>| #[trigger] self.need_chain(shape, not_dirty@, p as int, c) && c.last() == v as int;
                self.lemma_needed_closed(shape, not_dirty@, p as int, c, needed@);
                assert(c[c.len() - 1] == v as int);
            }
            assert forall|m2: usize, i: int|
                #[trigger] steps@.contains(m2) && 0 <= i < self.combined(m2 as int).len() && (#[trigger] self.combined(m2 as int)[i]).producer
                    is Input implies required@.contains(self.combined(m2 as int)[i].resource) by {
                assert(needed@[m2 as int]);
                assert(finished.contains(m2 as int));
            }
            assert forall|y: usize| #[trigger] required@.contains(y) implies exists|m2: usize| #[trigger] steps@.contains(m2) && self.takes_input(m2 as int, y) by {
                let m2 = choose|m2: int| #[trigger] finished.contains(m2) && self.takes_input(m2, y);
                assert(needed@[m2]);
                assert(steps@.contains(m2 as usize));
            }
            assert forall|i: int, k: int| 0 <= i < k < created@.len() implies created@[i] != created@[k] by {
                if created@[i] == created@[k] {
                    assert(seq![InputOrNode::Node(makers[i])][0] == seq![InputOrNode::Node(makers[k])][0]);
                }
            }
            assert forall|i: int|
                0 <= i < created@.len() implies shape.permanent@[(#[trigger] created@[i]) as int] && !not_dirty@.contains(created@[i])
                    && exists|v: usize| #[trigger] steps@.contains(v) && shape.producers_spec(created@[i]) == seq![InputOrNode::Node(v)] by {
                assert(shape.producers_spec(created@[i]) == seq![InputOrNode::Node(makers[i])]);
                assert(needed@[makers[i] as int]);
                assert(steps@.contains(makers[i]));
            }
        }
        let ghost makers_f = makers;
        let ghost created_f = created@;
        let ghost steps_f = steps@;
        let r = ComputeResult { required_inputs: required, steps, output_new_permanents: created };
        proof {
            assert(r.steps_view() == steps_f);
            assert(r.new_permanents() == created_f);
            assert forall|i: int|
                0 <= i < r.new_permanents().len() implies shape.permanent@[(#[trigger] r.new_permanents()[i]) as int] && !not_dirty@.contains(
                    r.new_permanents()[i],
                ) && exists|v: usize| #[trigger] r.steps_view().contains(v) && shape.producers_spec(r.new_permanents()[i]) == seq![InputOrNode::Node(v)] by {
                assert(created_f[i] == r.new_permanents()[i]);
                assert(shape.permanent@[created_f[i] as int]);
                let v = choose|v: usize| #[trigger] steps_f.contains(v) && shape.producers_spec(created_f[i]) == seq![InputOrNode::Node(v)];
                assert(r.steps_view().contains(v));
            }
        }
        r
    }
}

/// The entries `v` of `order` with `flags[v]` set, in the order of `order`.
fn select_steps(order: &Vec<usize>, flags: &Vec<bool>) -> (r: Vec<usize>)
    requires
        forall|i: int| 0 <= i < order@.len() ==> (#[trigger] order@[i] as int) < flags@.len(),
    ensures
        r@ == select(order@, flags@),
{
    let mut steps: Vec<usize> = Vec::new();
    let mut t: usize = 0;
    while t < order.len()
        invariant
            t <= order@.len(),
            forall|i: int| 0 <= i < order@.len() ==> (#[trigger] order@[i] as int) < flags@.len(),
            steps@ == select(order@.take(t as int), flags@),
        decreases order@.len() - t,
    {
        proof {
            assert(order@.take(t as int + 1).drop_last() =~= order@.take(t as int));
        }
        if flags[order[t]] {
            steps.push(order[t]);
        }
        t = t + 1;
        proof {
            assert(steps@ =~= select(order@.take(t as int), flags@));
        }
    }
    proof {
        assert(order@.take(order@.len() as int) =~= order@);
    }
    steps
}

/// Every producer that a node names among the producers of a resource is a
/// node of the graph.
pub proof fn lemma_producer_is_node(shape: &GraphShape, r: usize, k: int)
    requires
        shape.wf(),
        0 <= k < shape.producers_spec(r).len(),
    ensures
        (shape.producers_spec(r)[k] matches InputOrNode::Node(v) ==> (v as nat) < shape.node_count()),
{
    let np = shape.node_producers(r, shape.node_count());
    lemma_node_producers_range(shape, r, shape.node_count());
    if k < np.len() {
        assert(shape.producers_spec(r)[k] == np[k]);
    }
}

proof fn lemma_node_producers_range(shape: &GraphShape, r: usize, k: nat)
    requires
        k <= shape.node_count(),
    ensures
        forall|i: int| 0 <= i < shape.node_producers(r, k).len() ==> ((#[trigger] shape.node_producers(r, k)[i]) matches InputOrNode::Node(v) && (v as nat) < k),
    decreases k,
{
    if k > 0 {
        let k1 = (k - 1) as nat;
        lemma_node_producers_range(shape, r, k1);
        let a = shape.node_producers(r, k1);
        let b = hits(shape.outputs(k1 as int), r, k1 as usize);
        lemma_hits_nodes(shape.outputs(k1 as int), r, k1 as usize);
        assert forall|i: int| 0 <= i < (a + b).len() implies ((#[trigger] (a + b)[i]) matches InputOrNode::Node(v) && (v as nat) < k) by {
            if i < a.len() {
                assert((a + b)[i] == a[i]);
            } else {
                assert((a + b)[i] == b[i - a.len()]);
            }
        }
    }
}

proof fn lemma_hits_nodes(outs: Seq<usize>, r: usize, n: usize)
    ensures
        forall|i: int| 0 <= i < hits(outs, r, n).len() ==> #[trigger] hits(outs, r, n)[i] == InputOrNode::Node(n),
    decreases outs.len(),
{
    if outs.len() > 0 {
        lemma_hits_nodes(outs.drop_last(), r, n);
        let a = hits(outs.drop_last(), r, n);
        let b: Seq<InputOrNode> = if outs.last() == r { seq![InputOrNode::Node(n)] } else { Seq::empty() };
        assert forall|i: int| 0 <= i < (a + b).len() implies #[trigger] (a + b)[i] == InputOrNode::Node(n) by {
            if i < a.len() {
                assert((a + b)[i] == a[i]);
            } else {
                assert((a + b)[i] == b[i - a.len()]);
            }
        }
    }
}

/// A total order holds every node.
proof fn lemma_total_order_covers(g: &ResolvedResources, order: Seq<usize>)
    requires
        g.is_total_order(order),
    ensures
        forall|v: usize| (v as int) < g.node_count ==> #[trigger] order.contains(v),
{
    let ids = Seq::new(order.len(), |i: int| order[i] as int);
    assert forall|i: int, j: int| 0 <= i < j < ids.len() implies ids[i] != ids[j] by {}
    ids.unique_seq_to_set();
    let range = vstd::set_lib::set_int_range(0, g.node_count as int);
    vstd::set_lib::lemma_int_range(0, g.node_count as int);
    assert(ids.to_set().subset_of(range));
    assert forall|v: usize| (v as int) < g.node_count implies #[trigger] order.contains(v) by {
        if !order.contains(v) {
            assert(!ids.to_set().contains(v as int)) by {
                if ids.to_set().contains(v as int) {
                    let i = choose|i: int| 0 <= i < ids.len() && ids[i] == v as int;
                    assert(order[i] == v);
                }
            }
            let smaller = range.remove(v as int);
            assert(ids.to_set().subset_of(smaller));
            vstd::set_lib::lemma_len_subset(ids.to_set(), smaller);
        }
    }
}

} // verus!
