//! The resolved dependency graph of a render graph: which node (or the
//! graph's inputs) produces each resource that a node consumes or borrows,
//! loop detection, and the order in which nodes run.

use vstd::prelude::*;
use std::ops::ControlFlow;

verus! {

/// What produced a resource: the graph's inputs, or a node.
#[derive(PartialEq, Eq, Structural, Clone, Copy, Debug, Hash)]
pub enum InputOrNode {
    Input,
    Node(usize),
}

/// A resource together with the producer it is taken from.
#[derive(PartialEq, Eq, Structural, Clone, Copy, Debug, Hash)]
pub struct ResolvedInput {
    pub resource: usize,
    pub producer: InputOrNode,
}

/// For each node, where each resource it consumes and each resource it
/// borrows comes from.
pub struct ResolvedResources {
    pub node_count: usize,
    pub explicit_orderings: Vec<(usize, usize)>,
    pub inputs: Vec<Vec<ResolvedInput>>,
    pub borrows: Vec<Vec<ResolvedInput>>,
}

impl ResolvedResources {
    pub open spec fn wf(&self) -> bool {
        &&& self.inputs@.len() == self.node_count
        &&& self.borrows@.len() == self.node_count
    }

    /// No node takes a resource from itself.
    pub open spec fn not_self_produced(&self) -> bool {
        &&& forall|n: int, i: int| 0 <= n < self.inputs@.len() && 0 <= i < self.inputs@[n]@.len()
            ==> (#[trigger] self.inputs@[n]@[i]).producer != InputOrNode::Node(n as usize)
        &&& forall|n: int, i: int| 0 <= n < self.borrows@.len() && 0 <= i < self.borrows@[n]@.len()
            ==> (#[trigger] self.borrows@[n]@[i]).producer != InputOrNode::Node(n as usize)
    }

    /// The consumed, then the borrowed, resolved inputs of node `a`.
    pub open spec fn combined(&self, a: int) -> Seq<ResolvedInput> {
        self.inputs@[a]@ + self.borrows@[a]@
    }

    /// Node `a` takes a resource that node `b` produced.
    pub open spec fn dep(&self, a: int, b: int) -> bool {
        exists|i: int|
            0 <= i < self.combined(a).len() && #[trigger] self.combined(a)[i].producer
                == InputOrNode::Node(b as usize)
    }

    /// `p` is a chain of at least one dependency step between nodes.
    pub open spec fn is_chain(&self, p: Seq<int>) -> bool {
        &&& p.len() >= 2
        &&& forall|i: int| 0 <= i < p.len() ==> 0 <= #[trigger] p[i] < self.node_count
        &&& forall|i: int| 0 <= i < p.len() - 1 ==> #[trigger] self.dep_at(p, i)
    }

    /// Step `i` of the chain `p` follows a dependency.
    pub open spec fn dep_at(&self, p: Seq<int>, i: int) -> bool {
        self.dep(p[i], p[i + 1])
    }

    /// A chain of dependencies leads from node `a` to node `b`.
    pub open spec fn reaches(&self, a: int, b: int) -> bool {
        exists|p: Seq<int>| #[trigger] self.is_chain(p) && p[0] == a && p.last() == b
    }

    /// No node depends, directly or through other nodes, on itself.
    pub open spec fn acyclic(&self) -> bool {
        forall|v: int| 0 <= v < self.node_count ==> !#[trigger] self.reaches(v, v)
    }

    /// Step `i` of `path` follows a dependency.
    pub open spec fn linked(&self, path: Seq<InputOrNode>, i: int) -> bool {
        self.dep(path[i]->0 as int, path[i + 1]->0 as int)
    }

    /// `path` goes from node to node along dependencies and ends on a node
    /// it already went through.
    pub open spec fn is_loop(&self, path: Seq<InputOrNode>) -> bool {
        &&& path.len() >= 2
        &&& forall|i: int| 0 <= i < path.len() ==> (#[trigger] path[i]) is Node && (path[i]->0 as int) < self.node_count
        &&& forall|i: int|
            0 <= i < path.len() - 1 ==> #[trigger] self.linked(path, i)
        &&& exists|j: int| 0 <= j < path.len() - 1 && #[trigger] path[j] == path.last()
    }

    /// Every producer named in the resolution is a node of the graph.
    pub open spec fn producers_in_range(&self) -> bool {
        forall|a: int, i: int|
            0 <= a < self.node_count && 0 <= i < self.combined(a).len() ==> ((#[trigger] self.combined(a)[i]).producer
                matches InputOrNode::Node(n) ==> n < self.node_count)
    }

    /// The resolved inputs of `node`: consumed ones, then borrowed ones.
    pub fn combined_inputs(&self, node: usize) -> (r: Vec<ResolvedInput>)
        requires
            self.wf(),
            node < self.node_count,
        ensures
            r@ == self.combined(node as int),
    {
        let mut out: Vec<ResolvedInput> = Vec::new();
        let a = &self.inputs[node];
        let b = &self.borrows[node];
        let mut i: usize = 0;
        while i < a.len()
            invariant
                out@ == a@.take(i as int),
                i <= a@.len(),
            decreases a@.len() - i,
        {
            out.push(a[i]);
            i = i + 1;
            assert(out@ =~= a@.take(i as int));
        }
        let mut j: usize = 0;
        while j < b.len()
            invariant
                out@ == a@ + b@.take(j as int),
                j <= b@.len(),
                i == a@.len(),
            decreases b@.len() - j,
        {
            out.push(b[j]);
            j = j + 1;
            assert(out@ =~= a@ + b@.take(j as int));
        }
        assert(a@.take(a@.len() as int) =~= a@);
        assert(b@.take(b@.len() as int) =~= b@);
        out
    }

    /// Searches the dependencies of `current`, reached by the path
    /// `previous`, for a loop. Breaks with the loop found; continues when no
    /// chain of dependencies from `current` comes back to `current` or to
    /// `previous`.
    pub fn find_loop_rec(&self, current: usize, previous: Vec<InputOrNode>) -> (r: ControlFlow<
        Vec<InputOrNode>,
    >)
        requires
            self.wf(),
            self.producers_in_range(),
            current < self.node_count,
            previous@.len() < self.node_count,
            forall|i: int|
                0 <= i < previous@.len() ==> (#[trigger] previous@[i]) is Node && (previous@[i]->0
                    as int) < self.node_count,
            forall|i: int, j: int| 0 <= i < j < previous@.len() ==> previous@[i] != previous@[j],
            forall|i: int| 0 <= i < previous@.len() ==> #[trigger] previous@[i] != InputOrNode::Node(current),
            forall|i: int|
                0 <= i < previous@.len() - 1 ==> #[trigger] self.linked(previous@, i),
            previous@.len() > 0 ==> self.dep(previous@.last()->0 as int, current as int),
        ensures
            r matches ControlFlow::Break(path) ==> self.is_loop(path@),
            r matches ControlFlow::Continue(_) ==> forall|x: usize|
                (x == current || previous@.contains(InputOrNode::Node(x))) ==> !#[trigger] self.reaches(current as int, x as int),
        decreases self.node_count - previous@.len(),
    {
        let mut walk = copy_path(&previous);
        let ghost prev0 = previous@;
        walk.push(InputOrNode::Node(current));
        let ghost path = walk@;
        proof {
            assert forall|i: int| 0 <= i < path.len() - 1 implies #[trigger] self.linked(path, i) by {
                if i < prev0.len() - 1 {
                    assert(path[i] == prev0[i] && path[i + 1] == prev0[i + 1]);
                    assert(self.linked(prev0, i));
                } else {
                    assert(path[i] == prev0.last());
                }
            }
            assert forall|i: int| 0 <= i < path.len() implies (#[trigger] path[i]) is Node && (path[i]->0 as int) < self.node_count by {
                if i < prev0.len() {
                    assert(path[i] == prev0[i]);
                }
            }
        }
        let inputs = self.combined_inputs(current);
        let mut idx: usize = 0;
        while idx < inputs.len()
            invariant
                self.wf(),
                self.producers_in_range(),
                current < self.node_count,
                inputs@ == self.combined(current as int),
                walk@ == path,
                path == prev0.push(InputOrNode::Node(current)),
                prev0 == previous@,
                prev0.len() < self.node_count,
                forall|i: int| 0 <= i < path.len() ==> (#[trigger] path[i]) is Node && (path[i]->0 as int) < self.node_count,
                forall|i: int, j: int| 0 <= i < j < prev0.len() ==> prev0[i] != prev0[j],
                forall|i: int| 0 <= i < prev0.len() ==> #[trigger] prev0[i] != InputOrNode::Node(current),
                forall|i: int| 0 <= i < path.len() - 1 ==> #[trigger] self.linked(path, i),
                idx <= inputs@.len(),
                forall|j: int|
                    0 <= j < idx ==> ((#[trigger] inputs@[j]).producer matches InputOrNode::Node(n) ==> forall|x: usize|
                        path.contains(InputOrNode::Node(x)) ==> !#[trigger] self.reaches(n as int, x as int)),
                forall|j: int| 0 <= j < idx ==> !path.contains(#[trigger] inputs@[j].producer),
            decreases inputs@.len() - idx,
        {
            let input = inputs[idx];
            if contains_producer(&walk, input.producer) {
                walk.push(input.producer);
                proof {
                    let p2 = walk@;
                    let j = choose|j: int| 0 <= j < path.len() && path[j] == input.producer;
                    assert(p2[j] == p2.last());
                    assert(input.producer is Node);
                    assert(self.dep(current as int, input.producer->0 as int)) by {
                        assert(self.combined(current as int)[idx as int].producer == input.producer);
                    }
                    assert forall|i: int| 0 <= i < p2.len() - 1 implies #[trigger] self.linked(p2, i) by {
                        if i < path.len() - 1 {
                            assert(p2[i] == path[i] && p2[i + 1] == path[i + 1]);
                            assert(self.linked(path, i));
                        } else {
                            assert(p2[i] == path.last());
                        }
                    }
                    assert forall|i: int| 0 <= i < p2.len() implies (#[trigger] p2[i]) is Node && (p2[i]->0 as int) < self.node_count by {
                        if i < path.len() {
                            assert(p2[i] == path[i]);
                        }
                    }
                }
                return ControlFlow::Break(walk);
            }
            if let InputOrNode::Node(n) = input.producer {
                proof {
                    assert(self.combined(current as int)[idx as int] == input);
                    assert((n as int) < self.node_count);
                    assert(self.dep(current as int, n as int)) by {
                        assert(self.combined(current as int)[idx as int].producer == input.producer);
                    }
                    assert forall|i: int| 0 <= i < path.len() implies #[trigger] path[i] != InputOrNode::Node(n) by {}
                    assert forall|i: int, j: int| 0 <= i < j < path.len() implies path[i] != path[j] by {
                        if j == path.len() - 1 {
                            assert(path[j] == InputOrNode::Node(current));
                        } else {
                            assert(path[i] == prev0[i] && path[j] == prev0[j]);
                        }
                    }
                    lemma_distinct_nodes_bound(path, self.node_count as nat, n as int);
                }
                let copy = copy_path(&walk);
                assert(copy@.len() < self.node_count);
                assert(copy@.len() == previous@.len() + 1);
                let sub = self.find_loop_rec(n, copy);
                match sub {
                    ControlFlow::Break(found) => {
                        return ControlFlow::Break(found);
                    },
                    ControlFlow::Continue(_) => {
                        proof {
                            assert forall|x: usize| path.contains(InputOrNode::Node(x)) implies !#[trigger] self.reaches(n as int, x as int) by {}
                        }
                    },
                }
            }
            idx = idx + 1;
        }
        proof {
            assert forall|x: usize| (x == current || prev0.contains(InputOrNode::Node(x))) implies !#[trigger] self.reaches(current as int, x as int) by {
                assert(path.contains(InputOrNode::Node(x))) by {
                    if x == current {
                        assert(path[path.len() - 1] == InputOrNode::Node(current));
                    } else {
                        let j = choose|j: int| 0 <= j < prev0.len() && prev0[j] == InputOrNode::Node(x);
                        assert(path[j] == prev0[j]);
                    }
                }
                if self.reaches(current as int, x as int) {
                    let p = choose|p: Seq<int>| #[trigger] self.is_chain(p) && p[0] == current as int && p.last() == x as int;
                    assert(self.dep_at(p, 0));
                    let c = p[1];
                    let i = choose|i: int| 0 <= i < self.combined(current as int).len() && #[trigger] self.combined(current as int)[i].producer == InputOrNode::Node(c as usize);
                    assert(inputs@[i].producer == InputOrNode::Node(c as usize));
                    if p.len() == 2 {
                        assert(!path.contains(inputs@[i].producer));
                    } else {
                        let q = p.drop_first();
                        assert forall|t: int| 0 <= t < q.len() - 1 implies #[trigger] self.dep_at(q, t) by {
                            assert(self.dep_at(p, t + 1));
                        }
                        assert(self.is_chain(q));
                        assert(!self.reaches(c, x as int));
                    }
                }
            }
        }
        ControlFlow::Continue(())
    }

    /// A loop in the dependencies, if there is one.
    pub fn find_loop(&self) -> (r: Option<Vec<InputOrNode>>)
        requires
            self.wf(),
            self.producers_in_range(),
        ensures
            r matches Some(path) ==> self.is_loop(path@),
            r.is_none() ==> self.acyclic(),
    {
        let mut nr: usize = 0;
        while nr < self.node_count
            invariant
                self.wf(),
                self.producers_in_range(),
                nr <= self.node_count,
                forall|v: int| 0 <= v < nr ==> !#[trigger] self.reaches(v, v),
                nr <= usize::MAX,
            decreases self.node_count - nr,
        {
            let r = self.find_loop_rec(nr, Vec::new());
            match r {
                ControlFlow::Break(found) => {
                    return Some(found);
                },
                ControlFlow::Continue(_) => {},
            }
            nr = nr + 1;
        }
        None
    }
}

impl ResolvedResources {
    /// `c` is the first node that consumes `b`.
    pub open spec fn first_consumer(&self, b: ResolvedInput, c: int) -> bool {
        &&& 0 <= c < self.node_count
        &&& self.inputs@[c]@.contains(b)
        &&& forall|c2: int| 0 <= c2 < c ==> !(#[trigger] self.inputs@[c2]@).contains(b)
    }

    /// Node `m` must run after node `p`: `m` takes a resource that `p`
    /// produced, or `m` is the first consumer of a resource that `p` borrows.
    pub open spec fn succ(&self, p: int, m: int) -> bool {
        ||| self.dep(m, p)
        ||| exists|i: int| 0 <= i < self.borrows@[p]@.len() && self.first_consumer(#[trigger] self.borrows@[p]@[i], m)
    }

    /// `c` is a chain of at least one ordering step between nodes.
    pub open spec fn is_succ_chain(&self, c: Seq<int>) -> bool {
        &&& c.len() >= 2
        &&& forall|i: int| 0 <= i < c.len() ==> 0 <= #[trigger] c[i] < self.node_count
        &&& forall|i: int| 0 <= i < c.len() - 1 ==> #[trigger] self.succ_at(c, i)
    }

    pub open spec fn succ_at(&self, c: Seq<int>, i: int) -> bool {
        self.succ(c[i], c[i + 1])
    }

    /// No node must run after itself, directly or through other nodes.
    pub open spec fn order_acyclic(&self) -> bool {
        forall|c: Seq<int>| #[trigger] self.is_succ_chain(c) ==> c[0] != c.last()
    }

    /// Node `i` is not in `done`, and every node that must run after it is.
    pub open spec fn ready(&self, done: Seq<usize>, i: int) -> bool {
        &&& 0 <= i < self.node_count
        &&& !done.contains(i as usize)
        &&& forall|m: int| 0 <= m < self.node_count && #[trigger] self.succ(i, m) ==> done.contains(m as usize)
    }

    /// `q` is built by repeatedly taking the smallest ready node.
    pub open spec fn greedy_sequence(&self, q: Seq<usize>) -> bool {
        forall|k: int|
            0 <= k < q.len() ==> self.ready(q.take(k), #[trigger] q[k] as int) && forall|j: int|
                0 <= j < q[k] ==> !self.ready(q.take(k), j)
    }

    /// True if node `node` takes a resource that `producer` produced.
    pub fn produced_by(&self, node: usize, producer: usize) -> (r: bool)
        requires
            self.wf(),
            node < self.node_count,
        ensures
            r == self.dep(node as int, producer as int),
    {
        let inputs = self.combined_inputs(node);
        let mut i: usize = 0;
        while i < inputs.len()
            invariant
                inputs@ == self.combined(node as int),
                i <= inputs@.len(),
                forall|j: int| 0 <= j < i ==> (#[trigger] inputs@[j]).producer != InputOrNode::Node(producer),
            decreases inputs@.len() - i,
        {
            if inputs[i].producer == InputOrNode::Node(producer) {
                return true;
            }
            i = i + 1;
        }
        false
    }

    /// The first node that consumes `b`, if any.
    pub fn first_consumer_of(&self, b: ResolvedInput) -> (r: Option<usize>)
        requires
            self.wf(),
        ensures
            r matches Some(c) ==> self.first_consumer(b, c as int),
            r is None ==> forall|c: int| 0 <= c < self.node_count ==> !(#[trigger] self.inputs@[c]@).contains(b),
    {
        let mut c: usize = 0;
        while c < self.node_count
            invariant
                self.wf(),
                c <= self.node_count,
                forall|c2: int| 0 <= c2 < c ==> !(#[trigger] self.inputs@[c2]@).contains(b),
            decreases self.node_count - c,
        {
            let list = &self.inputs[c];
            let mut i: usize = 0;
            while i < list.len()
                invariant
                    self.wf(),
                    c < self.node_count,
                    list@ == self.inputs@[c as int]@,
                    forall|c2: int| 0 <= c2 < c ==> !(#[trigger] self.inputs@[c2]@).contains(b),
                    i <= list@.len(),
                    forall|j: int| 0 <= j < i ==> list@[j] != b,
                decreases list@.len() - i,
            {
                if list[i] == b {
                    assert(list@[i as int] == b);
                    return Some(c);
                }
                i = i + 1;
            }
            assert(!list@.contains(b));
            c = c + 1;
        }
        None
    }

    /// True if node `m` must run after node `p`.
    pub fn must_run_after(&self, p: usize, m: usize) -> (r: bool)
        requires
            self.wf(),
            p < self.node_count,
            m < self.node_count,
        ensures
            r == self.succ(p as int, m as int),
    {
        if self.produced_by(m, p) {
            return true;
        }
        let borrows = &self.borrows[p];
        let mut i: usize = 0;
        while i < borrows.len()
            invariant
                self.wf(),
                p < self.node_count,
                m < self.node_count,
                borrows@ == self.borrows@[p as int]@,
                i <= borrows@.len(),
                forall|j: int| 0 <= j < i ==> !self.first_consumer(#[trigger] borrows@[j], m as int),
            decreases borrows@.len() - i,
        {
            match self.first_consumer_of(borrows[i]) {
                Some(c) => {
                    if c == m {
                        return true;
                    }
                    proof {
                        if self.first_consumer(borrows@[i as int], m as int) {
                            if (m as int) < (c as int) {
                                assert(self.inputs@[m as int]@.contains(borrows@[i as int]));
                            } else {
                                assert(self.inputs@[c as int]@.contains(borrows@[i as int]));
                            }
                        }
                    }
                },
                None => {},
            }
            i = i + 1;
        }
        false
    }

    /// Whether each node must run after each other node, as a matrix.
    fn successor_matrix(&self) -> (r: Vec<Vec<bool>>)
        requires
            self.wf(),
        ensures
            r@.len() == self.node_count,
            forall|p: int| 0 <= p < self.node_count ==> (#[trigger] r@[p])@.len() == self.node_count,
            forall|p: int, m: int| 0 <= p < self.node_count && 0 <= m < self.node_count ==> (#[trigger] r@[p]@[m] == self.succ(p, m)),
    {
        let n = self.node_count;
        let mut rows: Vec<Vec<bool>> = Vec::new();
        let mut p: usize = 0;
        while p < n
            invariant
                self.wf(),
                n == self.node_count,
                p <= n,
                rows@.len() == p,
                forall|q: int| 0 <= q < p ==> (#[trigger] rows@[q])@.len() == n,
                forall|q: int, m: int| 0 <= q < p && 0 <= m < n ==> (#[trigger] rows@[q]@[m] == self.succ(q, m)),
            decreases n - p,
        {
            let mut row: Vec<bool> = Vec::new();
            let mut m: usize = 0;
            while m < n
                invariant
                    self.wf(),
                    n == self.node_count,
                    p < n,
                    m <= n,
                    row@.len() == m,
                    forall|j: int| 0 <= j < m ==> (#[trigger] row@[j]) == self.succ(p as int, j),
                decreases n - m,
            {
                row.push(self.must_run_after(p, m));
                m = m + 1;
            }
            rows.push(row);
            p = p + 1;
        }
        rows
    }

    /// The smallest node that is not done and whose successors are all done,
    /// given the successor matrix and the done flags of the nodes in `out`.
    fn first_ready(&self, successors: &Vec<Vec<bool>>, done: &Vec<bool>, out: Ghost<Seq<usize>>) -> (r: Option<usize>)
        requires
            successors@.len() == self.node_count,
            forall|p: int| 0 <= p < self.node_count ==> (#[trigger] successors@[p])@.len() == self.node_count,
            forall|p: int, m: int| 0 <= p < self.node_count && 0 <= m < self.node_count ==> (#[trigger] successors@[p]@[m] == self.succ(p, m)),
            done@.len() == self.node_count,
            forall|x: int| 0 <= x < self.node_count ==> (#[trigger] done@[x] == out@.contains(x as usize)),
        ensures
            r matches Some(i) ==> self.ready(out@, i as int) && forall|j: int| 0 <= j < i ==> !self.ready(out@, j),
            r is None ==> forall|j: int| !#[trigger] self.ready(out@, j),
    {
        let n = self.node_count;
        let mut i: usize = 0;
        while i < n
            invariant
                n == self.node_count,
                successors@.len() == n,
                forall|p: int| 0 <= p < n ==> (#[trigger] successors@[p])@.len() == n,
                forall|p: int, m: int| 0 <= p < n && 0 <= m < n ==> (#[trigger] successors@[p]@[m] == self.succ(p, m)),
                done@.len() == n,
                forall|x: int| 0 <= x < n ==> (#[trigger] done@[x] == out@.contains(x as usize)),
                i <= n,
                forall|j: int| 0 <= j < i ==> !self.ready(out@, j),
            decreases n - i,
        {
            if !done[i] {
                let row = &successors[i];
                let mut all_done = true;
                let mut m: usize = 0;
                while m < n
                    invariant
                        n == self.node_count,
                        row@.len() == n,
                        i < n,
                        forall|x: int| 0 <= x < n ==> (#[trigger] row@[x] == self.succ(i as int, x)),
                        done@.len() == n,
                        forall|x: int| 0 <= x < n ==> (#[trigger] done@[x] == out@.contains(x as usize)),
                        m <= n,
                        all_done == forall|x: int| 0 <= x < m && #[trigger] self.succ(i as int, x) ==> out@.contains(x as usize),
                    decreases n - m,
                {
                    if row[m] && !done[m] {
                        all_done = false;
                    }
                    m = m + 1;
                }
                if all_done {
                    return Some(i);
                }
            }
            i = i + 1;
        }
        None
    }

    /// An order in which to run the nodes, so that every node runs before
    /// the nodes that must run after it: the reverse of the sequence built by
    /// repeatedly taking the smallest node whose successors are all taken.
    pub fn compute_total_order(&self) -> (r: Vec<usize>)
        requires
            self.wf(),
            self.order_acyclic(),
        ensures
            self.is_total_order(r@),
    {
        match self.total_order_or_stuck() {
            Some(order) => order,
            None => {
                assert(false);
                Vec::new()
            },
        }
    }

    /// `r` holds every node once, every node before the nodes that must
    /// run after it, and reversed it is the greedy sequence.
    pub open spec fn is_total_order(&self, r: Seq<usize>) -> bool {
        &&& r.len() == self.node_count
        &&& forall|i: int| 0 <= i < r.len() ==> (#[trigger] r[i] as int) < self.node_count
        &&& forall|i: int, j: int| 0 <= i < j < r.len() ==> r[i] != r[j]
        &&& forall|i: int, j: int| 0 <= i < j < r.len() ==> !self.succ(r[j] as int, r[i] as int)
        &&& self.greedy_sequence(r.reverse())
    }

    /// The order of [`ResolvedResources::compute_total_order`], or nothing
    /// when, before every node is taken, no node has all its successors
    /// taken; that happens only when the ordering has a cycle.
    pub fn total_order_or_stuck(&self) -> (r: Option<Vec<usize>>)
        requires
            self.wf(),
        ensures
            r matches Some(order) ==> self.is_total_order(order@),
            r is None ==> !self.order_acyclic(),
    {
        let n = self.node_count;
        let successors = self.successor_matrix();
        let mut done: Vec<bool> = Vec::new();
        let mut k: usize = 0;
        while k < n
            invariant
                k <= n,
                done@.len() == k,
                forall|j: int| 0 <= j < k ==> !(#[trigger] done@[j]),
            decreases n - k,
        {
            done.push(false);
            k = k + 1;
        }
        let mut output: Vec<usize> = Vec::new();
        while output.len() < n
            invariant
                self.wf(),
                n == self.node_count,
                successors@.len() == n,
                forall|p: int| 0 <= p < n ==> (#[trigger] successors@[p])@.len() == n,
                forall|p: int, m: int| 0 <= p < n && 0 <= m < n ==> (#[trigger] successors@[p]@[m] == self.succ(p, m)),
                done@.len() == n,
                forall|i: int| 0 <= i < n ==> (#[trigger] done@[i] == output@.contains(i as usize)),
                forall|i: int| 0 <= i < output@.len() ==> (#[trigger] output@[i] as int) < n,
                forall|i: int, j: int| 0 <= i < j < output@.len() ==> output@[i] != output@[j],
                self.greedy_sequence(output@),
                output@.len() <= n,
            decreases n - output@.len(),
        {
            let found = self.first_ready(&successors, &done, Ghost(output@));
            let node = match found {
                Some(node) => node,
                None => {
                    proof {
                        if self.order_acyclic() {
                            self.lemma_stuck_is_cyclic(output@);
                        }
                    }
                    return None;
                },
            };
            proof {
                assert(self.ready(output@, node as int));
            }
            let ghost before = output@;
            done.set(node, true);
            output.push(node);
            proof {
                assert forall|x: int| 0 <= x < n implies (#[trigger] done@[x] == output@.contains(x as usize)) by {
                    if x != node as int {
                        if output@.contains(x as usize) {
                            let t = choose|t: int| 0 <= t < output@.len() && output@[t] == x as usize;
                            assert(before[t] == x as usize);
                        }
                        if before.contains(x as usize) {
                            let t = choose|t: int| 0 <= t < before.len() && before[t] == x as usize;
                            assert(output@[t] == x as usize);
                        }
                    } else {
                        assert(output@[before.len() as int] == node);
                    }
                }
                assert(output@.take(before.len() as int) =~= before);
                assert forall|t: int| 0 <= t < output@.len() implies self.ready(output@.take(t), #[trigger] output@[t] as int) && forall|j: int|
                    0 <= j < output@[t] ==> !self.ready(output@.take(t), j) by {
                    if t < before.len() {
                        assert(output@.take(t) =~= before.take(t));
                        assert(output@[t] == before[t]);
                    } else {
                        assert(output@.take(t) =~= before);
                    }
                }
            }
        }
        let ghost q = output@;
        let output = reversed(&output);
        proof {
            assert(output@ =~= q.reverse());
            assert(q.reverse().reverse() =~= q);
            assert forall|i: int, j: int| 0 <= i < j < output@.len() implies !self.succ(output@[j] as int, output@[i] as int) by {
                let a = n - 1 - j;
                let b = n - 1 - i;
                assert(output@[j] == q[a]);
                assert(output@[i] == q[b]);
                assert(self.ready(q.take(a), q[a] as int));
                if self.succ(q[a] as int, q[b] as int) {
                    assert(q.take(a).contains(q[b]));
                    let t = choose|t: int| 0 <= t < a && q.take(a)[t] == q[b];
                    assert(q[t] == q[b]);
                }
            }
            assert forall|i: int, j: int| 0 <= i < j < output@.len() implies output@[i] != output@[j] by {
                assert(output@[i] == q[n - 1 - i]);
                assert(output@[j] == q[n - 1 - j]);
            }
        }
        Some(output)
    }

    /// When no node is ready but some are not done, the ordering has a cycle.
    proof fn lemma_stuck_is_cyclic(&self, done: Seq<usize>)
        requires
            self.wf(),
            self.order_acyclic(),
            done.len() < self.node_count,
            forall|i: int, j: int| 0 <= i < j < done.len() ==> done[i] != done[j],
            forall|i: int| 0 <= i < done.len() ==> (#[trigger] done[i] as int) < self.node_count,
        ensures
            exists|i: int| #[trigger] self.ready(done, i),
    {
        if forall|i: int| !#[trigger] self.ready(done, i) {
            // some node is not done
            let u = self.lemma_some_not_done(done);
            let chain = self.lemma_long_chain(done, u, self.node_count as nat);
            self.lemma_chain_repeats(chain);
        }
    }

    /// A node that `done` misses.
    proof fn lemma_some_not_done(&self, done: Seq<usize>) -> (u: int)
        requires
            done.len() < self.node_count,
            forall|i: int, j: int| 0 <= i < j < done.len() ==> done[i] != done[j],
            forall|i: int| 0 <= i < done.len() ==> (#[trigger] done[i] as int) < self.node_count,
        ensures
            0 <= u < self.node_count,
            !done.contains(u as usize),
    {
        let ids = Seq::new(done.len(), |i: int| done[i] as int);
        assert forall|i: int, j: int| 0 <= i < j < ids.len() implies ids[i] != ids[j] by {}
        ids.unique_seq_to_set();
        let range = vstd::set_lib::set_int_range(0, self.node_count as int);
        vstd::set_lib::lemma_int_range(0, self.node_count as int);
        if forall|x: int| 0 <= x < self.node_count ==> #[trigger] done.contains(x as usize) {
            assert(range.subset_of(ids.to_set())) by {
                assert forall|x: int| range.contains(x) implies ids.to_set().contains(x) by {
                    assert(done.contains(x as usize));
                    let t = choose|t: int| 0 <= t < done.len() && done[t] == x as usize;
                    assert(ids[t] == x);
                }
            }
            vstd::set_lib::lemma_len_subset(range, ids.to_set());
            assert(false);
        }
        let u = choose|x: int| 0 <= x < self.node_count && !#[trigger] done.contains(x as usize);
        u
    }

    /// When no node is ready, from any node not done starts a chain of `k`
    /// ordering steps through nodes not done.
    proof fn lemma_long_chain(&self, done: Seq<usize>, u: int, k: nat) -> (c: Seq<int>)
        requires
            forall|i: int| !#[trigger] self.ready(done, i),
            0 <= u < self.node_count,
            !done.contains(u as usize),
            k >= 1,
        ensures
            c.len() == k + 1,
            c[0] == u,
            self.is_succ_chain(c),
            forall|i: int| 0 <= i < c.len() ==> !done.contains(#[trigger] c[i] as usize),
        decreases k,
    {
        assert(!self.ready(done, u));
        let m = choose|m: int| 0 <= m < self.node_count && #[trigger] self.succ(u, m) && !done.contains(m as usize);
        if k == 1 {
            let c = seq![u, m];
            assert(self.succ_at(c, 0));
            c
        } else {
            let rest = self.lemma_long_chain(done, m, (k - 1) as nat);
            let c = seq![u].add(rest);
            assert forall|i: int| 0 <= i < c.len() - 1 implies #[trigger] self.succ_at(c, i) by {
                if i > 0 {
                    assert(self.succ_at(rest, i - 1));
                }
            }
            assert forall|i: int| 0 <= i < c.len() implies 0 <= #[trigger] c[i] < self.node_count by {
                if i > 0 {
                    assert(c[i] == rest[i - 1]);
                }
            }
            assert forall|i: int| 0 <= i < c.len() implies !done.contains(#[trigger] c[i] as usize) by {
                if i > 0 {
                    assert(c[i] == rest[i - 1]);
                }
            }
            c
        }
    }

    /// A chain through more positions than there are nodes goes through
    /// some node twice, which makes a cycle.
    proof fn lemma_chain_repeats(&self, c: Seq<int>)
        requires
            self.is_succ_chain(c),
            c.len() > self.node_count,
        ensures
            !self.order_acyclic(),
    {
        if forall|i: int, j: int| 0 <= i < j < c.len() ==> c[i] != c[j] {
            c.unique_seq_to_set();
            let range = vstd::set_lib::set_int_range(0, self.node_count as int);
            vstd::set_lib::lemma_int_range(0, self.node_count as int);
            assert(c.to_set().subset_of(range));
            vstd::set_lib::lemma_len_subset(c.to_set(), range);
        } else {
            let (i, j) = choose|i: int, j: int| 0 <= i < j < c.len() && c[i] == c[j];
            let loop_chain = c.subrange(i, j + 1);
            assert forall|t: int| 0 <= t < loop_chain.len() - 1 implies #[trigger] self.succ_at(loop_chain, t) by {
                assert(self.succ_at(c, i + t));
            }
            assert(self.is_succ_chain(loop_chain));
            assert(loop_chain[0] == loop_chain.last());
        }
    }
}

impl ResolvedResources {
    /// A loop in the dependencies is a node that depends on itself.
    pub proof fn lemma_loop_not_acyclic(&self, path: Seq<InputOrNode>)
        requires
            self.is_loop(path),
        ensures
            !self.acyclic(),
    {
        let j = choose|j: int| 0 <= j < path.len() - 1 && #[trigger] path[j] == path.last();
        let c = Seq::new((path.len() - j) as nat, |t: int| path[j + t]->0 as int);
        assert forall|t: int| 0 <= t < c.len() implies 0 <= #[trigger] c[t] < self.node_count by {
            assert(path[j + t] is Node);
        }
        assert forall|t: int| 0 <= t < c.len() - 1 implies #[trigger] self.dep_at(c, t) by {
            assert(self.linked(path, j + t));
        }
        assert(self.is_chain(c));
        assert(c.last() == c[0]);
        let v = c[0];
        assert(self.reaches(v, v));
    }

    /// An order in which every node runs before the nodes that must run
    /// after it exists only when no node must run after itself.
    pub proof fn lemma_total_order_acyclic(&self, r: Seq<usize>)
        requires
            self.is_total_order(r),
        ensures
            self.order_acyclic(),
    {
        assert forall|c: Seq<int>| #[trigger] self.is_succ_chain(c) implies c[0] != c.last() by {
            let pos = |v: int| choose|i: int| 0 <= i < r.len() && r[i] as int == v;
            assert forall|t: int| 0 <= t < c.len() implies 0 <= #[trigger] pos(c[t]) < r.len() && r[pos(c[t])] as int == c[t] by {
                self.lemma_in_order(r, c[t]);
            }
            assert forall|t: int| 0 <= t < c.len() - 1 implies #[trigger] pos(c[t]) < pos(c[t + 1]) by {
                assert(self.succ_at(c, t));
                let a = pos(c[t]);
                let b = pos(c[t + 1]);
                assert(r[a] as int == c[t] && r[b] as int == c[t + 1]);
                if b < a {
                    assert(!self.succ(r[a] as int, r[b] as int));
                } else if a == b {
                    let q = r.reverse();
                    let k = r.len() - 1 - a;
                    assert(q[k] == r[a]);
                    assert(self.ready(q.take(k), q[k] as int));
                    assert(self.succ(q[k] as int, q[k] as int));
                }
            }
            self.lemma_positions_increase(c, pos, c.len() - 1);
        }
    }

    proof fn lemma_positions_increase(&self, c: Seq<int>, pos: spec_fn(int) -> int, k: int)
        requires
            1 <= k < c.len(),
            forall|t: int| 0 <= t < c.len() - 1 ==> #[trigger] pos(c[t]) < pos(c[t + 1]),
        ensures
            pos(c[0]) < pos(c[k]),
        decreases k,
    {
        if k > 1 {
            self.lemma_positions_increase(c, pos, k - 1);
            assert(pos(c[k - 1]) < pos(c[k]));
        } else {
            assert(pos(c[0]) < pos(c[1]));
        }
    }

    /// Every node is somewhere in a total order.
    proof fn lemma_in_order(&self, r: Seq<usize>, v: int)
        requires
            self.is_total_order(r),
            0 <= v < self.node_count,
        ensures
            exists|i: int| 0 <= i < r.len() && r[i] as int == v,
    {
        let ids = Seq::new(r.len(), |i: int| r[i] as int);
        assert forall|i: int, j: int| 0 <= i < j < ids.len() implies ids[i] != ids[j] by {}
        ids.unique_seq_to_set();
        let range = vstd::set_lib::set_int_range(0, self.node_count as int);
        vstd::set_lib::lemma_int_range(0, self.node_count as int);
        assert(ids.to_set().subset_of(range));
        if !ids.to_set().contains(v) {
            vstd::set_lib::lemma_len_subset(ids.to_set(), range.remove(v));
        }
        let i = choose|i: int| 0 <= i < ids.len() && ids[i] == v;
        assert(r[i] as int == v);
    }
}

/// A path through distinct nodes, all below `n`, that misses node `m`
/// (also below `n`) is shorter than `n`.
proof fn lemma_distinct_nodes_bound(path: Seq<InputOrNode>, n: nat, m: int)
    requires
        0 <= m < n,
        forall|i: int| 0 <= i < path.len() ==> (#[trigger] path[i]) is Node && (path[i]->0 as int) < n,
        forall|i: int, j: int| 0 <= i < j < path.len() ==> path[i] != path[j],
        forall|i: int| 0 <= i < path.len() ==> #[trigger] path[i] != InputOrNode::Node(m as usize),
    ensures
        path.len() < n,
{
    let ids = Seq::new(path.len(), |i: int| path[i]->0 as int);
    assert forall|i: int, j: int| 0 <= i < j < ids.len() implies ids[i] != ids[j] by {
        assert(path[i] != path[j]);
    }
    ids.unique_seq_to_set();
    let range = Set::new(|x: int| 0 <= x < n && x != m);
    assert(ids.to_set().subset_of(range)) by {
        assert forall|x: int| ids.to_set().contains(x) implies range.contains(x) by {
            let i = choose|i: int| 0 <= i < ids.len() && ids[i] == x;
            assert(path[i] != InputOrNode::Node(m as usize));
        }
    }
    assert(range =~= vstd::set_lib::set_int_range(0, n as int).remove(m));
    vstd::set_lib::lemma_int_range(0, n as int);
    vstd::set_lib::lemma_len_subset(ids.to_set(), range);
}

/// A copy of `path`.
fn copy_path(path: &Vec<InputOrNode>) -> (r: Vec<InputOrNode>)
    ensures
        r@ == path@,
{
    let mut out: Vec<InputOrNode> = Vec::new();
    let mut i: usize = 0;
    while i < path.len()
        invariant
            i <= path@.len(),
            out@ == path@.take(i as int),
        decreases path@.len() - i,
    {
        out.push(path[i]);
        i = i + 1;
        assert(out@ =~= path@.take(i as int));
    }
    assert(path@.take(path@.len() as int) =~= path@);
    out
}

/// The items of `v` in reverse order.
fn reversed(v: &Vec<usize>) -> (r: Vec<usize>)
    ensures
        r@ == v@.reverse(),
{
    let mut out: Vec<usize> = Vec::new();
    let mut i: usize = v.len();
    while i > 0
        invariant
            i <= v@.len(),
            out@ == v@.subrange(i as int, v@.len() as int).reverse(),
        decreases i,
    {
        i = i - 1;
        out.push(v[i]);
        assert(out@ =~= v@.subrange(i as int, v@.len() as int).reverse());
    }
    assert(v@.subrange(0, v@.len() as int) =~= v@);
    out
}

/// True if `path` holds `producer`.
fn contains_producer(path: &Vec<InputOrNode>, producer: InputOrNode) -> (r: bool)
    ensures
        r == path@.contains(producer),
{
    let mut i: usize = 0;
    while i < path.len()
        invariant
            i <= path@.len(),
            forall|j: int| 0 <= j < i ==> path@[j] != producer,
        decreases path@.len() - i,
    {
        if path[i] == producer {
            return true;
        }
        i = i + 1;
    }
    false
}

} // verus!
