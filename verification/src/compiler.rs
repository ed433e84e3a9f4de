//! A compiled render graph: the resolution of its resources, the order in
//! which its nodes run, which permanent resources are up to date, and what
//! computing a resource takes.

use vstd::prelude::*;
use crate::graph::{InputOrNode, ResolvedInput, ResolvedResources};
use crate::compiled::{
    GraphShape, ComputeResult, strictly_increasing, copy_list, list_contains, lemma_producer_is_node,
};
use crate::resolver::{inputs_only, others, resolve_resources, single_sourced, stalls, Claims, GraphResourceResolver};

verus! {

/// Inserts `x`, which `v` does not hold, into the sorted list `v`.
fn insert_sorted(v: &mut Vec<usize>, x: usize)
    requires
        strictly_increasing(old(v)@),
        !old(v)@.contains(x),
    ensures
        strictly_increasing(final(v)@),
        forall|y: usize| #[trigger] final(v)@.contains(y) == (old(v)@.contains(y) || y == x),
{
    let mut i: usize = 0;
    while i < v.len() && v[i] < x
        invariant
            i <= v@.len(),
            forall|j: int| 0 <= j < i ==> v@[j] < x,
        decreases v@.len() - i,
    {
        i = i + 1;
    }
    let ghost before = v@;
    v.insert(i, x);
    proof {
        assert(v@ =~= before.subrange(0, i as int).push(x) + before.subrange(i as int, before.len() as int));
        assert forall|a: int, b: int| 0 <= a < b < v@.len() implies v@[a] < v@[b] by {
            if i < before.len() {
                assert(before[i as int] >= x);
                assert(before[i as int] != x) by {
                    assert(before.contains(before[i as int]));
                }
            }
            if a < i && b < i {
                assert(v@[a] == before[a] && v@[b] == before[b]);
            } else if a < i && b == i {
                assert(v@[a] == before[a]);
            } else if a < i && b > i {
                assert(v@[a] == before[a] && v@[b] == before[b - 1]);
                assert(before[a] < before[i as int] || i as int == b - 1);
            } else if a == i {
                assert(v@[b] == before[b - 1]);
                if b - 1 > i {
                    assert(before[i as int] < before[b - 1]);
                }
            } else {
                assert(v@[a] == before[a - 1] && v@[b] == before[b - 1]);
            }
        }
        assert forall|y: usize| #[trigger] v@.contains(y) == (before.contains(y) || y == x) by {
            if v@.contains(y) {
                let a = choose|a: int| 0 <= a < v@.len() && v@[a] == y;
                if a < i {
                    assert(before[a] == y);
                } else if a > i {
                    assert(before[a - 1] == y);
                }
            }
            if before.contains(y) {
                let a = choose|a: int| 0 <= a < before.len() && before[a] == y;
                if a < i {
                    assert(v@[a] == y);
                } else {
                    assert(v@[a + 1] == y);
                }
            }
            if y == x {
                assert(v@[i as int] == x);
            }
        }
    }
}

/// True if `a` and `b` hold the same entries in the same order.
fn same_list(a: &Vec<usize>, b: &Vec<usize>) -> (r: bool)
    ensures
        r == (a@ == b@),
{
    if a.len() != b.len() {
        return false;
    }
    let mut i: usize = 0;
    while i < a.len()
        invariant
            a@.len() == b@.len(),
            i <= a@.len(),
            forall|j: int| 0 <= j < i ==> a@[j] == b@[j],
        decreases a@.len() - i,
    {
        if a[i] != b[i] {
            return false;
        }
        i = i + 1;
    }
    assert(a@ =~= b@);
    true
}

/// A compiled render graph.
pub struct CompiledGraph {
    producers: Vec<Vec<InputOrNode>>,
    resolved: ResolvedResources,
    total_order: Vec<usize>,
    not_dirty: Vec<usize>,
    cache: Vec<(Vec<usize>, ComputeResult)>,
}

impl CompiledGraph {
    /// The producers of each resource.
    pub closed spec fn producers_view(&self) -> Seq<Seq<InputOrNode>> {
        Seq::new(self.producers@.len(), |r: int| self.producers@[r]@)
    }

    /// The resolution of the graph's resources.
    pub closed spec fn resolution(&self) -> ResolvedResources {
        self.resolved
    }

    /// The order in which the nodes run.
    pub closed spec fn order(&self) -> Seq<usize> {
        self.total_order@
    }

    /// The permanent resources that are up to date, in increasing order.
    pub closed spec fn up_to_date(&self) -> Seq<usize> {
        self.not_dirty@
    }

    /// The results remembered for each list of up-to-date resources.
    pub closed spec fn remembered(&self) -> Seq<(Seq<usize>, Seq<usize>, Seq<usize>, Seq<usize>)> {
        Seq::new(
            self.cache@.len(),
            |i: int|
                (
                    self.cache@[i].0@,
                    self.cache@[i].1.required_inputs_view(),
                    self.cache@[i].1.steps_view(),
                    self.cache@[i].1.new_permanents(),
                ),
        )
    }

    /// The compiled graph belongs to `shape`.
    pub closed spec fn wf(&self, shape: &GraphShape) -> bool {
        &&& shape.wf()
        &&& self.producers@.len() == shape.resource_count()
        &&& forall|r: int| 0 <= r < shape.resource_count() ==> (#[trigger] self.producers@[r])@ == shape.producers_spec(r as usize)
        &&& forall|r: usize| (r as nat) < shape.resource_count() && shape.permanent@[r as int] ==> #[trigger] shape.producers_spec(r).len() == 1
        &&& self.resolved.resolves(shape)
        &&& self.resolved.producers_valid(shape)
        &&& self.resolved.acyclic()
        &&& self.resolved.is_total_order(self.total_order@)
        &&& strictly_increasing(self.not_dirty@)
        &&& forall|i: int| 0 <= i < self.not_dirty@.len() ==> (#[trigger] self.not_dirty@[i] as nat) < shape.resource_count()
        &&& forall|i: int, j: int| 0 <= i < j < self.cache@.len() ==> self.cache@[i].0@ != self.cache@[j].0@
    }
}

/// A resolution that answers a shape names only its nodes as producers.
proof fn lemma_resolution_producers(shape: &GraphShape, res: &ResolvedResources)
    requires
        shape.wf(),
        res.resolves(shape),
    ensures
        res.producers_valid(shape),
        res.producers_in_range(),
{
    assert forall|m: int, i: int|
        0 <= m < res.node_count && 0 <= i < res.combined(m).len() implies shape.producers_spec(
            (#[trigger] res.combined(m)[i]).resource,
        ).contains(res.combined(m)[i].producer) && (res.combined(m)[i].resource as nat) < shape.resource_count() by {
        let a = res.inputs@[m]@;
        let b = res.borrows@[m]@;
        if i < a.len() {
            assert(res.combined(m)[i] == a[i]);
            assert(a[i].resource == shape.consumes(m)[i]);
        } else {
            assert(res.combined(m)[i] == b[i - a.len()]);
            assert(b[i - a.len()].resource == shape.borrows(m)[i - a.len()]);
        }
    }
    assert forall|a: int, i: int|
        0 <= a < res.node_count && 0 <= i < res.combined(a).len() implies ((#[trigger] res.combined(a)[i]).producer matches InputOrNode::Node(
            n,
        ) ==> n < res.node_count) by {
        let x = res.combined(a)[i];
        assert(shape.producers_spec(x.resource).contains(x.producer));
        let k = choose|k: int| 0 <= k < shape.producers_spec(x.resource).len() && #[trigger] shape.producers_spec(x.resource)[k] == x.producer;
        lemma_producer_is_node(shape, x.resource, k);
    }
}

/// What compiling `shape` asks: every permanent resource has exactly one
/// producer, and every resource a node consumes or borrows has one.
pub open spec fn compilable(shape: &GraphShape) -> bool {
    &&& forall|x: usize| (x as nat) < shape.resource_count() && shape.permanent@[x as int] ==> #[trigger] shape.producers_spec(x).len() == 1
    &&& forall|n: int, i: int|
        0 <= n < shape.node_count() && 0 <= i < shape.consumes(n).len() ==> shape.producers_spec(#[trigger] shape.consumes(n)[i]).len() > 0
    &&& forall|n: int, i: int|
        0 <= n < shape.node_count() && 0 <= i < shape.borrows(n).len() ==> shape.producers_spec(#[trigger] shape.borrows(n)[i]).len() > 0
}

/// Shapes with the same views are both compilable or both not.
pub proof fn lemma_same_views_compilable(s1: &GraphShape, s2: &GraphShape)
    requires
        s1.same_views(s2),
    ensures
        compilable(s1) == compilable(s2),
{
    assert forall|x: usize| #[trigger] s1.producers_spec(x) == s2.producers_spec(x) by {
        s1.lemma_same_producers(s2, x);
    }
    if compilable(s1) {
        assert forall|x: usize| (x as nat) < s2.resource_count() && s2.permanent@[x as int] implies #[trigger] s2.producers_spec(x).len() == 1 by {
            assert(s1.producers_spec(x) == s2.producers_spec(x));
        }
        assert forall|n: int, i: int|
            0 <= n < s2.node_count() && 0 <= i < s2.consumes(n).len() implies s2.producers_spec(#[trigger] s2.consumes(n)[i]).len() > 0 by {
            assert(s1.consumes(n) == s2.consumes(n));
            assert(s1.producers_spec(s1.consumes(n)[i]).len() > 0);
        }
        assert forall|n: int, i: int|
            0 <= n < s2.node_count() && 0 <= i < s2.borrows(n).len() implies s2.producers_spec(#[trigger] s2.borrows(n)[i]).len() > 0 by {
            assert(s1.borrows(n) == s2.borrows(n));
            assert(s1.producers_spec(s1.borrows(n)[i]).len() > 0);
        }
    }
    if compilable(s2) {
        assert forall|x: usize| (x as nat) < s1.resource_count() && s1.permanent@[x as int] implies #[trigger] s1.producers_spec(x).len() == 1 by {
            assert(s1.producers_spec(x) == s2.producers_spec(x));
        }
        assert forall|n: int, i: int|
            0 <= n < s1.node_count() && 0 <= i < s1.consumes(n).len() implies s1.producers_spec(#[trigger] s1.consumes(n)[i]).len() > 0 by {
            assert(s1.consumes(n) == s2.consumes(n));
            assert(s2.producers_spec(s2.consumes(n)[i]).len() > 0);
        }
        assert forall|n: int, i: int|
            0 <= n < s1.node_count() && 0 <= i < s1.borrows(n).len() implies s1.producers_spec(#[trigger] s1.borrows(n)[i]).len() > 0 by {
            assert(s1.borrows(n) == s2.borrows(n));
            assert(s2.producers_spec(s2.borrows(n)[i]).len() > 0);
        }
    }
}

/// In a graph that takes only its inputs, a resolution has no dependency
/// between nodes, so neither a loop nor a cycle in its ordering.
proof fn lemma_inputs_only_acyclic(shape: &GraphShape, res: &ResolvedResources)
    requires
        inputs_only(shape),
        res.resolves(shape),
    ensures
        res.acyclic(),
        res.order_acyclic(),
{
    assert forall|a: int, b: int| 0 <= a < res.node_count implies !#[trigger] res.dep(a, b) by {
        if res.dep(a, b) {
            let i = choose|i: int| 0 <= i < res.combined(a).len() && #[trigger] res.combined(a)[i].producer == InputOrNode::Node(b as usize);
            assert(res.borrows@[a]@.len() == shape.borrows(a).len());
            assert(res.combined(a)[i] == res.inputs@[a]@[i]);
            assert(shape.producers_spec(shape.consumes(a)[i]) == seq![InputOrNode::Input]);
        }
    }
    assert forall|v: int| 0 <= v < res.node_count implies !#[trigger] res.reaches(v, v) by {
        if res.reaches(v, v) {
            let p = choose|p: Seq<int>| #[trigger] res.is_chain(p) && p[0] == v && p.last() == v;
            assert(res.dep_at(p, 0));
        }
    }
    assert forall|c: Seq<int>| #[trigger] res.is_succ_chain(c) implies c[0] != c.last() by {
        assert(res.succ_at(c, 0));
        assert(res.borrows@[c[0]]@.len() == shape.borrows(c[0]).len());
    }
}

/// Compiling `shape` fails: a round of resolution resolves nothing, or a
/// resolution of the shape (no node taking from itself) has a loop or a
/// cycle in its ordering.
pub open spec fn compile_fails(shape: &GraphShape) -> bool {
    ||| exists|t: GraphResourceResolver, c: Claims, p: Seq<Vec<InputOrNode>>| #[trigger] stalls(shape, &t, &c, p)
    ||| exists|res: ResolvedResources| #[trigger] res.resolves(shape) && res.not_self_produced() && !(res.acyclic() && res.order_acyclic())
}

/// Shapes with the same views are single-sourced together and have the
/// same resolutions.
pub proof fn lemma_same_views_sole(s1: &GraphShape, s2: &GraphShape)
    requires
        s1.same_views(s2),
    ensures
        single_sourced(s1) == single_sourced(s2),
        sole_resolution_orders(s1) == sole_resolution_orders(s2),
{
    assert forall|x: usize| #[trigger] s1.producers_spec(x) == s2.producers_spec(x) by {
        s1.lemma_same_producers(s2, x);
    }
    assert forall|n: int| 0 <= n < s1.node_count() implies #[trigger] s1.consumes(n) == s2.consumes(n) && s1.borrows(n) == s2.borrows(n) by {
        assert(s1.nodes@[n] == s1.nodes@[n]);
    }
    assert forall|n: int| 0 <= n < s1.node_count() implies #[trigger] s1.borrows(n) == s2.borrows(n) by {
        assert(s1.consumes(n) == s2.consumes(n));
    }
    assert forall|res: ResolvedResources| #[trigger] res.resolves(s1) == res.resolves(s2) by {
        if res.resolves(s1) {
            assert forall|n: int, i: int|
                0 <= n < res.node_count && 0 <= i < res.inputs@[n]@.len() implies (#[trigger] res.inputs@[n]@[i]).resource == s2.consumes(n)[i]
                    && s2.producers_spec(res.inputs@[n]@[i].resource).contains(res.inputs@[n]@[i].producer) by {
                assert(s1.consumes(n) == s2.consumes(n));
                assert(s1.producers_spec(res.inputs@[n]@[i].resource) == s2.producers_spec(res.inputs@[n]@[i].resource));
            }
            assert forall|n: int, i: int|
                0 <= n < res.node_count && 0 <= i < res.borrows@[n]@.len() implies (#[trigger] res.borrows@[n]@[i]).resource == s2.borrows(n)[i]
                    && s2.producers_spec(res.borrows@[n]@[i].resource).contains(res.borrows@[n]@[i].producer) by {
                assert(s1.borrows(n) == s2.borrows(n));
                assert(s1.producers_spec(res.borrows@[n]@[i].resource) == s2.producers_spec(res.borrows@[n]@[i].resource));
            }
            assert forall|n: int| 0 <= n < res.node_count implies (#[trigger] res.inputs@[n])@.len() == s2.consumes(n).len() by {
                assert(s1.consumes(n) == s2.consumes(n));
            }
            assert forall|n: int| 0 <= n < res.node_count implies (#[trigger] res.borrows@[n])@.len() == s2.borrows(n).len() by {
                assert(s1.borrows(n) == s2.borrows(n));
            }
        }
        if res.resolves(s2) {
            assert forall|n: int, i: int|
                0 <= n < res.node_count && 0 <= i < res.inputs@[n]@.len() implies (#[trigger] res.inputs@[n]@[i]).resource == s1.consumes(n)[i]
                    && s1.producers_spec(res.inputs@[n]@[i].resource).contains(res.inputs@[n]@[i].producer) by {
                assert(s1.consumes(n) == s2.consumes(n));
                assert(s1.producers_spec(res.inputs@[n]@[i].resource) == s2.producers_spec(res.inputs@[n]@[i].resource));
            }
            assert forall|n: int, i: int|
                0 <= n < res.node_count && 0 <= i < res.borrows@[n]@.len() implies (#[trigger] res.borrows@[n]@[i]).resource == s1.borrows(n)[i]
                    && s1.producers_spec(res.borrows@[n]@[i].resource).contains(res.borrows@[n]@[i].producer) by {
                assert(s1.borrows(n) == s2.borrows(n));
                assert(s1.producers_spec(res.borrows@[n]@[i].resource) == s2.producers_spec(res.borrows@[n]@[i].resource));
            }
            assert forall|n: int| 0 <= n < res.node_count implies (#[trigger] res.inputs@[n])@.len() == s1.consumes(n).len() by {
                assert(s1.consumes(n) == s2.consumes(n));
            }
            assert forall|n: int| 0 <= n < res.node_count implies (#[trigger] res.borrows@[n])@.len() == s1.borrows(n).len() by {
                assert(s1.borrows(n) == s2.borrows(n));
            }
        }
    }
    if sole_resolution_orders(s1) {
        assert forall|res: ResolvedResources| #[trigger] res.resolves(s2) && res.not_self_produced() implies res.acyclic() && res.order_acyclic() by {
            assert(res.resolves(s1) == res.resolves(s2));
        }
    }
    if sole_resolution_orders(s2) {
        assert forall|res: ResolvedResources| #[trigger] res.resolves(s1) && res.not_self_produced() implies res.acyclic() && res.order_acyclic() by {
            assert(res.resolves(s1) == res.resolves(s2));
        }
    }
    if single_sourced(s1) {
        assert forall|n: int, i: int| 0 <= n < s2.node_count() && 0 <= i < s2.consumes(n).len()
            implies others(s2.producers_spec(#[trigger] s2.consumes(n)[i]), n as usize).len() == 1 by {
            assert(s1.consumes(n) == s2.consumes(n));
        }
        assert forall|n: int, i: int| 0 <= n < s2.node_count() && 0 <= i < s2.borrows(n).len()
            implies others(s2.producers_spec(#[trigger] s2.borrows(n)[i]), n as usize).len() == 1 by {
            assert(s1.borrows(n) == s2.borrows(n));
        }
        assert forall|n1: int, i1: int, n2: int, i2: int|
            0 <= n1 < s2.node_count() && 0 <= i1 < s2.consumes(n1).len() && 0 <= n2 < s2.node_count() && 0 <= i2
                < s2.consumes(n2).len() && (n1 != n2 || i1 != i2) implies #[trigger] s2.consumes(n1)[i1] != #[trigger] s2.consumes(n2)[i2] by {
            assert(s1.consumes(n1) == s2.consumes(n1));
            assert(s1.consumes(n2) == s2.consumes(n2));
        }
        assert forall|n1: int, i1: int, n2: int, i2: int|
            0 <= n1 < s2.node_count() && 0 <= i1 < s2.consumes(n1).len() && 0 <= n2 < s2.node_count() && 0 <= i2
                < s2.borrows(n2).len() implies #[trigger] s2.consumes(n1)[i1] != #[trigger] s2.borrows(n2)[i2] by {
            assert(s1.consumes(n1) == s2.consumes(n1));
            assert(s1.borrows(n2) == s2.borrows(n2));
        }
    }
    if single_sourced(s2) {
        assert forall|n: int, i: int| 0 <= n < s1.node_count() && 0 <= i < s1.consumes(n).len()
            implies others(s1.producers_spec(#[trigger] s1.consumes(n)[i]), n as usize).len() == 1 by {
            assert(s1.consumes(n) == s2.consumes(n));
        }
        assert forall|n: int, i: int| 0 <= n < s1.node_count() && 0 <= i < s1.borrows(n).len()
            implies others(s1.producers_spec(#[trigger] s1.borrows(n)[i]), n as usize).len() == 1 by {
            assert(s1.borrows(n) == s2.borrows(n));
        }
        assert forall|n1: int, i1: int, n2: int, i2: int|
            0 <= n1 < s1.node_count() && 0 <= i1 < s1.consumes(n1).len() && 0 <= n2 < s1.node_count() && 0 <= i2
                < s1.consumes(n2).len() && (n1 != n2 || i1 != i2) implies #[trigger] s1.consumes(n1)[i1] != #[trigger] s1.consumes(n2)[i2] by {
            assert(s1.consumes(n1) == s2.consumes(n1));
            assert(s1.consumes(n2) == s2.consumes(n2));
        }
        assert forall|n1: int, i1: int, n2: int, i2: int|
            0 <= n1 < s1.node_count() && 0 <= i1 < s1.consumes(n1).len() && 0 <= n2 < s1.node_count() && 0 <= i2
                < s1.borrows(n2).len() implies #[trigger] s1.consumes(n1)[i1] != #[trigger] s1.borrows(n2)[i2] by {
            assert(s1.consumes(n1) == s2.consumes(n1));
            assert(s1.borrows(n2) == s2.borrows(n2));
        }
    }
}

/// Every resolution of `shape` that takes nothing from the node that takes
/// it has no loop and no ordering cycle. On a single-sourced graph there is
/// exactly one such resolution: each resource from its one producer other
/// than the node itself.
pub open spec fn sole_resolution_orders(shape: &GraphShape) -> bool {
    forall|res: ResolvedResources| #[trigger] res.resolves(shape) && res.not_self_produced() ==> res.acyclic() && res.order_acyclic()
}

/// Every resource of `list` has a producer in `shape`.
fn all_produced(shape: &GraphShape, list: &Vec<usize>) -> (r: bool)
    ensures
        r == forall|i: int| 0 <= i < list.len() ==> shape.producers_spec(#[trigger] list@[i]).len() > 0,
{
    let mut i: usize = 0;
    while i < list.len()
        invariant
            i <= list.len(),
            forall|k: int| 0 <= k < i ==> shape.producers_spec(#[trigger] list@[k]).len() > 0,
        decreases list.len() - i,
    {
        if shape.producers_of(list[i]).len() == 0 {
            return false;
        }
        i = i + 1;
    }
    true
}

/// Whether compiling `shape` is allowed: see [`compilable`].
pub fn check_compilable(shape: &GraphShape) -> (r: bool)
    requires
        shape.wf(),
    ensures
        r == compilable(shape),
{
    let mut x: usize = 0;
    while x < shape.permanent.len()
        invariant
            x <= shape.permanent.len(),
            forall|y: usize| y < x && shape.permanent@[y as int] ==> #[trigger] shape.producers_spec(y).len() == 1,
        decreases shape.permanent.len() - x,
    {
        if shape.permanent[x] && shape.producers_of(x).len() != 1 {
            return false;
        }
        x = x + 1;
    }
    let mut n: usize = 0;
    while n < shape.nodes.len()
        invariant
            n <= shape.nodes.len(),
            forall|y: usize| (y as nat) < shape.resource_count() && shape.permanent@[y as int] ==> #[trigger] shape.producers_spec(y).len() == 1,
            forall|m: int, i: int|
                0 <= m < n && 0 <= i < shape.consumes(m).len() ==> shape.producers_spec(#[trigger] shape.consumes(m)[i]).len() > 0,
            forall|m: int, i: int|
                0 <= m < n && 0 <= i < shape.borrows(m).len() ==> shape.producers_spec(#[trigger] shape.borrows(m)[i]).len() > 0,
        decreases shape.nodes.len() - n,
    {
        if !all_produced(shape, &shape.nodes[n].consumes) {
            proof {
                let list = shape.consumes(n as int);
                let i0 = choose|i: int| 0 <= i < list.len() && !(shape.producers_spec(#[trigger] list[i]).len() > 0);
                assert(!(shape.producers_spec(shape.consumes(n as int)[i0]).len() > 0));
            }
            return false;
        }
        if !all_produced(shape, &shape.nodes[n].borrows) {
            proof {
                let list = shape.borrows(n as int);
                let i0 = choose|i: int| 0 <= i < list.len() && !(shape.producers_spec(#[trigger] list[i]).len() > 0);
                assert(!(shape.producers_spec(shape.borrows(n as int)[i0]).len() > 0));
            }
            return false;
        }
        n = n + 1;
    }
    true
}

impl CompiledGraph {
    /// Compiles `shape` from a resolution of its resources: nothing when
    /// there is no resolution, when the resolution has a loop, or when its
    /// ordering has a cycle.
    pub fn from_resolution(shape: &GraphShape, resolved: Option<ResolvedResources>) -> (r: Option<CompiledGraph>)
        requires
            shape.wf(),
            forall|x: usize| (x as nat) < shape.resource_count() && shape.permanent@[x as int] ==> #[trigger] shape.producers_spec(x).len() == 1,
            resolved matches Some(res) ==> res.resolves(shape),
        ensures
            r is Some <==> (resolved matches Some(res) && res.acyclic() && res.order_acyclic()),
            r matches Some(g) ==> g.wf(shape) && g.resolution() == resolved->0 && g.up_to_date().len() == 0 && g.remembered().len() == 0,
    {
        let res = match resolved {
            Some(res) => res,
            None => return None,
        };
        proof {
            lemma_resolution_producers(shape, &res);
        }
        match res.find_loop() {
            Some(path) => {
                proof {
                    res.lemma_loop_not_acyclic(path@);
                }
                return None;
            },
            None => {},
        }
        let total_order = match res.total_order_or_stuck() {
            Some(order) => order,
            None => return None,
        };
        proof {
            res.lemma_total_order_acyclic(total_order@);
        }
        let producers = shape.compute_producers();
        Some(CompiledGraph { producers, resolved: res, total_order, not_dirty: Vec::new(), cache: Vec::new() })
    }

    /// Compiles `shape`: resolves its resources, then orders its nodes.
    /// Nothing when resolution fails, or the result has a loop or a cycle in
    /// its ordering.
    pub fn new(shape: &GraphShape) -> (r: Option<CompiledGraph>)
        requires
            shape.wf(),
            compilable(shape),
        ensures
            r matches Some(g) ==> g.wf(shape) && g.up_to_date().len() == 0 && g.remembered().len() == 0,
            inputs_only(shape) ==> r is Some,
            r is None ==> compile_fails(shape),
            single_sourced(shape) && sole_resolution_orders(shape) ==> r is Some,
    {
        let resolved = resolve_resources(shape);
        proof {
            if inputs_only(shape) {
                lemma_inputs_only_acyclic(shape, &resolved->0);
            }
            if single_sourced(shape) && sole_resolution_orders(shape) {
                let res = resolved->0;
                assert(res.resolves(shape) && res.not_self_produced());
            }
        }
        let ghost resolved_view = resolved;
        let r = Self::from_resolution(shape, resolved);
        proof {
            if r is None && resolved_view is Some {
                let res = resolved_view->0;
                assert(res.resolves(shape) && res.not_self_produced() && !(res.acyclic() && res.order_acyclic()));
            }
        }
        r
    }
}

/// What [`CompiledGraph::compute`] does, from the compiled graph `g0` to
/// `g1`, computing `resource` of `shape` with result `r`: the result
/// remembered for the current up-to-date list if there is one; nothing when
/// the resource is up to date; otherwise the plan from its producer, which
/// is then remembered.
pub open spec fn computes(g0: CompiledGraph, g1: CompiledGraph, shape: &GraphShape, resource: usize, r: ComputeResult) -> bool {
    &&& (g1.resolution() == g0.resolution())
    &&& (g1.order() == g0.order())
    &&& (g1.up_to_date() == g0.up_to_date())
    &&& (g0.cache_hit() ==> g1.remembered() == g0.remembered() && exists|i: int|
        0 <= i < g0.remembered().len() && #[trigger] g0.remembered()[i] == (
            g0.up_to_date(),
            r.required_inputs_view(),
            r.steps_view(),
            r.new_permanents(),
        ))
    &&& (!g0.cache_hit() && g0.up_to_date().contains(resource) ==> g1.remembered() == g0.remembered()
        && r.required_inputs_view().len() == 0 && r.steps_view().len() == 0 && r.new_permanents().len() == 0)
    &&& (!g0.cache_hit() && !g0.up_to_date().contains(resource) ==> {
        let p = shape.producers_spec(resource)[0]->0;
        let g = g0.resolution();
        let nd = g0.up_to_date();
        &&& g1.remembered() == g0.remembered().push(
            (nd, r.required_inputs_view(), r.steps_view(), r.new_permanents()),
        )
        &&& exists|flags: Seq<bool>| flags.len() == g.node_count && r.steps_view() == crate::compiled::select(g0.order(), flags)
        &&& r.steps_view().contains(p)
        &&& forall|v: usize| #[trigger] r.steps_view().contains(v) ==> g.needed_from(shape, nd, p as int, v as int)
        &&& forall|v: usize| g.needed_from(shape, nd, p as int, v as int) ==> #[trigger] r.steps_view().contains(v)
        &&& forall|m: usize, i: int|
            #[trigger] r.steps_view().contains(m) && 0 <= i < g.combined(m as int).len() && (#[trigger] g.combined(m as int)[i]).producer
                is Input ==> r.required_inputs_view().contains(g.combined(m as int)[i].resource)
        &&& forall|x: usize| #[trigger] r.required_inputs_view().contains(x) ==> exists|m: usize| #[trigger] r.steps_view().contains(m) && g.takes_input(m as int, x)
        &&& forall|i: int, j: int| 0 <= i < j < r.required_inputs_view().len() ==> r.required_inputs_view()[i] != r.required_inputs_view()[j]
        &&& forall|i: int, j: int| 0 <= i < j < r.new_permanents().len() ==> r.new_permanents()[i] != r.new_permanents()[j]
        &&& forall|i: int|
            0 <= i < r.new_permanents().len() ==> shape.permanent@[(#[trigger] r.new_permanents()[i]) as int] && !nd.contains(
                r.new_permanents()[i],
            ) && exists|v: usize| #[trigger] r.steps_view().contains(v) && shape.producers_spec(r.new_permanents()[i]) == seq![InputOrNode::Node(v)]
    })
}

impl CompiledGraph {
    /// Marks the permanent resource `resource` out of date, with every
    /// permanent resource computed from it.
    pub fn mark_resource_dirty(&mut self, shape: &GraphShape, resource: usize)
        requires
            old(self).wf(shape),
            (resource as nat) < shape.resource_count(),
            shape.permanent@[resource as int],
        ensures
            final(self).wf(shape),
            final(self).resolution() == old(self).resolution(),
            final(self).order() == old(self).order(),
            final(self).remembered() == old(self).remembered(),
            forall|r: usize|
                #[trigger] final(self).up_to_date().contains(r) == (old(self).up_to_date().contains(r) && !(shape.permanent@[r as int]
                    && old(self).resolution().affects(
                    shape,
                    ResolvedInput { resource, producer: shape.producers_spec(resource)[0] },
                    r,
                ))),
    {
        proof {
            assert(self.producers@[resource as int]@ == shape.producers_spec(resource));
            lemma_producer_is_node(shape, resource, 0);
        }
        let producer = self.producers[resource][0];
        let res = ResolvedInput { resource, producer };
        self.resolved.mark_dirty(&mut self.not_dirty, shape, res);
    }

    /// True unless `res` names a permanent resource that is up to date.
    pub fn is_dirty(&self, shape: &GraphShape, res: &ResolvedInput) -> (r: bool)
        requires
            self.wf(shape),
            (res.resource as nat) < shape.resource_count(),
        ensures
            r == !(shape.permanent@[res.resource as int] && self.up_to_date().contains(res.resource)),
    {
        if shape.permanent[res.resource] {
            !list_contains(&self.not_dirty, res.resource)
        } else {
            true
        }
    }

    /// Records the permanent resources that a computation created as up to
    /// date.
    pub fn apply_compute_result(&mut self, shape: &GraphShape, result: &ComputeResult)
        requires
            old(self).wf(shape),
            forall|i: int| 0 <= i < result.new_permanents().len() ==> (#[trigger] result.new_permanents()[i] as nat) < shape.resource_count(),
            forall|i: int, j: int| 0 <= i < j < result.new_permanents().len() ==> result.new_permanents()[i] != result.new_permanents()[j],
            forall|i: int| 0 <= i < result.new_permanents().len() ==> !old(self).up_to_date().contains(#[trigger] result.new_permanents()[i]),
        ensures
            final(self).wf(shape),
            final(self).resolution() == old(self).resolution(),
            final(self).order() == old(self).order(),
            final(self).remembered() == old(self).remembered(),
            forall|r: usize| #[trigger] final(self).up_to_date().contains(r) == (old(self).up_to_date().contains(r) || result.new_permanents().contains(r)),
    {
        let created = result.output_new_permanents();
        let ghost nd0 = self.not_dirty@;
        let mut i: usize = 0;
        while i < created.len()
            invariant
                old(self).wf(shape),
                self.producers@ == old(self).producers@,
                self.resolved == old(self).resolved,
                self.total_order@ == old(self).total_order@,
                self.cache@ == old(self).cache@,
                created@ == result.new_permanents(),
                i <= created@.len(),
                strictly_increasing(self.not_dirty@),
                forall|j: int| 0 <= j < created@.len() ==> (#[trigger] created@[j] as nat) < shape.resource_count(),
                forall|a: int, b: int| 0 <= a < b < created@.len() ==> created@[a] != created@[b],
                forall|j: int| 0 <= j < created@.len() ==> !nd0.contains(#[trigger] created@[j]),
                forall|j: int| 0 <= j < self.not_dirty@.len() ==> (#[trigger] self.not_dirty@[j] as nat) < shape.resource_count(),
                forall|r: usize| #[trigger] self.not_dirty@.contains(r) == (nd0.contains(r) || created@.take(i as int).contains(r)),
            decreases created@.len() - i,
        {
            let x = created[i];
            proof {
                if self.not_dirty@.contains(x) {
                    if created@.take(i as int).contains(x) {
                        let a = choose|a: int| 0 <= a < i && created@.take(i as int)[a] == x;
                        assert(created@[a] == created@[i as int]);
                    }
                }
            }
            let ghost before = self.not_dirty@;
            insert_sorted(&mut self.not_dirty, x);
            proof {
                assert forall|j: int| 0 <= j < self.not_dirty@.len() implies (#[trigger] self.not_dirty@[j] as nat) < shape.resource_count() by {
                    let y = self.not_dirty@[j];
                    assert(self.not_dirty@.contains(y));
                    if y != x {
                        let a = choose|a: int| 0 <= a < before.len() && before[a] == y;
                    }
                }
                assert forall|r: usize| #[trigger] self.not_dirty@.contains(r) == (nd0.contains(r) || created@.take(i as int + 1).contains(r)) by {
                    let t0 = created@.take(i as int);
                    let t1 = created@.take(i as int + 1);
                    if t1.contains(r) {
                        let a = choose|a: int| 0 <= a < t1.len() && t1[a] == r;
                        if a < i {
                            assert(t0[a] == r);
                        }
                    }
                    if t0.contains(r) {
                        let a = choose|a: int| 0 <= a < t0.len() && t0[a] == r;
                        assert(t1[a] == r);
                    }
                    if r == x {
                        assert(t1[i as int] == x);
                    }
                }
            }
            i = i + 1;
        }
        proof {
            assert(created@.take(created@.len() as int) =~= created@);
        }
    }

    /// A result for the up-to-date list is remembered.
    pub open spec fn cache_hit(&self) -> bool {
        exists|i: int| 0 <= i < self.remembered().len() && #[trigger] self.remembered()[i].0 == self.up_to_date()
    }

    /// A graph compiled from `shape` holds a well-formed shape in which each
    /// permanent resource has exactly one producer.
    pub proof fn lemma_wf_shape(&self, shape: &GraphShape)
        requires
            self.wf(shape),
        ensures
            shape.wf(),
            forall|x: usize| (x as nat) < shape.resource_count() && shape.permanent@[x as int] ==> #[trigger] shape.producers_spec(x).len() == 1,
    {
    }

    /// Whether a result for the up-to-date list is remembered.
    pub fn cached(&self) -> (r: bool)
        ensures
            r == self.cache_hit(),
    {
        let mut i: usize = 0;
        while i < self.cache.len()
            invariant
                i <= self.cache@.len(),
                forall|j: int| 0 <= j < i ==> self.cache@[j].0@ != self.not_dirty@,
            decreases self.cache@.len() - i,
        {
            if same_list(&self.cache[i].0, &self.not_dirty) {
                proof {
                    assert(self.remembered()[i as int].0 == self.up_to_date());
                }
                return true;
            }
            i = i + 1;
        }
        proof {
            if self.cache_hit() {
                let j = choose|j: int| 0 <= j < self.remembered().len() && #[trigger] self.remembered()[j].0 == self.up_to_date();
                assert(self.remembered()[j].0 == self.cache@[j].0@);
            }
        }
        false
    }

    /// The permanent resources that `result` creates can be recorded: they
    /// are resources of `shape`, each listed once, none up to date.
    pub open spec fn can_record(&self, shape: &GraphShape, result: &ComputeResult) -> bool {
        &&& forall|i: int| 0 <= i < result.new_permanents().len() ==> (#[trigger] result.new_permanents()[i] as nat) < shape.resource_count()
        &&& forall|i: int, j: int| 0 <= i < j < result.new_permanents().len() ==> result.new_permanents()[i] != result.new_permanents()[j]
        &&& forall|i: int| 0 <= i < result.new_permanents().len() ==> !self.up_to_date().contains(#[trigger] result.new_permanents()[i])
    }

    /// Whether the permanent resources that `result` creates can be recorded.
    pub fn check_record(&self, shape: &GraphShape, result: &ComputeResult) -> (r: bool)
        requires
            shape.wf(),
        ensures
            r == self.can_record(shape, result),
    {
        let created = result.output_new_permanents();
        let count = shape.permanent.len();
        let mut i: usize = 0;
        while i < created.len()
            invariant
                created@ == result.new_permanents(),
                count == shape.resource_count(),
                i <= created.len(),
                forall|k: int| 0 <= k < i ==> (#[trigger] created@[k] as nat) < count,
                forall|k: int, l: int| 0 <= k < l < i ==> created@[k] != created@[l],
                forall|k: int| 0 <= k < i ==> !self.up_to_date().contains(#[trigger] created@[k]),
            decreases created.len() - i,
        {
            let x = created[i];
            if x >= count || list_contains(&self.not_dirty, x) {
                return false;
            }
            let mut k: usize = 0;
            while k < i
                invariant
                    created@ == result.new_permanents(),
                    i < created.len(),
                    x == created@[i as int],
                    k <= i,
                    forall|l: int| 0 <= l < k ==> created@[l] != x,
                decreases i - k,
            {
                if created[k] == x {
                    return false;
                }
                k = k + 1;
            }
            i = i + 1;
        }
        true
    }

    /// What computing the permanent resource `resource` takes: the result
    /// remembered for the current up-to-date list if there is one; nothing
    /// when the resource is up to date; otherwise the plan from its
    /// producer, which is then remembered.
    #[verifier::rlimit(50)]
    pub fn compute(&mut self, shape: &GraphShape, resource: usize) -> (r: ComputeResult)
        requires
            old(self).wf(shape),
            (resource as nat) < shape.resource_count(),
            !old(self).cache_hit() ==> shape.permanent@[resource as int] && shape.producers_spec(resource)[0] is Node,
        ensures
            final(self).wf(shape),
            computes(*old(self), *final(self), shape, resource, r),
    {
        let mut i: usize = 0;
        while i < self.cache.len()
            invariant
                *self == *old(self),
                old(self).wf(shape),
                i <= self.cache@.len(),
                forall|j: int| 0 <= j < i ==> self.cache@[j].0@ != self.not_dirty@,
            decreases self.cache@.len() - i,
        {
            if same_list(&self.cache[i].0, &self.not_dirty) {
                let r = self.cache[i].1.duplicate();
                proof {
                    assert(self.remembered()[i as int] == (self.up_to_date(), r.required_inputs_view(), r.steps_view(), r.new_permanents()));
                    assert(old(self).remembered()[i as int].0 == old(self).up_to_date());
                    assert(old(self).cache_hit());
                }
                return r;
            }
            i = i + 1;
        }
        proof {
            if self.cache_hit() {
                let j = choose|j: int| 0 <= j < self.remembered().len() && #[trigger] self.remembered()[j].0 == self.up_to_date();
                assert(self.remembered()[j].0 == self.cache@[j].0@);
            }
            assert(self.producers@[resource as int]@ == shape.producers_spec(resource));
            lemma_producer_is_node(shape, resource, 0);
        }
        let p = match self.producers[resource][0] {
            InputOrNode::Node(p) => p,
            InputOrNode::Input => {
                return ComputeResult::default();
            },
        };
        if list_contains(&self.not_dirty, resource) {
            return ComputeResult::default();
        }
        proof {
            lemma_resolution_producers(shape, &self.resolved);
        }
        let r = self.resolved.plan(shape, &self.not_dirty, &self.total_order, p);
        let key = copy_list(&self.not_dirty);
        let ghost cache0 = self.cache@;
        let ghost rem0 = self.remembered();
        self.cache.push((key, r.duplicate()));
        proof {
            assert(self.remembered() =~= rem0.push((self.up_to_date(), r.required_inputs_view(), r.steps_view(), r.new_permanents())));
            assert forall|a: int, b: int| 0 <= a < b < self.cache@.len() implies self.cache@[a].0@ != self.cache@[b].0@ by {
                if b == cache0.len() {
                    assert(self.cache@[a] == cache0[a]);
                } else {
                    assert(self.cache@[a] == cache0[a] && self.cache@[b] == cache0[b]);
                }
            }
        }
        r
    }
}

} // verus!
