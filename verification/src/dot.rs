//! The layout of a Graphviz drawing of a resolved render graph: which nodes
//! are drawn in which order, which edges go into each, and the names of the
//! resources that come from the graph's inputs. Turning the layout into text
//! is left to the caller.
use vstd::prelude::*;

use crate::graph::{InputOrNode, ResolvedInput, ResolvedResources};

verus! {

/// One edge into a drawn node.
pub struct DotEdge {
    /// The resource and where it comes from.
    pub input: ResolvedInput,
    /// The node borrows the resource rather than consuming it.
    pub borrowed: bool,
    /// For a resource taken from the graph's inputs: its number in the
    /// drawing (`R0`, `R1`, ...), in order of first appearance.
    pub name: usize,
    /// For a resource taken from the graph's inputs: this edge is the first
    /// to mention it, so the resource is declared just before it.
    pub declares: bool,
}

/// One drawn node, with the edges into it: those of the resources it
/// consumes, then those of the resources it borrows.
pub struct DotNode {
    pub node: usize,
    pub edges: Vec<DotEdge>,
}

/// The resources of `s` taken from the graph's inputs, in order.
pub open spec fn input_resources(s: Seq<ResolvedInput>) -> Seq<usize>
    decreases s.len(),
{
    if s.len() == 0 {
        Seq::empty()
    } else {
        let rest = input_resources(s.drop_last());
        if s.last().producer is Input { rest.push(s.last().resource) } else { rest }
    }
}

/// The distinct elements of `s`, in order of first appearance.
pub open spec fn first_seen<T>(s: Seq<T>) -> Seq<T>
    decreases s.len(),
{
    if s.len() == 0 {
        Seq::empty()
    } else {
        let rest = first_seen(s.drop_last());
        if rest.contains(s.last()) { rest } else { rest.push(s.last()) }
    }
}

/// All the edges of the first `k` nodes of `order`, in drawing order.
pub open spec fn drawn_edges(res: &ResolvedResources, order: Seq<usize>, k: nat) -> Seq<ResolvedInput>
    decreases k,
{
    if k == 0 {
        Seq::empty()
    } else {
        drawn_edges(res, order, (k - 1) as nat) + res.combined(order[k - 1] as int)
    }
}

/// The edges drawn before edge `j` of the `i`-th drawn node.
pub open spec fn edges_before(res: &ResolvedResources, order: Seq<usize>, i: int, j: int) -> Seq<ResolvedInput> {
    drawn_edges(res, order, i as nat) + res.combined(order[i] as int).take(j)
}

/// The names given so far: the input resources in order of first
/// appearance among `edges`.
pub open spec fn names(edges: Seq<ResolvedInput>) -> Seq<usize> {
    first_seen(input_resources(edges))
}

/// What edge `j` of the `i`-th drawn node must be.
pub open spec fn edge_drawn(res: &ResolvedResources, order: Seq<usize>, i: int, j: int, e: DotEdge) -> bool {
    let before = edges_before(res, order, i, j);
    let input = res.combined(order[i] as int)[j];
    &&& e.input == input
    &&& e.borrowed == (j >= res.inputs@[order[i] as int]@.len())
    &&& (input.producer is Input ==> {
        &&& e.declares == !names(before).contains(input.resource)
        &&& e.name < names(before.push(input)).len()
        &&& names(before.push(input))[e.name as int] == input.resource
    })
}

/// No resource gets two names.
pub proof fn lemma_names_distinct<T>(s: Seq<T>)
    ensures
        forall|a: int, b: int| 0 <= a < b < first_seen(s).len() ==> first_seen(s)[a] != first_seen(s)[b],
    decreases s.len(),
{
    if s.len() > 0 {
        let rest = first_seen(s.drop_last());
        lemma_names_distinct(s.drop_last());
        if !rest.contains(s.last()) {
            assert forall|a: int, b: int| 0 <= a < b < first_seen(s).len() implies first_seen(s)[a] != first_seen(s)[b] by {
                if b == rest.len() {
                    assert(rest[a] == first_seen(s)[a]);
                }
            }
        }
    }
}

/// A name, once given, is kept: the names of a longer list of edges extend
/// those of a shorter one.
pub proof fn lemma_names_kept<T>(s: Seq<T>, x: T)
    ensures
        first_seen(s.push(x)).len() >= first_seen(s).len(),
        first_seen(s.push(x)).subrange(0, first_seen(s).len() as int) == first_seen(s),
{
    assert(s.push(x).drop_last() =~= s);
    assert(first_seen(s).subrange(0, first_seen(s).len() as int) =~= first_seen(s));
    assert(first_seen(s).push(x).subrange(0, first_seen(s).len() as int) =~= first_seen(s));
}

/// The position of `x` in `s`, which holds it.
fn position(s: &Vec<usize>, x: usize) -> (r: Option<usize>)
    ensures
        r is Some <==> s@.contains(x),
        r matches Some(i) ==> i < s.len() && s@[i as int] == x,
{
    let mut i: usize = 0;
    while i < s.len()
        invariant
            i <= s.len(),
            forall|k: int| 0 <= k < i ==> s@[k] != x,
        decreases s.len() - i,
    {
        if s[i] == x {
            return Some(i);
        }
        i = i + 1;
    }
    None
}

/// Draws the edges of `part`, the edges `base..` of the `i`-th drawn node,
/// after those already in `edges`, naming new input resources in `seen`.
fn draw_part(
    res: &ResolvedResources,
    order: &[usize],
    i: usize,
    part: &Vec<ResolvedInput>,
    Ghost(base): Ghost<int>,
    is_borrow: bool,
    seen: &mut Vec<usize>,
    edges: &mut Vec<DotEdge>,
)
    requires
        res.wf(),
        i < order.len(),
        (order[i as int] as int) < res.node_count,
        0 <= base,
        base + part.len() <= res.combined(order[i as int] as int).len(),
        part@ == res.combined(order[i as int] as int).subrange(base, base + part.len()),
        part.len() > 0 ==> is_borrow == (base >= res.inputs@[order[i as int] as int]@.len()),
        base < res.inputs@[order[i as int] as int]@.len() ==> base + part.len() <= res.inputs@[order[i as int] as int]@.len(),
        old(edges).len() == base,
        old(seen)@ == names(edges_before(res, order@, i as int, base)),
        forall|b: int| 0 <= b < base ==> edge_drawn(res, order@, i as int, b, #[trigger] old(edges)@[b]),
    ensures
        final(edges).len() == base + part.len(),
        final(seen)@ == names(edges_before(res, order@, i as int, base + part.len())),
        forall|b: int| 0 <= b < base + part.len() ==> edge_drawn(res, order@, i as int, b, #[trigger] final(edges)@[b]),
{
    let ghost all = res.combined(order[i as int] as int);
    let mut k: usize = 0;
    while k < part.len()
        invariant
            res.wf(),
            i < order.len(),
            all == res.combined(order[i as int] as int),
            0 <= base,
            base + part.len() <= all.len(),
            part@ == all.subrange(base, base + part.len()),
            part.len() > 0 ==> is_borrow == (base >= res.inputs@[order[i as int] as int]@.len()),
            base < res.inputs@[order[i as int] as int]@.len() ==> base + part.len() <= res.inputs@[order[i as int] as int]@.len(),
            k <= part.len(),
            edges.len() == base + k,
            seen@ == names(edges_before(res, order@, i as int, base + k)),
            forall|b: int| 0 <= b < base + k ==> edge_drawn(res, order@, i as int, b, #[trigger] edges@[b]),
        decreases part.len() - k,
    {
        let input = part[k];
        let ghost j = base + k;
        let ghost before = edges_before(res, order@, i as int, j);
        proof {
            assert(input == all[j]);
            assert(edges_before(res, order@, i as int, j + 1) =~= before.push(input)) by {
                assert(all.take(j + 1) =~= all.take(j).push(input));
            }
            assert(before.push(input).drop_last() =~= before);
            assert(input_resources(before).push(input.resource).drop_last() =~= input_resources(before));
            lemma_names_distinct(input_resources(before));
        }
        let (name, declares) = match input.producer {
            InputOrNode::Input => {
                match position(seen, input.resource) {
                    Some(p) => (p, false),
                    None => {
                        seen.push(input.resource);
                        (seen.len() - 1, true)
                    },
                }
            },
            InputOrNode::Node(_) => (0, false),
        };
        let e = DotEdge { input, borrowed: is_borrow, name, declares };
        proof {
            assert(edge_drawn(res, order@, i as int, j, e));
        }
        edges.push(e);
        k = k + 1;
    }
}

/// The drawing of `res`, with the nodes in `order` (a caller sorts them by
/// label): each node with its consumed, then its borrowed resources, the
/// resources from the graph's inputs named in order of first appearance and
/// declared at their first edge.
pub fn dot_layout(res: &ResolvedResources, order: &[usize]) -> (r: Vec<DotNode>)
    requires
        res.wf(),
        forall|i: int| 0 <= i < order.len() ==> #[trigger] order[i] < res.node_count,
    ensures
        r.len() == order.len(),
        forall|i: int| 0 <= i < order.len() ==> {
            &&& (#[trigger] r@[i]).node == order[i]
            &&& r@[i].edges.len() == res.combined(order[i] as int).len()
            &&& forall|j: int| 0 <= j < r@[i].edges.len() ==> edge_drawn(res, order@, i, j, #[trigger] r@[i].edges@[j])
        },
{
    let mut seen: Vec<usize> = Vec::new();
    let mut out: Vec<DotNode> = Vec::new();
    let mut i: usize = 0;
    while i < order.len()
        invariant
            i <= order.len(),
            res.wf(),
            forall|k: int| 0 <= k < order.len() ==> #[trigger] order[k] < res.node_count,
            out.len() == i,
            seen@ == names(drawn_edges(res, order@, i as nat)),
            forall|a: int| 0 <= a < i ==> {
                &&& (#[trigger] out@[a]).node == order[a]
                &&& out@[a].edges.len() == res.combined(order[a] as int).len()
                &&& forall|j: int| 0 <= j < out@[a].edges.len() ==> edge_drawn(res, order@, a, j, #[trigger] out@[a].edges@[j])
            },
        decreases order.len() - i,
    {
        let n = order[i];
        let ghost all = res.combined(n as int);
        let ghost nc = res.inputs@[n as int]@.len() as int;
        let mut edges: Vec<DotEdge> = Vec::new();
        proof {
            assert(edges_before(res, order@, i as int, 0) =~= drawn_edges(res, order@, i as nat));
            assert(all.subrange(0, nc) =~= res.inputs@[n as int]@);
            assert(all.subrange(nc, all.len() as int) =~= res.borrows@[n as int]@);
        }
        draw_part(res, order, i, &res.inputs[n], Ghost(0), false, &mut seen, &mut edges);
        draw_part(res, order, i, &res.borrows[n], Ghost(nc), true, &mut seen, &mut edges);
        proof {
            assert(all.take(all.len() as int) =~= all);
            assert(drawn_edges(res, order@, (i + 1) as nat) =~= edges_before(res, order@, i as int, all.len() as int));
        }
        out.push(DotNode { node: n, edges });
        i = i + 1;
    }
    out
}

} // verus!
