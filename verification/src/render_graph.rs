//! Building a render graph: resources, nodes that consume, borrow and
//! produce them, the resources given as inputs and explicit orderings; and
//! the shape the compiler reads, with nodes and resources numbered densely.
use vstd::prelude::*;

use crate::compiled::{ComputeResult, GraphShape, NodeIo};
use crate::compiler::{
    check_compilable, compilable, compile_fails, computes, lemma_same_views_compilable, lemma_same_views_sole, sole_resolution_orders,
    CompiledGraph,
};
use crate::resolver::single_sourced;
use crate::gen_map::{key_sparse, DenseIdx, GenMap};
use crate::graph::InputOrNode;
use crate::index_map::MapIndex;
use crate::handles::{UntypedNodeHandle, UntypedResourceHandle};

verus! {

/// What the graph stores for one resource.
#[derive(Debug)]
pub struct ResourceEntry {
    pub label: String,
    /// A permanent resource keeps its value from one run to the next.
    pub permanent: bool,
    /// The producers of an unordered resource may run in any order.
    pub unordered: bool,
}

/// What the graph stores for one node: the resources it consumes, borrows
/// and produces.
#[derive(Debug)]
pub struct NodeEntry {
    pub consumes: Vec<UntypedResourceHandle>,
    pub borrows: Vec<UntypedResourceHandle>,
    pub outputs: Vec<UntypedResourceHandle>,
}

/// The keys of a list of resource handles.
pub open spec fn resource_keys(hs: Seq<UntypedResourceHandle>) -> Seq<u64> {
    hs.map_values(|h: UntypedResourceHandle| h@)
}

/// Every handle of `hs` names a resource of `resources`.
pub open spec fn all_in(hs: Seq<UntypedResourceHandle>, resources: Map<u64, ResourceEntry>) -> bool {
    forall|i: int| 0 <= i < hs.len() ==> resources.contains_key(#[trigger] hs[i]@)
}

/// The dense index of each resource of `hs` in `resources`.
pub open spec fn dense_resources(hs: Seq<UntypedResourceHandle>, resources: &GenMap<ResourceEntry>) -> Seq<usize> {
    hs.map_values(|h: UntypedResourceHandle| resources.slot_content(key_sparse(h@)) as usize)
}

/// A compiled form of a render graph, with the shape it was compiled from.
struct Compiled {
    shape: GraphShape,
    graph: CompiledGraph,
}

/// A render graph under construction.
pub struct RenderGraph {
    inputs: Vec<UntypedResourceHandle>,
    resources: GenMap<ResourceEntry>,
    nodes: GenMap<NodeEntry>,
    explicit_orderings: Vec<(UntypedNodeHandle, UntypedNodeHandle)>,
    /// Kept until the nodes or the orderings change; adding a resource or
    /// an input keeps it.
    compiled: Option<Compiled>,
}

impl RenderGraph {
    /// The resources, by handle.
    pub closed spec fn resources_spec(&self) -> Map<u64, ResourceEntry> {
        self.resources@
    }

    /// The nodes, by handle.
    pub closed spec fn nodes_spec(&self) -> Map<u64, NodeEntry> {
        self.nodes@
    }

    /// The resources given as inputs.
    pub closed spec fn inputs_spec(&self) -> Seq<u64> {
        resource_keys(self.inputs@)
    }

    /// The orderings given explicitly, as (before, after).
    pub closed spec fn orderings_spec(&self) -> Seq<(u64, u64)> {
        self.explicit_orderings@.map_values(|o: (UntypedNodeHandle, UntypedNodeHandle)| (o.0@, o.1@))
    }

    /// `k` was given out by [`RenderGraph::push_node_complete`] (the node may
    /// have been removed since).
    pub closed spec fn issued_node(&self, k: u64) -> bool {
        self.nodes.was_issued(k)
    }

    /// Room for one more resource, and one more node.
    pub closed spec fn has_room(&self) -> bool {
        &&& (self.resources.values_seq().len() < self.resources.slot_count() || self.resources.slot_count() < u32::MAX)
        &&& (self.nodes.values_seq().len() < self.nodes.slot_count() || self.nodes.slot_count() < u32::MAX)
    }

    /// Every handle the graph holds names something in it, and no resource is
    /// an input twice.
    pub closed spec fn wf(&self) -> bool {
        &&& self.resources.wf()
        &&& self.nodes.wf()
        &&& all_in(self.inputs@, self.resources@)
        &&& forall|i: int, j: int| 0 <= i < j < self.inputs.len() ==> self.inputs@[i]@ != self.inputs@[j]@
        &&& forall|k: u64| #[trigger] self.nodes@.contains_key(k) ==> {
            &&& all_in(self.nodes@[k].consumes@, self.resources@)
            &&& all_in(self.nodes@[k].borrows@, self.resources@)
            &&& all_in(self.nodes@[k].outputs@, self.resources@)
        }
        &&& forall|i: int| 0 <= i < self.explicit_orderings.len() ==> self.nodes@.contains_key((#[trigger] self.explicit_orderings@[i]).0@)
            && self.nodes@.contains_key(self.explicit_orderings@[i].1@)
        &&& (self.compiled matches Some(c) ==> c.graph.wf(&c.shape) && c.shape.nodes@.len() == self.nodes.values_seq().len())
    }

    /// A compiled form is kept.
    pub closed spec fn is_compiled(&self) -> bool {
        self.compiled is Some
    }

    /// The shape the kept compiled form was made from.
    pub closed spec fn compiled_shape(&self) -> GraphShape {
        self.compiled->0.shape
    }

    /// The kept compiled form.
    pub closed spec fn compiled_graph(&self) -> CompiledGraph {
        self.compiled->0.graph
    }

    /// The compiled form, kept or not, is the same in both graphs.
    pub open spec fn same_compiled(&self, other: &Self) -> bool {
        &&& self.is_compiled() == other.is_compiled()
        &&& self.is_compiled() ==> self.compiled_shape() == other.compiled_shape() && self.compiled_graph() == other.compiled_graph()
    }

    /// An empty graph.
    pub fn new() -> (r: Self)
        ensures
            r.wf(),
            r.has_room(),
            r.resources_spec() == Map::<u64, ResourceEntry>::empty(),
            r.nodes_spec() == Map::<u64, NodeEntry>::empty(),
            r.inputs_spec() == Seq::<u64>::empty(),
            r.orderings_spec() == Seq::<(u64, u64)>::empty(),
            !r.is_compiled(),
    {
        let r = RenderGraph {
            inputs: Vec::new(),
            resources: GenMap::new(),
            nodes: GenMap::new(),
            explicit_orderings: Vec::new(),
            compiled: None,
        };
        proof {
            assert(r.inputs_spec() =~= Seq::<u64>::empty());
            assert(r.orderings_spec() =~= Seq::<(u64, u64)>::empty());
        }
        r
    }

    /// A new resource.
    pub fn create_resource_untyped(&mut self, label: String, permanent: bool, unordered: bool) -> (r: UntypedResourceHandle)
        requires
            old(self).wf(),
            old(self).has_room(),
        ensures
            final(self).wf(),
            !old(self).resources_spec().contains_key(r@),
            final(self).resources_spec() == old(self).resources_spec().insert(r@, ResourceEntry { label, permanent, unordered }),
            final(self).nodes_spec() == old(self).nodes_spec(),
            forall|k: u64| #[trigger] final(self).issued_node(k) == old(self).issued_node(k),
            final(self).inputs_spec() == old(self).inputs_spec(),
            final(self).orderings_spec() == old(self).orderings_spec(),
            final(self).same_compiled(old(self)),
    {
        let ghost entry = ResourceEntry { label, permanent, unordered };
        let h = self.resources.insert(ResourceEntry { label, permanent, unordered });
        proof {
            if old(self).resources@.contains_key(h@) {
                old(self).resources.lemma_handles(h@);
            }
        }
        UntypedResourceHandle::new(h)
    }

    /// Makes `handle` a resource given to the graph from outside.
    pub fn define_resource_input(&mut self, handle: UntypedResourceHandle)
        requires
            old(self).wf(),
            old(self).resources_spec().contains_key(handle@),
        ensures
            final(self).wf(),
            old(self).inputs_spec().contains(handle@) ==> final(self).inputs_spec() == old(self).inputs_spec(),
            !old(self).inputs_spec().contains(handle@) ==> final(self).inputs_spec() == old(self).inputs_spec().push(handle@),
            final(self).resources_spec() == old(self).resources_spec(),
            final(self).nodes_spec() == old(self).nodes_spec(),
            forall|k: u64| #[trigger] final(self).issued_node(k) == old(self).issued_node(k),
            final(self).orderings_spec() == old(self).orderings_spec(),
            final(self).same_compiled(old(self)),
    {
        let mut i: usize = 0;
        while i < self.inputs.len()
            invariant
                i <= self.inputs.len(),
                *self == *old(self),
                old(self).wf(),
                forall|j: int| 0 <= j < i ==> self.inputs@[j]@ != handle@,
            decreases self.inputs.len() - i,
        {
            if self.inputs[i] == handle {
                proof {
                    assert(self.inputs_spec()[i as int] == handle@);
                }
                return;
            }
            i = i + 1;
        }
        proof {
            assert(!self.inputs_spec().contains(handle@)) by {
                if self.inputs_spec().contains(handle@) {
                    let j = choose|j: int| 0 <= j < self.inputs_spec().len() && self.inputs_spec()[j] == handle@;
                    assert(self.inputs@[j]@ == handle@);
                }
            }
        }
        self.inputs.push(handle);
        proof {
            assert(self.inputs_spec() =~= old(self).inputs_spec().push(handle@));
        }
    }

    /// A new node that consumes, borrows and produces the given resources.
    pub fn push_node_complete(
        &mut self,
        consumes: Vec<UntypedResourceHandle>,
        borrows: Vec<UntypedResourceHandle>,
        outputs: Vec<UntypedResourceHandle>,
    ) -> (r: UntypedNodeHandle)
        requires
            old(self).wf(),
            old(self).has_room(),
            all_in(consumes@, old(self).resources_spec()),
            all_in(borrows@, old(self).resources_spec()),
            all_in(outputs@, old(self).resources_spec()),
            forall|i: int, j: int| 0 <= i < consumes.len() && 0 <= j < borrows.len() ==> consumes@[i]@ != borrows@[j]@,
            forall|i: int| 0 <= i < consumes.len() ==> !old(self).resources_spec()[(#[trigger] consumes@[i])@].permanent,
        ensures
            final(self).wf(),
            !old(self).nodes_spec().contains_key(r@),
            !old(self).issued_node(r@),
            forall|k: u64| #[trigger] final(self).issued_node(k) == (old(self).issued_node(k) || k == r@),
            final(self).nodes_spec() == old(self).nodes_spec().insert(r@, NodeEntry { consumes, borrows, outputs }),
            final(self).resources_spec() == old(self).resources_spec(),
            final(self).inputs_spec() == old(self).inputs_spec(),
            final(self).orderings_spec() == old(self).orderings_spec(),
            !final(self).is_compiled(),
    {
        self.compiled = None;
        let h = self.nodes.insert(NodeEntry { consumes, borrows, outputs });
        proof {
            if old(self).nodes@.contains_key(h@) {
                old(self).nodes.lemma_handles(h@);
            }
        }
        UntypedNodeHandle::new(h)
    }

    /// Asks for `is_before` to run before `is_after`.
    pub fn define_explicit_ordering(&mut self, is_before: UntypedNodeHandle, is_after: UntypedNodeHandle)
        requires
            old(self).wf(),
            old(self).nodes_spec().contains_key(is_before@),
            old(self).nodes_spec().contains_key(is_after@),
        ensures
            final(self).wf(),
            final(self).orderings_spec() == old(self).orderings_spec().push((is_before@, is_after@)),
            final(self).resources_spec() == old(self).resources_spec(),
            final(self).nodes_spec() == old(self).nodes_spec(),
            forall|k: u64| #[trigger] final(self).issued_node(k) == old(self).issued_node(k),
            final(self).inputs_spec() == old(self).inputs_spec(),
            !final(self).is_compiled(),
    {
        self.compiled = None;
        self.explicit_orderings.push((is_before, is_after));
        proof {
            assert(self.orderings_spec() =~= old(self).orderings_spec().push((is_before@, is_after@)));
        }
    }
}

/// The orderings of `os` that do not mention `k`, in order.
pub open spec fn orderings_without(os: Seq<(u64, u64)>, k: u64) -> Seq<(u64, u64)>
    decreases os.len(),
{
    if os.len() == 0 {
        Seq::empty()
    } else {
        let rest = orderings_without(os.drop_last(), k);
        if os.last().0 != k && os.last().1 != k { rest.push(os.last()) } else { rest }
    }
}

impl RenderGraph {
    /// Removes the node `handle` and the orderings that mention it; gives
    /// back the node, if it was in the graph.
    pub fn remove_node_untyped(&mut self, handle: UntypedNodeHandle) -> (r: Option<NodeEntry>)
        requires
            old(self).wf(),
            old(self).issued_node(handle@),
            old(self).nodes_spec().contains_key(handle@) ==> crate::gen_map::key_generation(handle@) < u32::MAX,
        ensures
            final(self).wf(),
            forall|k: u64| #[trigger] final(self).issued_node(k) == old(self).issued_node(k),
            !old(self).nodes_spec().contains_key(handle@) ==> r is None && final(self).nodes_spec() == old(self).nodes_spec(),
            old(self).nodes_spec().contains_key(handle@) ==> r == Some(old(self).nodes_spec()[handle@])
                && final(self).nodes_spec() == old(self).nodes_spec().remove(handle@),
            final(self).orderings_spec() == orderings_without(old(self).orderings_spec(), handle@),
            final(self).resources_spec() == old(self).resources_spec(),
            final(self).inputs_spec() == old(self).inputs_spec(),
            r is Some ==> !final(self).is_compiled(),
            r is None ==> final(self).same_compiled(old(self)),
    {
        let h = handle.handle();
        proof {
            if self.nodes.is_valid_key(h@) {
                self.nodes.lemma_handles(h@);
            }
        }
        let ghost before = self.orderings_spec();
        let ghost old_orderings = self.explicit_orderings@;
        let r = self.nodes.remove(h);
        let mut kept: Vec<(UntypedNodeHandle, UntypedNodeHandle)> = Vec::new();
        let mut i: usize = 0;
        while i < self.explicit_orderings.len()
            invariant
                i <= self.explicit_orderings.len(),
                self.explicit_orderings@ == old_orderings,
                before == old_orderings.map_values(|o: (UntypedNodeHandle, UntypedNodeHandle)| (o.0@, o.1@)),
                kept@.map_values(|o: (UntypedNodeHandle, UntypedNodeHandle)| (o.0@, o.1@)) == orderings_without(before.take(i as int), handle@),
                forall|j: int| 0 <= j < kept.len() ==> exists|m: int| 0 <= m < i && #[trigger] kept@[j] == old_orderings[m],
            decreases self.explicit_orderings.len() - i,
        {
            let o = self.explicit_orderings[i];
            proof {
                assert(before.take(i + 1).drop_last() =~= before.take(i as int));
                assert(before.take(i + 1).last() == (o.0@, o.1@));
            }
            let ghost kept_before = kept@;
            if !(o.0 == handle) && !(o.1 == handle) {
                kept.push(o);
                proof {
                    assert(kept@.map_values(|o: (UntypedNodeHandle, UntypedNodeHandle)| (o.0@, o.1@))
                        =~= kept_before.map_values(|o: (UntypedNodeHandle, UntypedNodeHandle)| (o.0@, o.1@)).push((o.0@, o.1@)));
                    assert forall|j: int| 0 <= j < kept.len() implies exists|m: int| 0 <= m < i + 1 && #[trigger] kept@[j] == old_orderings[m] by {
                        if j == kept.len() - 1 {
                            assert(kept@[j] == old_orderings[i as int]);
                        } else {
                            assert(kept@[j] == kept_before[j]);
                        }
                    }
                }
            }
            i = i + 1;
        }
        proof {
            assert(before.take(i as int) =~= before);
            assert forall|j: int| 0 <= j < kept.len() implies self.nodes@.contains_key((#[trigger] kept@[j]).0@)
                && self.nodes@.contains_key(kept@[j].1@) by {
                let m = choose|m: int| 0 <= m < i && #[trigger] kept@[j] == old_orderings[m];
                lemma_kept_avoids(before, handle@, kept@.map_values(|o: (UntypedNodeHandle, UntypedNodeHandle)| (o.0@, o.1@)), j);
            }
        }
        self.explicit_orderings = kept;
        if r.is_some() {
            self.compiled = None;
        }
        r
    }
}

proof fn lemma_kept_avoids(os: Seq<(u64, u64)>, k: u64, kept: Seq<(u64, u64)>, j: int)
    requires
        kept == orderings_without(os, k),
        0 <= j < kept.len(),
    ensures
        kept[j].0 != k && kept[j].1 != k,
    decreases os.len(),
{
    if os.len() > 0 {
        let rest = orderings_without(os.drop_last(), k);
        if j < rest.len() {
            lemma_kept_avoids(os.drop_last(), k, rest, j);
        }
    }
}

impl RenderGraph {
    /// The resources in dense order.
    pub closed spec fn resource_values(&self) -> Seq<ResourceEntry> {
        self.resources.values_seq()
    }

    /// The nodes in dense order.
    pub closed spec fn node_values(&self) -> Seq<NodeEntry> {
        self.nodes.values_seq()
    }

    /// The dense index of the resource `k`.
    pub closed spec fn resource_index(&self, k: u64) -> int {
        self.resources.slot_content(key_sparse(k)) as int
    }

    /// The dense index of the node `k`.
    pub closed spec fn node_index(&self, k: u64) -> int {
        self.nodes.slot_content(key_sparse(k)) as int
    }

    /// The dense indices of the resources of `hs`.
    pub open spec fn resource_indices(&self, hs: Seq<UntypedResourceHandle>) -> Seq<usize> {
        hs.map_values(|h: UntypedResourceHandle| self.resource_index(h@) as usize)
    }

    /// A resource of the graph has a dense index within the resources, and
    /// the resource there is its own; two resources have different ones.
    pub proof fn lemma_resource_index(&self, k: u64, other: u64)
        requires
            self.wf(),
            self.resources_spec().contains_key(k),
        ensures
            0 <= self.resource_index(k) < self.resource_values().len(),
            self.resource_values()[self.resource_index(k)] == self.resources_spec()[k],
            self.resources_spec().contains_key(other) && other != k ==> self.resource_index(other) != self.resource_index(k),
    {
        self.resources.lemma_handles(k);
        if self.resources@.contains_key(other) && other != k {
            self.resources.lemma_live_keys_apart(k, other);
        }
    }

    /// A node of the graph has a dense index within the nodes, and the node
    /// there is its own.
    pub proof fn lemma_node_index(&self, k: u64)
        requires
            self.wf(),
            self.nodes_spec().contains_key(k),
        ensures
            0 <= self.node_index(k) < self.node_values().len(),
            self.node_values()[self.node_index(k)] == self.nodes_spec()[k],
    {
        self.nodes.lemma_handles(k);
    }

    fn dense_list(&self, hs: &Vec<UntypedResourceHandle>) -> (r: Vec<usize>)
        requires
            self.wf(),
            all_in(hs@, self.resources@),
        ensures
            r@ == self.resource_indices(hs@),
            forall|i: int| 0 <= i < r.len() ==> (#[trigger] r@[i] as nat) < self.resource_values().len(),
    {
        let mut r: Vec<usize> = Vec::new();
        let mut i: usize = 0;
        while i < hs.len()
            invariant
                i <= hs.len(),
                self.wf(),
                all_in(hs@, self.resources@),
                r@ == self.resource_indices(hs@.take(i as int)),
                forall|j: int| 0 <= j < r.len() ==> (#[trigger] r@[j] as nat) < self.resource_values().len(),
            decreases hs.len() - i,
        {
            let h = hs[i].handle();
            proof {
                assert(self.resources@.contains_key(hs@[i as int]@));
                self.resources.lemma_handles(h@);
            }
            let d = self.resources.get_dense_index(h).unwrap();
            r.push(d.as_usize());
            proof {
                assert(self.resource_indices(hs@.take(i + 1)) =~= self.resource_indices(hs@.take(i as int)).push(d.spec_value() as usize));
            }
            i = i + 1;
        }
        proof {
            assert(hs@.take(i as int) =~= hs@);
        }
        r
    }

    /// `r` is the shape of the graph: what [`RenderGraph::shape`] gives.
    pub open spec fn describes(&self, r: GraphShape) -> bool {
        &&& (r.nodes.len() == self.node_values().len())
        &&& (forall|n: int| 0 <= n < r.nodes.len() ==> {
            &&& (#[trigger] r.nodes@[n]).consumes@ == self.resource_indices(self.node_values()[n].consumes@)
            &&& r.nodes@[n].borrows@ == self.resource_indices(self.node_values()[n].borrows@)
            &&& r.nodes@[n].outputs@ == self.resource_indices(self.node_values()[n].outputs@)
        })
        &&& (r.permanent@ == self.resource_values().map_values(|e: ResourceEntry| e.permanent))
        &&& (r.unordered@ == self.resource_values().map_values(|e: ResourceEntry| e.unordered))
        &&& (r.inputs@ == self.inputs_spec().map_values(|k: u64| self.resource_index(k) as usize))
        &&& (r.explicit_orderings@ == self.orderings_spec().map_values(|o: (u64, u64)|
            (self.node_index(o.0) as usize, self.node_index(o.1) as usize)))
    }

    /// What the compiler reads of the graph, with nodes and resources
    /// numbered by their dense index.
    pub fn shape(&self) -> (r: GraphShape)
        requires
            self.wf(),
        ensures
            r.wf(),
            self.describes(r),
    {
        let node_values = self.nodes.values().as_std_slice();
        let mut nodes: Vec<NodeIo> = Vec::new();
        let mut n: usize = 0;
        while n < node_values.len()
            invariant
                n <= node_values.len(),
                self.wf(),
                node_values@ == self.node_values(),
                nodes.len() == n,
                forall|m: int| 0 <= m < n ==> {
                    &&& (#[trigger] nodes@[m]).consumes@ == self.resource_indices(self.node_values()[m].consumes@)
                    &&& nodes@[m].borrows@ == self.resource_indices(self.node_values()[m].borrows@)
                    &&& nodes@[m].outputs@ == self.resource_indices(self.node_values()[m].outputs@)
                    &&& forall|i: int| 0 <= i < nodes@[m].consumes@.len() ==> (#[trigger] nodes@[m].consumes@[i] as nat) < self.resource_values().len()
                    &&& forall|i: int| 0 <= i < nodes@[m].borrows@.len() ==> (#[trigger] nodes@[m].borrows@[i] as nat) < self.resource_values().len()
                    &&& forall|i: int| 0 <= i < nodes@[m].outputs@.len() ==> (#[trigger] nodes@[m].outputs@[i] as nat) < self.resource_values().len()
                },
            decreases node_values.len() - n,
        {
            let node = &node_values[n];
            proof {
                self.lemma_node_value_in_map(n as int);
            }
            let consumes = self.dense_list(&node.consumes);
            let borrows = self.dense_list(&node.borrows);
            let outputs = self.dense_list(&node.outputs);
            nodes.push(NodeIo { consumes, borrows, outputs });
            n = n + 1;
        }
        let resource_values = self.resources.values().as_std_slice();
        let mut permanent: Vec<bool> = Vec::new();
        let mut unordered: Vec<bool> = Vec::new();
        let mut k: usize = 0;
        while k < resource_values.len()
            invariant
                k <= resource_values.len(),
                resource_values@ == self.resource_values(),
                permanent@ == self.resource_values().take(k as int).map_values(|e: ResourceEntry| e.permanent),
                unordered@ == self.resource_values().take(k as int).map_values(|e: ResourceEntry| e.unordered),
            decreases resource_values.len() - k,
        {
            permanent.push(resource_values[k].permanent);
            unordered.push(resource_values[k].unordered);
            proof {
                assert(permanent@ =~= self.resource_values().take(k + 1).map_values(|e: ResourceEntry| e.permanent));
                assert(unordered@ =~= self.resource_values().take(k + 1).map_values(|e: ResourceEntry| e.unordered));
            }
            k = k + 1;
        }
        proof {
            assert(self.resource_values().take(k as int) =~= self.resource_values());
        }
        let inputs = self.dense_list(&self.inputs);
        proof {
            assert forall|i: int, j: int| 0 <= i < j < inputs.len() implies inputs@[i] != inputs@[j] by {
                self.lemma_resource_index(self.inputs@[i]@, self.inputs@[j]@);
            }
        }
        let mut orderings: Vec<(usize, usize)> = Vec::new();
        let mut o: usize = 0;
        while o < self.explicit_orderings.len()
            invariant
                o <= self.explicit_orderings.len(),
                self.wf(),
                orderings@ == self.explicit_orderings@.take(o as int).map_values(|o: (UntypedNodeHandle, UntypedNodeHandle)|
                    (self.node_index(o.0@) as usize, self.node_index(o.1@) as usize)),
                forall|i: int| 0 <= i < orderings.len() ==> (#[trigger] orderings@[i]).0 < self.node_values().len()
                    && orderings@[i].1 < self.node_values().len(),
            decreases self.explicit_orderings.len() - o,
        {
            let (a, b) = self.explicit_orderings[o];
            proof {
                assert(self.nodes@.contains_key(self.explicit_orderings@[o as int].0@));
                self.lemma_node_index(a@);
                self.lemma_node_index(b@);
                self.nodes.lemma_handles(a@);
                self.nodes.lemma_handles(b@);
            }
            let da = self.nodes.get_dense_index(a.handle()).unwrap();
            let db = self.nodes.get_dense_index(b.handle()).unwrap();
            orderings.push((da.as_usize(), db.as_usize()));
            proof {
                assert(orderings@ =~= self.explicit_orderings@.take(o + 1).map_values(|o: (UntypedNodeHandle, UntypedNodeHandle)|
                    (self.node_index(o.0@) as usize, self.node_index(o.1@) as usize)));
            }
            o = o + 1;
        }
        proof {
            assert(self.explicit_orderings@.take(o as int) =~= self.explicit_orderings@);
            assert(orderings@ =~= self.orderings_spec().map_values(|o: (u64, u64)|
                (self.node_index(o.0) as usize, self.node_index(o.1) as usize)));
            assert(inputs@ =~= self.inputs_spec().map_values(|k: u64| self.resource_index(k) as usize));
        }
        GraphShape { nodes, permanent, unordered, inputs, explicit_orderings: orderings }
    }

    proof fn lemma_node_value_in_map(&self, n: int)
        requires
            self.wf(),
            0 <= n < self.node_values().len(),
        ensures
            all_in(self.node_values()[n].consumes@, self.resources@),
            all_in(self.node_values()[n].borrows@, self.resources@),
            all_in(self.node_values()[n].outputs@, self.resources@),
    {
        let k = self.nodes.dense_key(n);
        self.nodes.lemma_dense_value(n);
        assert(self.nodes@.contains_key(k));
    }
}


impl RenderGraph {
    /// The graph's resources, nodes, inputs and orderings are the same in
    /// both graphs.
    pub open spec fn same_content(&self, other: &Self) -> bool {
        &&& self.resources_spec() == other.resources_spec()
        &&& self.nodes_spec() == other.nodes_spec()
        &&& self.inputs_spec() == other.inputs_spec()
        &&& self.orderings_spec() == other.orderings_spec()
        &&& self.resource_values() == other.resource_values()
        &&& self.node_values() == other.node_values()
        &&& forall|k: u64| #[trigger] self.issued_node(k) == other.issued_node(k)
        &&& forall|k: u64| #[trigger] self.resource_index(k) == other.resource_index(k)
        &&& forall|k: u64| #[trigger] self.node_index(k) == other.node_index(k)
    }

    /// Compiles the graph unless a compiled form is kept. False when the
    /// graph cannot be compiled: a permanent resource without exactly one
    /// producer, a consumed or borrowed resource without a producer, or a
    /// resolution that fails, loops or cannot be ordered.
    pub fn prepare_run(&mut self) -> (r: bool)
        requires
            old(self).wf(),
        ensures
            final(self).wf(),
            final(self).same_content(old(self)),
            r == final(self).is_compiled(),
            old(self).is_compiled() ==> final(self).same_compiled(old(self)),
            !old(self).is_compiled() ==> {
                &&& forall|s: GraphShape| old(self).describes(s) && !compilable(&s) ==> !r
                &&& r ==> old(self).describes(final(self).compiled_shape())
                    && final(self).compiled_graph().up_to_date().len() == 0
                    && final(self).compiled_graph().remembered().len() == 0
                &&& !r ==> old(self).cannot_compile()
                &&& forall|s: GraphShape| old(self).describes(s) && compilable(&s) && single_sourced(&s) && sole_resolution_orders(&s) ==> r
            },
    {
        if self.compiled.is_some() {
            return true;
        }
        let shape = self.shape();
        if !check_compilable(&shape) {
            proof {
                assert(self.describes(shape) && shape.wf() && !compilable(&shape));
                assert forall|s: GraphShape| self.describes(s) implies !compilable(&s) by {
                    assert(s.same_views(&shape));
                    lemma_same_views_compilable(&s, &shape);
                }
            }
            return false;
        }
        proof {
            assert forall|s: GraphShape| self.describes(s) implies compilable(&s) by {
                assert(s.same_views(&shape));
                lemma_same_views_compilable(&s, &shape);
            }
            assert forall|s: GraphShape| self.describes(s) && single_sourced(&s) && sole_resolution_orders(&s)
                implies single_sourced(&shape) && sole_resolution_orders(&shape) by {
                assert(s.same_views(&shape));
                lemma_same_views_sole(&s, &shape);
            }
        }
        match CompiledGraph::new(&shape) {
            Some(graph) => {
                self.compiled = Some(Compiled { shape, graph });
                true
            },
            None => {
                proof {
                    assert(self.describes(shape) && shape.wf() && compile_fails(&shape));
                }
                false
            },
        }
    }

    /// The shape of the graph cannot be compiled: a permanent resource
    /// without exactly one producer, a consumed or borrowed resource without
    /// a producer, or compiling fails (see [`compile_fails`]).
    pub open spec fn cannot_compile(&self) -> bool {
        exists|s: GraphShape| #[trigger] self.describes(s) && s.wf() && (!compilable(&s) || compile_fails(&s))
    }
}


impl RenderGraph {
    /// Computing resource `k` with the kept compiled form is refused: the
    /// resource was added after compiling, or no result is remembered for
    /// the up-to-date list and the resource is not a permanent one made by a
    /// node.
    pub open spec fn compute_refused(&self, k: u64) -> bool {
        let shape = self.compiled_shape();
        let x = self.resource_index(k);
        ||| x >= shape.resource_count()
        ||| !self.compiled_graph().cache_hit() && !(shape.permanent@[x] && shape.producers_spec(x as usize)[0] is Node)
    }

    /// What computing the resource `resource` takes, with the kept compiled
    /// form: the graph inputs it needs, the nodes to run (by their dense
    /// index, see [`RenderGraph::node_at`]) and the permanent resources they
    /// create. Nothing when that is refused.
    pub fn compute_prepared(&mut self, resource: UntypedResourceHandle) -> (r: Option<ComputeResult>)
        requires
            old(self).wf(),
            old(self).is_compiled(),
            old(self).resources_spec().contains_key(resource@),
        ensures
            final(self).wf(),
            final(self).same_content(old(self)),
            final(self).is_compiled(),
            final(self).compiled_shape() == old(self).compiled_shape(),
            r is None <==> old(self).compute_refused(resource@),
            r is None ==> final(self).compiled_graph() == old(self).compiled_graph(),
            r matches Some(res) ==> computes(
                old(self).compiled_graph(),
                final(self).compiled_graph(),
                &old(self).compiled_shape(),
                old(self).resource_index(resource@) as usize,
                res,
            ),
    {
        proof {
            self.resources.lemma_handles(resource@);
        }
        let d = self.resources.get_dense_index(resource.handle()).unwrap();
        let x = d.as_usize();
        let mut c = match self.compiled.take() {
            Some(c) => c,
            None => return None,
        };
        proof {
            c.graph.lemma_wf_shape(&c.shape);
        }
        if x >= c.shape.permanent.len() {
            self.compiled = Some(c);
            return None;
        }
        if !c.graph.cached() {
            let producers = c.shape.producers_of(x);
            let by_node = c.shape.permanent[x] && producers.len() > 0 && match producers[0] {
                InputOrNode::Node(_) => true,
                InputOrNode::Input => false,
            };
            if !by_node {
                proof {
                    if c.shape.permanent@[x as int] {
                        assert(c.shape.producers_spec(x).len() == 1);
                    }
                }
                self.compiled = Some(c);
                return None;
            }
        }
        let res = c.graph.compute(&c.shape, x);
        self.compiled = Some(c);
        Some(res)
    }

    /// Compiles the graph if no compiled form is kept, then gives what
    /// computing `resource` takes; nothing when compiling fails or
    /// computing is refused.
    pub fn compute_untyped(&mut self, resource: UntypedResourceHandle) -> (r: Option<ComputeResult>)
        requires
            old(self).wf(),
            old(self).resources_spec().contains_key(resource@),
        ensures
            final(self).wf(),
            final(self).same_content(old(self)),
            old(self).is_compiled() ==> final(self).is_compiled() && final(self).compiled_shape() == old(self).compiled_shape()
                && (r is None <==> old(self).compute_refused(resource@)),
            r is Some ==> final(self).is_compiled(),
            !old(self).is_compiled() && final(self).is_compiled() ==> old(self).describes(final(self).compiled_shape()),
            !final(self).is_compiled() ==> r is None && old(self).cannot_compile(),
            final(self).is_compiled() && r is None ==> final(self).compute_refused(resource@),
            !old(self).is_compiled() && final(self).is_compiled() ==> (r is None <==> final(self).compute_refused(resource@)),
            forall|s: GraphShape| old(self).describes(s) && compilable(&s) && single_sourced(&s) && sole_resolution_orders(&s)
                ==> final(self).is_compiled(),
            r matches Some(res) ==> exists|g0: CompiledGraph| {
                &&& (old(self).is_compiled() ==> g0 == old(self).compiled_graph())
                &&& (!old(self).is_compiled() ==> g0.up_to_date().len() == 0 && g0.remembered().len() == 0)
                &&& computes(g0, final(self).compiled_graph(), &final(self).compiled_shape(), final(self).resource_index(resource@) as usize, res)
            },
    {
        if !self.prepare_run() {
            return None;
        }
        let ghost mid = *self;
        let r = self.compute_prepared(resource);
        proof {
            if r is Some {
                assert(computes(mid.compiled_graph(), self.compiled_graph(), &self.compiled_shape(), self.resource_index(resource@) as usize, r->0));
            }
        }
        r
    }

    /// Records the permanent resources that running `result` created as up
    /// to date, when a compiled form is kept and they can be recorded: see
    /// [`CompiledGraph::can_record`]. False, and nothing changes, otherwise.
    pub fn finish_compute(&mut self, result: &ComputeResult) -> (r: bool)
        requires
            old(self).wf(),
        ensures
            final(self).wf(),
            final(self).same_content(old(self)),
            final(self).is_compiled() == old(self).is_compiled(),
            final(self).compiled_shape() == old(self).compiled_shape(),
            r == (old(self).is_compiled() && old(self).compiled_graph().can_record(&old(self).compiled_shape(), result)),
            !r ==> final(self).same_compiled(old(self)),
            r ==> {
                &&& final(self).compiled_graph().resolution() == old(self).compiled_graph().resolution()
                &&& final(self).compiled_graph().order() == old(self).compiled_graph().order()
                &&& final(self).compiled_graph().remembered() == old(self).compiled_graph().remembered()
                &&& forall|x: usize| #[trigger] final(self).compiled_graph().up_to_date().contains(x)
                    == (old(self).compiled_graph().up_to_date().contains(x) || result.new_permanents().contains(x))
            },
    {
        let mut c = match self.compiled.take() {
            Some(c) => c,
            None => return false,
        };
        proof {
            c.graph.lemma_wf_shape(&c.shape);
        }
        if !c.graph.check_record(&c.shape, result) {
            self.compiled = Some(c);
            return false;
        }
        c.graph.apply_compute_result(&c.shape, result);
        self.compiled = Some(c);
        true
    }

    /// Whether a compiled form is kept.
    pub fn is_prepared(&self) -> (r: bool)
        ensures
            r == self.is_compiled(),
    {
        self.compiled.is_some()
    }

    /// The node at dense index `index`, if there is one.
    pub fn node_at(&self, index: usize) -> (r: Option<UntypedNodeHandle>)
        requires
            self.wf(),
        ensures
            r is Some <==> index < self.node_values().len(),
            r matches Some(h) ==> self.nodes_spec().contains_key(h@) && self.nodes_spec()[h@] == self.node_values()[index as int],
    {
        if index >= self.nodes.len() {
            return None;
        }
        proof {
            self.nodes.lemma_value_count();
        }
        match self.nodes.from_dense_index(DenseIdx::from_usize(index)) {
            Some(h) => Some(UntypedNodeHandle::new(h)),
            None => None,
        }
    }

    /// The resource at dense index `index`, if there is one.
    pub fn resource_at(&self, index: usize) -> (r: Option<UntypedResourceHandle>)
        requires
            self.wf(),
        ensures
            r is Some <==> index < self.resource_values().len(),
            r matches Some(h) ==> self.resources_spec().contains_key(h@) && self.resources_spec()[h@] == self.resource_values()[index as int],
    {
        if index >= self.resources.len() {
            return None;
        }
        proof {
            self.resources.lemma_value_count();
        }
        match self.resources.from_dense_index(DenseIdx::from_usize(index)) {
            Some(h) => Some(UntypedResourceHandle::new(h)),
            None => None,
        }
    }
}

} // verus!
