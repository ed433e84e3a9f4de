//! The first render graph of the engine: nodes that consume their inputs
//! and produce their outputs, identified by type, and the order in which
//! they can run.

use vstd::prelude::*;

use crate::dot::first_seen;

verus! {

/// A node of the graph: its type, the resources it consumes and the
/// resources it produces.
pub struct NodeData {
    pub type_id: u64,
    pub inputs: Vec<u64>,
    pub outputs: Vec<u64>,
}

/// A render graph: the resources given as inputs and the nodes.
pub struct RenderGraph {
    inputs: Vec<u64>,
    nodes: Vec<NodeData>,
}

/// `s` holds no resource twice.
pub open spec fn no_repeats(s: Seq<u64>) -> bool {
    forall|i: int, j: int| 0 <= i < j < s.len() ==> s[i] != s[j]
}

/// The resources after running `node` on `available`: its inputs are
/// consumed, its outputs added.
pub open spec fn after_node(available: Set<u64>, node: &NodeData) -> Set<u64> {
    available.difference(node.inputs@.to_set()).union(node.outputs@.to_set())
}

/// True if `v` holds `x`.
fn holds(v: &Vec<u64>, x: u64) -> (r: bool)
    ensures
        r == v@.contains(x),
{
    let mut i: usize = 0;
    while i < v.len()
        invariant
            i <= v@.len(),
            forall|j: int| 0 <= j < i ==> v@[j] != x,
        decreases v@.len() - i,
    {
        if v[i] == x {
            assert(v@[i as int] == x);
            return true;
        }
        i = i + 1;
    }
    false
}

/// Adds `x` to the set `v`.
fn set_insert(v: &mut Vec<u64>, x: u64)
    requires
        no_repeats(old(v)@),
    ensures
        no_repeats(final(v)@),
        final(v)@.to_set() == old(v)@.to_set().insert(x),
{
    if !holds(v, x) {
        let ghost before = v@;
        v.push(x);
        proof {
            assert forall|i: int, j: int| 0 <= i < j < v@.len() implies v@[i] != v@[j] by {
                if j == before.len() {
                    assert(v@[i] == before[i]);
                    assert(before.contains(before[i]));
                }
            }
            assert forall|y: u64| #[trigger] v@.to_set().contains(y) == before.to_set().insert(x).contains(y) by {
                if v@.contains(y) && y != x {
                    let i = choose|i: int| 0 <= i < v@.len() && v@[i] == y;
                    assert(before[i] == y);
                }
                if before.contains(y) {
                    let i = choose|i: int| 0 <= i < before.len() && before[i] == y;
                    assert(v@[i] == y);
                }
                if y == x {
                    assert(v@[before.len() as int] == x);
                }
            }
            assert(v@.to_set() =~= before.to_set().insert(x));
        }
    } else {
        assert(v@.to_set() =~= v@.to_set().insert(x));
    }
}

/// Removes `x` from the set `v`.
fn set_remove(v: &mut Vec<u64>, x: u64)
    requires
        no_repeats(old(v)@),
    ensures
        no_repeats(final(v)@),
        final(v)@.to_set() == old(v)@.to_set().remove(x),
{
    let mut i: usize = 0;
    while i < v.len()
        invariant
            v@ == old(v)@,
            no_repeats(v@),
            i <= v@.len(),
            forall|j: int| 0 <= j < i ==> v@[j] != x,
        decreases v@.len() - i,
    {
        if v[i] == x {
            let ghost before = v@;
            v.remove(i);
            proof {
                assert(v@ =~= before.subrange(0, i as int) + before.subrange(i as int + 1, before.len() as int));
                assert forall|a: int, b: int| 0 <= a < b < v@.len() implies v@[a] != v@[b] by {
                    let a2 = if a < i { a } else { a + 1 };
                    let b2 = if b < i { b } else { b + 1 };
                    assert(v@[a] == before[a2] && v@[b] == before[b2]);
                }
                assert forall|y: u64| #[trigger] v@.to_set().contains(y) == before.to_set().remove(x).contains(y) by {
                    if v@.contains(y) {
                        let a = choose|a: int| 0 <= a < v@.len() && v@[a] == y;
                        let a2 = if a < i { a } else { a + 1 };
                        assert(before[a2] == y);
                        assert(a2 != i);
                    }
                    if before.contains(y) && y != x {
                        let a = choose|a: int| 0 <= a < before.len() && before[a] == y;
                        if a < i {
                            assert(v@[a] == y);
                        } else {
                            assert(a != i);
                            assert(v@[a - 1] == y);
                        }
                    }
                }
                assert(v@.to_set() =~= before.to_set().remove(x));
            }
            return;
        }
        i = i + 1;
    }
    proof {
        assert(!v@.contains(x));
        assert(v@.to_set() =~= v@.to_set().remove(x));
    }
}

/// True if every resource of `needed` is in `available`.
fn all_available(available: &Vec<u64>, needed: &Vec<u64>) -> (r: bool)
    ensures
        r == forall|j: int| 0 <= j < needed@.len() ==> available@.contains(#[trigger] needed@[j]),
{
    let mut i: usize = 0;
    while i < needed.len()
        invariant
            i <= needed@.len(),
            forall|j: int| 0 <= j < i ==> available@.contains(#[trigger] needed@[j]),
        decreases needed@.len() - i,
    {
        if !holds(available, needed[i]) {
            return false;
        }
        i = i + 1;
    }
    true
}

impl RenderGraph {
    pub closed spec fn input_set(&self) -> Set<u64> {
        self.inputs@.to_set()
    }

    pub closed spec fn node_list(&self) -> Seq<NodeData> {
        self.nodes@
    }

    pub closed spec fn wf(&self) -> bool {
        no_repeats(self.inputs@)
    }

    /// An empty graph.
    pub fn new() -> (r: Self)
        ensures
            r.wf(),
            r.input_set() == Set::<u64>::empty(),
            r.node_list().len() == 0,
    {
        let r = RenderGraph { inputs: Vec::new(), nodes: Vec::new() };
        assert(r.inputs@.to_set() =~= Set::<u64>::empty());
        r
    }

    /// Makes `resource` an input of the graph.
    pub fn define_input(&mut self, resource: u64)
        requires
            old(self).wf(),
        ensures
            final(self).wf(),
            final(self).input_set() == old(self).input_set().insert(resource),
            final(self).node_list() == old(self).node_list(),
    {
        set_insert(&mut self.inputs, resource);
    }

    /// Adds a node.
    pub fn push_node(&mut self, node: NodeData)
        requires
            old(self).wf(),
        ensures
            final(self).wf(),
            final(self).input_set() == old(self).input_set(),
            final(self).node_list() == old(self).node_list().push(node),
    {
        self.nodes.push(node);
    }

    /// The resources available after running the nodes `steps` in turn.
    pub open spec fn available_after(&self, steps: Seq<usize>) -> Set<u64>
        decreases steps.len(),
    {
        if steps.len() == 0 {
            self.input_set()
        } else {
            after_node(self.available_after(steps.drop_last()), &self.node_list()[steps.last() as int])
        }
    }

    /// Some input of node `x` is not in `available`.
    pub open spec fn blocked(&self, available: Set<u64>, x: usize) -> bool {
        exists|i: int| 0 <= i < self.node_list()[x as int].inputs@.len() && !available.contains(#[trigger] self.node_list()[x as int].inputs@[i])
    }

    /// After the nodes `done`, none of the nodes `rest` has all its inputs
    /// available; `done` and `rest` together are all the nodes, each once.
    pub open spec fn stuck(&self, done: Seq<usize>, rest: Seq<usize>) -> bool {
        &&& rest.len() > 0
        &&& done.len() + rest.len() == self.node_list().len()
        &&& forall|k: int| 0 <= k < done.len() ==> (#[trigger] done[k] as int) < self.node_list().len()
        &&& forall|k: int| 0 <= k < rest.len() ==> (#[trigger] rest[k] as int) < self.node_list().len()
        &&& forall|a: int, b: int| 0 <= a < b < done.len() ==> done[a] != done[b]
        &&& forall|a: int, b: int| 0 <= a < b < rest.len() ==> rest[a] != rest[b]
        &&& forall|a: int, b: int| 0 <= a < done.len() && 0 <= b < rest.len() ==> done[a] != rest[b]
        &&& forall|k: int| 0 <= k < rest.len() ==> self.blocked(self.available_after(done), #[trigger] rest[k])
    }

    /// One pass over the nodes `rem`, in order, from the resources `avail`,
    /// taking each node whose inputs are all available at its turn: the
    /// nodes taken, the nodes left, and the resources after the pass.
    pub open spec fn pass(&self, avail: Set<u64>, rem: Seq<usize>) -> (Seq<usize>, Seq<usize>, Set<u64>)
        decreases rem.len(),
    {
        if rem.len() == 0 {
            (Seq::empty(), Seq::empty(), avail)
        } else {
            let p = self.pass(avail, rem.drop_last());
            let x = rem.last();
            if !self.blocked(p.2, x) {
                (p.0.push(x), p.1, after_node(p.2, &self.node_list()[x as int]))
            } else {
                (p.0, p.1.push(x), p.2)
            }
        }
    }

    /// Passes over `rem` until every node is taken (the order they were
    /// taken in) or a pass takes none (`None`); `fuel` bounds the passes.
    pub open spec fn passes(&self, avail: Set<u64>, rem: Seq<usize>, fuel: nat) -> Option<Seq<usize>>
        decreases fuel,
    {
        if rem.len() == 0 {
            Some(Seq::empty())
        } else if fuel == 0 {
            None
        } else {
            let p = self.pass(avail, rem);
            if p.0.len() == 0 {
                None
            } else {
                match self.passes(p.2, p.1, (fuel - 1) as nat) {
                    Some(rest) => Some(p.0 + rest),
                    None => None,
                }
            }
        }
    }

    /// The order of the passes over all nodes from the graph's inputs.
    pub open spec fn greedy_steps(&self) -> Option<Seq<usize>> {
        self.passes(self.input_set(), Seq::new(self.node_list().len(), |i: int| i as usize), self.node_list().len())
    }

    /// A pass takes or leaves each node once.
    proof fn lemma_pass_len(&self, avail: Set<u64>, rem: Seq<usize>)
        ensures
            self.pass(avail, rem).0.len() + self.pass(avail, rem).1.len() == rem.len(),
        decreases rem.len(),
    {
        if rem.len() > 0 {
            self.lemma_pass_len(avail, rem.drop_last());
        }
    }

    /// Enough fuel gives the same passes.
    proof fn lemma_passes_fuel(&self, avail: Set<u64>, rem: Seq<usize>, fuel: nat)
        requires
            fuel >= rem.len(),
        ensures
            self.passes(avail, rem, fuel) == self.passes(avail, rem, rem.len()),
        decreases fuel,
    {
        if rem.len() > 0 {
            let p = self.pass(avail, rem);
            self.lemma_pass_len(avail, rem);
            if p.0.len() > 0 {
                self.lemma_passes_fuel(p.2, p.1, (fuel - 1) as nat);
                self.lemma_passes_fuel(p.2, p.1, (rem.len() - 1) as nat);
            }
        }
    }

    /// The order in which the nodes of a valid graph run: see
    /// [`RenderGraph::try_construct_steps`]. The graph must be one where no
    /// pass gets stuck.
    pub fn construct_steps(&self) -> (r: Vec<usize>)
        requires
            self.wf(),
            self.greedy_steps() is Some,
        ensures
            r@ == self.greedy_steps()->0,
            r@.len() == self.node_list().len(),
            forall|k: int| 0 <= k < r@.len() ==> (#[trigger] r@[k] as int) < self.node_list().len(),
            forall|a: int, b: int| 0 <= a < b < r@.len() ==> r@[a] != r@[b],
            forall|k: int, i: int|
                0 <= k < r@.len() && 0 <= i < self.node_list()[r@[k] as int].inputs@.len() ==> self.available_after(
                    r@.take(k),
                ).contains(#[trigger] self.node_list()[r@[k] as int].inputs@[i]),
    {
        match self.try_construct_steps() {
            Some(steps) => steps,
            None => {
                proof {
                    assert(false);
                }
                Vec::new()
            },
        }
    }

    /// An order in which the nodes can run, each once, every node when all
    /// its inputs are available: in passes over the nodes not yet taken, in
    /// order, taking each node whose inputs are available at its turn.
    /// Nothing when a pass takes no node: the graph is invalid.
    #[verifier::rlimit(60)]
    pub fn try_construct_steps(&self) -> (r: Option<Vec<usize>>)
        requires
            self.wf(),
        ensures
            r matches Some(steps) ==> {
                &&& steps@.len() == self.node_list().len()
                &&& forall|k: int| 0 <= k < steps@.len() ==> (#[trigger] steps@[k] as int) < self.node_list().len()
                &&& forall|a: int, b: int| 0 <= a < b < steps@.len() ==> steps@[a] != steps@[b]
                &&& forall|k: int, i: int|
                    0 <= k < steps@.len() && 0 <= i < self.node_list()[steps@[k] as int].inputs@.len() ==> self.available_after(
                        steps@.take(k),
                    ).contains(#[trigger] self.node_list()[steps@[k] as int].inputs@[i])
            },
            r is None ==> exists|done: Seq<usize>, rest: Seq<usize>| #[trigger] self.stuck(done, rest),
            self.greedy_steps() == (match r {
                Some(steps) => Some(steps@),
                None => None::<Seq<usize>>,
            }),
    {
        let n = self.nodes.len();
        let mut steps: Vec<usize> = Vec::new();
        let mut resources: Vec<u64> = Vec::new();
        let mut q: usize = 0;
        while q < self.inputs.len()
            invariant
                q <= self.inputs@.len(),
                resources@ == self.inputs@.take(q as int),
            decreases self.inputs@.len() - q,
        {
            resources.push(self.inputs[q]);
            q = q + 1;
            assert(resources@ =~= self.inputs@.take(q as int));
        }
        assert(self.inputs@.take(self.inputs@.len() as int) =~= self.inputs@);
        let mut remaining: Vec<usize> = Vec::new();
        let mut q: usize = 0;
        while q < n
            invariant
                q <= n,
                remaining@ == Seq::new(q as nat, |i: int| i as usize),
            decreases n - q,
        {
            remaining.push(q);
            q = q + 1;
            assert(remaining@ =~= Seq::new(q as nat, |i: int| i as usize));
        }
        proof {
            assert(steps@.take(0) =~= steps@);
            assert(resources@.to_set() == self.input_set());
            assert(remaining@ =~= Seq::new(self.node_list().len(), |i: int| i as usize));
            match self.greedy_steps() {
                Some(g) => { assert(steps@ + g =~= g); },
                None => {},
            }
        }
        while remaining.len() > 0
            invariant
                self.wf(),
                n == self.node_list().len(),
                self.greedy_steps() == (match self.passes(resources@.to_set(), remaining@, remaining@.len() as nat) {
                    Some(rest) => Some(steps@ + rest),
                    None => None::<Seq<usize>>,
                }),
                no_repeats(resources@),
                resources@.to_set() == self.available_after(steps@),
                steps@.len() + remaining@.len() == n,
                forall|k: int| 0 <= k < steps@.len() ==> (#[trigger] steps@[k] as int) < n,
                forall|k: int| 0 <= k < remaining@.len() ==> (#[trigger] remaining@[k] as int) < n,
                forall|a: int, b: int| 0 <= a < b < steps@.len() ==> steps@[a] != steps@[b],
                forall|a: int, b: int| 0 <= a < b < remaining@.len() ==> remaining@[a] != remaining@[b],
                forall|a: int, b: int| 0 <= a < steps@.len() && 0 <= b < remaining@.len() ==> steps@[a] != remaining@[b],
                forall|k: int, i: int|
                    0 <= k < steps@.len() && 0 <= i < self.node_list()[steps@[k] as int].inputs@.len() ==> self.available_after(
                        steps@.take(k),
                    ).contains(#[trigger] self.node_list()[steps@[k] as int].inputs@[i]),
            decreases remaining@.len(),
        {
            let mut found = false;
            let mut next: Vec<usize> = Vec::new();
            let mut t: usize = 0;
            let ghost taken0 = steps@.len();
            let ghost steps0 = steps@;
            let ghost avail_start = resources@.to_set();
            let ghost g0 = self.greedy_steps();
            proof {
                assert(remaining@.take(0) =~= Seq::<usize>::empty());
                assert(steps@.subrange(taken0 as int, steps@.len() as int) =~= Seq::<usize>::empty());
                assert(steps@.subrange(0, taken0 as int) =~= steps0);
            }
            while t < remaining.len()
                invariant
                    self.wf(),
                    n == self.node_list().len(),
                    no_repeats(resources@),
                    resources@.to_set() == self.available_after(steps@),
                    t <= remaining@.len(),
                    steps@.len() + next@.len() == taken0 + t,
                    steps@.len() + remaining@.len() == n + t - next@.len(),
                    found == (steps@.len() > taken0),
                    steps@.len() >= taken0,
                    steps@.subrange(0, taken0 as int) == steps0,
                    self.pass(avail_start, remaining@.take(t as int)) == (steps@.subrange(taken0 as int, steps@.len() as int), next@, resources@.to_set()),
                    !found ==> next@ == remaining@.take(t as int),
                    !found ==> forall|a: int, b: int| 0 <= a < steps@.len() && 0 <= b < remaining@.len() ==> steps@[a] != remaining@[b],
                    !found ==> forall|k: int| 0 <= k < t ==> self.blocked(resources@.to_set(), #[trigger] remaining@[k]),
                    forall|k: int| 0 <= k < steps@.len() ==> (#[trigger] steps@[k] as int) < n,
                    forall|k: int| 0 <= k < remaining@.len() ==> (#[trigger] remaining@[k] as int) < n,
                    forall|k: int| 0 <= k < next@.len() ==> (#[trigger] next@[k] as int) < n,
                    forall|a: int, b: int| 0 <= a < b < steps@.len() ==> steps@[a] != steps@[b],
                    forall|a: int, b: int| 0 <= a < b < remaining@.len() ==> remaining@[a] != remaining@[b],
                    forall|a: int, b: int| 0 <= a < b < next@.len() ==> next@[a] != next@[b],
                    forall|a: int, b: int| 0 <= a < steps@.len() && 0 <= b < next@.len() ==> steps@[a] != next@[b],
                    forall|a: int, b: int| 0 <= a < steps@.len() && t <= b < remaining@.len() ==> steps@[a] != remaining@[b],
                    forall|a: int, b: int| 0 <= a < next@.len() && t <= b < remaining@.len() ==> next@[a] != remaining@[b],
                    forall|k: int, i: int|
                        0 <= k < steps@.len() && 0 <= i < self.node_list()[steps@[k] as int].inputs@.len() ==> self.available_after(
                            steps@.take(k),
                        ).contains(#[trigger] self.node_list()[steps@[k] as int].inputs@[i]),
                decreases remaining@.len() - t,
            {
                let idx = remaining[t];
                let node = &self.nodes[idx];
                let ready = all_available(&resources, &node.inputs);
                let ghost p_before = self.pass(avail_start, remaining@.take(t as int));
                let ghost sub0 = steps@.subrange(taken0 as int, steps@.len() as int);
                let ghost next0 = next@;
                proof {
                    assert(remaining@.take(t + 1).drop_last() =~= remaining@.take(t as int));
                    assert(remaining@.take(t + 1).last() == idx);
                    assert(self.node_list()[idx as int] == *node);
                    if ready {
                        assert(!self.blocked(resources@.to_set(), idx)) by {
                            if self.blocked(resources@.to_set(), idx) {
                                let j = choose|j: int| 0 <= j < self.node_list()[idx as int].inputs@.len()
                                    && !resources@.to_set().contains(#[trigger] self.node_list()[idx as int].inputs@[j]);
                                assert(resources@.contains(node.inputs@[j]));
                            }
                        }
                    } else {
                        let j = choose|j: int| 0 <= j < node.inputs@.len() && !resources@.contains(#[trigger] node.inputs@[j]);
                        assert(!resources@.to_set().contains(self.node_list()[idx as int].inputs@[j]));
                        assert(self.blocked(resources@.to_set(), idx));
                    }
                }
                if ready {
                    let ghost st0 = steps@;
                    let ghost avail0 = resources@.to_set();
                    steps.push(idx);
                    let mut a: usize = 0;
                    while a < node.inputs.len()
                        invariant
                            no_repeats(resources@),
                            a <= node.inputs@.len(),
                            resources@.to_set() == avail0.difference(node.inputs@.take(a as int).to_set()),
                        decreases node.inputs@.len() - a,
                    {
                        set_remove(&mut resources, node.inputs[a]);
                        proof {
                            assert(node.inputs@.take(a as int + 1) =~= node.inputs@.take(a as int).push(node.inputs@[a as int]));
                            node.inputs@.take(a as int).lemma_push_to_set_commute(node.inputs@[a as int]);
                            assert(resources@.to_set() =~= avail0.difference(node.inputs@.take(a as int + 1).to_set()));
                        }
                        a = a + 1;
                    }
                    proof {
                        assert(node.inputs@.take(node.inputs@.len() as int) =~= node.inputs@);
                    }
                    let mut b: usize = 0;
                    while b < node.outputs.len()
                        invariant
                            no_repeats(resources@),
                            b <= node.outputs@.len(),
                            resources@.to_set() == avail0.difference(node.inputs@.to_set()).union(node.outputs@.take(b as int).to_set()),
                        decreases node.outputs@.len() - b,
                    {
                        set_insert(&mut resources, node.outputs[b]);
                        proof {
                            assert(node.outputs@.take(b as int + 1) =~= node.outputs@.take(b as int).push(node.outputs@[b as int]));
                            node.outputs@.take(b as int).lemma_push_to_set_commute(node.outputs@[b as int]);
                            assert(resources@.to_set() =~= avail0.difference(node.inputs@.to_set()).union(node.outputs@.take(b as int + 1).to_set()));
                        }
                        b = b + 1;
                    }
                    proof {
                        assert(node.outputs@.take(node.outputs@.len() as int) =~= node.outputs@);
                        assert(steps@.drop_last() =~= st0);
                        assert(resources@.to_set() == self.available_after(steps@));
                        assert forall|k: int, i2: int|
                            0 <= k < steps@.len() && 0 <= i2 < self.node_list()[steps@[k] as int].inputs@.len() implies self.available_after(
                                steps@.take(k),
                            ).contains(#[trigger] self.node_list()[steps@[k] as int].inputs@[i2]) by {
                            if k < st0.len() {
                                assert(steps@.take(k) =~= st0.take(k));
                                assert(steps@[k] == st0[k]);
                            } else {
                                assert(steps@.take(k) =~= st0);
                                assert(avail0.contains(node.inputs@[i2]));
                            }
                        }
                    }
                    found = true;
                    proof {
                        assert(steps@.subrange(taken0 as int, steps@.len() as int) =~= sub0.push(idx));
                        assert(steps@.subrange(0, taken0 as int) =~= steps0);
                        assert(resources@.to_set() == after_node(avail0, &self.node_list()[idx as int]));
                    }
                } else {
                    let ghost nx0 = next@;
                    next.push(idx);
                    proof {
                        if !found {
                            assert(next@ =~= remaining@.take(t as int + 1));
                            let j = choose|j: int| 0 <= j < node.inputs@.len() && !resources@.contains(#[trigger] node.inputs@[j]);
                            assert(self.node_list()[remaining@[t as int] as int].inputs@[j] == node.inputs@[j]);
                            assert(!resources@.to_set().contains(node.inputs@[j]));
                            assert(self.blocked(resources@.to_set(), remaining@[t as int]));
                        }
                    }
                }
                t = t + 1;
            }
            proof {
                assert(remaining@.take(t as int) =~= remaining@);
            }
            if !found {
                proof {
                    assert(steps@.subrange(taken0 as int, steps@.len() as int) =~= Seq::<usize>::empty());
                    assert forall|k: int| 0 <= k < remaining@.len() implies self.blocked(self.available_after(steps@), #[trigger] remaining@[k]) by {
                        assert(self.blocked(resources@.to_set(), remaining@[k]));
                    }
                    assert(self.stuck(steps@, remaining@));
                }
                return None;
            }
            proof {
                let tk = steps@.subrange(taken0 as int, steps@.len() as int);
                let L = remaining@.len();
                self.lemma_pass_len(avail_start, remaining@);
                self.lemma_passes_fuel(resources@.to_set(), next@, (L - 1) as nat);
                assert(steps@ =~= steps0 + tk);
                match self.passes(resources@.to_set(), next@, next@.len() as nat) {
                    Some(rest) => {
                        assert(steps0 + (tk + rest) =~= steps@ + rest);
                    },
                    None => {},
                }
            }
            remaining = next;
        }
        proof {
            match self.greedy_steps() {
                Some(g) => { assert(steps@ + Seq::<usize>::empty() =~= steps@); },
                None => {},
            }
        }
        Some(steps)
    }
}

/// The stages of a frame, in the order they are drawn.
#[derive(Clone, Copy, PartialEq, Eq, Structural, PartialOrd, Ord, Hash, Debug)]
pub enum RenderStage {
    /// Drawn in no stage.
    NoStage,
    Background,
    Content3D,
    Content2D,
    UI,
}

/// The names of the types that take part in a graph, by type id.
pub struct TypeNameRegistry {
    content: Vec<(u64, &'static str)>,
}

impl View for TypeNameRegistry {
    type V = Map<u64, &'static str>;

    closed spec fn view(&self) -> Map<u64, &'static str> {
        Map::new(
            |id: u64| exists|i: int| 0 <= i < self.content.len() && #[trigger] self.content@[i].0 == id,
            |id: u64| self.content@[choose|i: int| 0 <= i < self.content.len() && #[trigger] self.content@[i].0 == id].1,
        )
    }
}

impl TypeNameRegistry {
    #[verifier::type_invariant]
    spec fn ids_distinct(self) -> bool {
        forall|i: int, j: int| 0 <= i < j < self.content.len() ==> self.content@[i].0 != self.content@[j].0
    }

    pub fn new() -> (r: Self)
        ensures
            r@ == Map::<u64, &'static str>::empty(),
    {
        let r = TypeNameRegistry { content: Vec::new() };
        proof {
            assert(r@ =~= Map::<u64, &'static str>::empty());
        }
        r
    }

    fn position(&self, id: u64) -> (r: Option<usize>)
        ensures
            match r {
                Some(i) => i < self.content.len() && self.content@[i as int].0 == id,
                None => forall|i: int| 0 <= i < self.content.len() ==> self.content@[i].0 != id,
            },
    {
        let mut i: usize = 0;
        while i < self.content.len()
            invariant
                i <= self.content.len(),
                forall|j: int| 0 <= j < i ==> self.content@[j].0 != id,
            decreases self.content.len() - i,
        {
            if self.content[i].0 == id {
                return Some(i);
            }
            i = i + 1;
        }
        None
    }

    /// Records `name` as the name of the type `id`.
    pub fn register(&mut self, id: u64, name: &'static str)
        ensures
            final(self)@ == old(self)@.insert(id, name),
    {
        proof {
            use_type_invariant(&*self);
        }
        let ghost old_content = self.content@;
        match self.position(id) {
            Some(i) => {
                let mut content: Vec<(u64, &'static str)> = Vec::new();
                std::mem::swap(&mut content, &mut self.content);
                content.set(i, (id, name));
                self.content = content;
                proof {
                    assert forall|k: u64| #[trigger] self@.dom().contains(k) == old(self)@.insert(id, name).dom().contains(k) by {
                        if k != id {
                            if old(self)@.dom().contains(k) {
                                let j = choose|j: int| 0 <= j < old_content.len() && #[trigger] old_content[j].0 == k;
                                assert(self.content@[j].0 == k);
                            }
                            if self@.dom().contains(k) {
                                let j = choose|j: int| 0 <= j < self.content.len() && #[trigger] self.content@[j].0 == k;
                                assert(old_content[j].0 == k);
                            }
                        } else {
                            assert(self.content@[i as int].0 == k);
                        }
                    }
                    assert forall|k: u64| #[trigger] self@.dom().contains(k) implies self@[k] == old(self)@.insert(id, name)[k] by {
                        let j = choose|j: int| 0 <= j < self.content.len() && #[trigger] self.content@[j].0 == k;
                        if k == id {
                            assert(j == i);
                        } else {
                            assert(old_content[j].0 == k);
                            let jj = choose|jj: int| 0 <= jj < old_content.len() && #[trigger] old_content[jj].0 == k;
                            assert(jj == j);
                        }
                    }
                    assert(self@ =~= old(self)@.insert(id, name));
                }
            },
            None => {
                let mut content: Vec<(u64, &'static str)> = Vec::new();
                std::mem::swap(&mut content, &mut self.content);
                content.push((id, name));
                self.content = content;
                proof {
                    let n = old_content.len() as int;
                    assert forall|k: u64| #[trigger] self@.dom().contains(k) == old(self)@.insert(id, name).dom().contains(k) by {
                        if k != id {
                            if old(self)@.dom().contains(k) {
                                let j = choose|j: int| 0 <= j < old_content.len() && #[trigger] old_content[j].0 == k;
                                assert(self.content@[j].0 == k);
                            }
                            if self@.dom().contains(k) {
                                let j = choose|j: int| 0 <= j < self.content.len() && #[trigger] self.content@[j].0 == k;
                                assert(old_content[j].0 == k);
                            }
                        } else {
                            assert(self.content@[n].0 == k);
                        }
                    }
                    assert forall|k: u64| #[trigger] self@.dom().contains(k) implies self@[k] == old(self)@.insert(id, name)[k] by {
                        let j = choose|j: int| 0 <= j < self.content.len() && #[trigger] self.content@[j].0 == k;
                        if k == id {
                            assert(j == n);
                        } else {
                            assert(old_content[j].0 == k);
                            let jj = choose|jj: int| 0 <= jj < old_content.len() && #[trigger] old_content[jj].0 == k;
                            assert(jj == j);
                        }
                    }
                    assert(self@ =~= old(self)@.insert(id, name));
                }
            },
        }
    }

    /// The name recorded for the type `id`.
    pub fn get_name(&self, id: u64) -> (r: Option<&'static str>)
        ensures
            r == (if self@.dom().contains(id) { Some(self@[id]) } else { None::<&'static str> }),
    {
        proof {
            use_type_invariant(self);
        }
        match self.position(id) {
            Some(i) => {
                proof {
                    let j = choose|j: int| 0 <= j < self.content.len() && #[trigger] self.content@[j].0 == id;
                    assert(j == i);
                }
                Some(self.content[i].1)
            },
            None => None,
        }
    }
}

impl Default for TypeNameRegistry {
    fn default() -> (r: Self)
        ensures
            r@ == Map::<u64, &'static str>::empty(),
    {
        Self::new()
    }
}


/// What an item of the drawing of a [`RenderGraph`] stands for.
#[derive(PartialEq, Eq, Structural, Clone, Copy, Debug)]
pub enum DotKind {
    /// A resource given as input.
    Input,
    /// A node.
    Node,
    /// A resource the current node consumes: an edge into it.
    Consumed,
    /// A resource the current node produces: an edge out of it.
    Produced,
}

/// One item of the drawing of a [`RenderGraph`].
#[derive(PartialEq, Eq, Structural, Clone, Copy, Debug)]
pub struct DotEntry {
    pub kind: DotKind,
    /// The node's type, or the resource.
    pub id: u64,
    /// Its number in the drawing: `N0`, `N1`, ... for node types, `R0`,
    /// `R1`, ... for resources, in order of first appearance.
    pub name: usize,
    /// The item is declared here: always for inputs and nodes, for other
    /// resources at the first item that mentions the id.
    pub declares: bool,
}

/// The items of the drawing of one node: the node, the resources it
/// consumes, the resources it produces.
pub open spec fn node_events(n: NodeData) -> Seq<(DotKind, u64)> {
    seq![(DotKind::Node, n.type_id)] + n.inputs@.map_values(|r: u64| (DotKind::Consumed, r))
        + n.outputs@.map_values(|r: u64| (DotKind::Produced, r))
}

/// The items of the drawing of the nodes `nodes`, in order.
pub open spec fn nodes_events(nodes: Seq<NodeData>) -> Seq<(DotKind, u64)>
    decreases nodes.len(),
{
    if nodes.len() == 0 {
        Seq::empty()
    } else {
        nodes_events(nodes.drop_last()) + node_events(nodes.last())
    }
}

/// The ids of the items of `evs` that are node types (`nodes`) or
/// resources (`!nodes`), in order.
pub open spec fn event_ids(evs: Seq<(DotKind, u64)>, nodes: bool) -> Seq<u64>
    decreases evs.len(),
{
    if evs.len() == 0 {
        Seq::empty()
    } else {
        let rest = event_ids(evs.drop_last(), nodes);
        if (evs.last().0 == DotKind::Node) == nodes { rest.push(evs.last().1) } else { rest }
    }
}

/// What the item at `p` of the drawing with items `evs` must be.
pub open spec fn entry_drawn(evs: Seq<(DotKind, u64)>, p: int, e: DotEntry) -> bool {
    let ev = evs[p];
    let is_node = ev.0 == DotKind::Node;
    let names = first_seen(event_ids(evs.take(p + 1), is_node));
    &&& e.kind == ev.0
    &&& e.id == ev.1
    &&& e.declares == (ev.0 == DotKind::Input || ev.0 == DotKind::Node || !evs.take(p).map_values(
        |x: (DotKind, u64)| x.1,
    ).contains(ev.1))
    &&& e.name < names.len()
    &&& names[e.name as int] == ev.1
}

/// The position of `x` in `v`.
fn index_of(v: &Vec<u64>, x: u64) -> (r: Option<usize>)
    ensures
        r is Some <==> v@.contains(x),
        r matches Some(i) ==> i < v.len() && v@[i as int] == x,
{
    let mut i: usize = 0;
    while i < v.len()
        invariant
            i <= v.len(),
            forall|k: int| 0 <= k < i ==> v@[k] != x,
        decreases v.len() - i,
    {
        if v[i] == x {
            return Some(i);
        }
        i = i + 1;
    }
    None
}

/// The state of a drawing in progress: the ids met so far, and the names
/// given to node types and to resources.
struct DotState {
    met: Vec<u64>,
    node_names: Vec<u64>,
    resource_names: Vec<u64>,
    out: Vec<DotEntry>,
}

impl DotState {
    spec fn drawn(&self, done: Seq<(DotKind, u64)>) -> bool {
        &&& self.out.len() == done.len()
        &&& self.met@ == done.map_values(|x: (DotKind, u64)| x.1)
        &&& self.node_names@ == first_seen(event_ids(done, true))
        &&& self.resource_names@ == first_seen(event_ids(done, false))
        &&& forall|p: int| 0 <= p < done.len() ==> entry_drawn(done, p, #[trigger] self.out@[p])
    }

    /// Draws the item `(kind, id)` after those of `done`.
    fn draw(&mut self, kind: DotKind, id: u64, Ghost(done): Ghost<Seq<(DotKind, u64)>>)
        requires
            old(self).drawn(done),
        ensures
            final(self).drawn(done.push((kind, id))),
    {
        let ghost next = done.push((kind, id));
        let is_node = kind == DotKind::Node;
        let declares = match kind {
            DotKind::Input => true,
            DotKind::Node => true,
            _ => index_of(&self.met, id).is_none(),
        };
        proof {
            assert(next.drop_last() =~= done);
            assert(next.take(done.len() as int) =~= done);
            assert(next.take(done.len() as int + 1) =~= next);
            assert(event_ids(done, is_node).push(id).drop_last() =~= event_ids(done, is_node));
            assert forall|p: int| 0 <= p < done.len() implies entry_drawn(next, p, #[trigger] self.out@[p]) by {
                assert(next.take(p + 1) =~= done.take(p + 1));
                assert(next.take(p) =~= done.take(p));
                assert(entry_drawn(done, p, self.out@[p]));
            }
        }
        let name = if is_node {
            match index_of(&self.node_names, id) {
                Some(i) => i,
                None => {
                    self.node_names.push(id);
                    self.node_names.len() - 1
                },
            }
        } else {
            match index_of(&self.resource_names, id) {
                Some(i) => i,
                None => {
                    self.resource_names.push(id);
                    self.resource_names.len() - 1
                },
            }
        };
        self.met.push(id);
        self.out.push(DotEntry { kind, id, name, declares });
        proof {
            assert(self.met@ =~= next.map_values(|x: (DotKind, u64)| x.1));
            assert(entry_drawn(next, done.len() as int, self.out@[done.len() as int]));
            assert(self.node_names@ == first_seen(event_ids(next, true)));
            assert(self.resource_names@ == first_seen(event_ids(next, false)));
        }
    }
}

impl RenderGraph {
    /// The inputs, in the order the graph keeps them.
    pub closed spec fn input_order(&self) -> Seq<u64> {
        self.inputs@
    }

    /// The input order holds each input once.
    pub proof fn lemma_input_order(&self)
        requires
            self.wf(),
        ensures
            self.input_order().to_set() == self.input_set(),
            no_repeats(self.input_order()),
    {
    }

    /// The items of a Graphviz drawing of the graph: the inputs, then each
    /// node followed by the resources it consumes and those it produces,
    /// named in order of first appearance. Writing them out as text is left
    /// to the caller.
    pub fn dot_entries(&self) -> (r: Vec<DotEntry>)
        ensures
            r.len() == (self.input_order().map_values(|x: u64| (DotKind::Input, x)) + nodes_events(self.node_list())).len(),
            forall|p: int| 0 <= p < r.len() ==> entry_drawn(
                self.input_order().map_values(|x: u64| (DotKind::Input, x)) + nodes_events(self.node_list()),
                p,
                #[trigger] r@[p],
            ),
    {
        let mut st = DotState { met: Vec::new(), node_names: Vec::new(), resource_names: Vec::new(), out: Vec::new() };
        let ghost mut done: Seq<(DotKind, u64)> = Seq::empty();
        proof {
            assert(st.met@ =~= done.map_values(|x: (DotKind, u64)| x.1));
        }
        let mut i: usize = 0;
        while i < self.inputs.len()
            invariant
                i <= self.inputs.len(),
                st.drawn(done),
                done == self.inputs@.take(i as int).map_values(|x: u64| (DotKind::Input, x)),
            decreases self.inputs.len() - i,
        {
            st.draw(DotKind::Input, self.inputs[i], Ghost(done));
            proof {
                done = done.push((DotKind::Input, self.inputs@[i as int]));
                assert(done =~= self.inputs@.take(i + 1).map_values(|x: u64| (DotKind::Input, x)));
            }
            i = i + 1;
        }
        proof {
            assert(self.inputs@.take(i as int) =~= self.inputs@);
            assert(self.nodes@.take(0) =~= Seq::<NodeData>::empty());
            assert(done =~= done + nodes_events(self.nodes@.take(0)));
        }
        let ghost base = done;
        let mut n: usize = 0;
        while n < self.nodes.len()
            invariant
                n <= self.nodes.len(),
                st.drawn(done),
                base == self.inputs@.map_values(|x: u64| (DotKind::Input, x)),
                done == base + nodes_events(self.nodes@.take(n as int)),
            decreases self.nodes.len() - n,
        {
            let node = &self.nodes[n];
            let ghost start = done;
            st.draw(DotKind::Node, node.type_id, Ghost(done));
            proof {
                done = done.push((DotKind::Node, node.type_id));
            }
            let mut k: usize = 0;
            while k < node.inputs.len()
                invariant
                    k <= node.inputs.len(),
                    st.drawn(done),
                    done == start + seq![(DotKind::Node, node.type_id)] + node.inputs@.take(k as int).map_values(
                        |r: u64| (DotKind::Consumed, r),
                    ),
                decreases node.inputs.len() - k,
            {
                st.draw(DotKind::Consumed, node.inputs[k], Ghost(done));
                proof {
                    done = done.push((DotKind::Consumed, node.inputs@[k as int]));
                    assert(done =~= start + seq![(DotKind::Node, node.type_id)] + node.inputs@.take(k + 1).map_values(
                        |r: u64| (DotKind::Consumed, r),
                    ));
                }
                k = k + 1;
            }
            proof {
                assert(node.inputs@.take(k as int) =~= node.inputs@);
            }
            let ghost mid = done;
            let mut k: usize = 0;
            while k < node.outputs.len()
                invariant
                    k <= node.outputs.len(),
                    st.drawn(done),
                    done == mid + node.outputs@.take(k as int).map_values(|r: u64| (DotKind::Produced, r)),
                decreases node.outputs.len() - k,
            {
                st.draw(DotKind::Produced, node.outputs[k], Ghost(done));
                proof {
                    done = done.push((DotKind::Produced, node.outputs@[k as int]));
                    assert(done =~= mid + node.outputs@.take(k + 1).map_values(|r: u64| (DotKind::Produced, r)));
                }
                k = k + 1;
            }
            proof {
                assert(node.outputs@.take(k as int) =~= node.outputs@);
                assert(self.nodes@.take(n + 1).drop_last() =~= self.nodes@.take(n as int));
                assert(done =~= base + nodes_events(self.nodes@.take(n + 1)));
            }
            n = n + 1;
        }
        proof {
            assert(self.nodes@.take(n as int) =~= self.nodes@);
        }
        st.out
    }
}

} // verus!
