//! What the chunk thread does next: which chunk to generate, in rings of
//! growing distance around the origin, and which chunks still wait to be
//! meshed.
use std::collections::VecDeque;
use ordermap::OrderSet;
use vstd::prelude::*;

verus! {

#[verifier::external_type_specification]
#[verifier::external_body]
#[verifier::reject_recursive_types(T)]
#[verifier::reject_recursive_types(S)]
pub struct ExOrderSet<T, S>(ordermap::OrderSet<T, S>);

/// The chunk positions that an ordered set holds, in their order.
pub uninterp spec fn position_set_items(s: OrderSet<(i64, i64, i64)>) -> Seq<(i64, i64, i64)>;

/// `ordermap::OrderSet::new`: an empty set.
#[verifier::external_body]
fn position_set_new() -> (r: OrderSet<(i64, i64, i64)>)
    ensures
        position_set_items(r) == Seq::<(i64, i64, i64)>::empty(),
{
    OrderSet::new()
}

/// `ordermap::OrderSet::insert`: true, with the position added at the end,
/// when the set did not hold it; false, with the set unchanged, when it did.
#[verifier::external_body]
fn position_set_insert(s: &mut OrderSet<(i64, i64, i64)>, pos: (i64, i64, i64)) -> (r: bool)
    ensures
        r == !position_set_items(*old(s)).contains(pos),
        r ==> position_set_items(*final(s)) == position_set_items(*old(s)).push(pos),
        !r ==> position_set_items(*final(s)) == position_set_items(*old(s)),
{
    s.insert(pos)
}

/// `ordermap::OrderSet::iter`: the positions of the set, in their order.
#[verifier::external_body]
fn position_set_to_vec(s: &OrderSet<(i64, i64, i64)>) -> (r: Vec<(i64, i64, i64)>)
    ensures
        r@ == position_set_items(*s),
{
    s.iter().copied().collect()
}

/// Rings are generated up to this distance, exclusive.
pub const MAX_DISTANCE: i64 = 20;

/// The lowest layer of chunks generated.
pub const MIN_LAYER: i64 = -5;

/// The layer above the highest layer of chunks generated.
pub const MAX_LAYER: i64 = 5;

/// The chunk positions on the square of half side `d` in layer `y`: first
/// the rows at z = -d and z = d, x going up, alternately; then the columns
/// at x = -d and x = d between them, z going up, alternately.
pub open spec fn ring_layer(d: int, y: int) -> Seq<(i64, i64, i64)> {
    Seq::new((2 * (2 * d + 1)) as nat, |k: int| {
        let dx = k / 2 - d;
        if k % 2 == 0 { (dx as i64, y as i64, (-d) as i64) } else { (dx as i64, y as i64, d as i64) }
    }) + Seq::new(if d >= 1 { (2 * (2 * d - 1)) as nat } else { 0nat }, |k: int| {
        let dz = k / 2 - d + 1;
        if k % 2 == 0 { ((-d) as i64, y as i64, dz as i64) } else { (d as i64, y as i64, dz as i64) }
    })
}

/// The ring layers of half side `d` for the `n` lowest layers.
pub open spec fn ring_layers(d: int, n: int) -> Seq<(i64, i64, i64)>
    decreases n,
{
    if n <= 0 {
        Seq::empty()
    } else {
        ring_layers(d, n - 1) + ring_layer(d, MIN_LAYER + n - 1)
    }
}

/// The chunks generated at distance `d`, in order.
pub open spec fn ring_spec(d: int) -> Seq<(i64, i64, i64)> {
    ring_layers(d, MAX_LAYER - MIN_LAYER)
}

/// `p` is on the square of half side `d` around the origin's column, in
/// one of the generated layers.
pub open spec fn on_ring(p: (i64, i64, i64), d: int) -> bool {
    &&& MIN_LAYER <= p.1 < MAX_LAYER
    &&& -d <= p.0 <= d
    &&& -d <= p.2 <= d
    &&& (p.0 == -d || p.0 == d || p.2 == -d || p.2 == d)
}

proof fn lemma_ring_layers(d: int, n: int)
    requires
        0 <= d < MAX_DISTANCE,
        0 <= n <= MAX_LAYER - MIN_LAYER,
    ensures
        forall|k: int| 0 <= k < ring_layers(d, n).len() ==> on_ring(#[trigger] ring_layers(d, n)[k], d)
            && ring_layers(d, n)[k].1 < MIN_LAYER + n,
        ring_layers(d, n).len() == n * (if d == 0 { 2 } else { 8 * d }),
    decreases n,
{
    if n > 0 {
        lemma_ring_layers(d, n - 1);
        let prev = ring_layers(d, n - 1);
        let layer = ring_layer(d, MIN_LAYER + n - 1);
        assert forall|k: int| 0 <= k < layer.len() implies on_ring(#[trigger] layer[k], d) && layer[k].1 < MIN_LAYER + n by {
        }
        assert forall|k: int| 0 <= k < ring_layers(d, n).len() implies on_ring(#[trigger] ring_layers(d, n)[k], d)
            && ring_layers(d, n)[k].1 < MIN_LAYER + n by {
            if k < prev.len() {
                assert(ring_layers(d, n)[k] == prev[k]);
            } else {
                assert(ring_layers(d, n)[k] == layer[k - prev.len()]);
            }
        }
        assert((n - 1) * (if d == 0 { 2 } else { 8 * d }) + (if d == 0 { 2 } else { 8 * d }) == n * (if d == 0 { 2 } else { 8 * d })) by (nonlinear_arith);
    }
}

/// Every chunk queued at distance `d` is on the square of half side `d`,
/// in one of the generated layers, and each layer has `8 d` of them (two for
/// the origin).
pub proof fn lemma_ring_on_square(d: int)
    requires
        0 <= d < MAX_DISTANCE,
    ensures
        forall|k: int| 0 <= k < ring_spec(d).len() ==> on_ring(#[trigger] ring_spec(d)[k], d),
        ring_spec(d).len() == (MAX_LAYER - MIN_LAYER) * (if d == 0 { 2 } else { 8 * d }),
{
    lemma_ring_layers(d, MAX_LAYER - MIN_LAYER);
}

/// The chunk positions at distance `distance` from the origin, layer by
/// layer.
pub fn ring(distance: i64) -> (r: Vec<(i64, i64, i64)>)
    requires
        0 <= distance < MAX_DISTANCE,
    ensures
        r@ == ring_spec(distance as int),
{
    let d = distance;
    let mut r: Vec<(i64, i64, i64)> = Vec::new();
    let mut y: i64 = MIN_LAYER;
    while y < MAX_LAYER
        invariant
            MIN_LAYER <= y <= MAX_LAYER,
            0 <= d < MAX_DISTANCE,
            r@ == ring_layers(d as int, y - MIN_LAYER),
        decreases MAX_LAYER - y,
    {
        let ghost start = r@;
        let mut dx: i64 = -d;
        while dx <= d
            invariant
                -d <= dx <= d + 1,
                0 <= d < MAX_DISTANCE,
                MIN_LAYER <= y < MAX_LAYER,
                r@ == start + Seq::new((2 * (dx + d)) as nat, |k: int| {
                    let x = k / 2 - d;
                    if k % 2 == 0 { (x as i64, y, (-d) as i64) } else { (x as i64, y, d as i64) }
                }),
            decreases d + 1 - dx,
        {
            r.push((dx, y, -d));
            r.push((dx, y, d));
            proof {
                let n = 2 * (dx + d);
                let f = |k: int| {
                    let x = k / 2 - d;
                    if k % 2 == 0 { (x as i64, y, (-d) as i64) } else { (x as i64, y, d as i64) }
                };
                assert(f(n) == (dx, y, (-d) as i64));
                assert(f(n + 1) == (dx, y, d));
                assert(r@ =~= start + Seq::new((n + 2) as nat, f));
            }
            dx = dx + 1;
        }
        let ghost mid = r@;
        let mut dz: i64 = -d + 1;
        while dz < d
            invariant
                -d + 1 <= dz,
                dz <= d || d == 0,
                d == 0 ==> dz == 1,
                0 <= d < MAX_DISTANCE,
                MIN_LAYER <= y < MAX_LAYER,
                r@ == mid + Seq::new((2 * (dz + d - 1)) as nat, |k: int| {
                    let z = k / 2 - d + 1;
                    if k % 2 == 0 { ((-d) as i64, y, z as i64) } else { (d as i64, y, z as i64) }
                }),
            decreases d - dz,
        {
            r.push((-d, y, dz));
            r.push((d, y, dz));
            proof {
                let n = 2 * (dz + d - 1);
                let f = |k: int| {
                    let z = k / 2 - d + 1;
                    if k % 2 == 0 { ((-d) as i64, y, z as i64) } else { (d as i64, y, z as i64) }
                };
                assert(f(n) == ((-d) as i64, y, dz));
                assert(f(n + 1) == (d, y, dz));
                assert(r@ =~= mid + Seq::new((n + 2) as nat, f));
            }
            dz = dz + 1;
        }
        proof {
            let layer = ring_layer(d as int, y as int);
            let seg1 = Seq::new((2 * (2 * d + 1)) as nat, |k: int| {
                let x = k / 2 - d;
                if k % 2 == 0 { (x as i64, y, (-d) as i64) } else { (x as i64, y, d as i64) }
            });
            let seg2 = Seq::new(if d >= 1 { (2 * (2 * d - 1)) as nat } else { 0nat }, |k: int| {
                let z = k / 2 - d + 1;
                if k % 2 == 0 { ((-d) as i64, y, z as i64) } else { (d as i64, y, z as i64) }
            });
            assert(mid =~= start + seg1);
            assert(dz == d || (d == 0 && dz == 1));
            assert(seg2.len() == 2 * (dz + d - 1));
            assert(r@ =~= mid + seg2);
            assert(layer =~= seg1 + seg2);
            assert(r@ =~= start + layer);
            assert(ring_layers(d as int, y + 1 - MIN_LAYER) == ring_layers(d as int, y - MIN_LAYER) + ring_layer(d as int, MIN_LAYER + (y + 1 - MIN_LAYER) - 1));
        }
        y = y + 1;
    }
    r
}

/// `s` without the entries whose flag in `done` is set, in order.
pub open spec fn without_done(s: Seq<(i64, i64, i64)>, done: Seq<bool>) -> Seq<(i64, i64, i64)>
    decreases s.len(),
{
    if s.len() == 0 {
        Seq::empty()
    } else {
        let rest = without_done(s.drop_last(), done.take(s.len() - 1));
        if done[s.len() - 1] { rest } else { rest.push(s.last()) }
    }
}

/// `s` holds no position twice.
pub open spec fn distinct_positions(s: Seq<(i64, i64, i64)>) -> bool {
    forall|i: int, j: int| 0 <= i < j < s.len() ==> s[i] != s[j]
}

/// The chunks to generate and the chunks to mesh.
pub struct ChunkSchedule {
    gen_queue: VecDeque<(i64, i64, i64)>,
    distance: i64,
    mesh_queue: OrderSet<(i64, i64, i64)>,
}

impl ChunkSchedule {
    pub closed spec fn to_generate(&self) -> Seq<(i64, i64, i64)> {
        self.gen_queue@
    }

    pub closed spec fn distance_spec(&self) -> int {
        self.distance as int
    }

    pub closed spec fn to_mesh(&self) -> Seq<(i64, i64, i64)> {
        position_set_items(self.mesh_queue)
    }

    pub closed spec fn wf(&self) -> bool {
        &&& 0 <= self.distance <= MAX_DISTANCE
        &&& distinct_positions(position_set_items(self.mesh_queue))
    }

    /// Nothing to generate or mesh yet, starting at distance zero.
    pub fn new() -> (r: Self)
        ensures
            r.wf(),
            r.to_generate() == Seq::<(i64, i64, i64)>::empty(),
            r.distance_spec() == 0,
            r.to_mesh() == Seq::<(i64, i64, i64)>::empty(),
    {
        ChunkSchedule { gen_queue: VecDeque::new(), distance: 0, mesh_queue: position_set_new() }
    }

    /// The next chunk to generate, taken off the queue.
    pub fn pop_generation(&mut self) -> (r: Option<(i64, i64, i64)>)
        requires
            old(self).wf(),
        ensures
            final(self).wf(),
            final(self).distance_spec() == old(self).distance_spec(),
            final(self).to_mesh() == old(self).to_mesh(),
            old(self).to_generate().len() == 0 ==> r is None && final(self).to_generate() == old(self).to_generate(),
            old(self).to_generate().len() > 0 ==> r == Some(old(self).to_generate()[0])
                && final(self).to_generate() == old(self).to_generate().drop_first(),
    {
        self.gen_queue.pop_front()
    }

    /// When nothing is left to generate and the rings are not done, queues
    /// the next ring.
    pub fn refill(&mut self)
        requires
            old(self).wf(),
        ensures
            final(self).wf(),
            final(self).to_mesh() == old(self).to_mesh(),
            (old(self).to_generate().len() == 0 && old(self).distance_spec() < MAX_DISTANCE) ==> {
                &&& final(self).to_generate() == ring_spec(old(self).distance_spec())
                &&& final(self).distance_spec() == old(self).distance_spec() + 1
            },
            !(old(self).to_generate().len() == 0 && old(self).distance_spec() < MAX_DISTANCE) ==> {
                &&& final(self).to_generate() == old(self).to_generate()
                &&& final(self).distance_spec() == old(self).distance_spec()
            },
    {
        if self.gen_queue.len() == 0 && self.distance < MAX_DISTANCE {
            let positions = ring(self.distance);
            let mut i: usize = 0;
            while i < positions.len()
                invariant
                    i <= positions.len(),
                    self.gen_queue@ == positions@.take(i as int),
                    self.distance == old(self).distance,
                    self.distance < MAX_DISTANCE,
                    self.mesh_queue == old(self).mesh_queue,
                    0 <= self.distance,
                decreases positions.len() - i,
            {
                self.gen_queue.push_back(positions[i]);
                proof {
                    assert(positions@.take(i as int).push(positions@[i as int]) =~= positions@.take(i + 1));
                }
                i = i + 1;
            }
            proof {
                assert(positions@.take(i as int) =~= positions@);
            }
            self.distance = self.distance + 1;
        }
    }

    /// Whether chunks wait to be generated: then the thread only looks for
    /// messages without waiting for one.
    pub fn has_generation_work(&self) -> (r: bool)
        ensures
            r == (self.to_generate().len() > 0),
    {
        self.gen_queue.len() > 0
    }

    /// Queues `pos` to be meshed, once.
    pub fn queue_mesh(&mut self, pos: (i64, i64, i64))
        requires
            old(self).wf(),
        ensures
            final(self).wf(),
            final(self).to_generate() == old(self).to_generate(),
            final(self).distance_spec() == old(self).distance_spec(),
            old(self).to_mesh().contains(pos) ==> final(self).to_mesh() == old(self).to_mesh(),
            !old(self).to_mesh().contains(pos) ==> final(self).to_mesh() == old(self).to_mesh().push(pos),
    {
        let ghost q = position_set_items(self.mesh_queue);
        position_set_insert(&mut self.mesh_queue, pos);
        proof {
            if !q.contains(pos) {
                let q2 = q.push(pos);
                assert forall|i: int, j: int| 0 <= i < j < q2.len() implies q2[i] != q2[j] by {
                    if j == q.len() {
                        assert(q2[i] == q[i]);
                        assert(q.contains(q[i]));
                    } else {
                        assert(q2[i] == q[i] && q2[j] == q[j]);
                    }
                }
            }
        }
    }

    /// The chunks waiting to be meshed, in the order they were queued.
    pub fn mesh_queue(&self) -> (r: Vec<(i64, i64, i64)>)
        ensures
            r@ == self.to_mesh(),
    {
        position_set_to_vec(&self.mesh_queue)
    }

    /// Drops from the mesh queue the chunks that were meshed: `meshed[i]`
    /// tells whether the `i`-th chunk of [`ChunkSchedule::mesh_queue`] was.
    pub fn finish_meshing(&mut self, meshed: &Vec<bool>)
        requires
            old(self).wf(),
            meshed.len() == old(self).to_mesh().len(),
        ensures
            final(self).wf(),
            final(self).to_generate() == old(self).to_generate(),
            final(self).distance_spec() == old(self).distance_spec(),
            final(self).to_mesh() == without_done(old(self).to_mesh(), meshed@),
    {
        let queue = position_set_to_vec(&self.mesh_queue);
        let ghost q = queue@;
        let mut kept = position_set_new();
        let mut i: usize = 0;
        while i < queue.len()
            invariant
                i <= queue.len(),
                queue@ == q,
                q == old(self).to_mesh(),
                meshed.len() == q.len(),
                distinct_positions(q),
                position_set_items(kept) == without_done(q.take(i as int), meshed@.take(i as int)),
                forall|x: (i64, i64, i64)| #[trigger] position_set_items(kept).contains(x) ==> q.take(i as int).contains(x),
                distinct_positions(position_set_items(kept)),
            decreases queue.len() - i,
        {
            let ghost before = position_set_items(kept);
            proof {
                assert(q.take(i + 1).drop_last() =~= q.take(i as int));
                assert(meshed@.take(i + 1).take(i as int) =~= meshed@.take(i as int));
                assert forall|x: (i64, i64, i64)| q.take(i as int).contains(x) implies q.take(i + 1).contains(x) && x != q[i as int] by {
                    let k = choose|k: int| 0 <= k < i && q.take(i as int)[k] == x;
                    assert(q.take(i + 1)[k] == x);
                    assert(q[k] != q[i as int]);
                }
                assert(q.take(i + 1)[i as int] == q[i as int]);
            }
            if !meshed[i] {
                position_set_insert(&mut kept, queue[i]);
                proof {
                    let after = position_set_items(kept);
                    assert(after == before.push(q[i as int]));
                    assert forall|a: int, b: int| 0 <= a < b < after.len() implies after[a] != after[b] by {
                        if b == after.len() - 1 {
                            assert(before.contains(before[a]));
                        } else {
                            assert(after[a] == before[a] && after[b] == before[b]);
                        }
                    }
                    assert forall|x: (i64, i64, i64)| #[trigger] after.contains(x) implies q.take(i + 1).contains(x) by {
                        let j = choose|j: int| 0 <= j < after.len() && after[j] == x;
                        if j < before.len() {
                            assert(before[j] == x);
                            assert(before.contains(x));
                        }
                    }
                }
            }
            i = i + 1;
        }
        proof {
            assert(q.take(i as int) =~= q);
            assert(meshed@.take(i as int) =~= meshed@);
        }
        self.mesh_queue = kept;
    }
}

} // verus!
