//! The loaded chunks of the world, by chunk position, and access to single
//! blocks by global position.
use vstd::prelude::*;

use crate::chunk::{in_chunk, pos_to_index, BlockData, Chunk, ChunkBlockIndex};

verus! {

/// The chunk position `pos` moved by (`dx`, `dy`, `dz`).
pub open spec fn shifted(pos: (i64, i64, i64), dx: int, dy: int, dz: int) -> (i64, i64, i64) {
    ((pos.0 + dx) as i64, (pos.1 + dy) as i64, (pos.2 + dz) as i64)
}

/// The chunk coordinate of global block coordinate `x`.
pub open spec fn chunk_coord(x: i64) -> int {
    x as int / 16
}

/// The coordinate inside its chunk of global block coordinate `x`.
pub open spec fn local_coord(x: i64) -> int {
    x as int % 16
}

/// The chunk position of global block position `p`.
pub open spec fn chunk_of(p: (i64, i64, i64)) -> (i64, i64, i64) {
    (chunk_coord(p.0) as i64, chunk_coord(p.1) as i64, chunk_coord(p.2) as i64)
}

/// The position of global block position `p` inside its chunk.
pub open spec fn local_of(p: (i64, i64, i64)) -> (usize, usize, usize) {
    (local_coord(p.0) as usize, local_coord(p.1) as usize, local_coord(p.2) as usize)
}

fn split_coord(x: i64) -> (r: (i64, usize))
    ensures
        r.0 == chunk_coord(x),
        r.1 == local_coord(x),
        r.1 < 16,
{
    if x >= 0 {
        (x / 16, (x % 16) as usize)
    } else {
        let y = -(x + 1);
        let q = -(y / 16) - 1;
        let r = (y % 16) as usize;
        (q, 15 - r)
    }
}

impl ChunkBlockIndex {
    /// The index, inside its chunk, of the block at global position `pos`.
    pub fn from_pos_rem_euclid(pos: (i64, i64, i64)) -> (r: ChunkBlockIndex)
        ensures
            r.spec_index() == pos_to_index(local_of(pos)),
            in_chunk(local_of(pos)),
    {
        let (_cx, lx) = split_coord(pos.0);
        let (_cy, ly) = split_coord(pos.1);
        let (_cz, lz) = split_coord(pos.2);
        ChunkBlockIndex::from_pos_unchecked((lx, ly, lz))
    }
}

/// The chunks of the world.
pub struct World {
    chunks: Vec<((i64, i64, i64), Chunk)>,
}

impl World {
    #[verifier::type_invariant]
    spec fn positions_distinct(self) -> bool {
        forall|i: int, j: int| 0 <= i < j < self.chunks.len() ==> self.chunks@[i].0 != self.chunks@[j].0
    }

    /// The loaded chunks, by position.
    pub closed spec fn chunks_spec(&self) -> Map<(i64, i64, i64), Chunk> {
        Map::new(
            |p: (i64, i64, i64)| exists|i: int| 0 <= i < self.chunks.len() && #[trigger] self.chunks@[i].0 == p,
            |p: (i64, i64, i64)| self.chunks@[choose|i: int| 0 <= i < self.chunks.len() && #[trigger] self.chunks@[i].0 == p].1,
        )
    }

    proof fn lemma_entry(&self, i: int)
        requires
            self.positions_distinct(),
            0 <= i < self.chunks.len(),
        ensures
            self.chunks_spec().contains_key(self.chunks@[i].0),
            self.chunks_spec()[self.chunks@[i].0] == self.chunks@[i].1,
    {
        let p = self.chunks@[i].0;
        let j = choose|j: int| 0 <= j < self.chunks.len() && #[trigger] self.chunks@[j].0 == p;
        if j != i {
            if j < i {
                assert(self.chunks@[j].0 != self.chunks@[i].0);
            } else {
                assert(self.chunks@[i].0 != self.chunks@[j].0);
            }
        }
    }

    /// No chunk loaded.
    pub fn new() -> (r: Self)
        ensures
            r.chunks_spec() == Map::<(i64, i64, i64), Chunk>::empty(),
    {
        let r = World { chunks: Vec::new() };
        proof {
            assert(r.chunks_spec() =~= Map::<(i64, i64, i64), Chunk>::empty());
        }
        r
    }

    fn find(&self, pos: (i64, i64, i64)) -> (r: Option<usize>)
        ensures
            match r {
                Some(i) => i < self.chunks.len() && self.chunks@[i as int].0 == pos,
                None => !self.chunks_spec().contains_key(pos),
            },
    {
        let mut i: usize = 0;
        while i < self.chunks.len()
            invariant
                i <= self.chunks.len(),
                forall|j: int| 0 <= j < i ==> self.chunks@[j].0 != pos,
            decreases self.chunks.len() - i,
        {
            let p = self.chunks[i].0;
            if p.0 == pos.0 && p.1 == pos.1 && p.2 == pos.2 {
                return Some(i);
            }
            i = i + 1;
        }
        None
    }

    /// The chunk at `pos`, if loaded.
    pub fn get_chunk(&self, pos: (i64, i64, i64)) -> (r: Option<&Chunk>)
        ensures
            r.is_some() == self.chunks_spec().contains_key(pos),
            r.is_some() ==> *r.unwrap() == self.chunks_spec()[pos],
    {
        proof {
            use_type_invariant(self);
        }
        match self.find(pos) {
            Some(i) => {
                proof {
                    self.lemma_entry(i as int);
                }
                Some(&self.chunks[i].1)
            },
            None => None,
        }
    }

    /// The chunk at `pos` and its 26 neighbours are all loaded, so that
    /// it can be meshed.
    pub fn neighbours_loaded(&self, pos: (i64, i64, i64)) -> (r: bool)
        requires
            i64::MIN < pos.0 < i64::MAX,
            i64::MIN < pos.1 < i64::MAX,
            i64::MIN < pos.2 < i64::MAX,
        ensures
            r == forall|dx: int, dy: int, dz: int| -1 <= dx <= 1 && -1 <= dy <= 1 && -1 <= dz <= 1
                ==> #[trigger] self.chunks_spec().contains_key(shifted(pos, dx, dy, dz)),
    {
        let mut k: i64 = 0;
        while k < 27
            invariant
                0 <= k <= 27,
                i64::MIN < pos.0 < i64::MAX,
                i64::MIN < pos.1 < i64::MAX,
                i64::MIN < pos.2 < i64::MAX,
                forall|j: int| 0 <= j < k ==> self.chunks_spec().contains_key(#[trigger] shifted(pos, j / 9 - 1, (j / 3) % 3 - 1, j % 3 - 1)),
            decreases 27 - k,
        {
            let dx = k / 9 - 1;
            let dy = (k / 3) % 3 - 1;
            let dz = k % 3 - 1;
            let p = (pos.0 + dx, pos.1 + dy, pos.2 + dz);
            proof {
                assert(p == shifted(pos, k / 9 - 1, (k / 3) % 3 - 1, k % 3 - 1));
            }
            if self.get_chunk(p).is_none() {
                return false;
            }
            k = k + 1;
        }
        proof {
            assert forall|dx: int, dy: int, dz: int| -1 <= dx <= 1 && -1 <= dy <= 1 && -1 <= dz <= 1
                implies #[trigger] self.chunks_spec().contains_key(shifted(pos, dx, dy, dz)) by {
                let j = (dx + 1) * 9 + (dy + 1) * 3 + (dz + 1);
                assert(j / 9 - 1 == dx && (j / 3) % 3 - 1 == dy && j % 3 - 1 == dz) by (nonlinear_arith)
                    requires
                        j == (dx + 1) * 9 + (dy + 1) * 3 + (dz + 1),
                        -1 <= dx <= 1,
                        -1 <= dy <= 1,
                        -1 <= dz <= 1,
                ;
                assert(self.chunks_spec().contains_key(shifted(pos, j / 9 - 1, (j / 3) % 3 - 1, j % 3 - 1)));
            }
        }
        true
    }

    /// Loads `chunk` at `pos`, replacing the chunk there.
    pub fn set_chunk(&mut self, pos: (i64, i64, i64), chunk: Chunk)
        ensures
            final(self).chunks_spec() == old(self).chunks_spec().insert(pos, chunk),
    {
        proof {
            use_type_invariant(&*self);
        }
        let ghost before = self.chunks@;
        let ghost c = chunk;
        let found = self.find(pos);
        let mut chunks: Vec<((i64, i64, i64), Chunk)> = Vec::new();
        std::mem::swap(&mut chunks, &mut self.chunks);
        let i = match found {
            Some(i) => {
                chunks.set(i, (pos, chunk));
                i
            },
            None => {
                chunks.push((pos, chunk));
                chunks.len() - 1
            },
        };
        proof {
            assert forall|a: int, b: int| 0 <= a < b < chunks.len() implies chunks@[a].0 != chunks@[b].0 by {
                if found is Some {
                    assert(before[a].0 != before[b].0);
                } else if b == before.len() {
                    assert(before[a].0 == chunks@[a].0);
                }
            }
        }
        self.chunks = chunks;
        proof {
            let ii = i as int;
            assert(self.chunks@[ii] == (pos, c));
            assert forall|p: (i64, i64, i64)| #[trigger] self.chunks_spec().dom().contains(p) == old(self).chunks_spec().insert(pos, c).dom().contains(p) by {
                if p != pos {
                    if old(self).chunks_spec().dom().contains(p) {
                        let j = choose|j: int| 0 <= j < before.len() && #[trigger] before[j].0 == p;
                        assert(self.chunks@[j].0 == p);
                    }
                    if self.chunks_spec().dom().contains(p) {
                        let j = choose|j: int| 0 <= j < self.chunks.len() && #[trigger] self.chunks@[j].0 == p;
                        assert(before[j].0 == p);
                    }
                } else {
                    assert(self.chunks@[ii].0 == p);
                }
            }
            assert forall|p: (i64, i64, i64)| #[trigger] self.chunks_spec().dom().contains(p) implies self.chunks_spec()[p] == old(self).chunks_spec().insert(pos, c)[p] by {
                let j = choose|j: int| 0 <= j < self.chunks.len() && #[trigger] self.chunks@[j].0 == p;
                self.lemma_entry(j);
                if p != pos {
                    assert(before[j].0 == p);
                    old(self).lemma_entry(j);
                } else {
                    self.lemma_entry(ii);
                }
            }
            assert(self.chunks_spec() =~= old(self).chunks_spec().insert(pos, c));
        }
    }

    /// The kind of the block at global position `pos`, if its chunk is
    /// loaded.
    pub fn get_block(&self, pos: (i64, i64, i64)) -> (r: Option<&BlockData>)
        ensures
            r.is_some() == self.chunks_spec().contains_key(chunk_of(pos)),
            r.is_some() ==> {
                let c = self.chunks_spec()[chunk_of(pos)];
                r.unwrap()@ == c.palette_spec()[c.indices()[pos_to_index(local_of(pos))] as int]
            },
    {
        let (cx, lx) = split_coord(pos.0);
        let (cy, ly) = split_coord(pos.1);
        let (cz, lz) = split_coord(pos.2);
        match self.get_chunk((cx, cy, cz)) {
            Some(chunk) => {
                let idx = ChunkBlockIndex::from_pos_unchecked((lx, ly, lz));
                Some(chunk.get_data(idx))
            },
            None => None,
        }
    }

    /// Makes the block at global position `pos` of kind `data`, when its
    /// chunk is loaded; tells whether it was.
    pub fn set_block(&mut self, pos: (i64, i64, i64), data: &BlockData) -> (r: bool)
        requires
            forall|p: (i64, i64, i64)| #[trigger] old(self).chunks_spec().contains_key(p) ==> old(self).chunks_spec()[p].palette_spec().len() <= u32::MAX,
        ensures
            r == old(self).chunks_spec().contains_key(chunk_of(pos)),
            final(self).chunks_spec().dom() == old(self).chunks_spec().dom(),
            forall|p: (i64, i64, i64)| #[trigger] final(self).chunks_spec().contains_key(p) && p != chunk_of(pos)
                ==> final(self).chunks_spec()[p] == old(self).chunks_spec()[p],
            r ==> {
                let c = final(self).chunks_spec()[chunk_of(pos)];
                let o = old(self).chunks_spec()[chunk_of(pos)];
                &&& c.palette_spec()[c.indices()[pos_to_index(local_of(pos))] as int] == data@
                &&& forall|i: int| 0 <= i < 4096 && i != pos_to_index(local_of(pos)) ==> #[trigger] c.indices()[i] == o.indices()[i]
                &&& o.palette_spec().contains(data@) ==> c.palette_spec() == o.palette_spec()
                &&& !o.palette_spec().contains(data@) ==> c.palette_spec() == o.palette_spec().push(data@)
            },
    {
        proof {
            use_type_invariant(&*self);
        }
        let (cx, lx) = split_coord(pos.0);
        let (cy, ly) = split_coord(pos.1);
        let (cz, lz) = split_coord(pos.2);
        let cpos = (cx, cy, cz);
        match self.find(cpos) {
            Some(i) => {
                proof {
                    self.lemma_entry(i as int);
                }
                let ghost before = self.chunks@;
                let mut chunks: Vec<((i64, i64, i64), Chunk)> = Vec::new();
                std::mem::swap(&mut chunks, &mut self.chunks);
                let mut entry = chunks.remove(i);
                let idx = ChunkBlockIndex::from_pos_unchecked((lx, ly, lz));
                entry.1.set_data(idx, data);
                chunks.insert(i, entry);
                proof {
                    assert(chunks@ =~= before.update(i as int, chunks@[i as int]));
                    assert forall|a: int, b: int| 0 <= a < b < chunks.len() implies chunks@[a].0 != chunks@[b].0 by {
                        assert(before[a].0 != before[b].0);
                    }
                }
                self.chunks = chunks;
                proof {
                    let ii = i as int;
                    assert forall|p: (i64, i64, i64)| #[trigger] self.chunks_spec().dom().contains(p) == old(self).chunks_spec().dom().contains(p) by {
                        if old(self).chunks_spec().dom().contains(p) {
                            let j = choose|j: int| 0 <= j < before.len() && #[trigger] before[j].0 == p;
                            assert(self.chunks@[j].0 == p);
                        }
                        if self.chunks_spec().dom().contains(p) {
                            let j = choose|j: int| 0 <= j < self.chunks.len() && #[trigger] self.chunks@[j].0 == p;
                            assert(before[j].0 == p);
                        }
                    }
                    assert(self.chunks_spec().dom() =~= old(self).chunks_spec().dom());
                    assert forall|p: (i64, i64, i64)| #[trigger] self.chunks_spec().contains_key(p) && p != cpos implies
                        self.chunks_spec()[p] == old(self).chunks_spec()[p] by {
                        let j = choose|j: int| 0 <= j < self.chunks.len() && #[trigger] self.chunks@[j].0 == p;
                        self.lemma_entry(j);
                        assert(before[j].0 == p);
                        old(self).lemma_entry(j);
                    }
                    self.lemma_entry(ii);
                }
                true
            },
            None => false,
        }
    }
}

} // verus!
