//! Chunks of 16 x 16 x 16 blocks: block positions, position ranges and the
//! compact storage of each block's palette index.

use vstd::prelude::*;
use crate::grid::{Axis, CardinalDirection, Sign, axis_vec, dir_vec};
use vstd::std_specs::convert::FromSpec;
use crate::label::same_text;
use crate::resource_location::ResourceLocation;

verus! {

/// Side length of a chunk along each axis.
pub const CHUNK_SIDE: usize = 16;

/// Number of blocks in a chunk.
pub const CHUNK_BLOCK_COUNT: usize = 4096;

/// The size of a chunk, as a vector.
pub fn chunk_size() -> (r: (usize, usize, usize))
    ensures
        r == (16usize, 16usize, 16usize),
{
    (CHUNK_SIDE, CHUNK_SIDE, CHUNK_SIDE)
}

/// The coordinate of `v` along `axis`.
pub open spec fn coord(v: (usize, usize, usize), axis: Axis) -> usize {
    match axis {
        Axis::X => v.0,
        Axis::Y => v.1,
        Axis::Z => v.2,
    }
}

/// `v` with its coordinate along `axis` replaced by `value`.
pub open spec fn with_coord(v: (usize, usize, usize), axis: Axis, value: usize) -> (usize, usize, usize) {
    match axis {
        Axis::X => (value, v.1, v.2),
        Axis::Y => (v.0, value, v.2),
        Axis::Z => (v.0, v.1, value),
    }
}

/// The coordinate of `v` along `axis`.
pub fn get_coord(v: (usize, usize, usize), axis: Axis) -> (r: usize)
    ensures
        r == coord(v, axis),
{
    match axis {
        Axis::X => v.0,
        Axis::Y => v.1,
        Axis::Z => v.2,
    }
}

/// `v` with its coordinate along `axis` replaced by `value`.
pub fn set_coord(v: (usize, usize, usize), axis: Axis, value: usize) -> (r: (usize, usize, usize))
    ensures
        r == with_coord(v, axis, value),
{
    match axis {
        Axis::X => (value, v.1, v.2),
        Axis::Y => (v.0, value, v.2),
        Axis::Z => (v.0, v.1, value),
    }
}

/// The index of a block inside a chunk, in `0..4096`.
#[derive(PartialEq, Eq, Structural, Clone, Copy, Debug, Hash)]
pub struct ChunkBlockIndex(u16);

/// The index of the block at `p`: x varies fastest, then y, then z.
pub open spec fn pos_to_index(p: (usize, usize, usize)) -> int {
    p.0 + (p.1 + p.2 * 16) * 16
}

/// The position of the block of index `u`.
pub open spec fn index_to_pos(u: int) -> (usize, usize, usize) {
    ((u % 16) as usize, ((u % 256) / 16) as usize, (u / 256) as usize)
}

pub open spec fn in_chunk(p: (usize, usize, usize)) -> bool {
    p.0 < 16 && p.1 < 16 && p.2 < 16
}

impl ChunkBlockIndex {
    #[verifier::type_invariant]
    spec fn below_block_count(self) -> bool {
        self.0 < 4096
    }

    pub closed spec fn spec_index(&self) -> int {
        self.0 as int
    }

    /// The index of a position inside the chunk; `None` outside it.
    pub fn from_pos(pos: (usize, usize, usize)) -> (r: Option<Self>)
        ensures
            r.is_some() == in_chunk(pos),
            r.is_some() ==> r.unwrap().spec_index() == pos_to_index(pos),
    {
        if pos.0 < CHUNK_SIDE && pos.1 < CHUNK_SIDE && pos.2 < CHUNK_SIDE {
            Some(Self::from_pos_unchecked(pos))
        } else {
            None
        }
    }

    /// The index `val` when it is below the block count; `None` otherwise.
    pub fn from_usize(val: usize) -> (r: Option<Self>)
        ensures
            r.is_some() == (val < 4096),
            r.is_some() ==> r.unwrap().spec_index() == val,
    {
        if val < CHUNK_BLOCK_COUNT {
            Some(ChunkBlockIndex(val as u16))
        } else {
            None
        }
    }

    /// The index `val`, which must be below the block count.
    pub fn from_usize_unchecked(val: usize) -> (r: Self)
        requires
            val < 4096,
        ensures
            r.spec_index() == val,
    {
        ChunkBlockIndex(val as u16)
    }

    /// The index of `pos`, which must lie inside the chunk.
    pub fn from_pos_unchecked(pos: (usize, usize, usize)) -> (r: Self)
        requires
            in_chunk(pos),
        ensures
            r.spec_index() == pos_to_index(pos),
    {
        Self::from_usize_unchecked(pos.0 + (pos.1 + pos.2 * CHUNK_SIDE) * CHUNK_SIDE)
    }

    pub fn as_usize(self) -> (r: usize)
        ensures
            r == self.spec_index(),
            r < 4096,
    {
        proof {
            use_type_invariant(&self);
        }
        self.0 as usize
    }


    /// The position of the block.
    pub fn as_pos(self) -> (r: (usize, usize, usize))
        ensures
            r == index_to_pos(self.spec_index()),
            in_chunk(r),
            pos_to_index(r) == self.spec_index(),
    {
        let u = self.as_usize();
        let r = (u % CHUNK_SIDE, (u % (CHUNK_SIDE * CHUNK_SIDE)) / CHUNK_SIDE, u / (CHUNK_SIDE * CHUNK_SIDE));
        proof {
            lemma_index_pos_roundtrip(u as int);
        }
        r
    }
}

/// Positions and indices are in one-to-one correspondence.
pub proof fn lemma_index_pos_roundtrip(u: int)
    requires
        0 <= u < 4096,
    ensures
        in_chunk(index_to_pos(u)),
        pos_to_index(index_to_pos(u)) == u,
{
    assert(u % 16 + ((u % 256) / 16 + (u / 256) * 16) * 16 == u) by (nonlinear_arith)
        requires
            0 <= u < 4096,
    ;
}

/// The index of a position inside the chunk is below the block count and
/// gives the position back.
pub proof fn lemma_pos_index_roundtrip(p: (usize, usize, usize))
    requires
        in_chunk(p),
    ensures
        0 <= pos_to_index(p) < 4096,
        index_to_pos(pos_to_index(p)) == p,
{
    let u = pos_to_index(p);
    assert(0 <= u < 4096 && u % 16 == p.0 && (u % 256) / 16 == p.1 && u / 256 == p.2)
        by (nonlinear_arith)
        requires
            u == p.0 + (p.1 + p.2 * 16) * 16,
            p.0 < 16,
            p.1 < 16,
            p.2 < 16,
    ;
}

/// The box of positions `p` with `min <= p < max` on every axis.
#[derive(PartialEq, Eq, Clone, Copy, Debug)]
pub struct Vec3Range(pub (usize, usize, usize), pub (usize, usize, usize));

/// The positions `(x, y, z)` for `x` in `x0..x0 + n`.
pub open spec fn row_seq(x0: usize, n: nat, y: usize, z: usize) -> Seq<(usize, usize, usize)> {
    Seq::new(n, |i: int| ((x0 + i) as usize, y, z))
}

/// The first `k` rows of the layer at height `z`, for `y` from `r.0.1`.
pub open spec fn layer_seq(r: Vec3Range, z: usize, k: nat) -> Seq<(usize, usize, usize)>
    decreases k,
{
    if k == 0 {
        Seq::empty()
    } else {
        layer_seq(r, z, (k - 1) as nat) + row_seq(
            r.0.0,
            span(r.0.0, r.1.0),
            (r.0.1 + k - 1) as usize,
            z,
        )
    }
}

/// The first `k` layers of the box, for `z` from `r.0.2`.
pub open spec fn box_seq(r: Vec3Range, k: nat) -> Seq<(usize, usize, usize)>
    decreases k,
{
    if k == 0 {
        Seq::empty()
    } else {
        box_seq(r, (k - 1) as nat) + layer_seq(r, (r.0.2 + k - 1) as usize, span(r.0.1, r.1.1))
    }
}

/// The length of `lo..hi`.
pub open spec fn span(lo: usize, hi: usize) -> nat {
    if lo < hi { (hi - lo) as nat } else { 0 }
}

impl Vec3Range {
    /// Every position of the box, x varying fastest, then y, then z.
    pub open spec fn positions(self) -> Seq<(usize, usize, usize)> {
        box_seq(self, span(self.0.2, self.1.2))
    }

    /// The positions of the box in iteration order: x fastest, then y, then z.
    pub fn to_vec(&self) -> (r: Vec<(usize, usize, usize)>)
        ensures
            r@ == self.positions(),
    {
        let (min, max) = (self.0, self.1);
        let mut out: Vec<(usize, usize, usize)> = Vec::new();
        if !(min.2 < max.2) {
            return out;
        }
        let mut z = min.2;
        while z < max.2
            invariant
                min == self.0,
                max == self.1,
                min.2 <= z <= max.2,
                out@ == box_seq(*self, (z - min.2) as nat),
            decreases max.2 - z,
        {
            let mut y = min.1;
            let ghost before = out@;
            if min.1 < max.1 {
                while y < max.1
                    invariant
                        min == self.0,
                        max == self.1,
                        min.1 <= y <= max.1,
                        min.2 <= z < max.2,
                        out@ == before + layer_seq(*self, z, (y - min.1) as nat),
                    decreases max.1 - y,
                {
                    let mut x = min.0;
                    let ghost before_row = out@;
                    if min.0 < max.0 {
                        while x < max.0
                            invariant
                                min == self.0,
                                max == self.1,
                                min.0 <= x <= max.0,
                                out@ == before_row + row_seq(min.0, (x - min.0) as nat, y, z),
                            decreases max.0 - x,
                        {
                            out.push((x, y, z));
                            x = x + 1;
                            assert(row_seq(min.0, (x - min.0) as nat, y, z) =~= row_seq(
                                min.0,
                                (x - 1 - min.0) as nat,
                                y,
                                z,
                            ).push(((x - 1) as usize, y, z)));
                        }
                    } else {
                        assert(row_seq(min.0, 0, y, z) =~= Seq::empty());
                    }
                    assert(out@ == before + layer_seq(*self, z, (y + 1 - min.1) as nat));
                    y = y + 1;
                }
            }
            assert(out@ =~= box_seq(*self, (z + 1 - min.2) as nat));
            z = z + 1;
        }
        out
    }
}

/// The positions of the box are exactly those with `min <= p < max`.
pub proof fn lemma_box_positions(r: Vec3Range, p: (usize, usize, usize))
    ensures
        r.positions().contains(p) <==> (r.0.0 <= p.0 < r.1.0 && r.0.1 <= p.1 < r.1.1 && r.0.2
            <= p.2 < r.1.2),
{
    lemma_box_seq_contains(r, span(r.0.2, r.1.2), p);
}

proof fn lemma_row_contains(x0: usize, n: nat, y: usize, z: usize, p: (usize, usize, usize))
    requires
        x0 + n <= usize::MAX + 1,
    ensures
        row_seq(x0, n, y, z).contains(p) <==> (x0 <= p.0 < x0 + n && p.1 == y && p.2 == z),
{
    if x0 <= p.0 < x0 + n && p.1 == y && p.2 == z {
        assert(row_seq(x0, n, y, z)[p.0 - x0] == p);
    }
}

proof fn lemma_layer_contains(r: Vec3Range, z: usize, k: nat, p: (usize, usize, usize))
    requires
        r.0.1 + k <= usize::MAX + 1,
    ensures
        layer_seq(r, z, k).contains(p) <==> (r.0.0 <= p.0 < r.1.0 && r.0.1 <= p.1 < r.0.1 + k
            && p.2 == z),
    decreases k,
{
    if k > 0 {
        lemma_layer_contains(r, z, (k - 1) as nat, p);
        lemma_row_contains(r.0.0, span(r.0.0, r.1.0), (r.0.1 + k - 1) as usize, z, p);
        let a = layer_seq(r, z, (k - 1) as nat);
        let b = row_seq(r.0.0, span(r.0.0, r.1.0), (r.0.1 + k - 1) as usize, z);
        assert((a + b).contains(p) <==> a.contains(p) || b.contains(p)) by {
            if (a + b).contains(p) {
                let i = choose|i: int| 0 <= i < (a + b).len() && (a + b)[i] == p;
                if i >= a.len() {
                    assert(b[i - a.len()] == p);
                }
            }
            if b.contains(p) {
                let i = choose|i: int| 0 <= i < b.len() && b[i] == p;
                assert((a + b)[a.len() + i] == p);
            }
            if a.contains(p) {
                let i = choose|i: int| 0 <= i < a.len() && a[i] == p;
                assert((a + b)[i] == p);
            }
        }
    }
}

proof fn lemma_box_seq_contains(r: Vec3Range, k: nat, p: (usize, usize, usize))
    requires
        r.0.2 + k <= usize::MAX + 1,
    ensures
        box_seq(r, k).contains(p) <==> (r.0.0 <= p.0 < r.1.0 && r.0.1 <= p.1 < r.1.1 && r.0.2
            <= p.2 < r.0.2 + k),
    decreases k,
{
    if k > 0 {
        lemma_box_seq_contains(r, (k - 1) as nat, p);
        lemma_layer_contains(r, (r.0.2 + k - 1) as usize, span(r.0.1, r.1.1), p);
        let a = box_seq(r, (k - 1) as nat);
        let b = layer_seq(r, (r.0.2 + k - 1) as usize, span(r.0.1, r.1.1));
        assert((a + b).contains(p) <==> a.contains(p) || b.contains(p)) by {
            if (a + b).contains(p) {
                let i = choose|i: int| 0 <= i < (a + b).len() && (a + b)[i] == p;
                if i >= a.len() {
                    assert(b[i - a.len()] == p);
                }
            }
            if b.contains(p) {
                let i = choose|i: int| 0 <= i < b.len() && b[i] == p;
                assert((a + b)[a.len() + i] == p);
            }
            if a.contains(p) {
                let i = choose|i: int| 0 <= i < a.len() && a[i] == p;
                assert((a + b)[i] == p);
            }
        }
    }
}

/// The blocks of a chunk that have a neighbour inside the chunk in
/// direction `d`: the chunk without its face on the side of `d`.
pub open spec fn interior_range_spec(d: CardinalDirection) -> Vec3Range {
    if d.sign == Sign::Positive {
        Vec3Range((0, 0, 0), with_coord((16, 16, 16), d.axis, 15))
    } else {
        Vec3Range(with_coord((0, 0, 0), d.axis, 1), (16, 16, 16))
    }
}

/// The blocks of a chunk on its face on the side of `d`.
pub open spec fn exterior_range_spec(d: CardinalDirection) -> Vec3Range {
    if d.sign == Sign::Positive {
        Vec3Range(with_coord((0, 0, 0), d.axis, 15), (16, 16, 16))
    } else {
        Vec3Range((0, 0, 0), with_coord((16, 16, 16), d.axis, 1))
    }
}

fn interior_range_for_direction(direction: CardinalDirection) -> (r: Vec3Range)
    ensures
        r == interior_range_spec(direction),
{
    let mut interior_min = (0usize, 0usize, 0usize);
    let mut interior_max = chunk_size();
    if direction.sign.is_positive() {
        let v = get_coord(interior_max, direction.axis) - 1;
        interior_max = set_coord(interior_max, direction.axis, v);
    } else {
        let v = get_coord(interior_min, direction.axis) + 1;
        interior_min = set_coord(interior_min, direction.axis, v);
    }
    Vec3Range(interior_min, interior_max)
}

fn exterior_range_for_direction(direction: CardinalDirection) -> (r: Vec3Range)
    ensures
        r == exterior_range_spec(direction),
{
    let mut interior_min = (0usize, 0usize, 0usize);
    let mut interior_max = chunk_size();
    if direction.sign.is_positive() {
        let v = get_coord(interior_max, direction.axis) - 1;
        interior_min = set_coord(interior_min, direction.axis, v);
    } else {
        let v = get_coord(interior_min, direction.axis) + 1;
        interior_max = set_coord(interior_max, direction.axis, v);
    }
    Vec3Range(interior_min, interior_max)
}

/// For each direction, in the order of [`CardinalDirection::values`], the
/// blocks that have a neighbour inside the chunk in that direction.
pub fn create_interior_ranges() -> (r: [Vec3Range; 6])
    ensures
        forall|i: int| 0 <= i < 6 ==> #[trigger] r@[i] == interior_range_spec(crate::grid::direction_at(i)),
{
    let v = CardinalDirection::values();
    [
        interior_range_for_direction(v[0]),
        interior_range_for_direction(v[1]),
        interior_range_for_direction(v[2]),
        interior_range_for_direction(v[3]),
        interior_range_for_direction(v[4]),
        interior_range_for_direction(v[5]),
    ]
}

/// For each direction, in the order of [`CardinalDirection::values`], the
/// blocks on the chunk's face on that side.
pub fn create_exterior_ranges() -> (r: [Vec3Range; 6])
    ensures
        forall|i: int| 0 <= i < 6 ==> #[trigger] r@[i] == exterior_range_spec(crate::grid::direction_at(i)),
{
    let v = CardinalDirection::values();
    [
        exterior_range_for_direction(v[0]),
        exterior_range_for_direction(v[1]),
        exterior_range_for_direction(v[2]),
        exterior_range_for_direction(v[3]),
        exterior_range_for_direction(v[4]),
        exterior_range_for_direction(v[5]),
    ]
}

/// Every block of an exterior range lies on the chunk's face: its
/// coordinate along the direction's axis is 15 for a positive direction
/// and 0 for a negative one.
pub proof fn lemma_exterior_range_on_face(d: CardinalDirection, p: (usize, usize, usize))
    requires
        exterior_range_spec(d).positions().contains(p),
    ensures
        coord(p, d.axis) == (if d.sign == Sign::Positive { 15usize } else { 0usize }),
{
    lemma_box_positions(exterior_range_spec(d), p);
}

/// Every block of an interior range has its neighbour in direction `d`
/// inside the chunk.
pub proof fn lemma_interior_range_neighbour(d: CardinalDirection, p: (usize, usize, usize))
    requires
        interior_range_spec(d).positions().contains(p),
    ensures
        0 <= p.0 + dir_vec(d).0 < 16,
        0 <= p.1 + dir_vec(d).1 < 16,
        0 <= p.2 + dir_vec(d).2 < 16,
{
    lemma_box_positions(interior_range_spec(d), p);
}

/// Where each block's palette index is stored: nowhere when every block
/// has index 0, otherwise in the narrowest integer type that has held all
/// indices written so far.
pub enum ChunkData {
    Filled,
    U8(Vec<u8>),
    U16(Vec<u16>),
    U32(Vec<u32>),
}

impl ChunkData {
    /// The palette index of every block.
    pub closed spec fn indices(&self) -> Seq<nat> {
        match self {
            ChunkData::Filled => Seq::new(4096, |i: int| 0nat),
            ChunkData::U8(v) => Seq::new(v@.len(), |i: int| v@[i] as nat),
            ChunkData::U16(v) => Seq::new(v@.len(), |i: int| v@[i] as nat),
            ChunkData::U32(v) => Seq::new(v@.len(), |i: int| v@[i] as nat),
        }
    }

    /// Bits per stored index: 0 for `Filled`, then 8, 16 or 32.
    pub closed spec fn width(&self) -> nat {
        match self {
            ChunkData::Filled => 0,
            ChunkData::U8(_) => 8,
            ChunkData::U16(_) => 16,
            ChunkData::U32(_) => 32,
        }
    }

    pub closed spec fn wf(&self) -> bool {
        match self {
            ChunkData::Filled => true,
            ChunkData::U8(v) => v@.len() == 4096,
            ChunkData::U16(v) => v@.len() == 4096,
            ChunkData::U32(v) => v@.len() == 4096,
        }
    }

    /// The same indices, each widened into `U`.
    fn upgrade<T: Copy, U: From<T>>(data: &Vec<T>) -> (r: Vec<U>)
        requires
            <U as FromSpec<T>>::obeys_from_spec(),
        ensures
            r@.len() == data@.len(),
            forall|i: int| 0 <= i < r@.len() ==> r@[i] == <U as FromSpec<T>>::from_spec(#[trigger] data@[i]),
    {
        let mut out: Vec<U> = Vec::new();
        let mut i: usize = 0;
        while i < data.len()
            invariant
                <U as FromSpec<T>>::obeys_from_spec(),
                i <= data@.len(),
                out@.len() == i,
                forall|j: int| 0 <= j < i ==> out@[j] == <U as FromSpec<T>>::from_spec(#[trigger] data@[j]),
            decreases data@.len() - i,
        {
            out.push(U::from(data[i]));
            i = i + 1;
        }
        out
    }

    /// One zero per block.
    fn zeros<T: Copy>(zero: T) -> (r: Vec<T>)
        ensures
            r@.len() == 4096,
            forall|i: int| 0 <= i < 4096 ==> #[trigger] r@[i] == zero,
    {
        let mut out: Vec<T> = Vec::new();
        let mut i: usize = 0;
        while i < CHUNK_BLOCK_COUNT
            invariant
                i <= 4096,
                out@.len() == i,
                forall|j: int| 0 <= j < i ==> #[trigger] out@[j] == zero,
            decreases 4096 - i,
        {
            out.push(zero);
            i = i + 1;
        }
        out
    }

    fn set_u8(&mut self, idx: ChunkBlockIndex, value: u8)
        requires
            old(self).wf(),
        ensures
            final(self).wf(),
            final(self).indices() == old(self).indices().update(idx.spec_index(), value as nat),
            final(self).width() == (if old(self).width() == 0 && value == 0 {
                0
            } else if old(self).width() == 0 {
                8
            } else {
                old(self).width()
            }),
    {
        let i = idx.as_usize();
        match self {
            ChunkData::Filled => {
                if value != 0 {
                    let mut values = Self::zeros(0u8);
                    values.set(i, value);
                    *self = ChunkData::U8(values);
                    assert(self.indices() =~= old(self).indices().update(idx.spec_index(), value as nat));
                } else {
                    assert(self.indices() =~= old(self).indices().update(idx.spec_index(), value as nat));
                }
            },
            ChunkData::U8(values) => {
                values.set(i, value);
                assert(self.indices() =~= old(self).indices().update(idx.spec_index(), value as nat));
            },
            ChunkData::U16(values) => {
                values.set(i, value as u16);
                assert(self.indices() =~= old(self).indices().update(idx.spec_index(), value as nat));
            },
            ChunkData::U32(values) => {
                values.set(i, value as u32);
                assert(self.indices() =~= old(self).indices().update(idx.spec_index(), value as nat));
            },
        }
    }

    fn set_u16(&mut self, idx: ChunkBlockIndex, value: u16)
        requires
            old(self).wf(),
        ensures
            final(self).wf(),
            final(self).indices() == old(self).indices().update(idx.spec_index(), value as nat),
            final(self).width() == (if old(self).width() == 0 && value == 0 {
                0
            } else if old(self).width() <= 8 {
                16
            } else {
                old(self).width()
            }),
    {
        let i = idx.as_usize();
        match self {
            ChunkData::Filled => {
                if value != 0 {
                    let mut values = Self::zeros(0u16);
                    values.set(i, value);
                    *self = ChunkData::U16(values);
                }
            },
            ChunkData::U8(values) => {
                let mut values = Self::upgrade::<u8, u16>(values);
                values.set(i, value);
                *self = ChunkData::U16(values);
            },
            ChunkData::U16(values) => {
                values.set(i, value);
            },
            ChunkData::U32(values) => {
                values.set(i, value as u32);
            },
        }
        assert(self.indices() =~= old(self).indices().update(idx.spec_index(), value as nat));
    }

    fn set_u32(&mut self, idx: ChunkBlockIndex, value: u32)
        requires
            old(self).wf(),
        ensures
            final(self).wf(),
            final(self).indices() == old(self).indices().update(idx.spec_index(), value as nat),
            final(self).width() == (if old(self).width() == 0 && value == 0 {
                0nat
            } else {
                32nat
            }),
    {
        let i = idx.as_usize();
        match self {
            ChunkData::Filled => {
                if value != 0 {
                    let mut values = Self::zeros(0u32);
                    values.set(i, value);
                    *self = ChunkData::U32(values);
                }
            },
            ChunkData::U8(values) => {
                let mut values = Self::upgrade::<u8, u32>(values);
                values.set(i, value);
                *self = ChunkData::U32(values);
            },
            ChunkData::U16(values) => {
                let mut values = Self::upgrade::<u16, u32>(values);
                values.set(i, value);
                *self = ChunkData::U32(values);
            },
            ChunkData::U32(values) => {
                values.set(i, value);
            },
        }
        assert(self.indices() =~= old(self).indices().update(idx.spec_index(), value as nat));
    }

    /// Stores palette index `value` for the block `idx`, widening the
    /// storage when `value` does not fit in it.
    pub fn set(&mut self, idx: ChunkBlockIndex, value: usize)
        requires
            old(self).wf(),
            value <= u32::MAX,
        ensures
            final(self).wf(),
            final(self).indices() == old(self).indices().update(idx.spec_index(), value as nat),
            final(self).width() == max_width(old(self).width(), needed_width(value as nat)),
    {
        if value <= 0xff {
            self.set_u8(idx, value as u8);
        } else if value <= 0xffff {
            self.set_u16(idx, value as u16);
        } else {
            self.set_u32(idx, value as u32);
        }
    }

    /// The palette index of block `idx`.
    pub fn get(&self, idx: ChunkBlockIndex) -> (r: usize)
        requires
            self.wf(),
        ensures
            r == self.indices()[idx.spec_index()],
    {
        let i = idx.as_usize();
        match self {
            ChunkData::Filled => 0,
            ChunkData::U8(d) => d[i] as usize,
            ChunkData::U16(d) => d[i] as usize,
            ChunkData::U32(d) => d[i] as usize,
        }
    }
}

/// The width needed to store `value`: 0 stores only index 0, with no storage.
pub open spec fn needed_width(value: nat) -> nat {
    if value == 0 {
        0
    } else if value <= 0xff {
        8
    } else if value <= 0xffff {
        16
    } else {
        32
    }
}

pub open spec fn max_width(a: nat, b: nat) -> nat {
    if a >= b { a } else { b }
}

/// The kind of a block and its state.
pub struct BlockData {
    pub id: ResourceLocation,
    pub state: String,
}

impl View for BlockData {
    type V = (Seq<char>, Seq<char>);

    open spec fn view(&self) -> (Seq<char>, Seq<char>) {
        (self.id@, self.state@)
    }
}

impl Clone for BlockData {
    fn clone(&self) -> (r: Self)
        ensures
            r@ == self@,
    {
        BlockData { id: self.id.clone(), state: self.state.clone() }
    }
}

impl PartialEq for BlockData {
    fn eq(&self, other: &Self) -> (r: bool) {
        same_text(self.id.as_str(), other.id.as_str()) && same_text(self.state.as_str(), other.state.as_str())
    }
}

impl vstd::std_specs::cmp::PartialEqSpecImpl for BlockData {
    open spec fn obeys_eq_spec() -> bool {
        true
    }

    open spec fn eq_spec(&self, other: &Self) -> bool {
        self@ == other@
    }
}

impl Eq for BlockData {}

/// The views of the entries of `palette`.
pub open spec fn palette_views(palette: Seq<BlockData>) -> Seq<(Seq<char>, Seq<char>)> {
    palette.map_values(|b: BlockData| b@)
}

/// A chunk: the palette of the kinds of block it holds, each once, and the
/// palette index of each of its blocks.
pub struct Chunk {
    blocks: ChunkData,
    palette: Vec<BlockData>,
}

/// On one axis, the chunk offset `d` points across a side of the chunk
/// that the block coordinate `c` lies on, or stays (`d` is 0).
pub open spec fn touches_axis(c: usize, d: i64) -> bool {
    ||| d == 0
    ||| d == -1 && c == 0
    ||| d == 1 && c == 15
}

/// The chunk offset `d` is one of the 26 neighbours whose meshing reads the
/// block at `p`: each of its nonzero components points across a side of
/// the chunk that `p` lies on.
pub open spec fn touches(p: (usize, usize, usize), d: (i64, i64, i64)) -> bool {
    &&& d != (0i64, 0i64, 0i64)
    &&& touches_axis(p.0, d.0)
    &&& touches_axis(p.1, d.1)
    &&& touches_axis(p.2, d.2)
}

/// The rank of the offset `d` among the 27 offsets made of -1, 0 and 1.
pub open spec fn offset_code(d: (i64, i64, i64)) -> int {
    (d.0 + 1) * 9 + (d.1 + 1) * 3 + (d.2 + 1)
}

fn axis_touches(c: usize, d: i64) -> (r: bool)
    ensures
        r == touches_axis(c, d),
{
    d == 0 || (d == -1 && c == 0) || (d == 1 && c == 15)
}

impl Chunk {
    /// The offsets of the neighbouring chunks whose meshes read the block
    /// at `idx`, in increasing rank: one across each side of the chunk that
    /// the block lies on, and the edges and corner between those.
    pub fn blocks_touches_neighbors(idx: ChunkBlockIndex) -> (r: Vec<(i64, i64, i64)>)
        ensures
            forall|j: int| 0 <= j < r.len() ==> touches(index_to_pos(idx.spec_index()), #[trigger] r@[j]),
            forall|d: (i64, i64, i64)| touches(index_to_pos(idx.spec_index()), d) ==> #[trigger] r@.contains(d),
            forall|i: int, j: int| 0 <= i < j < r.len() ==> offset_code(#[trigger] r@[i]) < offset_code(#[trigger] r@[j]),
    {
        let p = idx.as_pos();
        let mut r: Vec<(i64, i64, i64)> = Vec::new();
        let mut k: i64 = 0;
        while k < 27
            invariant
                0 <= k <= 27,
                p == index_to_pos(idx.spec_index()),
                forall|j: int| 0 <= j < r.len() ==> touches(p, #[trigger] r@[j]) && offset_code(r@[j]) < k,
                forall|d: (i64, i64, i64)| touches(p, d) && offset_code(d) < k ==> #[trigger] r@.contains(d),
                forall|i: int, j: int| 0 <= i < j < r.len() ==> offset_code(#[trigger] r@[i]) < offset_code(#[trigger] r@[j]),
            decreases 27 - k,
        {
            let d: (i64, i64, i64) = (k / 9 - 1, (k / 3) % 3 - 1, k % 3 - 1);
            assert(offset_code(d) == k);
            let ghost r0 = r@;
            if axis_touches(p.0, d.0) && axis_touches(p.1, d.1) && axis_touches(p.2, d.2) && k != 13 {
                r.push(d);
                proof {
                    assert(r@[r0.len() as int] == d);
                }
            }
            proof {
                assert forall|d2: (i64, i64, i64)| touches(p, d2) && offset_code(d2) < k + 1 implies #[trigger] r@.contains(d2) by {
                    if offset_code(d2) == k {
                        assert(d2 == d);
                        assert(r@[r0.len() as int] == d);
                    } else {
                        assert(r0.contains(d2));
                        let j = choose|j: int| 0 <= j < r0.len() && r0[j] == d2;
                        assert(r@[j] == d2);
                    }
                }
                assert forall|j: int| 0 <= j < r.len() implies touches(p, #[trigger] r@[j]) && offset_code(r@[j]) < k + 1 by {
                    if j < r0.len() {
                        assert(r@[j] == r0[j]);
                    }
                }
                assert forall|i: int, j: int| 0 <= i < j < r.len() implies offset_code(#[trigger] r@[i]) < offset_code(#[trigger] r@[j]) by {
                    if j < r0.len() {
                        assert(r@[i] == r0[i] && r@[j] == r0[j]);
                    } else {
                        assert(r@[i] == r0[i]);
                    }
                }
            }
            k = k + 1;
        }
        r
    }

    #[verifier::type_invariant]
    spec fn valid(self) -> bool {
        &&& self.blocks.wf()
        &&& self.palette.len() >= 1
        &&& forall|i: int, j: int| 0 <= i < j < self.palette.len() ==> self.palette@[i]@ != self.palette@[j]@
        &&& forall|i: int| 0 <= i < 4096 ==> #[trigger] self.blocks.indices()[i] < self.palette.len()
    }

    /// The kinds of block of the chunk, by palette index.
    pub closed spec fn palette_spec(&self) -> Seq<(Seq<char>, Seq<char>)> {
        palette_views(self.palette@)
    }

    /// The palette index of each block, by block index.
    pub closed spec fn indices(&self) -> Seq<nat> {
        self.blocks.indices()
    }

    /// No kind of block is twice in the palette.
    pub open spec fn palette_distinct(&self) -> bool {
        forall|i: int, j: int| 0 <= i < j < self.palette_spec().len() ==> self.palette_spec()[i] != self.palette_spec()[j]
    }

    /// A chunk of air.
    pub fn new() -> (r: Self)
        ensures
            r.palette_spec().len() == 1,
            r.palette_spec()[0].0 == "minecraft:air"@,
            r.palette_spec()[0].1 == Seq::<char>::empty(),
            r.indices() == Seq::new(4096, |i: int| 0nat),
    {
        let air = ResourceLocation::air();
        Self::new_filled(BlockData { id: air, state: String::new() })
    }

    /// A chunk whose blocks are all `data`.
    pub fn new_filled(data: BlockData) -> (r: Self)
        ensures
            r.palette_spec() == seq![data@],
            r.indices() == Seq::new(4096, |i: int| 0nat),
    {
        let ghost v = data@;
        let mut palette: Vec<BlockData> = Vec::new();
        palette.push(data);
        let r = Chunk { blocks: ChunkData::Filled, palette };
        proof {
            assert(palette_views(r.palette@) =~= seq![v]);
        }
        r
    }

    /// The kinds of block of the chunk.
    pub fn palette(&self) -> (r: &[BlockData])
        ensures
            palette_views(r@) == self.palette_spec(),
    {
        self.palette.as_slice()
    }

    fn find(&self, data: &BlockData) -> (r: Option<usize>)
        ensures
            match r {
                Some(i) => i < self.palette_spec().len() && self.palette_spec()[i as int] == data@,
                None => !self.palette_spec().contains(data@),
            },
    {
        let mut i: usize = 0;
        while i < self.palette.len()
            invariant
                i <= self.palette.len(),
                forall|j: int| 0 <= j < i ==> self.palette@[j]@ != data@,
            decreases self.palette.len() - i,
        {
            if self.palette[i] == *data {
                return Some(i);
            }
            i = i + 1;
        }
        proof {
            if self.palette_spec().contains(data@) {
                let j = choose|j: int| 0 <= j < self.palette_spec().len() && self.palette_spec()[j] == data@;
                assert(self.palette@[j]@ == data@);
            }
        }
        None
    }

    /// The palette index of `data`, added to the palette when new.
    pub fn palette_insert(&mut self, data: BlockData) -> (r: usize)
        ensures
            old(self).palette_spec().contains(data@) ==> final(self).palette_spec() == old(self).palette_spec(),
            !old(self).palette_spec().contains(data@) ==> final(self).palette_spec() == old(self).palette_spec().push(data@),
            r < final(self).palette_spec().len(),
            final(self).palette_spec()[r as int] == data@,
            final(self).indices() == old(self).indices(),
            old(self).palette_distinct(),
            final(self).palette_distinct(),
    {
        proof {
            use_type_invariant(&*self);
            self.lemma_palette_distinct();
        }
        match self.find(&data) {
            Some(i) => i,
            None => {
                let ghost v = data@;
                let ghost before = self.palette@;
                let n = self.palette.len();
                proof {
                    assert forall|i: int| 0 <= i < n implies #[trigger] self.palette@[i]@ != v by {
                        assert(palette_views(before)[i] == before[i]@);
                    }
                }
                let mut palette: Vec<BlockData> = Vec::new();
                let mut i: usize = 0;
                while i < n
                    invariant
                        i <= n,
                        n == self.palette.len(),
                        palette.len() == i,
                        forall|j: int| 0 <= j < i ==> (#[trigger] palette@[j])@ == self.palette@[j]@,
                    decreases n - i,
                {
                    palette.push(self.palette[i].clone());
                    i = i + 1;
                }
                palette.push(data);
                proof {
                    assert(palette_views(palette@) =~= palette_views(before).push(v));
                    assert forall|a: int, b: int| 0 <= a < b < palette.len() implies palette@[a]@ != palette@[b]@ by {
                        if b == n {
                            assert(palette@[a]@ == before[a]@);
                        } else {
                            assert(palette@[a]@ == before[a]@ && palette@[b]@ == before[b]@);
                        }
                    }
                }
                std::mem::swap(&mut palette, &mut self.palette);
                proof {
                    self.lemma_palette_distinct();
                }
                n
            },
        }
    }

    /// The palette holds no kind twice (from the invariant).
    proof fn lemma_palette_distinct(&self)
        requires
            forall|i: int, j: int| 0 <= i < j < self.palette.len() ==> self.palette@[i]@ != self.palette@[j]@,
        ensures
            self.palette_distinct(),
    {
        assert forall|i: int, j: int| 0 <= i < j < self.palette_spec().len() implies self.palette_spec()[i] != self.palette_spec()[j] by {
            assert(self.palette_spec()[i] == self.palette@[i]@);
            assert(self.palette_spec()[j] == self.palette@[j]@);
        }
    }

    /// The palette index of the block at `idx`.
    pub fn get(&self, idx: ChunkBlockIndex) -> (r: usize)
        ensures
            r == self.indices()[idx.spec_index()],
            r < self.palette_spec().len(),
            self.indices().len() == 4096,
            0 <= idx.spec_index() < 4096,
            self.palette_distinct(),
    {
        proof {
            use_type_invariant(self);
            use_type_invariant(&idx);
            self.lemma_palette_distinct();
        }
        let _ = idx.as_usize();
        self.blocks.get(idx)
    }

    /// The kind of the block at `idx`.
    pub fn get_data(&self, idx: ChunkBlockIndex) -> (r: &BlockData)
        ensures
            r@ == self.palette_spec()[self.indices()[idx.spec_index()] as int],
    {
        let i = self.get(idx);
        &self.palette[i]
    }

    /// The palette index of the block at `pos`; `None` outside the chunk.
    pub fn try_get(&self, pos: (usize, usize, usize)) -> (r: Option<usize>)
        ensures
            r.is_some() == in_chunk(pos),
            r.is_some() ==> r.unwrap() == self.indices()[pos_to_index(pos)],
    {
        match ChunkBlockIndex::from_pos(pos) {
            Some(idx) => Some(self.get(idx)),
            None => None,
        }
    }

    /// The kind of the block at `pos`; `None` outside the chunk.
    pub fn try_get_data(&self, pos: (usize, usize, usize)) -> (r: Option<&BlockData>)
        ensures
            r.is_some() == in_chunk(pos),
            r.is_some() ==> r.unwrap()@ == self.palette_spec()[self.indices()[pos_to_index(pos)] as int],
    {
        match ChunkBlockIndex::from_pos(pos) {
            Some(idx) => Some(self.get_data(idx)),
            None => None,
        }
    }

    /// Makes the block at `idx` the kind of palette index `palette_idx`.
    pub fn set(&mut self, idx: ChunkBlockIndex, palette_idx: usize)
        requires
            palette_idx < old(self).palette_spec().len(),
            palette_idx <= u32::MAX,
        ensures
            final(self).palette_spec() == old(self).palette_spec(),
            final(self).indices() == old(self).indices().update(idx.spec_index(), palette_idx as nat),
            old(self).indices().len() == 4096,
            final(self).indices().len() == 4096,
            0 <= idx.spec_index() < 4096,
    {
        proof {
            use_type_invariant(&*self);
            use_type_invariant(&idx);
        }
        let _ = idx.as_usize();
        let mut blocks = ChunkData::Filled;
        std::mem::swap(&mut blocks, &mut self.blocks);
        blocks.set(idx, palette_idx);
        self.blocks = blocks;
    }

    /// Makes the block at `idx` of kind `val`, adding it to the palette
    /// when new.
    pub fn set_data(&mut self, idx: ChunkBlockIndex, val: &BlockData)
        requires
            old(self).palette_spec().len() <= u32::MAX,
        ensures
            final(self).palette_spec().contains(val@),
            old(self).palette_spec().contains(val@) ==> final(self).palette_spec() == old(self).palette_spec(),
            !old(self).palette_spec().contains(val@) ==> final(self).palette_spec() == old(self).palette_spec().push(val@),
            final(self).palette_spec()[final(self).indices()[idx.spec_index()] as int] == val@,
            forall|i: int| 0 <= i < 4096 && i != idx.spec_index() ==> #[trigger] final(self).indices()[i] == old(self).indices()[i],
    {
        let _ = idx.as_usize();
        proof {
            use_type_invariant(&*self);
        }
        let palette_idx = self.palette_insert(val.clone());
        self.set(idx, palette_idx);
        proof {
            use_type_invariant(&*self);
        }
    }
}

impl Default for Chunk {
    fn default() -> (r: Self)
        ensures
            r.palette_spec().len() == 1,
            r.indices() == Seq::new(4096, |i: int| 0nat),
    {
        Self::new()
    }
}

} // verus!
