//! The full block faces of a chunk drawn as instanced quads: which faces are
//! drawn, in which order, and their instance data, grouped by direction and
//! transparency pass.
use vstd::prelude::*;

use crate::chunk::{index_to_pos, lemma_index_pos_roundtrip};
use crate::enum_set::{EnumSet, SetEnum};
use crate::grid::{direction_at, CardinalDirection};
use crate::mesher::{transparency_spec, ChunkTransparencyMode, Config, QuadSubMesh, TextureInfo};
use crate::meshing::{distinct, extends, face_instance, instance_bits, lemma_extends_position, position_of, FullFace, TextureSet};
use crate::packed::FaceInstanceData;

verus! {

/// The full faces of the model shown at one block.
pub struct BlockFaces {
    /// By direction, in the order of [`CardinalDirection::values`]: the
    /// faces that a neighbour on that side can hide.
    pub cullable: Vec<Vec<FullFace>>,
    /// The faces that no neighbour hides.
    pub uncullable: Vec<FullFace>,
    pub ambient_occlusion: bool,
}

/// One face to draw: the index of its block, the face and its ambient
/// occlusion.
#[derive(Clone, Copy, PartialEq, Eq, Structural, Debug, Hash)]
pub struct FacePush {
    pub block: usize,
    pub face: FullFace,
    pub ao: usize,
}

/// The faces of block `i` hidden from direction `d` that are drawn, in
/// order: those of a side no neighbour hides, unless the mesh shader draws
/// them.
pub open spec fn direction_pushes(
    b: BlockFaces,
    culled: Set<CardinalDirection>,
    aos: [usize; 6],
    i: usize,
    d: int,
    config: Config,
) -> Seq<FacePush> {
    if !config.enable_mesh_shader && culled.contains(direction_at(d)) {
        Seq::new(b.cullable@[d]@.len(), |k: int| FacePush {
            block: i,
            face: b.cullable@[d]@[k],
            ao: if b.ambient_occlusion { aos[d] } else { 0 },
        })
    } else {
        Seq::empty()
    }
}

/// The faces of block `i` of the first `n` directions that are drawn.
pub open spec fn directions_pushes(
    b: BlockFaces,
    culled: Set<CardinalDirection>,
    aos: [usize; 6],
    i: usize,
    n: int,
    config: Config,
) -> Seq<FacePush>
    decreases n,
{
    if n <= 0 {
        Seq::empty()
    } else {
        directions_pushes(b, culled, aos, i, n - 1, config) + direction_pushes(b, culled, aos, i, n - 1, config)
    }
}

/// The faces of block `i` that are drawn, in order: the hideable ones by
/// direction, then the others, which get no ambient occlusion.
pub open spec fn block_pushes(b: BlockFaces, culled: Set<CardinalDirection>, aos: [usize; 6], i: usize, config: Config) -> Seq<FacePush> {
    directions_pushes(b, culled, aos, i, 6, config) + Seq::new(b.uncullable@.len(), |k: int| FacePush {
        block: i,
        face: b.uncullable@[k],
        ao: 0,
    })
}

/// The faces of the first `n` blocks that are drawn, block by block.
pub open spec fn chunk_pushes(
    blocks: Seq<BlockFaces>,
    culled: Seq<EnumSet<CardinalDirection>>,
    aos: Seq<[usize; 6]>,
    n: int,
    config: Config,
) -> Seq<FacePush>
    decreases n,
{
    if n <= 0 {
        Seq::empty()
    } else {
        chunk_pushes(blocks, culled, aos, n - 1, config) + block_pushes(blocks[n - 1], culled[n - 1]@, aos[n - 1], (n - 1) as usize, config)
    }
}

/// Well-formed per-block inputs.
pub open spec fn blocks_fit(blocks: Seq<BlockFaces>, culled: Seq<EnumSet<CardinalDirection>>, aos: Seq<[usize; 6]>) -> bool {
    &&& blocks.len() == 4096
    &&& culled.len() == 4096
    &&& aos.len() == 4096
    &&& forall|i: int| 0 <= i < 4096 ==> (#[trigger] blocks[i]).cullable@.len() == 6
}

/// The faces of a chunk that are drawn as quads, in the order they are
/// pushed: blocks in index order (x fastest), each with its hideable faces
/// of visible sides by direction, then its other faces.
pub fn face_pushes(
    blocks: &Vec<BlockFaces>,
    culled: &Vec<EnumSet<CardinalDirection>>,
    aos: &Vec<[usize; 6]>,
    config: Config,
) -> (r: Vec<FacePush>)
    requires
        blocks_fit(blocks@, culled@, aos@),
    ensures
        r@ == chunk_pushes(blocks@, culled@, aos@, 4096, config),
{
    let dirs = CardinalDirection::values();
    let mut r: Vec<FacePush> = Vec::new();
    let mut i: usize = 0;
    while i < 4096
        invariant
            i <= 4096,
            blocks_fit(blocks@, culled@, aos@),
            forall|k: int| 0 <= k < 6 ==> #[trigger] dirs@[k] == direction_at(k),
            r@ == chunk_pushes(blocks@, culled@, aos@, i as int, config),
        decreases 4096 - i,
    {
        let b = &blocks[i];
        let ghost start = r@;
        let mut d: usize = 0;
        while d < 6
            invariant
                d <= 6,
                i < 4096,
                blocks_fit(blocks@, culled@, aos@),
                *b == blocks@[i as int],
                forall|k: int| 0 <= k < 6 ==> #[trigger] dirs@[k] == direction_at(k),
                r@ == start + directions_pushes(*b, culled@[i as int]@, aos@[i as int], i, d as int, config),
            decreases 6 - d,
        {
            if !config.enable_mesh_shader && culled[i].contains(dirs[d]) {
                let faces = &b.cullable[d];
                let ghost before = r@;
                let ao = if b.ambient_occlusion { aos[i][d] } else { 0 };
                let mut k: usize = 0;
                while k < faces.len()
                    invariant
                        k <= faces.len(),
                        d < 6,
                        *faces == b.cullable@[d as int],
                        ao == (if b.ambient_occlusion { aos@[i as int][d as int] } else { 0 }),
                        r@ == before + Seq::new(k as nat, |j: int| FacePush { block: i, face: faces@[j], ao }),
                    decreases faces.len() - k,
                {
                    r.push(FacePush { block: i, face: faces[k], ao });
                    proof {
                        assert(r@ =~= before + Seq::new((k + 1) as nat, |j: int| FacePush { block: i, face: faces@[j], ao }));
                    }
                    k = k + 1;
                }
                proof {
                    assert(direction_pushes(*b, culled@[i as int]@, aos@[i as int], i, d as int, config)
                        =~= Seq::new(k as nat, |j: int| FacePush { block: i, face: faces@[j], ao }));
                    assert(r@ =~= start + directions_pushes(*b, culled@[i as int]@, aos@[i as int], i, d + 1, config));
                }
            } else {
                proof {
                    assert(direction_pushes(*b, culled@[i as int]@, aos@[i as int], i, d as int, config) =~= Seq::<FacePush>::empty());
                    assert(r@ =~= start + directions_pushes(*b, culled@[i as int]@, aos@[i as int], i, d + 1, config));
                }
            }
            d = d + 1;
        }
        let ghost mid = r@;
        let mut k: usize = 0;
        while k < b.uncullable.len()
            invariant
                k <= b.uncullable.len(),
                *b == blocks@[i as int],
                r@ == mid + Seq::new(k as nat, |j: int| FacePush { block: i, face: b.uncullable@[j], ao: 0 }),
            decreases b.uncullable.len() - k,
        {
            r.push(FacePush { block: i, face: b.uncullable[k], ao: 0 });
            proof {
                assert(r@ =~= mid + Seq::new((k + 1) as nat, |j: int| FacePush { block: i, face: b.uncullable@[j], ao: 0 }));
            }
            k = k + 1;
        }
        proof {
            assert(r@ =~= start + block_pushes(*b, culled@[i as int]@, aos@[i as int], i, config));
        }
        i = i + 1;
    }
    r
}

/// A face pushed from the first `n` directions of block `i` comes from a
/// visible side of the block, as one of its hideable faces, with the ambient
/// occlusion of that side when the block's model has ambient occlusion and
/// none otherwise; and every such face is pushed.
proof fn lemma_directions_pushes_ao(b: BlockFaces, culled: Set<CardinalDirection>, aos: [usize; 6], i: usize, n: int, config: Config)
    requires
        0 <= n <= 6,
    ensures
        forall|j: int| 0 <= j < directions_pushes(b, culled, aos, i, n, config).len() ==> {
            let q = #[trigger] directions_pushes(b, culled, aos, i, n, config)[j];
            &&& q.block == i
            &&& exists|d: int| 0 <= d < n && !config.enable_mesh_shader && culled.contains(direction_at(d))
                && (#[trigger] b.cullable@[d]@).contains(q.face) && q.ao == (if b.ambient_occlusion { aos[d] } else { 0 })
        },
        forall|d: int, k: int| 0 <= d < n && !config.enable_mesh_shader && culled.contains(direction_at(d)) && 0 <= k < b.cullable@[d]@.len()
            ==> directions_pushes(b, culled, aos, i, n, config).contains(FacePush {
                block: i,
                face: #[trigger] b.cullable@[d]@[k],
                ao: (if b.ambient_occlusion { aos[d] } else { 0 }),
            }),
    decreases n,
{
    if n > 0 {
        lemma_directions_pushes_ao(b, culled, aos, i, n - 1, config);
        let a = directions_pushes(b, culled, aos, i, n - 1, config);
        let c = direction_pushes(b, culled, aos, i, n - 1, config);
        let all = directions_pushes(b, culled, aos, i, n, config);
        assert(all == a + c);
        assert forall|j: int| 0 <= j < all.len() implies {
            let q = #[trigger] all[j];
            &&& q.block == i
            &&& exists|d: int| 0 <= d < n && !config.enable_mesh_shader && culled.contains(direction_at(d))
                && (#[trigger] b.cullable@[d]@).contains(q.face) && q.ao == (if b.ambient_occlusion { aos[d] } else { 0 })
        } by {
            if j < a.len() {
                assert(all[j] == a[j]);
            } else {
                assert(all[j] == c[j - a.len()]);
                let d = n - 1;
                assert(b.cullable@[d]@[j - a.len()] == all[j].face);
                assert(b.cullable@[d]@.contains(all[j].face));
            }
        }
        assert forall|d: int, k: int| 0 <= d < n && !config.enable_mesh_shader && culled.contains(direction_at(d)) && 0 <= k < b.cullable@[d]@.len()
            implies all.contains(FacePush { block: i, face: #[trigger] b.cullable@[d]@[k], ao: if b.ambient_occlusion { aos[d] } else { 0 } }) by {
            let x = FacePush { block: i, face: b.cullable@[d]@[k], ao: if b.ambient_occlusion { aos[d] } else { 0 } };
            if d < n - 1 {
                assert(a.contains(x));
                let t = choose|t: int| 0 <= t < a.len() && a[t] == x;
                assert(all[t] == x);
            } else {
                assert(c[k] == x);
                assert(all[a.len() + k] == x);
            }
        }
    }
}

/// The faces pushed for the first `n` blocks of a chunk: each belongs to
/// one of those blocks; a face of a block whose model has no ambient
/// occlusion gets none; a face with ambient occlusion is a hideable face of
/// a visible side of its block, with that side's ambient occlusion; and
/// every hideable face of a visible side of a block with ambient occlusion
/// is pushed with that side's ambient occlusion.
proof fn lemma_chunk_pushes_ao(
    blocks: Seq<BlockFaces>,
    culled: Seq<EnumSet<CardinalDirection>>,
    aos: Seq<[usize; 6]>,
    n: int,
    config: Config,
)
    requires
        blocks_fit(blocks, culled, aos),
        0 <= n <= 4096,
    ensures
        forall|j: int| 0 <= j < chunk_pushes(blocks, culled, aos, n, config).len() ==> {
            let q = #[trigger] chunk_pushes(blocks, culled, aos, n, config)[j];
            &&& q.block < n
            &&& (!blocks[q.block as int].ambient_occlusion ==> q.ao == 0)
            &&& (q.ao != 0 ==> exists|d: int| 0 <= d < 6 && culled[q.block as int]@.contains(direction_at(d))
                && (#[trigger] blocks[q.block as int].cullable@[d]@).contains(q.face) && q.ao == aos[q.block as int][d])
        },
        forall|i: int, d: int, k: int| 0 <= i < n && 0 <= d < 6 && !config.enable_mesh_shader && culled[i]@.contains(direction_at(d))
            && blocks[i].ambient_occlusion && 0 <= k < blocks[i].cullable@[d]@.len()
            ==> chunk_pushes(blocks, culled, aos, n, config).contains(FacePush { block: i as usize, face: #[trigger] blocks[i].cullable@[d]@[k], ao: aos[i][d] }),
    decreases n,
{
    if n > 0 {
        lemma_chunk_pushes_ao(blocks, culled, aos, n - 1, config);
        let i = n - 1;
        let b = blocks[i];
        lemma_directions_pushes_ao(b, culled[i]@, aos[i], i as usize, 6, config);
        let a = chunk_pushes(blocks, culled, aos, n - 1, config);
        let dp = directions_pushes(b, culled[i]@, aos[i], i as usize, 6, config);
        let up = Seq::new(b.uncullable@.len(), |k: int| FacePush { block: i as usize, face: b.uncullable@[k], ao: 0 });
        let bp = block_pushes(b, culled[i]@, aos[i], i as usize, config);
        assert(bp == dp + up);
        let all = chunk_pushes(blocks, culled, aos, n, config);
        assert(all == a + bp);
        assert forall|j: int| 0 <= j < all.len() implies {
            let q = #[trigger] all[j];
            &&& q.block < n
            &&& (!blocks[q.block as int].ambient_occlusion ==> q.ao == 0)
            &&& (q.ao != 0 ==> exists|d: int| 0 <= d < 6 && culled[q.block as int]@.contains(direction_at(d))
                && (#[trigger] blocks[q.block as int].cullable@[d]@).contains(q.face) && q.ao == aos[q.block as int][d])
        } by {
            if j < a.len() {
                assert(all[j] == a[j]);
            } else if j < a.len() + dp.len() {
                assert(all[j] == dp[j - a.len()]);
                let q = dp[j - a.len()];
                let d = choose|d: int| 0 <= d < 6 && !config.enable_mesh_shader && culled[i]@.contains(direction_at(d))
                    && (#[trigger] b.cullable@[d]@).contains(q.face) && q.ao == (if b.ambient_occlusion { aos[i][d] } else { 0 });
                assert(b.cullable@[d]@.contains(q.face));
            } else {
                assert(all[j] == up[j - a.len() - dp.len()]);
            }
        }
        assert forall|i2: int, d: int, k: int| 0 <= i2 < n && 0 <= d < 6 && !config.enable_mesh_shader && culled[i2]@.contains(direction_at(d))
            && blocks[i2].ambient_occlusion && 0 <= k < blocks[i2].cullable@[d]@.len()
            implies all.contains(FacePush { block: i2 as usize, face: #[trigger] blocks[i2].cullable@[d]@[k], ao: aos[i2][d] }) by {
            let x = FacePush { block: i2 as usize, face: blocks[i2].cullable@[d]@[k], ao: aos[i2][d] };
            if i2 < i {
                assert(a.contains(x));
                let t = choose|t: int| 0 <= t < a.len() && a[t] == x;
                assert(all[t] == x);
            } else {
                assert(b.cullable@[d]@.len() > k);
                assert(dp.contains(x));
                let t = choose|t: int| 0 <= t < dp.len() && dp[t] == x;
                assert(all[a.len() + t] == x);
            }
        }
    }
}

/// The faces of a whole chunk that [`face_pushes`] pushes: a face of a block
/// whose model has no ambient occlusion gets none; a face with ambient
/// occlusion is a hideable face of a visible side of its block, with the
/// ambient occlusion given for that block and side; and, unless the mesh
/// shader draws them, every hideable face of a visible side of a block with
/// ambient occlusion is pushed with the ambient occlusion of that block and
/// side.
pub proof fn lemma_face_pushes_ambient_occlusion(
    blocks: Seq<BlockFaces>,
    culled: Seq<EnumSet<CardinalDirection>>,
    aos: Seq<[usize; 6]>,
    config: Config,
)
    requires
        blocks_fit(blocks, culled, aos),
    ensures
        forall|j: int| 0 <= j < chunk_pushes(blocks, culled, aos, 4096, config).len() ==> {
            let q = #[trigger] chunk_pushes(blocks, culled, aos, 4096, config)[j];
            &&& q.block < 4096
            &&& (!blocks[q.block as int].ambient_occlusion ==> q.ao == 0)
            &&& (q.ao != 0 ==> exists|d: int| 0 <= d < 6 && culled[q.block as int]@.contains(direction_at(d))
                && (#[trigger] blocks[q.block as int].cullable@[d]@).contains(q.face) && q.ao == aos[q.block as int][d])
        },
        forall|i: int, d: int, k: int| 0 <= i < 4096 && 0 <= d < 6 && !config.enable_mesh_shader && culled[i]@.contains(direction_at(d))
            && blocks[i].ambient_occlusion && 0 <= k < blocks[i].cullable@[d]@.len()
            ==> chunk_pushes(blocks, culled, aos, 4096, config).contains(FacePush { block: i as usize, face: #[trigger] blocks[i].cullable@[d]@[k], ao: aos[i][d] }),
{
    lemma_chunk_pushes_ao(blocks, culled, aos, 4096, config);
}

/// The position of a transparency pass among the passes.
pub open spec fn mode_index(m: ChunkTransparencyMode) -> int {
    match m {
        ChunkTransparencyMode::Opaque => 0,
        ChunkTransparencyMode::Cutout => 1,
        ChunkTransparencyMode::Translucent => 2,
    }
}

/// The submesh a face goes to: three per direction, one per pass.
pub open spec fn quad_key(f: FullFace, infos: Seq<TextureInfo>) -> int {
    f.direction.index_spec() * 3 + mode_index(transparency_spec(infos[f.texture as int], f.force_translucent))
}

/// The faces of `p` that go to submesh `key`, in order.
pub open spec fn pushes_for_key(p: Seq<FacePush>, key: int, infos: Seq<TextureInfo>) -> Seq<FacePush>
    decreases p.len(),
{
    if p.len() == 0 {
        Seq::empty()
    } else {
        let rest = pushes_for_key(p.drop_last(), key, infos);
        if quad_key(p.last().face, infos) == key {
            rest.push(p.last())
        } else {
            rest
        }
    }
}

/// The instance bits of a face drawn, with the texture table `textures`.
pub open spec fn push_bits(p: FacePush, textures: Seq<usize>) -> u32 {
    instance_bits(index_to_pos(p.block as int), p.face, p.ao, position_of(textures, p.face.texture) as usize)
}

/// Faces that fit the instance data.
pub open spec fn pushes_fit(p: Seq<FacePush>, infos: Seq<TextureInfo>) -> bool {
    forall|j: int| 0 <= j < p.len() ==> {
        &&& (#[trigger] p[j]).block < 4096
        &&& p[j].face.texture < infos.len()
        &&& p[j].face.tint_index < 4
        &&& p[j].ao < 256
    }
}

fn key_of(f: &FullFace, infos: &Vec<TextureInfo>) -> (r: usize)
    requires
        f.texture < infos.len(),
    ensures
        r == quad_key(*f, infos@),
        r < 18,
{
    let mode = ChunkTransparencyMode::from_data(&infos[f.texture], f.force_translucent);
    let m: usize = match mode {
        ChunkTransparencyMode::Opaque => 0,
        ChunkTransparencyMode::Cutout => 1,
        ChunkTransparencyMode::Translucent => 2,
    };
    proof {
        CardinalDirection::lemma_index_bound(f.direction);
    }
    let d = f.direction.into_index();
    (d as usize) * 3 + m
}

/// The instance data of the faces drawn, by submesh; the textures of the
/// faces are added to `textures`.
pub fn quad_instances(pushes: &Vec<FacePush>, infos: &Vec<TextureInfo>, textures: &mut TextureSet) -> (r: Vec<Vec<FaceInstanceData>>)
    requires
        old(textures)@.len() + pushes.len() <= 128,
        pushes_fit(pushes@, infos@),
    ensures
        extends(old(textures)@, final(textures)@),
        distinct(final(textures)@),
        r.len() == 18,
        forall|key: int| 0 <= key < 18 ==> (#[trigger] r@[key]).len() == pushes_for_key(pushes@, key, infos@).len(),
        forall|key: int, j: int| 0 <= key < 18 && 0 <= j < r@[key].len() ==>
            (#[trigger] r@[key]@[j]).bits_spec() == push_bits(pushes_for_key(pushes@, key, infos@)[j], final(textures)@),
        forall|j: int| 0 <= j < pushes.len() ==> final(textures)@.contains(#[trigger] pushes@[j].face.texture),
{
    let _ = textures.len();
    let ghost t0 = textures@;
    let mut lists: Vec<Vec<FaceInstanceData>> = Vec::new();
    let mut key: usize = 0;
    while key < 18
        invariant
            key <= 18,
            lists.len() == key,
            forall|k: int| 0 <= k < key ==> (#[trigger] lists@[k]).len() == 0,
        decreases 18 - key,
    {
        lists.push(Vec::new());
        key = key + 1;
    }
    proof {
        assert forall|k: int| 0 <= k < 18 implies pushes_for_key(pushes@.take(0), k, infos@) =~= Seq::<FacePush>::empty() by {
            assert(pushes@.take(0).len() == 0);
        }
    }
    let mut j: usize = 0;
    while j < pushes.len()
        invariant
            j <= pushes.len(),
            t0.len() + pushes.len() <= 128,
            pushes_fit(pushes@, infos@),
            extends(t0, textures@),
            distinct(textures@),
            textures@.len() <= t0.len() + j,
            lists.len() == 18,
            forall|k: int| 0 <= k < 18 ==> (#[trigger] lists@[k]).len() == pushes_for_key(pushes@.take(j as int), k, infos@).len(),
            forall|k: int, m: int| 0 <= k < 18 && 0 <= m < lists@[k].len() ==>
                (#[trigger] lists@[k]@[m]).bits_spec() == push_bits(pushes_for_key(pushes@.take(j as int), k, infos@)[m], textures@),
            forall|m: int| 0 <= m < j ==> textures@.contains(#[trigger] pushes@[m].face.texture),
        decreases pushes.len() - j,
    {
        let p = pushes[j];
        let ghost tb = textures@;
        let key = key_of(&p.face, infos);
        let (texture, _) = textures.insert_full(p.face.texture);
        proof {
            lemma_index_pos_roundtrip(p.block as int);
        }
        let pos = (p.block % 16, (p.block / 16) % 16, p.block / 256);
        proof {
            assert(pos == index_to_pos(p.block as int));
        }
        let data = face_instance(pos, &p.face, p.ao, texture);
        let ghost lists_before = lists@;
        let mut list = lists.remove(key);
        list.push(data);
        lists.insert(key, list);
        proof {
            let prev = pushes@.take(j as int);
            let next = pushes@.take(j + 1);
            assert(next.drop_last() =~= prev);
            assert(next.last() == p);
            assert(lists@.len() == 18);
            assert forall|k: int| 0 <= k < 18 && k != key implies lists@[k] == lists_before[k] by {}
            assert(lists@[key as int]@ =~= lists_before[key as int]@.push(data));
            assert forall|k: int| 0 <= k < 18 implies (#[trigger] lists@[k]).len() == pushes_for_key(next, k, infos@).len() by {
            }
            assert forall|k: int, m: int| 0 <= k < 18 && 0 <= m < lists@[k].len() implies
                (#[trigger] lists@[k]@[m]).bits_spec() == push_bits(pushes_for_key(next, k, infos@)[m], textures@) by {
                if k == key && m == lists@[k].len() - 1 {
                    assert(pushes_for_key(next, k, infos@)[m] == p);
                } else {
                    let q = pushes_for_key(prev, k, infos@)[m];
                    assert(pushes_for_key(next, k, infos@)[m] == q);
                    assert(lists@[k]@[m] == lists_before[k]@[m]);
                    lemma_pushes_for_key_member(prev, k, infos@, m);
                    let src = choose|src: int| 0 <= src < prev.len() && prev[src] == q;
                    assert(pushes@[src] == q);
                    lemma_extends_position(tb, textures@, q.face.texture);
                }
            }
            assert forall|m: int| 0 <= m < j + 1 implies textures@.contains(#[trigger] pushes@[m].face.texture) by {
                if m < j {
                    lemma_extends_position(tb, textures@, pushes@[m].face.texture);
                }
            }
        }
        j = j + 1;
    }
    proof {
        assert(pushes@.take(j as int) =~= pushes@);
    }
    lists
}

proof fn lemma_pushes_for_key_member(p: Seq<FacePush>, key: int, infos: Seq<TextureInfo>, m: int)
    requires
        0 <= m < pushes_for_key(p, key, infos).len(),
    ensures
        exists|src: int| 0 <= src < p.len() && p[src] == pushes_for_key(p, key, infos)[m],
    decreases p.len(),
{
    if p.len() > 0 {
        let rest = pushes_for_key(p.drop_last(), key, infos);
        if m < rest.len() {
            lemma_pushes_for_key_member(p.drop_last(), key, infos, m);
            let src = choose|src: int| 0 <= src < p.drop_last().len() && p.drop_last()[src] == rest[m];
            assert(p[src] == rest[m]);
        } else {
            assert(p[p.len() - 1] == p.last());
        }
    }
}

/// The pass of position `m` among the passes.
pub open spec fn mode_at(m: int) -> ChunkTransparencyMode {
    if m == 0 {
        ChunkTransparencyMode::Opaque
    } else if m == 1 {
        ChunkTransparencyMode::Cutout
    } else {
        ChunkTransparencyMode::Translucent
    }
}

/// The submeshes among the first `n` that hold faces, in order.
pub open spec fn nonempty_keys(lens: Seq<nat>, n: int) -> Seq<int>
    decreases n,
{
    if n <= 0 {
        Seq::empty()
    } else if lens[n - 1] > 0 {
        nonempty_keys(lens, n - 1).push(n - 1)
    } else {
        nonempty_keys(lens, n - 1)
    }
}

/// The lengths of the submeshes.
pub open spec fn list_lens(lists: Seq<Vec<FaceInstanceData>>) -> Seq<nat> {
    lists.map_values(|l: Vec<FaceInstanceData>| l@.len())
}

fn mode_of(m: usize) -> (r: ChunkTransparencyMode)
    requires
        m < 3,
    ensures
        r == mode_at(m as int),
{
    if m == 0 {
        ChunkTransparencyMode::Opaque
    } else if m == 1 {
        ChunkTransparencyMode::Cutout
    } else {
        ChunkTransparencyMode::Translucent
    }
}

/// The submeshes that hold faces, in order of direction then pass.
pub fn finish_quads(lists: Vec<Vec<FaceInstanceData>>) -> (r: Vec<QuadSubMesh>)
    requires
        lists.len() == 18,
    ensures
        r.len() == nonempty_keys(list_lens(lists@), 18).len(),
        forall|m: int| 0 <= m < r.len() ==> {
            let key = nonempty_keys(list_lens(lists@), 18)[m];
            &&& (#[trigger] r@[m]).direction == direction_at(key / 3)
            &&& r@[m].transparency == mode_at(key % 3)
            &&& r@[m].instances@ == lists@[key]@
        },
{
    let ghost all = lists@;
    let dirs = CardinalDirection::values();
    let mut rest = lists;
    let mut r: Vec<QuadSubMesh> = Vec::new();
    let mut key: usize = 0;
    while key < 18
        invariant
            key <= 18,
            all.len() == 18,
            rest@ == all.subrange(key as int, 18),
            forall|k: int| 0 <= k < 6 ==> #[trigger] dirs@[k] == direction_at(k),
            r.len() == nonempty_keys(list_lens(all), key as int).len(),
            forall|m: int| 0 <= m < r.len() ==> {
                let k = nonempty_keys(list_lens(all), key as int)[m];
                &&& (#[trigger] r@[m]).direction == direction_at(k / 3)
                &&& r@[m].transparency == mode_at(k % 3)
                &&& r@[m].instances@ == all[k]@
            },
        decreases 18 - key,
    {
        let list = rest.remove(0);
        proof {
            assert(list == all[key as int]);
            assert(rest@ =~= all.subrange(key + 1, 18));
            assert(list_lens(all)[key as int] == all[key as int]@.len());
        }
        if list.len() > 0 {
            let ghost before = r@;
            r.push(QuadSubMesh { direction: dirs[key / 3], transparency: mode_of(key % 3), instances: list });
            proof {
                assert forall|m: int| 0 <= m < r.len() implies {
                    let k = nonempty_keys(list_lens(all), key + 1)[m];
                    &&& (#[trigger] r@[m]).direction == direction_at(k / 3)
                    &&& r@[m].transparency == mode_at(k % 3)
                    &&& r@[m].instances@ == all[k]@
                } by {
                    if m < before.len() {
                        assert(r@[m] == before[m]);
                    }
                }
            }
        }
        key = key + 1;
    }
    r
}

/// The quad submeshes of a chunk: the faces drawn (see [`face_pushes`]),
/// their instance data grouped by direction and pass, the empty groups
/// left out; the textures of the faces are added to `textures`.
pub fn mesh_quads(
    blocks: &Vec<BlockFaces>,
    culled: &Vec<EnumSet<CardinalDirection>>,
    aos: &Vec<[usize; 6]>,
    config: Config,
    infos: &Vec<TextureInfo>,
    textures: &mut TextureSet,
) -> (r: Vec<QuadSubMesh>)
    requires
        blocks_fit(blocks@, culled@, aos@),
        old(textures)@.len() + chunk_pushes(blocks@, culled@, aos@, 4096, config).len() <= 128,
        pushes_fit(chunk_pushes(blocks@, culled@, aos@, 4096, config), infos@),
    ensures
        ({
            let p = chunk_pushes(blocks@, culled@, aos@, 4096, config);
            let lens = Seq::new(18, |k: int| pushes_for_key(p, k, infos@).len());
            let keys = nonempty_keys(lens, 18);
            &&& extends(old(textures)@, final(textures)@)
            &&& distinct(final(textures)@)
            &&& r.len() == keys.len()
            &&& forall|m: int| 0 <= m < r.len() ==> {
                let key = keys[m];
                &&& (#[trigger] r@[m]).direction == direction_at(key / 3)
                &&& r@[m].transparency == mode_at(key % 3)
                &&& r@[m].instances.len() == pushes_for_key(p, key, infos@).len()
                &&& forall|j: int| 0 <= j < r@[m].instances.len() ==>
                    (#[trigger] r@[m].instances@[j]).bits_spec() == push_bits(pushes_for_key(p, key, infos@)[j], final(textures)@)
            }
        }),
{
    let pushes = face_pushes(blocks, culled, aos, config);
    let lists = quad_instances(&pushes, infos, textures);
    let ghost p = pushes@;
    let ghost l = lists@;
    proof {
        let lens = Seq::new(18, |k: int| pushes_for_key(p, k, infos@).len());
        assert(list_lens(l) =~= lens);
    }
    let r = finish_quads(lists);
    proof {
        let lens = Seq::new(18, |k: int| pushes_for_key(p, k, infos@).len());
        assert(list_lens(l) =~= lens);
        lemma_nonempty_keys_bound(lens, 18);
        assert forall|m: int| 0 <= m < r.len() implies {
            let key = nonempty_keys(lens, 18)[m];
            &&& (#[trigger] r@[m]).instances.len() == pushes_for_key(p, key, infos@).len()
            &&& forall|j: int| 0 <= j < r@[m].instances.len() ==>
                (#[trigger] r@[m].instances@[j]).bits_spec() == push_bits(pushes_for_key(p, key, infos@)[j], textures@)
        } by {
            let key = nonempty_keys(lens, 18)[m];
            assert(r@[m].instances@ == l[key]@);
            assert forall|j: int| 0 <= j < r@[m].instances.len() implies
                (#[trigger] r@[m].instances@[j]).bits_spec() == push_bits(pushes_for_key(p, key, infos@)[j], textures@) by {
                assert(r@[m].instances@[j] == l[key]@[j]);
            }
        }
    }
    r
}

proof fn lemma_nonempty_keys_bound(lens: Seq<nat>, n: int)
    requires
        0 <= n <= lens.len(),
    ensures
        forall|m: int| 0 <= m < nonempty_keys(lens, n).len() ==> 0 <= #[trigger] nonempty_keys(lens, n)[m] < n,
    decreases n,
{
    if n > 0 {
        lemma_nonempty_keys_bound(lens, n - 1);
        let prev = nonempty_keys(lens, n - 1);
        assert forall|m: int| 0 <= m < nonempty_keys(lens, n).len() implies 0 <= #[trigger] nonempty_keys(lens, n)[m] < n by {
            if m < prev.len() {
                assert(nonempty_keys(lens, n)[m] == prev[m]);
            }
        }
    }
}

} // verus!
