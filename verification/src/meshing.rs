//! The block data of a chunk for the mesh shader: each block names the model
//! it shows and the faces to draw, and blocks come in groups of two by two
//! that also share the union of their faces.
use vstd::prelude::*;

use crate::chunk::{coord, get_coord, in_chunk, index_to_pos, lemma_index_pos_roundtrip, lemma_pos_index_roundtrip, pos_to_index, set_coord, with_coord};
use crate::grid::{quarter_turns, GridAngle, Sign, direction_at};
use crate::mesher::{exterior_neighbor, exterior_neighbor_spec};
use crate::enum_set::EnumSet;
use crate::grid::CardinalDirection;
use crate::enum_set::SetEnum;
use crate::mesher::{coordinate_seed_spec, get_coordinate_seed, transparency_spec, ChunkTransparencyMode, TextureInfo};
use crate::packed::{get_field, set_field, Block, BlockModel, BlockModelFaceData, FaceInstanceData};

verus! {

/// Where the models of one palette entry start in the mesh's model list,
/// how many variants there are, and which of their faces the mesh draws.
pub struct PaletteIdx {
    pub offset: usize,
    pub count: usize,
    pub faces_for_this_mesh: EnumSet<CardinalDirection>,
}

/// The global coordinate of block `p` of the chunk at `c`.
pub open spec fn global_coord(c: i64, p: usize) -> i64 {
    (c * 16 + p) as i64
}

/// Which variant the block at `p` of the chunk at `chunk_pos` shows among
/// `count` variants.
pub open spec fn block_variant(chunk_pos: (i64, i64, i64), p: (usize, usize, usize), count: usize) -> int {
    if count == 0 {
        0
    } else {
        (coordinate_seed_spec(
            global_coord(chunk_pos.0, p.0),
            global_coord(chunk_pos.1, p.1),
            global_coord(chunk_pos.2, p.2),
        ) % (count as u64)) as int
    }
}

/// The position of block `k` of group `g`: groups cover two by two blocks
/// of one layer, x fastest, then y, then z; inside a group x varies first.
pub open spec fn group_pos(g: int, k: int) -> (usize, usize, usize) {
    ((2 * (g % 8) + k % 2) as usize, (2 * ((g / 8) % 8) + k / 2) as usize, (g / 64) as usize)
}

/// The faces drawn for the block at `p`: those not culled that the mesh
/// draws for its palette entry.
pub open spec fn block_faces(
    palette: Seq<PaletteIdx>,
    block_palette: Seq<usize>,
    culled: Seq<EnumSet<CardinalDirection>>,
    p: (usize, usize, usize),
) -> Set<CardinalDirection> {
    culled[pos_to_index(p)]@.intersect(palette[block_palette[pos_to_index(p)] as int].faces_for_this_mesh@)
}

/// The faces drawn by any block of group `g`.
pub open spec fn group_faces(
    palette: Seq<PaletteIdx>,
    block_palette: Seq<usize>,
    culled: Seq<EnumSet<CardinalDirection>>,
    g: int,
) -> Set<CardinalDirection> {
    block_faces(palette, block_palette, culled, group_pos(g, 0))
        .union(block_faces(palette, block_palette, culled, group_pos(g, 1)))
        .union(block_faces(palette, block_palette, culled, group_pos(g, 2)))
        .union(block_faces(palette, block_palette, culled, group_pos(g, 3)))
}

/// The chunk at `c` is far enough from the edge of the world for its
/// global block coordinates to fit.
pub open spec fn chunk_coord_fits(c: i64) -> bool {
    -0x0800_0000_0000_0000 <= c < 0x0800_0000_0000_0000
}

proof fn lemma_group_pos(g: int, k: int)
    requires
        0 <= g < 1024,
        0 <= k < 4,
    ensures
        in_chunk(group_pos(g, k)),
        0 <= pos_to_index(group_pos(g, k)) < 4096,
{
}

/// The block at `p`, without its group mask, and its faces.
fn block_at(
    chunk_pos: (i64, i64, i64),
    p: (usize, usize, usize),
    block_palette: &Vec<usize>,
    palette: &Vec<PaletteIdx>,
    culled: &Vec<EnumSet<CardinalDirection>>,
) -> (r: (Block, EnumSet<CardinalDirection>))
    requires
        in_chunk(p),
        chunk_coord_fits(chunk_pos.0),
        chunk_coord_fits(chunk_pos.1),
        chunk_coord_fits(chunk_pos.2),
        block_palette.len() == 4096,
        culled.len() == 4096,
        forall|i: int| 0 <= i < 4096 ==> #[trigger] block_palette@[i] < palette.len(),
        forall|j: int| 0 <= j < palette.len() ==> #[trigger] palette@[j].offset + palette@[j].count <= 65536
            && palette@[j].offset < 65536,
    ensures
        ({
            let e = palette@[block_palette@[pos_to_index(p)] as int];
            &&& r.0.model_idx_spec() == e.offset + block_variant(chunk_pos, p, e.count)
            &&& r.0.face_mask_spec() == block_faces(palette@, block_palette@, culled@, p)
            &&& r.1@ == block_faces(palette@, block_palette@, culled@, p)
        }),
{
    let i = p.0 + (p.1 + p.2 * 16) * 16;
    let e = &palette[block_palette[i]];
    let variant: usize = if e.count == 0 {
        0
    } else {
        let gx = chunk_pos.0 * 16 + p.0 as i64;
        let gy = chunk_pos.1 * 16 + p.1 as i64;
        let gz = chunk_pos.2 * 16 + p.2 as i64;
        let seed = get_coordinate_seed(gx, gy, gz);
        (seed % (e.count as u64)) as usize
    };
    let faces = culled[i].intersection(e.faces_for_this_mesh);
    let block = Block::new().with_model_idx(e.offset + variant).with_face_mask(faces);
    (block, faces)
}

/// The blocks of a chunk for the mesh shader, in group order: block
/// `4 g + k` is block `k` of group `g` (see [`group_pos`]).
pub fn mesh_shader_blocks(
    chunk_pos: (i64, i64, i64),
    block_palette: &Vec<usize>,
    palette: &Vec<PaletteIdx>,
    culled: &Vec<EnumSet<CardinalDirection>>,
) -> (r: Vec<Block>)
    requires
        chunk_coord_fits(chunk_pos.0),
        chunk_coord_fits(chunk_pos.1),
        chunk_coord_fits(chunk_pos.2),
        block_palette.len() == 4096,
        culled.len() == 4096,
        forall|i: int| 0 <= i < 4096 ==> #[trigger] block_palette@[i] < palette.len(),
        forall|j: int| 0 <= j < palette.len() ==> #[trigger] palette@[j].offset + palette@[j].count <= 65536
            && palette@[j].offset < 65536,
    ensures
        r.len() == 4096,
        forall|g: int, k: int| 0 <= g < 1024 && 0 <= k < 4 ==> {
            let p = group_pos(g, k);
            let e = palette@[block_palette@[pos_to_index(p)] as int];
            &&& (#[trigger] r@[4 * g + k]).model_idx_spec() == e.offset + block_variant(chunk_pos, p, e.count)
            &&& r@[4 * g + k].face_mask_spec() == block_faces(palette@, block_palette@, culled@, p)
            &&& r@[4 * g + k].group_face_mask_spec() == group_faces(palette@, block_palette@, culled@, g)
        },
{
    let mut r: Vec<Block> = Vec::new();
    let mut g: usize = 0;
    while g < 1024
        invariant
            g <= 1024,
            r.len() == 4 * g,
            chunk_coord_fits(chunk_pos.0),
            chunk_coord_fits(chunk_pos.1),
            chunk_coord_fits(chunk_pos.2),
            block_palette.len() == 4096,
            culled.len() == 4096,
            forall|i: int| 0 <= i < 4096 ==> #[trigger] block_palette@[i] < palette.len(),
            forall|j: int| 0 <= j < palette.len() ==> #[trigger] palette@[j].offset + palette@[j].count <= 65536
                && palette@[j].offset < 65536,
            forall|h: int, k: int| 0 <= h < g && 0 <= k < 4 ==> {
                let p = group_pos(h, k);
                let e = palette@[block_palette@[pos_to_index(p)] as int];
                &&& (#[trigger] r@[4 * h + k]).model_idx_spec() == e.offset + block_variant(chunk_pos, p, e.count)
                &&& r@[4 * h + k].face_mask_spec() == block_faces(palette@, block_palette@, culled@, p)
                &&& r@[4 * h + k].group_face_mask_spec() == group_faces(palette@, block_palette@, culled@, h)
            },
        decreases 1024 - g,
    {
        let z = g / 64;
        let gy = 2 * ((g / 8) % 8);
        let gx = 2 * (g % 8);
        proof {
            lemma_group_pos(g as int, 0);
            lemma_group_pos(g as int, 1);
            lemma_group_pos(g as int, 2);
            lemma_group_pos(g as int, 3);
        }
        let (b0, f0) = block_at(chunk_pos, (gx, gy, z), block_palette, palette, culled);
        let (b1, f1) = block_at(chunk_pos, (gx + 1, gy, z), block_palette, palette, culled);
        let (b2, f2) = block_at(chunk_pos, (gx, gy + 1, z), block_palette, palette, culled);
        let (b3, f3) = block_at(chunk_pos, (gx + 1, gy + 1, z), block_palette, palette, culled);
        let group = f0.union(f1).union(f2).union(f3);
        let ghost before = r@;
        r.push(b0.with_group_face_mask(group));
        r.push(b1.with_group_face_mask(group));
        r.push(b2.with_group_face_mask(group));
        r.push(b3.with_group_face_mask(group));
        proof {
            let gi = g as int;
            assert(group_pos(gi, 0) == (gx, gy, z));
            assert(group_pos(gi, 1) == ((gx + 1) as usize, gy, z));
            assert(group_pos(gi, 2) == (gx, (gy + 1) as usize, z));
            assert(group_pos(gi, 3) == ((gx + 1) as usize, (gy + 1) as usize, z));
            assert forall|h: int, k: int| 0 <= h < g + 1 && 0 <= k < 4 implies {
                let p = group_pos(h, k);
                let e = palette@[block_palette@[pos_to_index(p)] as int];
                &&& (#[trigger] r@[4 * h + k]).model_idx_spec() == e.offset + block_variant(chunk_pos, p, e.count)
                &&& r@[4 * h + k].face_mask_spec() == block_faces(palette@, block_palette@, culled@, p)
                &&& r@[4 * h + k].group_face_mask_spec() == group_faces(palette@, block_palette@, culled@, h)
            } by {
                if h < gi {
                    assert(r@[4 * h + k] == before[4 * h + k]);
                } else {
                    assert(h == gi);
                }
            }
        }
        g = g + 1;
    }
    r
}

/// The textures used by the meshes, in the order they were first met; a
/// texture's position is the index the shaders use for it.
pub struct TextureSet {
    items: Vec<usize>,
}

/// The position of `x` in `s`.
pub open spec fn position_of(s: Seq<usize>, x: usize) -> int {
    choose|i: int| 0 <= i < s.len() && s[i] == x
}

/// `s` holds no texture twice.
pub open spec fn distinct(s: Seq<usize>) -> bool {
    forall|i: int, j: int| 0 <= i < j < s.len() ==> s[i] != s[j]
}

proof fn lemma_position(s: Seq<usize>, i: int)
    requires
        distinct(s),
        0 <= i < s.len(),
    ensures
        position_of(s, s[i]) == i,
{
    let x = s[i];
    assert(exists|k: int| 0 <= k < s.len() && s[k] == x);
    let k = position_of(s, x);
    if k != i {
        if k < i {
            assert(s[k] != s[i]);
        } else {
            assert(s[i] != s[k]);
        }
    }
}

impl View for TextureSet {
    type V = Seq<usize>;

    closed spec fn view(&self) -> Seq<usize> {
        self.items@
    }
}

impl TextureSet {
    #[verifier::type_invariant]
    spec fn no_repeats(self) -> bool {
        distinct(self.items@)
    }

    pub fn new() -> (r: Self)
        ensures
            r@ == Seq::<usize>::empty(),
    {
        TextureSet { items: Vec::new() }
    }

    pub fn len(&self) -> (r: usize)
        ensures
            r == self@.len(),
            distinct(self@),
    {
        proof {
            use_type_invariant(self);
        }
        self.items.len()
    }

    /// The textures, in order.
    pub fn iter(&self) -> (r: Vec<usize>)
        ensures
            r@ == self@,
            distinct(r@),
    {
        proof {
            use_type_invariant(self);
        }
        self.items.clone()
    }

    /// The position of `texture`, added at the end when new, and whether it
    /// was new.
    pub fn insert_full(&mut self, texture: usize) -> (r: (usize, bool))
        ensures
            distinct(final(self)@),
            old(self)@.contains(texture) ==> final(self)@ == old(self)@ && !r.1,
            !old(self)@.contains(texture) ==> final(self)@ == old(self)@.push(texture) && r.1,
            r.0 < final(self)@.len(),
            final(self)@[r.0 as int] == texture,
            final(self)@.contains(texture),
            r.0 == position_of(final(self)@, texture),
    {
        proof {
            use_type_invariant(&*self);
        }
        let mut i: usize = 0;
        while i < self.items.len()
            invariant
                i <= self.items.len(),
                distinct(self.items@),
                self@ == old(self)@,
                forall|j: int| 0 <= j < i ==> self.items@[j] != texture,
            decreases self.items.len() - i,
        {
            if self.items[i] == texture {
                proof {
                    lemma_position(self.items@, i as int);
                }
                return (i, false);
            }
            i = i + 1;
        }
        let n = self.items.len();
        let ghost before = self.items@;
        let mut items: Vec<usize> = Vec::new();
        std::mem::swap(&mut items, &mut self.items);
        items.push(texture);
        proof {
            assert(distinct(items@));
        }
        self.items = items;
        proof {
            lemma_position(self.items@, n as int);
        }
        (n, true)
    }
}

/// A full block face of a model, as the mesh shader needs it.
#[derive(Clone, Copy, PartialEq, Eq, Structural, Debug, Hash)]
pub struct FullFace {
    /// The direction of the neighbour that can hide the face.
    pub cull: CardinalDirection,
    /// The direction the face looks towards.
    pub direction: CardinalDirection,
    /// The texture, by its index in the texture table.
    pub texture: usize,
    pub force_translucent: bool,
    pub tint_index: u32,
    /// Whether the texture is mirrored along u.
    pub uv_flipped: bool,
    pub uv_rotation: GridAngle,
}

/// A face is drawn by the mesh of pass `t` when it is hidden by the
/// neighbour it looks at and its texture belongs to the pass.
pub open spec fn face_matches(f: FullFace, infos: Seq<TextureInfo>, t: ChunkTransparencyMode) -> bool {
    f.cull == f.direction && transparency_spec(infos[f.texture as int], f.force_translucent) == t
}

/// The bits of the face data with the given fields.
pub open spec fn face_data_bits(tint: u32, texture: u32, face_tint: u32) -> u32 {
    set_field(set_field(set_field(0, 0, 2, tint), 2, 7, texture), 9, 3, face_tint)
}

/// The last of the first `n` faces that the mesh of pass `t` draws in
/// direction `d`, or -1.
pub open spec fn last_match(faces: Seq<FullFace>, infos: Seq<TextureInfo>, t: ChunkTransparencyMode, d: CardinalDirection, n: int) -> int
    decreases n,
{
    if n <= 0 {
        -1
    } else if face_matches(faces[n - 1], infos, t) && faces[n - 1].direction == d {
        n - 1
    } else {
        last_match(faces, infos, t, d, n - 1)
    }
}

/// The face data a model shows in direction `d` in the mesh of pass `t`:
/// that of its last face drawn there, or nothing.
pub open spec fn model_slot(
    faces: Seq<FullFace>,
    infos: Seq<TextureInfo>,
    t: ChunkTransparencyMode,
    textures: Seq<usize>,
    d: CardinalDirection,
    n: int,
) -> u32 {
    let k = last_match(faces, infos, t, d, n);
    if k < 0 {
        0
    } else {
        face_data_bits(faces[k].tint_index, position_of(textures, faces[k].texture) as u32, d.index_spec() as u32)
    }
}


/// The textures already in the table keep their place.
pub open spec fn extends(a: Seq<usize>, b: Seq<usize>) -> bool {
    &&& a.len() <= b.len()
    &&& forall|i: int| 0 <= i < a.len() ==> #[trigger] b[i] == a[i]
}

pub(crate) proof fn lemma_extends_position(a: Seq<usize>, b: Seq<usize>, x: usize)
    requires
        extends(a, b),
        distinct(b),
        a.contains(x),
    ensures
        position_of(b, x) == position_of(a, x),
        b.contains(x),
{
    let i = choose|i: int| 0 <= i < a.len() && a[i] == x;
    assert(b[i] == x);
    assert forall|p: int, q: int| 0 <= p < q < a.len() implies a[p] != a[q] by {
        assert(b[p] == a[p] && b[q] == a[q]);
    }
    lemma_position(a, i);
    lemma_position(b, i);
}

/// A table of distinct textures drawn from `allowed` holds no more than it.
proof fn lemma_table_fits(s: Seq<usize>, allowed: Set<usize>)
    requires
        distinct(s),
        s.to_set().subset_of(allowed),
        allowed.finite(),
    ensures
        s.len() <= allowed.len(),
{
    assert(s.no_duplicates());
    s.unique_seq_to_set();
    vstd::set_lib::lemma_len_subset(s.to_set(), allowed);
}

/// The textures of the faces of `faces` drawn in pass `t`, in order.
pub open spec fn drawn_textures(faces: Seq<FullFace>, infos: Seq<TextureInfo>, t: ChunkTransparencyMode) -> Seq<usize>
    decreases faces.len(),
{
    if faces.len() == 0 {
        Seq::empty()
    } else {
        let rest = drawn_textures(faces.drop_last(), infos, t);
        if face_matches(faces.last(), infos, t) { rest.push(faces.last().texture) } else { rest }
    }
}

/// The textures of the faces of the variants `models` drawn in pass `t`.
pub open spec fn entry_textures(models: Seq<Vec<FullFace>>, infos: Seq<TextureInfo>, t: ChunkTransparencyMode) -> Seq<usize>
    decreases models.len(),
{
    if models.len() == 0 {
        Seq::empty()
    } else {
        entry_textures(models.drop_last(), infos, t) + drawn_textures(models.last()@, infos, t)
    }
}

/// The textures of the faces of every palette entry drawn in pass `t`.
pub open spec fn palette_textures(pm: Seq<Vec<Vec<FullFace>>>, infos: Seq<TextureInfo>, t: ChunkTransparencyMode) -> Seq<usize>
    decreases pm.len(),
{
    if pm.len() == 0 {
        Seq::empty()
    } else {
        palette_textures(pm.drop_last(), infos, t) + entry_textures(pm.last()@, infos, t)
    }
}

proof fn lemma_drawn_texture(faces: Seq<FullFace>, infos: Seq<TextureInfo>, t: ChunkTransparencyMode, k: int)
    requires
        0 <= k < faces.len(),
        face_matches(faces[k], infos, t),
    ensures
        drawn_textures(faces, infos, t).contains(faces[k].texture),
    decreases faces.len(),
{
    let rest = drawn_textures(faces.drop_last(), infos, t);
    if k == faces.len() - 1 {
        assert(rest.push(faces[k].texture)[rest.len() as int] == faces[k].texture);
    } else {
        assert(faces.drop_last()[k] == faces[k]);
        lemma_drawn_texture(faces.drop_last(), infos, t, k);
        let i = choose|i: int| 0 <= i < rest.len() && rest[i] == faces[k].texture;
        if face_matches(faces.last(), infos, t) {
            assert(rest.push(faces.last().texture)[i] == faces[k].texture);
        }
    }
}

proof fn lemma_entry_texture(models: Seq<Vec<FullFace>>, infos: Seq<TextureInfo>, t: ChunkTransparencyMode, m: int, k: int)
    requires
        0 <= m < models.len(),
        0 <= k < models[m]@.len(),
        face_matches(models[m]@[k], infos, t),
    ensures
        entry_textures(models, infos, t).contains(models[m]@[k].texture),
    decreases models.len(),
{
    let a = entry_textures(models.drop_last(), infos, t);
    let b = drawn_textures(models.last()@, infos, t);
    if m == models.len() - 1 {
        lemma_drawn_texture(models[m]@, infos, t, k);
        let i = choose|i: int| 0 <= i < b.len() && b[i] == models[m]@[k].texture;
        assert((a + b)[a.len() + i] == b[i]);
    } else {
        assert(models.drop_last()[m] == models[m]);
        lemma_entry_texture(models.drop_last(), infos, t, m, k);
        let i = choose|i: int| 0 <= i < a.len() && a[i] == models[m]@[k].texture;
        assert((a + b)[i] == a[i]);
    }
}

proof fn lemma_palette_texture(pm: Seq<Vec<Vec<FullFace>>>, infos: Seq<TextureInfo>, t: ChunkTransparencyMode, j: int, m: int, k: int)
    requires
        0 <= j < pm.len(),
        0 <= m < pm[j]@.len(),
        0 <= k < pm[j]@[m]@.len(),
        face_matches(pm[j]@[m]@[k], infos, t),
    ensures
        palette_textures(pm, infos, t).contains(pm[j]@[m]@[k].texture),
    decreases pm.len(),
{
    let a = palette_textures(pm.drop_last(), infos, t);
    let b = entry_textures(pm.last()@, infos, t);
    if j == pm.len() - 1 {
        lemma_entry_texture(pm[j]@, infos, t, m, k);
        let i = choose|i: int| 0 <= i < b.len() && b[i] == pm[j]@[m]@[k].texture;
        assert((a + b)[a.len() + i] == b[i]);
    } else {
        assert(pm.drop_last()[j] == pm[j]);
        lemma_palette_texture(pm.drop_last(), infos, t, j, m, k);
        let i = choose|i: int| 0 <= i < a.len() && a[i] == pm[j]@[m]@[k].texture;
        assert((a + b)[i] == a[i]);
    }
}

/// The face data of one face with texture index `texture`.
fn face_data(f: &FullFace, texture: usize) -> (r: BlockModelFaceData)
    requires
        f.tint_index < 4,
        texture < 128,
    ensures
        r.bits_spec() == face_data_bits(f.tint_index, texture as u32, f.direction.index_spec() as u32),
{
    let dir_idx = f.direction.into_index();
    BlockModelFaceData::new().with_tint_index(f.tint_index).with_texture_index(texture).with_face_tint(dir_idx as usize)
}

/// The block model of one variant for the mesh of pass `t`, and the
/// directions it draws faces in; the textures of its faces are added to
/// `textures`.
fn model_for_mesh(
    faces: &Vec<FullFace>,
    infos: &Vec<TextureInfo>,
    transparency: ChunkTransparencyMode,
    textures: &mut TextureSet,
    Ghost(allowed): Ghost<Set<usize>>,
) -> (r: (BlockModel, EnumSet<CardinalDirection>))
    requires
        allowed.finite(),
        allowed.len() <= 128,
        old(textures)@.to_set().subset_of(allowed),
        forall|k: int| 0 <= k < faces.len() && face_matches(faces@[k], infos@, transparency) ==> allowed.contains(#[trigger] faces@[k].texture),
        forall|k: int| 0 <= k < faces.len() ==> (#[trigger] faces@[k]).texture < infos.len() && faces@[k].tint_index < 4,
    ensures
        extends(old(textures)@, final(textures)@),
        distinct(final(textures)@),
        final(textures)@.to_set().subset_of(allowed),
        forall|d: CardinalDirection| #[trigger] r.0.face_slot(d) == model_slot(faces@, infos@, transparency, final(textures)@, d, faces.len() as int),
        forall|d: CardinalDirection| #[trigger] r.1@.contains(d) == (last_match(faces@, infos@, transparency, d, faces.len() as int) >= 0),
        forall|k: int| 0 <= k < faces.len() && face_matches(faces@[k], infos@, transparency) ==> final(textures)@.contains(#[trigger] faces@[k].texture),
{
    proof {
        use_type_invariant(&*textures);
    }
    let ghost t0 = textures@;
    let mut model = BlockModel::new();
    let mut dirs = EnumSet::<CardinalDirection>::empty();
    let mut k: usize = 0;
    while k < faces.len()
        invariant
            k <= faces.len(),
            allowed.finite(),
            allowed.len() <= 128,
            forall|j: int| 0 <= j < faces.len() && face_matches(faces@[j], infos@, transparency) ==> allowed.contains(#[trigger] faces@[j].texture),
            forall|j: int| 0 <= j < faces.len() ==> (#[trigger] faces@[j]).texture < infos.len() && faces@[j].tint_index < 4,
            extends(t0, textures@),
            distinct(textures@),
            textures@.to_set().subset_of(allowed),
            forall|d: CardinalDirection| #[trigger] model.face_slot(d) == model_slot(faces@, infos@, transparency, textures@, d, k as int),
            forall|d: CardinalDirection| #[trigger] dirs@.contains(d) == (last_match(faces@, infos@, transparency, d, k as int) >= 0),
            forall|j: int| 0 <= j < k && face_matches(faces@[j], infos@, transparency) ==> textures@.contains(#[trigger] faces@[j].texture),
        decreases faces.len() - k,
    {
        let f = &faces[k];
        let face_transparency = ChunkTransparencyMode::from_data(&infos[f.texture], f.force_translucent);
        let ghost before = textures@;
        if f.cull == f.direction && face_transparency == transparency {
            dirs.insert(f.direction);
            proof {
                assert(face_matches(faces@[k as int], infos@, transparency));
                assert(allowed.contains(f.texture));
                lemma_table_fits(before, allowed);
                if !before.contains(f.texture) {
                    lemma_table_fits(before.push(f.texture), allowed);
                }
            }
            let (texture_idx, _) = textures.insert_full(f.texture);
            proof {
                lemma_table_fits(textures@, allowed);
            }
            let data = face_data(f, texture_idx);
            model.set_face(f.direction, data);
            proof {
                assert forall|d: CardinalDirection| #[trigger] model.face_slot(d) == model_slot(faces@, infos@, transparency, textures@, d, k + 1) by {
                    if d != f.direction {
                        let m = last_match(faces@, infos@, transparency, d, k as int);
                        if m >= 0 {
                            lemma_last_match_bounds(faces@, infos@, transparency, d, k as int);
                            lemma_extends_position(before, textures@, faces@[m].texture);
                        }
                    }
                }
                assert forall|j: int| 0 <= j < k + 1 && face_matches(faces@[j], infos@, transparency) implies textures@.contains(#[trigger] faces@[j].texture) by {
                    if j < k {
                        lemma_extends_position(before, textures@, faces@[j].texture);
                    }
                }
            }
        }
        k = k + 1;
    }
    (model, dirs)
}

proof fn lemma_last_match_bounds(faces: Seq<FullFace>, infos: Seq<TextureInfo>, t: ChunkTransparencyMode, d: CardinalDirection, n: int)
    requires
        0 <= n,
    ensures
        last_match(faces, infos, t, d, n) < n,
        last_match(faces, infos, t, d, n) >= 0 ==> face_matches(faces[last_match(faces, infos, t, d, n)], infos, t)
            && faces[last_match(faces, infos, t, d, n)].direction == d,
    decreases n,
{
    if n > 0 {
        lemma_last_match_bounds(faces, infos, t, d, n - 1);
    }
}

/// Where the variants of palette entry `j` start in the model list.
pub open spec fn model_offset(palette_models: Seq<Vec<Vec<FullFace>>>, j: int) -> nat
    decreases j,
{
    if j <= 0 {
        0
    } else {
        model_offset(palette_models, j - 1) + palette_models[j - 1]@.len()
    }
}


/// The directions in which some variant of `models` draws a face in the
/// mesh of pass `t`.
pub open spec fn entry_directions(models: Seq<Vec<FullFace>>, infos: Seq<TextureInfo>, t: ChunkTransparencyMode) -> Set<CardinalDirection> {
    Set::new(|d: CardinalDirection| exists|m: int| 0 <= m < models.len() && last_match(#[trigger] models[m]@, infos, t, d, models[m]@.len() as int) >= 0)
}

proof fn lemma_model_slot_stable(
    faces: Seq<FullFace>,
    infos: Seq<TextureInfo>,
    t: ChunkTransparencyMode,
    a: Seq<usize>,
    b: Seq<usize>,
    d: CardinalDirection,
)
    requires
        extends(a, b),
        distinct(b),
        forall|k: int| 0 <= k < faces.len() && face_matches(faces[k], infos, t) ==> a.contains(#[trigger] faces[k].texture),
    ensures
        model_slot(faces, infos, t, a, d, faces.len() as int) == model_slot(faces, infos, t, b, d, faces.len() as int),
{
    let m = last_match(faces, infos, t, d, faces.len() as int);
    lemma_last_match_bounds(faces, infos, t, d, faces.len() as int);
    if m >= 0 {
        lemma_extends_position(a, b, faces[m].texture);
    }
}



/// The models of every palette entry for the mesh of pass `t`, one per
/// variant, and where each entry's variants sit; the textures of the faces
/// drawn are added to `textures`.
pub fn mesh_shader_models(
    palette_models: &Vec<Vec<Vec<FullFace>>>,
    infos: &Vec<TextureInfo>,
    transparency: ChunkTransparencyMode,
    textures: &mut TextureSet,
) -> (r: (Vec<BlockModel>, Vec<PaletteIdx>))
    requires
        (old(textures)@ + palette_textures(palette_models@, infos@, transparency)).to_set().len() <= 128,
        forall|j: int, m: int, k: int| 0 <= j < palette_models.len() && 0 <= m < palette_models@[j]@.len()
            && 0 <= k < palette_models@[j]@[m]@.len() ==> (#[trigger] palette_models@[j]@[m]@[k]).texture < infos.len()
                && palette_models@[j]@[m]@[k].tint_index < 4,
    ensures
        extends(old(textures)@, final(textures)@),
        distinct(final(textures)@),
        r.1.len() == palette_models.len(),
        r.0.len() == model_offset(palette_models@, palette_models.len() as int),
        forall|j: int| 0 <= j < palette_models.len() ==> {
            &&& (#[trigger] r.1@[j]).offset == model_offset(palette_models@, j)
            &&& r.1@[j].count == palette_models@[j]@.len()
            &&& r.1@[j].faces_for_this_mesh@ == entry_directions(palette_models@[j]@, infos@, transparency)
        },
        forall|j: int, m: int, d: CardinalDirection| 0 <= j < palette_models.len() && 0 <= m < palette_models@[j]@.len() ==>
            #[trigger] r.0@[model_offset(palette_models@, j) + m].face_slot(d) == model_slot(
                #[trigger] palette_models@[j]@[m]@, infos@, transparency, final(textures)@, d, palette_models@[j]@[m]@.len() as int),
{
    proof {
        use_type_invariant(&*textures);
    }
    let ghost t0 = textures@;
    let ghost pm = palette_models@;
    let ghost allowed = (t0 + palette_textures(pm, infos@, transparency)).to_set();
    proof {
        assert(t0.to_set().subset_of(allowed)) by {
            assert forall|x: usize| t0.to_set().contains(x) implies allowed.contains(x) by {
                let i = choose|i: int| 0 <= i < t0.len() && t0[i] == x;
                assert((t0 + palette_textures(pm, infos@, transparency))[i] == x);
            }
        }
    }
    let mut models: Vec<BlockModel> = Vec::new();
    let mut idxs: Vec<PaletteIdx> = Vec::new();
    let mut j: usize = 0;
    while j < palette_models.len()
        invariant
            j <= palette_models.len(),
            pm == palette_models@,
            allowed == (t0 + palette_textures(pm, infos@, transparency)).to_set(),
            allowed.len() <= 128,
            forall|j: int, m: int, k: int| 0 <= j < pm.len() && 0 <= m < pm[j]@.len()
                && 0 <= k < pm[j]@[m]@.len() ==> (#[trigger] pm[j]@[m]@[k]).texture < infos.len()
                    && pm[j]@[m]@[k].tint_index < 4,
            extends(t0, textures@),
            distinct(textures@),
            textures@.to_set().subset_of(allowed),
            idxs.len() == j,
            models.len() == model_offset(pm, j as int),
            forall|h: int| 0 <= h < j ==> {
                &&& (#[trigger] idxs@[h]).offset == model_offset(pm, h)
                &&& idxs@[h].count == pm[h]@.len()
                &&& idxs@[h].faces_for_this_mesh@ == entry_directions(pm[h]@, infos@, transparency)
            },
            forall|h: int, m: int, d: CardinalDirection| 0 <= h < j && 0 <= m < pm[h]@.len() ==>
                #[trigger] models@[model_offset(pm, h) + m].face_slot(d) == model_slot(
                    #[trigger] pm[h]@[m]@, infos@, transparency, textures@, d, pm[h]@[m]@.len() as int),
            forall|h: int, m: int, k: int| 0 <= h < j && 0 <= m < pm[h]@.len() && 0 <= k < pm[h]@[m]@.len()
                && face_matches(pm[h]@[m]@[k], infos@, transparency) ==> textures@.contains(#[trigger] pm[h]@[m]@[k].texture),
        decreases palette_models.len() - j,
    {
        let entry = &palette_models[j];
        let offset = models.len();
        let mut faces = EnumSet::<CardinalDirection>::empty();
        let mut m: usize = 0;
        let ghost models_before = models@;
        let ghost textures_before = textures@;
        while m < entry.len()
            invariant
                j < palette_models.len(),
                entry == palette_models@[j as int],
                pm == palette_models@,
                m <= entry.len(),
                offset == model_offset(pm, j as int),
                models.len() == offset + m,
                forall|i: int| 0 <= i < offset ==> #[trigger] models@[i] == models_before[i],
                models_before.len() == offset,
                allowed == (t0 + palette_textures(pm, infos@, transparency)).to_set(),
                allowed.len() <= 128,
                forall|m: int, k: int| 0 <= m < entry@.len() && 0 <= k < entry@[m]@.len()
                    ==> (#[trigger] entry@[m]@[k]).texture < infos.len() && entry@[m]@[k].tint_index < 4,
                extends(t0, textures_before),
                extends(textures_before, textures@),
                distinct(textures@),
                textures@.to_set().subset_of(allowed),
                forall|d: CardinalDirection| #[trigger] faces@.contains(d) == (exists|mm: int| 0 <= mm < m
                    && last_match(#[trigger] entry@[mm]@, infos@, transparency, d, entry@[mm]@.len() as int) >= 0),
                forall|mm: int, d: CardinalDirection| 0 <= mm < m ==>
                    #[trigger] models@[offset + mm].face_slot(d) == model_slot(
                        #[trigger] entry@[mm]@, infos@, transparency, textures@, d, entry@[mm]@.len() as int),
                forall|mm: int, k: int| 0 <= mm < m && 0 <= k < entry@[mm]@.len()
                    && face_matches(entry@[mm]@[k], infos@, transparency) ==> textures@.contains(#[trigger] entry@[mm]@[k].texture),
            decreases entry.len() - m,
        {
            proof {
                assert forall|k: int| 0 <= k < entry@[m as int]@.len() && face_matches(entry@[m as int]@[k], infos@, transparency)
                    implies allowed.contains(#[trigger] entry@[m as int]@[k].texture) by {
                    lemma_palette_texture(pm, infos@, transparency, j as int, m as int, k);
                    let p = palette_textures(pm, infos@, transparency);
                    let i = choose|i: int| 0 <= i < p.len() && p[i] == entry@[m as int]@[k].texture;
                    assert((t0 + p)[t0.len() + i] == p[i]);
                }
            }
            let ghost tb = textures@;
            let (model, dirs) = model_for_mesh(&entry[m], infos, transparency, textures, Ghost(allowed));
            let ghost models_mid = models@;
            models.push(model);
            faces = faces.union(dirs);
            proof {
                assert forall|mm: int, d: CardinalDirection| 0 <= mm < m + 1 implies
                    #[trigger] models@[offset + mm].face_slot(d) == model_slot(
                        #[trigger] entry@[mm]@, infos@, transparency, textures@, d, entry@[mm]@.len() as int) by {
                    if mm < m {
                        assert(models@[offset + mm] == models_mid[offset + mm]);
                        lemma_model_slot_stable(entry@[mm]@, infos@, transparency, tb, textures@, d);
                    }
                }
                assert forall|mm: int, k: int| 0 <= mm < m + 1 && 0 <= k < entry@[mm]@.len()
                    && face_matches(entry@[mm]@[k], infos@, transparency) implies textures@.contains(#[trigger] entry@[mm]@[k].texture) by {
                    if mm < m {
                        lemma_extends_position(tb, textures@, entry@[mm]@[k].texture);
                    }
                }
                assert forall|d: CardinalDirection| #[trigger] faces@.contains(d) == (exists|mm: int| 0 <= mm < m + 1
                    && last_match(#[trigger] entry@[mm]@, infos@, transparency, d, entry@[mm]@.len() as int) >= 0) by {
                    if dirs@.contains(d) {
                        assert(last_match(entry@[m as int]@, infos@, transparency, d, entry@[m as int]@.len() as int) >= 0);
                    }
                }
                assert forall|i: int| 0 <= i < offset implies #[trigger] models@[i] == models_before[i] by {
                    assert(models@[i] == models_mid[i]);
                }
            }
            m = m + 1;
        }
        let ghost textures_after = textures@;
        idxs.push(PaletteIdx { offset, count: entry.len(), faces_for_this_mesh: faces });
        proof {
            assert(entry@.take(m as int) =~= entry@);
            assert(faces@ =~= entry_directions(pm[j as int]@, infos@, transparency));
            assert forall|h: int, mm: int, d: CardinalDirection| 0 <= h < j + 1 && 0 <= mm < pm[h]@.len() implies
                #[trigger] models@[model_offset(pm, h) + mm].face_slot(d) == model_slot(
                    #[trigger] pm[h]@[mm]@, infos@, transparency, textures@, d, pm[h]@[mm]@.len() as int) by {
                if h < j {
                    lemma_model_offset_mono(pm, h + 1, j as int);
                    assert(models@[model_offset(pm, h) + mm] == models_before[model_offset(pm, h) + mm]);
                    lemma_model_slot_stable(pm[h]@[mm]@, infos@, transparency, textures_before, textures@, d);
                }
            }
            assert forall|h: int, mm: int, k: int| 0 <= h < j + 1 && 0 <= mm < pm[h]@.len() && 0 <= k < pm[h]@[mm]@.len()
                && face_matches(pm[h]@[mm]@[k], infos@, transparency) implies textures@.contains(#[trigger] pm[h]@[mm]@[k].texture) by {
                if h < j {
                    lemma_extends_position(textures_before, textures@, pm[h]@[mm]@[k].texture);
                }
            }
            assert(extends(t0, textures@));
        }
        j = j + 1;
    }
    (models, idxs)
}

proof fn lemma_model_offset_mono(pm: Seq<Vec<Vec<FullFace>>>, a: int, b: int)
    requires
        0 <= a <= b,
    ensures
        model_offset(pm, a) <= model_offset(pm, b),
    decreases b - a,
{
    if a < b {
        lemma_model_offset_mono(pm, a, b - 1);
    }
}

/// Whether the block next to `p` in direction `d` is in the same chunk.
pub open spec fn neighbour_inside(p: (usize, usize, usize), d: CardinalDirection) -> bool {
    match d.sign {
        Sign::Positive => coord(p, d.axis) < 15,
        Sign::Negative => coord(p, d.axis) > 0,
    }
}

/// The position of the block next to `p` in direction `d`, when it is in
/// the same chunk.
pub open spec fn neighbour_pos(p: (usize, usize, usize), d: CardinalDirection) -> (usize, usize, usize) {
    match d.sign {
        Sign::Positive => with_coord(p, d.axis, (coord(p, d.axis) + 1) as usize),
        Sign::Negative => with_coord(p, d.axis, (coord(p, d.axis) - 1) as usize),
    }
}

/// The sides fully covered by the model of the block next to `p` in
/// direction `d`: from `covers` inside the chunk, from the neighbouring
/// chunk in direction `d` across its border.
pub open spec fn neighbour_covers(
    covers: Seq<EnumSet<CardinalDirection>>,
    neighbor_covers: Seq<Vec<EnumSet<CardinalDirection>>>,
    p: (usize, usize, usize),
    d: CardinalDirection,
) -> Set<CardinalDirection> {
    if neighbour_inside(p, d) {
        covers[pos_to_index(neighbour_pos(p, d))]@
    } else {
        neighbor_covers[d.index_spec() as int]@[pos_to_index(exterior_neighbor_spec(p, d))]@
    }
}

/// The faces of the block at `p` that no neighbour hides: those it can
/// have hidden whose neighbour does not cover the side that touches them.
pub open spec fn visible_faces(
    cullable: Seq<EnumSet<CardinalDirection>>,
    covers: Seq<EnumSet<CardinalDirection>>,
    neighbor_covers: Seq<Vec<EnumSet<CardinalDirection>>>,
    p: (usize, usize, usize),
) -> Set<CardinalDirection> {
    Set::new(|d: CardinalDirection| cullable[pos_to_index(p)]@.contains(d)
        && !neighbour_covers(covers, neighbor_covers, p, d).contains(opposite(d)))
}

/// The direction opposite to `d`.
pub open spec fn opposite(d: CardinalDirection) -> CardinalDirection {
    CardinalDirection {
        sign: match d.sign {
            Sign::Positive => Sign::Negative,
            Sign::Negative => Sign::Positive,
        },
        axis: d.axis,
    }
}

fn neighbour_covers_exec(
    covers: &Vec<EnumSet<CardinalDirection>>,
    neighbor_covers: &Vec<Vec<EnumSet<CardinalDirection>>>,
    p: (usize, usize, usize),
    d: CardinalDirection,
) -> (r: EnumSet<CardinalDirection>)
    requires
        in_chunk(p),
        covers.len() == 4096,
        neighbor_covers.len() == 6,
        forall|k: int| 0 <= k < 6 ==> (#[trigger] neighbor_covers@[k]).len() == 4096,
    ensures
        r@ == neighbour_covers(covers@, neighbor_covers@, p, d),
{
    let c = get_coord(p, d.axis);
    let inside = if d.sign.is_positive() { c < 15 } else { c > 0 };
    if inside {
        let q = if d.sign.is_positive() { set_coord(p, d.axis, c + 1) } else { set_coord(p, d.axis, c - 1) };
        proof {
            lemma_pos_index_roundtrip(q);
        }
        covers[q.0 + (q.1 + q.2 * 16) * 16]
    } else {
        let q = exterior_neighbor(p, d);
        proof {
            lemma_pos_index_roundtrip(q);
            CardinalDirection::lemma_index_bound(d);
        }
        let k = d.into_index();
        neighbor_covers[k as usize][q.0 + (q.1 + q.2 * 16) * 16]
    }
}

/// A face on the border of the chunk, in direction `d` (the `k`-th of the
/// six directions), is drawn exactly when the block can have that face
/// hidden and the block just across the border, in the neighbouring chunk
/// that lies in direction `d` (the `k`-th one), does not cover the side
/// facing it.
pub proof fn lemma_border_face_visible(
    cullable: Seq<EnumSet<CardinalDirection>>,
    covers: Seq<EnumSet<CardinalDirection>>,
    neighbor_covers: Seq<Vec<EnumSet<CardinalDirection>>>,
    p: (usize, usize, usize),
    d: CardinalDirection,
    k: int,
)
    requires
        in_chunk(p),
        0 <= k < 6,
        direction_at(k) == d,
        (d.sign == Sign::Positive && coord(p, d.axis) == 15) || (d.sign == Sign::Negative && coord(p, d.axis) == 0),
    ensures
        visible_faces(cullable, covers, neighbor_covers, p).contains(d) <==> (cullable[pos_to_index(p)]@.contains(d)
            && !neighbor_covers[k]@[pos_to_index(with_coord(p, d.axis, if d.sign == Sign::Positive { 0usize } else { 15usize }))]@.contains(
            CardinalDirection { sign: if d.sign == Sign::Positive { Sign::Negative } else { Sign::Positive }, axis: d.axis },
        )),
{
    assert(d.index_spec() == k);
}

/// A face inside the chunk is drawn exactly when the block can have it
/// hidden and the next block of the chunk in the face's direction does not
/// cover the side facing it.
pub proof fn lemma_inner_face_visible(
    cullable: Seq<EnumSet<CardinalDirection>>,
    covers: Seq<EnumSet<CardinalDirection>>,
    neighbor_covers: Seq<Vec<EnumSet<CardinalDirection>>>,
    p: (usize, usize, usize),
    d: CardinalDirection,
)
    requires
        in_chunk(p),
        (d.sign == Sign::Positive && coord(p, d.axis) < 15) || (d.sign == Sign::Negative && coord(p, d.axis) > 0),
    ensures
        visible_faces(cullable, covers, neighbor_covers, p).contains(d) <==> (cullable[pos_to_index(p)]@.contains(d)
            && !covers[pos_to_index(with_coord(p, d.axis, (if d.sign == Sign::Positive { coord(p, d.axis) + 1 } else { coord(p, d.axis) - 1 }) as usize))]@.contains(
            CardinalDirection { sign: if d.sign == Sign::Positive { Sign::Negative } else { Sign::Positive }, axis: d.axis },
        )),
{
}

/// Whether a face of direction `d` (the `k`-th of the six directions) is
/// drawn never depends on the neighbouring chunks in the other directions:
/// two sets of neighbours that agree on the `k`-th chunk give the same
/// answer.
pub proof fn lemma_face_ignores_other_chunks(
    cullable: Seq<EnumSet<CardinalDirection>>,
    covers: Seq<EnumSet<CardinalDirection>>,
    nc1: Seq<Vec<EnumSet<CardinalDirection>>>,
    nc2: Seq<Vec<EnumSet<CardinalDirection>>>,
    p: (usize, usize, usize),
    d: CardinalDirection,
    k: int,
)
    requires
        in_chunk(p),
        0 <= k < 6,
        direction_at(k) == d,
        nc1.len() == 6,
        nc2.len() == 6,
        nc1[k] == nc2[k],
    ensures
        visible_faces(cullable, covers, nc1, p).contains(d) == visible_faces(cullable, covers, nc2, p).contains(d),
{
    assert(d.index_spec() == k);
}

/// For each block of a chunk, the faces that no neighbour hides.
///
/// `cullable` gives, by block index, the directions in which the block's
/// model has faces a neighbour can hide; `covers` the sides its model fully
/// covers; `neighbor_covers` gives the same for the six neighbouring chunks,
/// by direction.
pub fn accumulate_culling(
    cullable: &Vec<EnumSet<CardinalDirection>>,
    covers: &Vec<EnumSet<CardinalDirection>>,
    neighbor_covers: &Vec<Vec<EnumSet<CardinalDirection>>>,
) -> (r: Vec<EnumSet<CardinalDirection>>)
    requires
        cullable.len() == 4096,
        covers.len() == 4096,
        neighbor_covers.len() == 6,
        forall|k: int| 0 <= k < 6 ==> (#[trigger] neighbor_covers@[k]).len() == 4096,
    ensures
        r.len() == 4096,
        forall|i: int| 0 <= i < 4096 ==> (#[trigger] r@[i])@ == visible_faces(cullable@, covers@, neighbor_covers@, index_to_pos(i)),
{
    let dirs = CardinalDirection::values();
    let mut r: Vec<EnumSet<CardinalDirection>> = Vec::new();
    let mut i: usize = 0;
    while i < 4096
        invariant
            i <= 4096,
            r.len() == i,
            cullable.len() == 4096,
            covers.len() == 4096,
            neighbor_covers.len() == 6,
            forall|k: int| 0 <= k < 6 ==> (#[trigger] neighbor_covers@[k]).len() == 4096,
            forall|k: int| 0 <= k < 6 ==> #[trigger] dirs@[k] == direction_at(k),
            forall|j: int| 0 <= j < i ==> (#[trigger] r@[j])@ == visible_faces(cullable@, covers@, neighbor_covers@, index_to_pos(j)),
        decreases 4096 - i,
    {
        let p = (i % 16, (i / 16) % 16, i / 256);
        proof {
            lemma_index_pos_roundtrip(i as int);
            assert(p == index_to_pos(i as int));
        }
        let mut set = EnumSet::<CardinalDirection>::empty();
        let mut k: usize = 0;
        while k < 6
            invariant
                k <= 6,
                i < 4096,
                in_chunk(p),
                p == index_to_pos(i as int),
                pos_to_index(p) == i,
                cullable.len() == 4096,
                covers.len() == 4096,
                neighbor_covers.len() == 6,
                forall|k: int| 0 <= k < 6 ==> (#[trigger] neighbor_covers@[k]).len() == 4096,
                forall|k: int| 0 <= k < 6 ==> #[trigger] dirs@[k] == direction_at(k),
                forall|d: CardinalDirection| #[trigger] set@.contains(d) == (d.index_spec() < k
                    && visible_faces(cullable@, covers@, neighbor_covers@, p).contains(d)),
            decreases 6 - k,
        {
            let d = dirs[k];
            proof {
                assert(d.index_spec() == k);
            }
            if cullable[i].contains(d) {
                let nc = neighbour_covers_exec(covers, neighbor_covers, p, d);
                if !nc.contains(d.opposit()) {
                    set.insert(d);
                }
            }
            proof {
                assert forall|e: CardinalDirection| #[trigger] set@.contains(e) == (e.index_spec() < k + 1
                    && visible_faces(cullable@, covers@, neighbor_covers@, p).contains(e)) by {
                    if e.index_spec() == k {
                        CardinalDirection::lemma_index_injective(e, d);
                    }
                }
            }
            k = k + 1;
        }
        proof {
            assert forall|e: CardinalDirection| #[trigger] set@.contains(e) == visible_faces(cullable@, covers@, neighbor_covers@, p).contains(e) by {
                CardinalDirection::lemma_index_bound(e);
            }
            assert(set@ =~= visible_faces(cullable@, covers@, neighbor_covers@, p));
        }
        r.push(set);
        i = i + 1;
    }
    r
}

/// The bits of the instance data of a full face of the block at `p`.
pub open spec fn instance_bits(p: (usize, usize, usize), face: FullFace, ao: usize, texture: usize) -> u32 {
    set_field(set_field(set_field(set_field(set_field(set_field(set_field(set_field(0,
        0, 4, p.0 as u32), 4, 4, p.1 as u32), 8, 4, p.2 as u32), 12, 2, face.tint_index), 14, 7, texture as u32),
        23, 1, if face.uv_flipped { 1u32 } else { 0u32 }), 21, 2, quarter_turns(face.uv_rotation) as u32), 24, 8, ao as u32)
}

/// The instance data of a full face of the block at `p`, with the
/// texture at `texture` in the texture table and ambient occlusion `ao`.
pub fn face_instance(p: (usize, usize, usize), face: &FullFace, ao: usize, texture: usize) -> (r: FaceInstanceData)
    requires
        in_chunk(p),
        face.tint_index < 4,
        texture < 128,
        ao < 256,
    ensures
        get_field(r.bits_spec(), 0, 4) == p.0,
        get_field(r.bits_spec(), 4, 4) == p.1,
        get_field(r.bits_spec(), 8, 4) == p.2,
        get_field(r.bits_spec(), 12, 2) == face.tint_index,
        get_field(r.bits_spec(), 14, 7) == texture,
        get_field(r.bits_spec(), 21, 2) == quarter_turns(face.uv_rotation),
        get_field(r.bits_spec(), 23, 1) == (if face.uv_flipped { 1u32 } else { 0u32 }),
        get_field(r.bits_spec(), 24, 8) == ao,
        r.bits_spec() == instance_bits(p, *face, ao, texture),
{
    let r = FaceInstanceData::new()
        .with_offset_x(p.0)
        .with_offset_y(p.1)
        .with_offset_z(p.2)
        .with_tint_index(face.tint_index)
        .with_texture_index(texture)
        .with_uv_flipped(face.uv_flipped)
        .with_uv_rotation(face.uv_rotation)
        .with_ambient_occlusion(ao);
    proof {
        lemma_instance_fields(p.0 as u32, p.1 as u32, p.2 as u32, face.tint_index, texture as u32,
            quarter_turns(face.uv_rotation) as u32, if face.uv_flipped { 1u32 } else { 0u32 }, ao as u32);
    }
    r
}

proof fn lemma_instance_fields(x: u32, y: u32, z: u32, tint: u32, texture: u32, rotation: u32, flip: u32, ao: u32) by (bit_vector)
    requires
        x < 16,
        y < 16,
        z < 16,
        tint < 4,
        texture < 128,
        rotation < 4,
        flip < 2,
        ao < 256,
    ensures
        ({
            let w = set_field(set_field(set_field(set_field(set_field(set_field(set_field(set_field(0, 0, 4, x), 4, 4, y), 8, 4, z), 12, 2, tint), 14, 7, texture), 23, 1, flip), 21, 2, rotation), 24, 8, ao);
            &&& get_field(w, 0, 4) == x
            &&& get_field(w, 4, 4) == y
            &&& get_field(w, 8, 4) == z
            &&& get_field(w, 12, 2) == tint
            &&& get_field(w, 14, 7) == texture
            &&& get_field(w, 21, 2) == rotation
            &&& get_field(w, 23, 1) == flip
            &&& get_field(w, 24, 8) == ao
        }),
{
}

} // verus!
