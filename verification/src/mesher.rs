//! The integer decisions of chunk meshing: which transparency pass a face
//! belongs to, how neighbouring blocks darken a face's corners, which
//! neighbour block a face on the chunk's border looks at, and how a block
//! position picks one of several model variants.
use vstd::prelude::*;

use crate::chunk::{coord, with_coord, set_coord, in_chunk};
use crate::grid::{Axis, CardinalDirection, Sign};
use crate::packed::FaceInstanceData;

verus! {

/// What meshing needs to know of a texture's pixels.
#[derive(Clone, Copy, PartialEq, Eq, Structural, Debug, Hash)]
pub struct TextureInfo {
    /// Whether the image contains any completely transparent pixels.
    pub has_transparent: bool,
    /// Whether the image contains any partially transparent pixels.
    pub has_translucent: bool,
}

impl TextureInfo {
    /// Classifies the alpha values of a texture's pixels.
    pub fn from_alphas(alphas: &[u8]) -> (r: Self)
        ensures
            r.has_transparent == exists|i: int| 0 <= i < alphas.len() && alphas[i] == 0,
            r.has_translucent == exists|i: int| 0 <= i < alphas.len() && 1 <= #[trigger] alphas[i] < 255,
    {
        let mut has_transparent = false;
        let mut has_translucent = false;
        let mut i: usize = 0;
        while i < alphas.len()
            invariant
                i <= alphas.len(),
                has_transparent == exists|j: int| 0 <= j < i && alphas[j] == 0,
                has_translucent == exists|j: int| 0 <= j < i && 1 <= #[trigger] alphas[j] < 255,
            decreases alphas.len() - i,
        {
            let a = alphas[i];
            if a == 0 {
                has_transparent = true;
            }
            if 1 <= a && a < 255 {
                has_translucent = true;
            }
            i = i + 1;
        }
        TextureInfo { has_transparent, has_translucent }
    }
}

/// The render pass a face is drawn in.
#[derive(Clone, Copy, PartialEq, Eq, Structural, Debug, Hash)]
pub enum ChunkTransparencyMode {
    Opaque,
    Cutout,
    Translucent,
}

/// Partially transparent pixels, or a model that asks for it, make a face
/// translucent; otherwise fully transparent pixels make it cut out.
pub open spec fn transparency_spec(data: TextureInfo, force_translucent: bool) -> ChunkTransparencyMode {
    if force_translucent || data.has_translucent {
        ChunkTransparencyMode::Translucent
    } else if data.has_transparent {
        ChunkTransparencyMode::Cutout
    } else {
        ChunkTransparencyMode::Opaque
    }
}

impl ChunkTransparencyMode {
    /// The pass of a face with the texture `data`.
    pub fn from_data(data: &TextureInfo, force_translucent: bool) -> (r: Self)
        ensures
            r == transparency_spec(*data, force_translucent),
    {
        if force_translucent || data.has_translucent {
            ChunkTransparencyMode::Translucent
        } else if data.has_transparent {
            ChunkTransparencyMode::Cutout
        } else {
            ChunkTransparencyMode::Opaque
        }
    }
}

/// Options of the chunk mesher.
#[derive(Clone, Copy, PartialEq, Eq, Structural, Debug, Hash)]
pub struct Config {
    pub enable_mesh_shader: bool,
}

impl Default for Config {
    fn default() -> (r: Self)
        ensures
            !r.enable_mesh_shader,
    {
        Config { enable_mesh_shader: false }
    }
}

/// The full block faces of a chunk that face one direction and are drawn in
/// one pass.
pub struct QuadSubMesh {
    pub direction: CardinalDirection,
    pub transparency: ChunkTransparencyMode,
    pub instances: Vec<FaceInstanceData>,
}

/// The block of the neighbouring chunk that touches the face of `pos` in
/// `direction`, for `pos` on that border of its chunk.
pub open spec fn exterior_neighbor_spec(pos: (usize, usize, usize), direction: CardinalDirection) -> (usize, usize, usize) {
    match direction.sign {
        Sign::Positive => with_coord(pos, direction.axis, 0),
        Sign::Negative => with_coord(pos, direction.axis, 15),
    }
}

/// The position, in its own chunk, of the block beyond the face of `pos` in
/// `direction` when that face is on the chunk's border.
pub fn exterior_neighbor(pos: (usize, usize, usize), direction: CardinalDirection) -> (r: (usize, usize, usize))
    ensures
        r == exterior_neighbor_spec(pos, direction),
        in_chunk(pos) ==> in_chunk(r),
{
    if direction.sign.is_positive() {
        set_coord(pos, direction.axis, 0)
    } else {
        set_coord(pos, direction.axis, 15)
    }
}

/// The element that `idx` picks among the elements of `slice`, cyclically.
pub fn get_modulo<T>(slice: &[T], idx: u64) -> (r: &T)
    requires
        slice.len() > 0,
    ensures
        *r == slice@[(idx % (slice.len() as u64)) as int],
{
    let n = slice.len() as u64;
    let i = (idx % n) as usize;
    &slice[i]
}

/// The seed of a block position from which a block with several model
/// variants picks one.
pub open spec fn coordinate_seed_spec(x: i64, y: i64, z: i64) -> u64 {
    let l = (x.wrapping_mul(3_129_871i64) ^ z.wrapping_mul(116_129_781i64)) ^ y;
    let l = l.wrapping_mul(l).wrapping_mul(42_317_861i64).wrapping_add(l.wrapping_mul(11i64));
    (l as u64) >> 16u64
}

/// The variant seed of the block at global position `(x, y, z)`.
pub fn get_coordinate_seed(x: i64, y: i64, z: i64) -> (r: u64)
    ensures
        r == coordinate_seed_spec(x, y, z),
{
    let l = (x.wrapping_mul(3_129_871i64) ^ z.wrapping_mul(116_129_781i64)) ^ y;
    let l = l.wrapping_mul(l).wrapping_mul(42_317_861i64).wrapping_add(l.wrapping_mul(11i64));
    (l as u64) >> 16u64
}

/// The eight neighbours of a face looked at for ambient occlusion, as
/// `(u, v)` offsets in the face's plane, counter clockwise from the left.
pub open spec fn ao_base(k: int) -> (int, int) {
    if k == 0 {
        (-1, 0)
    } else if k == 1 {
        (-1, -1)
    } else if k == 2 {
        (0, -1)
    } else if k == 3 {
        (1, -1)
    } else if k == 4 {
        (1, 0)
    } else if k == 5 {
        (1, 1)
    } else if k == 6 {
        (0, 1)
    } else {
        (-1, 1)
    }
}

/// The block offset, in front of the face of `direction`, of the in-plane
/// offset `(u, v)`.
pub open spec fn ao_offset(direction: CardinalDirection, u: int, v: int) -> (int, int, int) {
    match (direction.axis, direction.sign) {
        (Axis::X, Sign::Positive) => (1, v, -u),
        (Axis::X, Sign::Negative) => (-1, v, u),
        (Axis::Y, Sign::Positive) => (u, 1, -v),
        (Axis::Y, Sign::Negative) => (u, -1, v),
        (Axis::Z, Sign::Positive) => (u, v, 1),
        (Axis::Z, Sign::Negative) => (-u, v, -1),
    }
}

/// The offsets of the eight blocks whose presence darkens the corners of
/// the face of `direction`, in the order of [`ao_base`].
pub fn ambient_occlusion_offsets(direction: CardinalDirection) -> (r: Vec<(isize, isize, isize)>)
    ensures
        r.len() == 8,
        forall|k: int| 0 <= k < 8 ==> {
            let o = #[trigger] r@[k];
            (o.0 as int, o.1 as int, o.2 as int) == ao_offset(direction, ao_base(k).0, ao_base(k).1)
        },
{
    let bases: [(isize, isize); 8] = [(-1, 0), (-1, -1), (0, -1), (1, -1), (1, 0), (1, 1), (0, 1), (-1, 1)];
    let mut r: Vec<(isize, isize, isize)> = Vec::new();
    let mut k: usize = 0;
    while k < 8
        invariant
            k <= 8,
            r.len() == k,
            forall|j: int| 0 <= j < 8 ==> (#[trigger] bases@[j]).0 == ao_base(j).0 && bases@[j].1 == ao_base(j).1,
            forall|j: int| 0 <= j < k ==> {
                let o = #[trigger] r@[j];
                (o.0 as int, o.1 as int, o.2 as int) == ao_offset(direction, ao_base(j).0, ao_base(j).1)
            },
        decreases 8 - k,
    {
        let (u, v) = bases[k];
        let o: (isize, isize, isize) = match (direction.axis, direction.sign) {
            (Axis::X, Sign::Positive) => (1, v, -u),
            (Axis::X, Sign::Negative) => (-1, v, u),
            (Axis::Y, Sign::Positive) => (u, 1, -v),
            (Axis::Y, Sign::Negative) => (u, -1, v),
            (Axis::Z, Sign::Positive) => (u, v, 1),
            (Axis::Z, Sign::Negative) => (-u, v, -1),
        };
        r.push(o);
        k = k + 1;
    }
    r
}

/// The darkness of one corner from its two side neighbours `a`, `c` and its
/// diagonal neighbour `b`: both sides make it fully dark.
pub open spec fn ao_corner(a: bool, b: bool, c: bool) -> nat {
    if a && c {
        3
    } else {
        (if a || c { 1nat } else { 0nat }) + (if b { 1nat } else { 0nat })
    }
}

/// The four corner darknesses of a face, two bits each, the first corner in
/// the lowest bits. The corners look at the neighbours `(0, 1, 2)`,
/// `(2, 3, 4)`, `(0, 7, 6)` and `(4, 5, 6)` of [`ao_base`].
pub open spec fn ao_value(s: Seq<bool>) -> nat {
    ao_corner(s[0], s[1], s[2]) + 4 * ao_corner(s[2], s[3], s[4]) + 16 * ao_corner(s[0], s[7], s[6])
        + 64 * ao_corner(s[4], s[5], s[6])
}

fn corner(a: bool, b: bool, c: bool) -> (r: usize)
    ensures
        r == ao_corner(a, b, c),
        r <= 3,
{
    if a && c {
        3
    } else {
        let s: usize = if a || c { 1 } else { 0 };
        let d: usize = if b { 1 } else { 0 };
        s + d
    }
}

/// The packed ambient occlusion of a face from which of its eight
/// neighbours (see [`ambient_occlusion_offsets`]) are occluding.
pub fn ambient_occlusion_from_sides(sides: [bool; 8]) -> (r: usize)
    ensures
        r == ao_value(sides@),
        r < 256,
{
    let c0 = corner(sides[0], sides[1], sides[2]);
    let c1 = corner(sides[2], sides[3], sides[4]);
    let c2 = corner(sides[0], sides[7], sides[6]);
    let c3 = corner(sides[4], sides[5], sides[6]);
    let acc = c3;
    let acc = (acc << 2usize) | c2;
    let acc = (acc << 2usize) | c1;
    let acc = (acc << 2usize) | c0;
    proof {
        lemma_pack_corners(c0, c1, c2, c3);
    }
    acc
}

proof fn lemma_pack_corners(c0: usize, c1: usize, c2: usize, c3: usize) by (bit_vector)
    requires
        c0 <= 3,
        c1 <= 3,
        c2 <= 3,
        c3 <= 3,
    ensures
        (((((c3 << 2usize) | c2) << 2usize) | c1) << 2usize) | c0 == c0 + 4 * c1 + 16 * c2 + 64 * c3,
{
}

} // verus!
