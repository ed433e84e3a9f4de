//! Words of packed per-face and per-block data read by the chunk shaders.
//!
//! Each type is one `u32` whose fields occupy fixed bit ranges, starting at
//! the least significant bit. The layouts are part of the contract with the
//! shaders, so every accessor states the exact range it reads or writes.
use vstd::prelude::*;

use crate::enum_set::{has_bit, EnumSet, SetEnum};
use crate::grid::{quarter_turns, CardinalDirection, GridAngle};

verus! {

/// The mask of the lowest `width` bits.
pub open spec fn width_mask(width: u32) -> u32 {
    !(0xffff_ffffu32 << width)
}

/// The field of `width` bits at bit `offset` of `word`.
pub open spec fn get_field(word: u32, offset: u32, width: u32) -> u32 {
    (word >> offset) & width_mask(width)
}

/// `word` with the field of `width` bits at bit `offset` replaced by `value`.
pub open spec fn set_field(word: u32, offset: u32, width: u32, value: u32) -> u32 {
    (word & !(width_mask(width) << offset)) | (value << offset)
}

/// Whether the fields `(o1, w1)` and `(o2, w2)` share no bit.
pub open spec fn disjoint(o1: u32, w1: u32, o2: u32, w2: u32) -> bool {
    o1 + w1 <= o2 || o2 + w2 <= o1
}

/// A field reads back the value written to it, and writing a field leaves
/// every field that shares no bit with it unchanged.
pub proof fn lemma_field_update(word: u32, offset: u32, width: u32, value: u32, o2: u32, w2: u32) by (bit_vector)
    requires
        0 < width < 32,
        offset + width <= 32,
        value >> width == 0,
        0 < w2 < 32,
        o2 + w2 <= 32,
    ensures
        get_field(set_field(word, offset, width, value), offset, width) == value,
        disjoint(offset, width, o2, w2) ==> get_field(set_field(word, offset, width, value), o2, w2)
            == get_field(word, o2, w2),
{
}

proof fn lemma_fits(value: u32, width: u32) by (bit_vector)
    requires
        width < 32,
        value < (1u32 << width),
    ensures
        value >> width == 0,
        get_field(value, 0, width) == value,
{
}

proof fn lemma_field_bound(word: u32, offset: u32, width: u32) by (bit_vector)
    requires
        width < 32,
        offset < 32,
    ensures
        get_field(word, offset, width) < (1u32 << width),
        get_field(word, offset, width) >> width == 0,
{
}

proof fn lemma_powers() by (bit_vector)
    ensures
        1u32 << 1u32 == 2,
        1u32 << 2u32 == 4,
        1u32 << 3u32 == 8,
        1u32 << 4u32 == 16,
        1u32 << 6u32 == 64,
        1u32 << 7u32 == 128,
        1u32 << 8u32 == 256,
        1u32 << 12u32 == 4096,
        1u32 << 16u32 == 65536,
        1u32 << 20u32 == 1048576,
        set_field(0, 0, 1, 0) == 0,
{
}

fn read_field(word: u32, offset: u32, width: u32) -> (r: u32)
    requires
        offset < 32,
        0 < width < 32,
    ensures
        r == get_field(word, offset, width),
        r < (1u32 << width),
{
    proof {
        lemma_field_bound(word, offset, width);
    }
    (word >> offset) & !(0xffff_ffffu32 << width)
}

fn write_field(word: u32, offset: u32, width: u32, value: u32) -> (r: u32)
    requires
        0 < width < 32,
        offset + width <= 32,
        value < (1u32 << width),
    ensures
        r == set_field(word, offset, width, value),
        value >> width == 0,
{
    proof {
        lemma_fits(value, width);
    }
    (word & !((!(0xffff_ffffu32 << width)) << offset)) | (value << offset)
}

/// Per-instance data of a full block face: its position in the chunk, its
/// texture, its UV transform and its ambient occlusion.
///
/// Layout: offset x `[0, 4)`, offset y `[4, 8)`, offset z `[8, 12)`, tint
/// index `[12, 14)`, texture index `[14, 21)`, UV rotation `[21, 23)`, UV
/// flip `[23]`, ambient occlusion `[24, 32)`.
#[derive(Clone, Copy, PartialEq, Eq, Structural, Debug, Hash)]
pub struct FaceInstanceData {
    bits: u32,
}

impl FaceInstanceData {
    pub closed spec fn bits_spec(self) -> u32 {
        self.bits
    }

    /// All fields zero.
    pub fn new() -> (r: Self)
        ensures
            r.bits_spec() == 0,
    {
        FaceInstanceData { bits: 0 }
    }

    pub fn from_bits(bits: u32) -> (r: Self)
        ensures
            r.bits_spec() == bits,
    {
        FaceInstanceData { bits }
    }

    pub fn into_bits(self) -> (r: u32)
        ensures
            r == self.bits_spec(),
    {
        self.bits
    }

    pub fn offset_x(self) -> (r: usize)
        ensures
            r == get_field(self.bits_spec(), 0, 4),
    {
        read_field(self.bits, 0, 4) as usize
    }

    pub fn with_offset_x(self, value: usize) -> (r: Self)
        requires
            value < 16,
        ensures
            r.bits_spec() == set_field(self.bits_spec(), 0, 4, value as u32),
    {
        proof {
            lemma_powers();
        }
        FaceInstanceData { bits: write_field(self.bits, 0, 4, value as u32) }
    }

    pub fn offset_y(self) -> (r: usize)
        ensures
            r == get_field(self.bits_spec(), 4, 4),
    {
        read_field(self.bits, 4, 4) as usize
    }

    pub fn with_offset_y(self, value: usize) -> (r: Self)
        requires
            value < 16,
        ensures
            r.bits_spec() == set_field(self.bits_spec(), 4, 4, value as u32),
    {
        proof {
            lemma_powers();
        }
        FaceInstanceData { bits: write_field(self.bits, 4, 4, value as u32) }
    }

    pub fn offset_z(self) -> (r: usize)
        ensures
            r == get_field(self.bits_spec(), 8, 4),
    {
        read_field(self.bits, 8, 4) as usize
    }

    pub fn with_offset_z(self, value: usize) -> (r: Self)
        requires
            value < 16,
        ensures
            r.bits_spec() == set_field(self.bits_spec(), 8, 4, value as u32),
    {
        proof {
            lemma_powers();
        }
        FaceInstanceData { bits: write_field(self.bits, 8, 4, value as u32) }
    }

    pub fn tint_index(self) -> (r: u32)
        ensures
            r == get_field(self.bits_spec(), 12, 2),
    {
        read_field(self.bits, 12, 2)
    }

    pub fn with_tint_index(self, value: u32) -> (r: Self)
        requires
            value < 4,
        ensures
            r.bits_spec() == set_field(self.bits_spec(), 12, 2, value),
    {
        proof {
            lemma_powers();
        }
        FaceInstanceData { bits: write_field(self.bits, 12, 2, value) }
    }

    pub fn texture_index(self) -> (r: usize)
        ensures
            r == get_field(self.bits_spec(), 14, 7),
    {
        read_field(self.bits, 14, 7) as usize
    }

    pub fn with_texture_index(self, value: usize) -> (r: Self)
        requires
            value < 128,
        ensures
            r.bits_spec() == set_field(self.bits_spec(), 14, 7, value as u32),
    {
        proof {
            lemma_powers();
        }
        FaceInstanceData { bits: write_field(self.bits, 14, 7, value as u32) }
    }

    pub fn uv_rotation(self) -> (r: GridAngle)
        ensures
            quarter_turns(r) == get_field(self.bits_spec(), 21, 2),
    {
        proof {
            lemma_powers();
        }
        let v = read_field(self.bits, 21, 2);
        GridAngle::from_bits(v as u16)
    }

    pub fn with_uv_rotation(self, value: GridAngle) -> (r: Self)
        ensures
            r.bits_spec() == set_field(self.bits_spec(), 21, 2, quarter_turns(value) as u32),
    {
        proof {
            lemma_powers();
        }
        let v = value.into_bits();
        FaceInstanceData { bits: write_field(self.bits, 21, 2, v as u32) }
    }

    pub fn uv_flipped(self) -> (r: bool)
        ensures
            r == (get_field(self.bits_spec(), 23, 1) == 1),
    {
        read_field(self.bits, 23, 1) == 1
    }

    pub fn with_uv_flipped(self, value: bool) -> (r: Self)
        ensures
            r.bits_spec() == set_field(self.bits_spec(), 23, 1, if value { 1u32 } else { 0u32 }),
    {
        proof {
            lemma_powers();
        }
        let v: u32 = if value { 1 } else { 0 };
        FaceInstanceData { bits: write_field(self.bits, 23, 1, v) }
    }

    pub fn ambient_occlusion(self) -> (r: usize)
        ensures
            r == get_field(self.bits_spec(), 24, 8),
    {
        read_field(self.bits, 24, 8) as usize
    }

    pub fn with_ambient_occlusion(self, value: usize) -> (r: Self)
        requires
            value < 256,
        ensures
            r.bits_spec() == set_field(self.bits_spec(), 24, 8, value as u32),
    {
        proof {
            lemma_powers();
        }
        FaceInstanceData { bits: write_field(self.bits, 24, 8, value as u32) }
    }
}

impl Default for FaceInstanceData {
    fn default() -> (r: Self)
        ensures
            r.bits_spec() == 0,
    {
        Self::new()
    }
}

/// The texture part of a vertex of a free-form face.
///
/// Layout: tint index `[0, 2)`, texture index `[2, 9)`, face tint `[9, 12)`,
/// padding `[12, 32)`.
#[derive(Clone, Copy, PartialEq, Eq, Structural, Debug, Hash)]
pub struct SubMeshVertexBits {
    bits: u32,
}

impl SubMeshVertexBits {
    pub closed spec fn bits_spec(self) -> u32 {
        self.bits
    }

    /// All fields zero.
    pub fn new() -> (r: Self)
        ensures
            r.bits_spec() == 0,
    {
        SubMeshVertexBits { bits: 0 }
    }

    pub fn from_bits(bits: u32) -> (r: Self)
        ensures
            r.bits_spec() == bits,
    {
        SubMeshVertexBits { bits }
    }

    pub fn into_bits(self) -> (r: u32)
        ensures
            r == self.bits_spec(),
    {
        self.bits
    }

    pub fn tint_index(self) -> (r: u32)
        ensures
            r == get_field(self.bits_spec(), 0, 2),
    {
        read_field(self.bits, 0, 2)
    }

    pub fn with_tint_index(self, value: u32) -> (r: Self)
        requires
            value < 4,
        ensures
            r.bits_spec() == set_field(self.bits_spec(), 0, 2, value),
    {
        proof {
            lemma_powers();
        }
        SubMeshVertexBits { bits: write_field(self.bits, 0, 2, value) }
    }

    pub fn texture_index(self) -> (r: usize)
        ensures
            r == get_field(self.bits_spec(), 2, 7),
    {
        read_field(self.bits, 2, 7) as usize
    }

    pub fn with_texture_index(self, value: usize) -> (r: Self)
        requires
            value < 128,
        ensures
            r.bits_spec() == set_field(self.bits_spec(), 2, 7, value as u32),
    {
        proof {
            lemma_powers();
        }
        SubMeshVertexBits { bits: write_field(self.bits, 2, 7, value as u32) }
    }

    pub fn face_tint(self) -> (r: usize)
        ensures
            r == get_field(self.bits_spec(), 9, 3),
    {
        read_field(self.bits, 9, 3) as usize
    }

    pub fn with_face_tint(self, value: usize) -> (r: Self)
        requires
            value < 8,
        ensures
            r.bits_spec() == set_field(self.bits_spec(), 9, 3, value as u32),
    {
        proof {
            lemma_powers();
        }
        SubMeshVertexBits { bits: write_field(self.bits, 9, 3, value as u32) }
    }
}

impl Default for SubMeshVertexBits {
    fn default() -> (r: Self)
        ensures
            r.bits_spec() == 0,
    {
        Self::new()
    }
}

/// The texture of one face of a block model, as read by the mesh shader.
///
/// Layout: tint index `[0, 2)`, texture index `[2, 9)`, face tint `[9, 12)`;
/// the bits from 12 up are always zero.
#[derive(Clone, Copy, PartialEq, Eq, Structural, Debug, Hash)]
pub struct BlockModelFaceData {
    bits: u32,
}

impl BlockModelFaceData {
    #[verifier::type_invariant]
    spec fn padding_clear(self) -> bool {
        self.bits >> 12u32 == 0
    }

    pub closed spec fn bits_spec(self) -> u32 {
        self.bits
    }

    /// All fields zero.
    pub fn new() -> (r: Self)
        ensures
            r.bits_spec() == 0,
    {
        proof {
            lemma_zero_shift();
        }
        BlockModelFaceData { bits: 0 }
    }

    /// The face data of the lowest twelve bits of `bits`; the rest is padding.
    pub fn from_bits(bits: u32) -> (r: Self)
        ensures
            r.bits_spec() == get_field(bits, 0, 12),
    {
        proof {
            lemma_field_bound(bits, 0, 12);
        }
        BlockModelFaceData { bits: read_field(bits, 0, 12) }
    }

    pub fn into_bits(self) -> (r: u32)
        ensures
            r == self.bits_spec(),
            r < 4096,
    {
        proof {
            use_type_invariant(&self);
            lemma_below_4096(self.bits);
        }
        self.bits
    }

    pub fn tint_index(self) -> (r: u32)
        ensures
            r == get_field(self.bits_spec(), 0, 2),
    {
        read_field(self.bits, 0, 2)
    }

    pub fn with_tint_index(self, value: u32) -> (r: Self)
        requires
            value < 4,
        ensures
            r.bits_spec() == set_field(self.bits_spec(), 0, 2, value),
    {
        proof {
            use_type_invariant(&self);
            lemma_powers();
            lemma_fits(value, 2);
            lemma_low_write_keeps_padding(self.bits, 0, 2, value);
        }
        BlockModelFaceData { bits: write_field(self.bits, 0, 2, value) }
    }

    pub fn texture_index(self) -> (r: usize)
        ensures
            r == get_field(self.bits_spec(), 2, 7),
    {
        read_field(self.bits, 2, 7) as usize
    }

    pub fn with_texture_index(self, value: usize) -> (r: Self)
        requires
            value < 128,
        ensures
            r.bits_spec() == set_field(self.bits_spec(), 2, 7, value as u32),
    {
        proof {
            use_type_invariant(&self);
            lemma_powers();
            lemma_fits(value as u32, 7);
            lemma_low_write_keeps_padding(self.bits, 2, 7, value as u32);
        }
        BlockModelFaceData { bits: write_field(self.bits, 2, 7, value as u32) }
    }

    pub fn face_tint(self) -> (r: usize)
        ensures
            r == get_field(self.bits_spec(), 9, 3),
    {
        read_field(self.bits, 9, 3) as usize
    }

    pub fn with_face_tint(self, value: usize) -> (r: Self)
        requires
            value < 8,
        ensures
            r.bits_spec() == set_field(self.bits_spec(), 9, 3, value as u32),
    {
        proof {
            use_type_invariant(&self);
            lemma_powers();
            lemma_fits(value as u32, 3);
            lemma_low_write_keeps_padding(self.bits, 9, 3, value as u32);
        }
        BlockModelFaceData { bits: write_field(self.bits, 9, 3, value as u32) }
    }
}

impl Default for BlockModelFaceData {
    fn default() -> (r: Self)
        ensures
            r.bits_spec() == 0,
    {
        Self::new()
    }
}

proof fn lemma_zero_fields() by (bit_vector)
    ensures
        get_field(0, 0, 12) == 0,
        get_field(0, 12, 12) == 0,
{
}

proof fn lemma_zero_shift() by (bit_vector)
    ensures
        0u32 >> 12u32 == 0,
{
}

proof fn lemma_below_4096(bits: u32) by (bit_vector)
    requires
        bits >> 12u32 == 0,
    ensures
        bits < 4096,
{
}

proof fn lemma_low_write_keeps_padding(word: u32, offset: u32, width: u32, value: u32) by (bit_vector)
    requires
        word >> 12u32 == 0,
        0 < width < 32,
        offset + width <= 12,
        value >> width == 0,
    ensures
        set_field(word, offset, width, value) >> 12u32 == 0,
{
}

/// The face data of two faces of a block model, side by side.
///
/// Layout: first face `[0, 12)`, second face `[12, 24)`, padding `[24, 32)`.
#[derive(Clone, Copy, PartialEq, Eq, Structural, Debug, Hash)]
pub struct FaceDataCombined {
    bits: u32,
}

impl FaceDataCombined {
    pub closed spec fn bits_spec(self) -> u32 {
        self.bits
    }

    /// Both faces zero.
    pub fn new() -> (r: Self)
        ensures
            r.bits_spec() == 0,
    {
        FaceDataCombined { bits: 0 }
    }

    pub fn from_bits(bits: u32) -> (r: Self)
        ensures
            r.bits_spec() == bits,
    {
        FaceDataCombined { bits }
    }

    pub fn into_bits(self) -> (r: u32)
        ensures
            r == self.bits_spec(),
    {
        self.bits
    }

    pub fn face1(self) -> (r: BlockModelFaceData)
        ensures
            r.bits_spec() == get_field(self.bits_spec(), 0, 12),
    {
        let v = read_field(self.bits, 0, 12);
        proof {
            lemma_powers();
            lemma_fits(v, 12);
        }
        BlockModelFaceData::from_bits(v)
    }

    pub fn set_face1(&mut self, value: BlockModelFaceData)
        ensures
            final(self).bits_spec() == set_field(old(self).bits_spec(), 0, 12, value.bits_spec()),
    {
        let v = value.into_bits();
        proof {
            lemma_powers();
        }
        self.bits = write_field(self.bits, 0, 12, v);
    }

    pub fn face2(self) -> (r: BlockModelFaceData)
        ensures
            r.bits_spec() == get_field(self.bits_spec(), 12, 12),
    {
        let v = read_field(self.bits, 12, 12);
        proof {
            lemma_powers();
            lemma_fits(v, 12);
        }
        BlockModelFaceData::from_bits(v)
    }

    pub fn set_face2(&mut self, value: BlockModelFaceData)
        ensures
            final(self).bits_spec() == set_field(old(self).bits_spec(), 12, 12, value.bits_spec()),
    {
        let v = value.into_bits();
        proof {
            lemma_powers();
        }
        self.bits = write_field(self.bits, 12, 12, v);
    }
}

impl Default for FaceDataCombined {
    fn default() -> (r: Self)
        ensures
            r.bits_spec() == 0,
    {
        Self::new()
    }
}

/// The faces of one block model, two per word: the faces of direction `i`
/// (in the order of [`CardinalDirection::values`]) sit in word `i / 2`,
/// first or second by the parity of `i`.
#[derive(Clone, Copy, Debug, Hash)]
pub struct BlockModel {
    pub face_data: [FaceDataCombined; 3],
}

impl BlockModel {
    /// The face data of the faces of `d`.
    pub open spec fn face_slot(self, d: CardinalDirection) -> u32 {
        let i = d.index_spec() as int;
        get_field(self.face_data[i / 2].bits_spec(), (if i % 2 == 0 { 0u32 } else { 12u32 }), 12)
    }

    pub fn new() -> (r: Self)
        ensures
            forall|i: int| 0 <= i < 3 ==> (#[trigger] r.face_data[i]).bits_spec() == 0,
            forall|d: CardinalDirection| #[trigger] r.face_slot(d) == 0,
    {
        proof {
            lemma_zero_fields();
        }
        BlockModel { face_data: [FaceDataCombined::new(), FaceDataCombined::new(), FaceDataCombined::new()] }
    }

    pub fn set_face(&mut self, dir: CardinalDirection, data: BlockModelFaceData)
        ensures
            ({
                let i = crate::enum_set::SetEnum::index_spec(dir) as int;
                &&& final(self).face_data[i / 2].bits_spec() == set_field(
                    old(self).face_data[i / 2].bits_spec(),
                    (if i % 2 == 0 { 0u32 } else { 12u32 }),
                    12,
                    data.bits_spec(),
                )
                &&& forall|j: int| 0 <= j < 3 && j != i / 2 ==> #[trigger] final(self).face_data[j] == old(self).face_data[j]
            }),
            final(self).face_slot(dir) == data.bits_spec(),
            forall|d: CardinalDirection| d != dir ==> #[trigger] final(self).face_slot(d) == old(self).face_slot(d),
    {
        let bits = data.into_bits();
        proof {
            lemma_powers();
            lemma_fits(bits, 12);
            lemma_field_update(self.face_data[0].bits_spec(), 0, 12, bits, 12, 12);
            lemma_field_update(self.face_data[0].bits_spec(), 12, 12, bits, 0, 12);
            lemma_field_update(self.face_data[1].bits_spec(), 0, 12, bits, 12, 12);
            lemma_field_update(self.face_data[1].bits_spec(), 12, 12, bits, 0, 12);
            lemma_field_update(self.face_data[2].bits_spec(), 0, 12, bits, 12, 12);
            lemma_field_update(self.face_data[2].bits_spec(), 12, 12, bits, 0, 12);
            assert forall|d: CardinalDirection, e: CardinalDirection| d != e implies
                #[trigger] d.index_spec() != #[trigger] e.index_spec() by {
                CardinalDirection::lemma_index_injective(d, e);
            }
        }
        let idx = crate::enum_set::SetEnum::into_index(dir);
        let word = (idx / 2) as usize;
        let mut combined = self.face_data[word];
        if idx % 2 == 0 {
            combined.set_face1(data);
        } else {
            combined.set_face2(data);
        }
        self.face_data[word] = combined;
    }
}

impl Default for BlockModel {
    fn default() -> (r: Self)
        ensures
            forall|i: int| 0 <= i < 3 ==> (#[trigger] r.face_data[i]).bits_spec() == 0,
    {
        Self::new()
    }
}

/// One block of a chunk as read by the mesh shader: the model it shows and
/// which of its faces are visible, alone and in its group of four.
///
/// Layout: model index `[0, 16)`, face mask `[16, 22)`, group face mask
/// `[22, 28)`, padding `[28, 32)`.
#[derive(Clone, Copy, PartialEq, Eq, Structural, Debug, Hash)]
pub struct Block {
    bits: u32,
}

/// The set of directions whose bits are set in the six-bit `field`.
pub open spec fn mask_set(field: u32) -> Set<CardinalDirection> {
    Set::new(|d: CardinalDirection| has_bit(field as u8, d.index_spec() as u8))
}

impl Block {
    pub closed spec fn bits_spec(self) -> u32 {
        self.bits
    }

    pub open spec fn model_idx_spec(self) -> u32 {
        get_field(self.bits_spec(), 0, 16)
    }

    pub open spec fn face_mask_spec(self) -> Set<CardinalDirection> {
        mask_set(get_field(self.bits_spec(), 16, 6))
    }

    pub open spec fn group_face_mask_spec(self) -> Set<CardinalDirection> {
        mask_set(get_field(self.bits_spec(), 22, 6))
    }

    /// All fields zero.
    pub fn new() -> (r: Self)
        ensures
            r.bits_spec() == 0,
    {
        Block { bits: 0 }
    }

    pub fn from_bits(bits: u32) -> (r: Self)
        ensures
            r.bits_spec() == bits,
    {
        Block { bits }
    }

    pub fn into_bits(self) -> (r: u32)
        ensures
            r == self.bits_spec(),
    {
        self.bits
    }

    pub fn model_idx(self) -> (r: usize)
        ensures
            r == get_field(self.bits_spec(), 0, 16),
    {
        read_field(self.bits, 0, 16) as usize
    }

    pub fn with_model_idx(self, value: usize) -> (r: Self)
        requires
            value < 65536,
        ensures
            r.bits_spec() == set_field(self.bits_spec(), 0, 16, value as u32),
            r.model_idx_spec() == value,
            r.face_mask_spec() == self.face_mask_spec(),
            r.group_face_mask_spec() == self.group_face_mask_spec(),
    {
        proof {
            lemma_powers();
        }
        let r = Block { bits: write_field(self.bits, 0, 16, value as u32) };
        proof {
            lemma_field_update(self.bits, 0, 16, value as u32, 16, 6);
            lemma_field_update(self.bits, 0, 16, value as u32, 22, 6);
        }
        r
    }

    pub fn face_mask(self) -> (r: EnumSet<CardinalDirection>)
        ensures
            r.bits() == get_field(self.bits_spec(), 16, 6),
    {
        let v = read_field(self.bits, 16, 6);
        proof {
            lemma_powers();
        }
        let r = EnumSet::from_bits(v as u8);
        proof {
            lemma_six_bits(v);
        }
        r
    }

    pub fn with_face_mask(self, value: EnumSet<CardinalDirection>) -> (r: Self)
        ensures
            r.bits_spec() == set_field(self.bits_spec(), 16, 6, value.bits() as u32),
            r.model_idx_spec() == self.model_idx_spec(),
            r.face_mask_spec() == value@,
            r.group_face_mask_spec() == self.group_face_mask_spec(),
    {
        let v = mask_bits_u32(value);
        proof {
            lemma_powers();
        }
        let r = Block { bits: write_field(self.bits, 16, 6, v) };
        proof {
            lemma_field_update(self.bits, 16, 6, v, 0, 16);
            lemma_field_update(self.bits, 16, 6, v, 22, 6);
            lemma_field_update(self.bits, 16, 6, v, 16, 6);
            assert(r.face_mask_spec() =~= value@);
        }
        r
    }

    pub fn group_face_mask(self) -> (r: EnumSet<CardinalDirection>)
        ensures
            r.bits() == get_field(self.bits_spec(), 22, 6),
    {
        let v = read_field(self.bits, 22, 6);
        proof {
            lemma_powers();
        }
        let r = EnumSet::from_bits(v as u8);
        proof {
            lemma_six_bits(v);
        }
        r
    }

    pub fn with_group_face_mask(self, value: EnumSet<CardinalDirection>) -> (r: Self)
        ensures
            r.bits_spec() == set_field(self.bits_spec(), 22, 6, value.bits() as u32),
            r.model_idx_spec() == self.model_idx_spec(),
            r.face_mask_spec() == self.face_mask_spec(),
            r.group_face_mask_spec() == value@,
    {
        let v = mask_bits_u32(value);
        proof {
            lemma_powers();
        }
        let r = Block { bits: write_field(self.bits, 22, 6, v) };
        proof {
            lemma_field_update(self.bits, 22, 6, v, 0, 16);
            lemma_field_update(self.bits, 22, 6, v, 16, 6);
            lemma_field_update(self.bits, 22, 6, v, 22, 6);
            assert(r.group_face_mask_spec() =~= value@);
        }
        r
    }

    pub fn set_group_face_mask(&mut self, value: EnumSet<CardinalDirection>)
        ensures
            final(self).bits_spec() == set_field(old(self).bits_spec(), 22, 6, value.bits() as u32),
            final(self).model_idx_spec() == old(self).model_idx_spec(),
            final(self).face_mask_spec() == old(self).face_mask_spec(),
            final(self).group_face_mask_spec() == value@,
    {
        *self = self.with_group_face_mask(value);
    }
}

impl Default for Block {
    fn default() -> (r: Self)
        ensures
            r.bits_spec() == 0,
    {
        Self::new()
    }
}

/// The byte of a set of directions, which uses only its lowest six bits.
fn mask_bits_u32(value: EnumSet<CardinalDirection>) -> (r: u32)
    ensures
        r == value.bits() as u32,
        r < 64,
        (r as u8) == value.bits(),
        forall|d: CardinalDirection| #[trigger] value@.contains(d) == has_bit(r as u8, d.index_spec() as u8),
{
    let b = value.into_bits();
    proof {
        lemma_masked_byte(b);
    }
    b as u32
}

proof fn lemma_masked_byte(b: u8) by (bit_vector)
    requires
        b & !(0xffu8 >> 2u8) == 0,
    ensures
        (b as u32) < 64,
{
}

proof fn lemma_six_bits(v: u32) by (bit_vector)
    requires
        v < 64,
    ensures
        (v as u8) & (0xffu8 >> 2u8) == v as u8,
        (v as u8) as u32 == v,
{
}

} // verus!
