use voxel_engine::enum_set::EnumSet;
use voxel_engine::grid::{Axis, CardinalDirection, GridAngle, Sign};
use voxel_engine::packed::{Block, BlockModel, BlockModelFaceData, FaceDataCombined, FaceInstanceData, SubMeshVertexBits};

#[test]
fn face_instance_layout() {
    let data = FaceInstanceData::new()
        .with_offset_x(15)
        .with_offset_y(2)
        .with_offset_z(9)
        .with_tint_index(3)
        .with_texture_index(100)
        .with_uv_rotation(GridAngle::OneEighty)
        .with_uv_flipped(true)
        .with_ambient_occlusion(0b1110_0100);
    let expected: u32 = 15 | (2 << 4) | (9 << 8) | (3 << 12) | (100 << 14) | (2 << 21) | (1 << 23) | (0b1110_0100 << 24);
    assert_eq!(data.into_bits(), expected);
    assert_eq!(data.offset_x(), 15);
    assert_eq!(data.offset_y(), 2);
    assert_eq!(data.offset_z(), 9);
    assert_eq!(data.tint_index(), 3);
    assert_eq!(data.texture_index(), 100);
    assert_eq!(data.uv_rotation(), GridAngle::OneEighty);
    assert!(data.uv_flipped());
    assert_eq!(data.ambient_occlusion(), 0b1110_0100);
}

#[test]
fn rewriting_a_field_keeps_the_others() {
    let data = FaceInstanceData::from_bits(u32::MAX).with_texture_index(0);
    assert_eq!(data.texture_index(), 0);
    assert_eq!(data.tint_index(), 3);
    assert_eq!(data.uv_rotation(), GridAngle::TwoSeventy);
    assert_eq!(data.into_bits(), u32::MAX & !(0x7f << 14));
}

#[test]
fn sub_mesh_vertex_layout() {
    let bits = SubMeshVertexBits::new().with_tint_index(1).with_texture_index(5).with_face_tint(7);
    assert_eq!(bits.into_bits(), 1 | (5 << 2) | (7 << 9));
    assert_eq!(bits.face_tint(), 7);
    assert_eq!(bits.texture_index(), 5);
    assert_eq!(bits.tint_index(), 1);
}

#[test]
fn combined_faces_and_models() {
    let face = BlockModelFaceData::new().with_tint_index(2).with_texture_index(3).with_face_tint(4);
    assert_eq!(face.into_bits(), 2 | (3 << 2) | (4 << 9));
    // Bits above the twelfth are padding and dropped.
    assert_eq!(BlockModelFaceData::from_bits(0xffff_f001).into_bits(), 0x001);

    let mut combined = FaceDataCombined::new();
    combined.set_face2(face);
    assert_eq!(combined.into_bits(), face.into_bits() << 12);
    assert_eq!(combined.face2(), face);
    assert_eq!(combined.face1().into_bits(), 0);

    let mut model = BlockModel::new();
    // -y is the fourth direction: second face of the second word.
    model.set_face(CardinalDirection { sign: Sign::Negative, axis: Axis::Y }, face);
    assert_eq!(model.face_data[1].into_bits(), face.into_bits() << 12);
    assert_eq!(model.face_data[0].into_bits(), 0);
    model.set_face(CardinalDirection { sign: Sign::Positive, axis: Axis::Z }, face);
    assert_eq!(model.face_data[2].face1(), face);
}

#[test]
fn block_layout() {
    let faces = EnumSet::<CardinalDirection>::from_bits(0b10_0001);
    let block = Block::new().with_model_idx(1234).with_face_mask(faces);
    assert_eq!(block.into_bits(), 1234 | (0b10_0001 << 16));
    assert_eq!(block.model_idx(), 1234);
    assert!(block.face_mask() == faces);
    let mut block = block;
    block.set_group_face_mask(EnumSet::all());
    assert_eq!(block.into_bits(), 1234 | (0b10_0001 << 16) | (0b11_1111 << 22));
    assert!(block.group_face_mask().is_all());
}
