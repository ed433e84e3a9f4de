use voxel_engine::enum_set::EnumSet;
use voxel_engine::grid::{Axis, CardinalDirection, GridAngle, Sign};
use voxel_engine::mesher::{get_coordinate_seed, ChunkTransparencyMode, TextureInfo};
use voxel_engine::meshing::{accumulate_culling, face_instance, mesh_shader_blocks, mesh_shader_models, FullFace, PaletteIdx, TextureSet};

fn d(sign: Sign, axis: Axis) -> CardinalDirection {
    CardinalDirection { sign, axis }
}

fn idx(x: usize, y: usize, z: usize) -> usize {
    x + (y + z * 16) * 16
}

fn face(dir: CardinalDirection, texture: usize, tint_index: u32) -> FullFace {
    FullFace {
        cull: dir,
        direction: dir,
        texture,
        force_translucent: false,
        tint_index,
        uv_flipped: false,
        uv_rotation: GridAngle::Zero,
    }
}

#[test]
fn texture_set_keeps_first_positions() {
    let mut set = TextureSet::new();
    assert_eq!(set.insert_full(7), (0, true));
    assert_eq!(set.insert_full(3), (1, true));
    assert_eq!(set.insert_full(7), (0, false));
    assert_eq!(set.len(), 2);
    assert_eq!(set.iter(), vec![7, 3]);
}

#[test]
fn face_instance_fields() {
    let mut f = face(d(Sign::Positive, Axis::Y), 0, 2);
    f.uv_flipped = true;
    f.uv_rotation = GridAngle::Ninety;
    let data = face_instance((3, 4, 5), &f, 0x1b, 9);
    assert_eq!(data.offset_x(), 3);
    assert_eq!(data.offset_y(), 4);
    assert_eq!(data.offset_z(), 5);
    assert_eq!(data.tint_index(), 2);
    assert_eq!(data.texture_index(), 9);
    assert!(data.uv_flipped());
    assert_eq!(data.uv_rotation(), GridAngle::Ninety);
    assert_eq!(data.ambient_occlusion(), 0x1b);
}

#[test]
fn models_for_the_opaque_mesh() {
    let infos = vec![
        TextureInfo { has_transparent: false, has_translucent: false },
        TextureInfo { has_transparent: true, has_translucent: false },
    ];
    let up = d(Sign::Positive, Axis::Y);
    let east = d(Sign::Positive, Axis::X);
    let mut not_culled_there = face(east, 0, 0);
    not_culled_there.cull = up;
    let palette_models = vec![
        // One variant: an opaque top, a cut out east side, a face not
        // culled in its own direction.
        vec![vec![face(up, 0, 1), face(east, 1, 0), not_culled_there]],
        // Two variants, the second with no opaque face.
        vec![vec![face(east, 0, 2)], vec![face(up, 1, 0)]],
    ];
    let mut textures = TextureSet::new();
    let (models, idxs) = mesh_shader_models(&palette_models, &infos, ChunkTransparencyMode::Opaque, &mut textures);
    assert_eq!(models.len(), 3);
    assert_eq!(idxs.len(), 2);
    assert_eq!((idxs[0].offset, idxs[0].count), (0, 1));
    assert_eq!((idxs[1].offset, idxs[1].count), (1, 2));
    assert_eq!(idxs[0].faces_for_this_mesh.iter(), vec![up]);
    assert_eq!(idxs[1].faces_for_this_mesh.iter(), vec![east]);
    assert_eq!(textures.iter(), vec![0]);
    // +y is the third direction: first face of the second word.
    let top = 1 | (0 << 2) | (2 << 9);
    assert_eq!(models[0].face_data[1].into_bits(), top);
    assert_eq!(models[0].face_data[0].into_bits(), 0);
    // +x is the first direction.
    let side = 2 | (0 << 2) | (0 << 9);
    assert_eq!(models[1].face_data[0].into_bits(), side);
    assert_eq!(models[2].face_data[1].into_bits(), 0);
}

#[test]
fn blocks_come_in_groups_of_four() {
    let palette = vec![
        PaletteIdx { offset: 5, count: 1, faces_for_this_mesh: EnumSet::all() },
        PaletteIdx { offset: 10, count: 3, faces_for_this_mesh: EnumSet::from_bits(0b1) },
    ];
    let mut block_palette = vec![0usize; 4096];
    block_palette[idx(1, 1, 0)] = 1;
    let mut culled = vec![EnumSet::<CardinalDirection>::empty(); 4096];
    culled[idx(0, 0, 0)] = EnumSet::from_bits(0b100);
    culled[idx(1, 1, 0)] = EnumSet::from_bits(0b11);
    culled[idx(2, 0, 0)] = EnumSet::from_bits(0b10_0000);
    let blocks = mesh_shader_blocks((0, 0, 0), &block_palette, &palette, &culled);
    assert_eq!(blocks.len(), 4096);
    // The first group holds (0,0,0), (1,0,0), (0,1,0), (1,1,0).
    assert_eq!(blocks[0].model_idx(), 5);
    assert_eq!(blocks[0].face_mask().into_bits(), 0b100);
    assert_eq!(blocks[1].face_mask().into_bits(), 0);
    let seed = get_coordinate_seed(1, 1, 0);
    assert_eq!(blocks[3].model_idx(), 10 + (seed % 3) as usize);
    assert_eq!(blocks[3].face_mask().into_bits(), 0b1);
    for k in 0..4 {
        assert_eq!(blocks[k].group_face_mask().into_bits(), 0b101);
    }
    // The second group starts at (2,0,0).
    assert_eq!(blocks[4].face_mask().into_bits(), 0b10_0000);
    assert_eq!(blocks[7].group_face_mask().into_bits(), 0b10_0000);
    // Groups of the second layer start at index 256.
    assert_eq!(blocks[256].model_idx(), 5);
}

#[test]
fn blocks_of_a_far_chunk_use_global_seeds() {
    let palette = vec![PaletteIdx { offset: 0, count: 4, faces_for_this_mesh: EnumSet::empty() }];
    let block_palette = vec![0usize; 4096];
    let culled = vec![EnumSet::<CardinalDirection>::all(); 4096];
    let blocks = mesh_shader_blocks((-2, 3, 1), &block_palette, &palette, &culled);
    let seed = get_coordinate_seed(-32 + 1, 48, 16);
    assert_eq!(blocks[1].model_idx(), (seed % 4) as usize);
    assert!(blocks[1].face_mask().is_empty());
}

#[test]
fn culling_hides_faces_against_covered_sides() {
    let cullable = vec![EnumSet::<CardinalDirection>::all(); 4096];
    let mut covers = vec![EnumSet::<CardinalDirection>::empty(); 4096];
    covers[idx(1, 0, 0)] = EnumSet::all();
    let mut neighbor_covers = vec![vec![EnumSet::<CardinalDirection>::empty(); 4096]; 6];
    // The chunk beyond +x covers the -x side of its block (0, 5, 5).
    neighbor_covers[0][idx(0, 5, 5)] = EnumSet::from_bits(0b10);
    let culled = accumulate_culling(&cullable, &covers, &neighbor_covers);
    let east = d(Sign::Positive, Axis::X);
    let west = d(Sign::Negative, Axis::X);
    assert!(!culled[idx(0, 0, 0)].contains(east));
    assert!(culled[idx(0, 0, 0)].contains(west));
    assert!(!culled[idx(2, 0, 0)].contains(west));
    assert_eq!(culled[idx(1, 1, 0)].len(), 5);
    assert!(!culled[idx(15, 5, 5)].contains(east));
    assert!(culled[idx(15, 5, 6)].contains(east));
    assert!(culled[idx(5, 5, 5)].is_all());
}
