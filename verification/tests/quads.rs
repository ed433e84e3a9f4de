use voxel_engine::enum_set::EnumSet;
use voxel_engine::grid::{Axis, CardinalDirection, GridAngle, Sign};
use voxel_engine::mesher::{ChunkTransparencyMode, Config, TextureInfo};
use voxel_engine::meshing::{FullFace, TextureSet};
use voxel_engine::quads::{face_pushes, mesh_quads, BlockFaces};

fn face(dir: CardinalDirection, texture: usize, tint_index: u32) -> FullFace {
    FullFace {
        cull: dir,
        direction: dir,
        texture,
        force_translucent: false,
        tint_index,
        uv_flipped: false,
        uv_rotation: GridAngle::Zero,
    }
}

fn empty_block() -> BlockFaces {
    BlockFaces { cullable: vec![vec![]; 6], uncullable: vec![], ambient_occlusion: true }
}

fn scene() -> (Vec<BlockFaces>, Vec<EnumSet<CardinalDirection>>, Vec<[usize; 6]>) {
    let up = CardinalDirection { sign: Sign::Positive, axis: Axis::Y };
    let east = CardinalDirection { sign: Sign::Positive, axis: Axis::X };
    let mut blocks: Vec<BlockFaces> = (0..4096).map(|_| empty_block()).collect();
    blocks[0].cullable[2] = vec![face(up, 0, 1)];
    blocks[0].uncullable = vec![face(east, 1, 0)];
    blocks[1].cullable[2] = vec![face(up, 0, 0)];
    let mut culled = vec![EnumSet::<CardinalDirection>::empty(); 4096];
    culled[0] = EnumSet::empty().with(up);
    let mut aos = vec![[0usize; 6]; 4096];
    aos[0][2] = 5;
    aos[1][2] = 7;
    (blocks, culled, aos)
}

#[test]
fn pushes_follow_block_then_direction_order() {
    let (blocks, culled, aos) = scene();
    let pushes = face_pushes(&blocks, &culled, &aos, Config { enable_mesh_shader: false });
    assert_eq!(pushes.len(), 2);
    assert_eq!((pushes[0].block, pushes[0].ao, pushes[0].face.texture), (0, 5, 0));
    assert_eq!((pushes[1].block, pushes[1].ao, pushes[1].face.texture), (0, 0, 1));
    // With the mesh shader, hideable faces are left to it.
    let pushes = face_pushes(&blocks, &culled, &aos, Config { enable_mesh_shader: true });
    assert_eq!(pushes.len(), 1);
    assert_eq!(pushes[0].face.texture, 1);
}

#[test]
fn quads_are_grouped_by_direction_and_pass() {
    let (blocks, culled, aos) = scene();
    let infos = vec![
        TextureInfo { has_transparent: false, has_translucent: false },
        TextureInfo { has_transparent: false, has_translucent: true },
    ];
    let mut textures = TextureSet::new();
    let quads = mesh_quads(&blocks, &culled, &aos, Config::default(), &infos, &mut textures);
    assert_eq!(textures.iter(), vec![0, 1]);
    assert_eq!(quads.len(), 2);
    // +x first: the translucent side face.
    assert_eq!(quads[0].direction, CardinalDirection { sign: Sign::Positive, axis: Axis::X });
    assert_eq!(quads[0].transparency, ChunkTransparencyMode::Translucent);
    assert_eq!(quads[0].instances.len(), 1);
    assert_eq!(quads[0].instances[0].texture_index(), 1);
    assert_eq!(quads[0].instances[0].ambient_occlusion(), 0);
    // Then +y: the opaque top with its ambient occlusion.
    assert_eq!(quads[1].direction, CardinalDirection { sign: Sign::Positive, axis: Axis::Y });
    assert_eq!(quads[1].transparency, ChunkTransparencyMode::Opaque);
    let top = quads[1].instances[0];
    assert_eq!((top.offset_x(), top.offset_y(), top.offset_z()), (0, 0, 0));
    assert_eq!(top.tint_index(), 1);
    assert_eq!(top.texture_index(), 0);
    assert_eq!(top.ambient_occlusion(), 5);
}
