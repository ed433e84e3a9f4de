use voxel_engine::chunk::{BlockData, Chunk, ChunkBlockIndex};
use voxel_engine::resource_location::ResourceLocation;
use voxel_engine::world::World;

fn block(name: &str) -> BlockData {
    BlockData { id: ResourceLocation::new(name).unwrap(), state: String::new() }
}

#[test]
fn blocks_by_global_position() {
    let mut world = World::new();
    assert!(world.get_block((0, 0, 0)).is_none());
    world.set_chunk((0, 0, 0), Chunk::new());
    world.set_chunk((-1, 0, 0), Chunk::new_filled(block("stone")));
    assert_eq!(world.get_block((3, 4, 5)).unwrap().id.as_str(), "minecraft:air");
    // x = -1 is the last block of chunk -1.
    assert_eq!(world.get_block((-1, 4, 5)).unwrap().id.as_str(), "stone");
    assert!(world.get_block((-17, 0, 0)).is_none());
    assert!(world.get_block((0, -1, 0)).is_none());

    assert!(world.set_block((-16, 15, 0), &block("dirt")));
    assert_eq!(world.get_block((-16, 15, 0)).unwrap().id.as_str(), "dirt");
    assert_eq!(world.get_block((-15, 15, 0)).unwrap().id.as_str(), "stone");
    assert!(world.get_chunk((-1, 0, 0)).unwrap().palette().len() == 2);
    assert!(!world.set_block((16, 0, 0), &block("dirt")));

    world.set_chunk((-1, 0, 0), Chunk::new());
    assert_eq!(world.get_block((-16, 15, 0)).unwrap().id.as_str(), "minecraft:air");
}

#[test]
fn a_chunk_can_be_meshed_once_its_neighbours_are_loaded() {
    let mut world = World::new();
    for dx in -1..=1i64 {
        for dy in -1..=1i64 {
            for dz in -1..=1i64 {
                if (dx, dy, dz) != (1, 1, 1) {
                    world.set_chunk((dx, dy, dz), Chunk::new());
                }
            }
        }
    }
    assert!(!world.neighbours_loaded((0, 0, 0)));
    world.set_chunk((1, 1, 1), Chunk::new());
    assert!(world.neighbours_loaded((0, 0, 0)));
    assert!(!world.neighbours_loaded((1, 0, 0)));
}

#[test]
fn global_positions_wrap_into_their_chunk() {
    assert_eq!(ChunkBlockIndex::from_pos_rem_euclid((17, 0, 0)).as_pos(), (1, 0, 0));
    assert_eq!(ChunkBlockIndex::from_pos_rem_euclid((-1, -16, -17)).as_pos(), (15, 0, 15));
    let edge = ChunkBlockIndex::from_pos_rem_euclid((-16, 3, 31));
    assert_eq!(Chunk::blocks_touches_neighbors(edge), vec![(-1, 0, 0), (-1, 0, 1), (0, 0, 1)]);
}
