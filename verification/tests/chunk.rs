use voxel_engine::chunk::{create_exterior_ranges, create_interior_ranges, get_coord, chunk_size, BlockData, Chunk, ChunkBlockIndex};
use voxel_engine::resource_location::ResourceLocation;
use voxel_engine::grid::CardinalDirection;

#[test]
fn test_exterior_range() {
    let ranges = create_exterior_ranges();
    for dir in CardinalDirection::values() {
        let range = ranges[dir.into_usize()];
        for val in range.to_vec() {
            if dir.sign.is_positive() {
                assert_eq!(get_coord(val, dir.axis), get_coord(chunk_size(), dir.axis) - 1);
            }
            else {
                assert_eq!(get_coord(val, dir.axis), 0);
            }
        }
    }
}

#[test]
fn test_interior_range() {
    let ranges = create_interior_ranges();
    for dir in CardinalDirection::values() {
        let range = ranges[dir.into_usize()];
        for val in range.to_vec() {
            let d = dir.as_isizevec3();
            let moved = (val.0.checked_add_signed(d.0), val.1.checked_add_signed(d.1), val.2.checked_add_signed(d.2));
            assert!(matches!(moved, (Some(_), Some(_), Some(_))));
        }
    }
}

#[test]
fn exterior_ranges_cover_one_face_each() {
    let ranges = create_exterior_ranges();
    for dir in CardinalDirection::values() {
        assert_eq!(ranges[dir.into_usize()].to_vec().len(), 256);
    }
}

#[test]
fn interior_ranges_leave_out_one_layer() {
    let ranges = create_interior_ranges();
    for dir in CardinalDirection::values() {
        assert_eq!(ranges[dir.into_usize()].to_vec().len(), 16 * 16 * 15);
    }
}

#[test]
fn block_index_roundtrips_positions() {
    let idx = ChunkBlockIndex::from_pos((3, 5, 7)).unwrap();
    assert_eq!(idx.as_usize(), 3 + 5 * 16 + 7 * 256);
    assert_eq!(idx.as_pos(), (3, 5, 7));
    assert!(ChunkBlockIndex::from_pos((16, 0, 0)).is_none());
    assert!(ChunkBlockIndex::from_usize(4096).is_none());
    assert_eq!(ChunkBlockIndex::from_usize(4095).unwrap().as_pos(), (15, 15, 15));
}

#[test]
fn chunk_palette_holds_each_kind_once() {
    let mut chunk = Chunk::new();
    assert_eq!(chunk.palette().len(), 1);
    assert_eq!(chunk.palette()[0].id.as_str(), "minecraft:air");
    let stone = BlockData { id: ResourceLocation::new("minecraft:stone").unwrap(), state: String::new() };
    let idx = ChunkBlockIndex::from_pos((1, 2, 3)).unwrap();
    chunk.set_data(idx, &stone);
    assert_eq!(chunk.palette().len(), 2);
    assert_eq!(chunk.get(idx), 1);
    assert!(*chunk.get_data(idx) == stone);
    let other = ChunkBlockIndex::from_pos((0, 0, 0)).unwrap();
    assert_eq!(chunk.get(other), 0);
    // The same kind again reuses its palette entry.
    chunk.set_data(other, &stone);
    assert_eq!(chunk.palette().len(), 2);
    assert_eq!(chunk.get(other), 1);
    let lit = BlockData { id: ResourceLocation::new("minecraft:furnace").unwrap(), state: "lit=true".to_string() };
    assert_eq!(chunk.palette_insert(lit.clone()), 2);
    assert_eq!(chunk.palette_insert(lit), 2);
    chunk.set(other, 0);
    assert_eq!(chunk.get(other), 0);
}

#[test]
fn a_block_touches_the_neighbours_across_its_sides() {
    let inner = ChunkBlockIndex::from_pos((5, 5, 5)).unwrap();
    assert!(Chunk::blocks_touches_neighbors(inner).is_empty());
    let side = ChunkBlockIndex::from_pos((0, 5, 15)).unwrap();
    assert_eq!(Chunk::blocks_touches_neighbors(side), vec![(-1, 0, 0), (-1, 0, 1), (0, 0, 1)]);
    let corner = ChunkBlockIndex::from_pos((15, 15, 15)).unwrap();
    assert_eq!(
        Chunk::blocks_touches_neighbors(corner),
        vec![(0, 0, 1), (0, 1, 0), (0, 1, 1), (1, 0, 0), (1, 0, 1), (1, 1, 0), (1, 1, 1)]
    );
}
