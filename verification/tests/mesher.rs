use voxel_engine::grid::{Axis, CardinalDirection, Sign};
use voxel_engine::mesher::{
    ambient_occlusion_from_sides, ambient_occlusion_offsets, exterior_neighbor, get_coordinate_seed, get_modulo,
    ChunkTransparencyMode, Config, TextureInfo,
};

#[test]
fn texture_classification() {
    let info = TextureInfo::from_alphas(&[255, 255, 0]);
    assert!(info.has_transparent && !info.has_translucent);
    let info = TextureInfo::from_alphas(&[255, 128]);
    assert!(!info.has_transparent && info.has_translucent);
    let info = TextureInfo::from_alphas(&[]);
    assert!(!info.has_transparent && !info.has_translucent);
}

#[test]
fn transparency_mode() {
    let opaque = TextureInfo { has_transparent: false, has_translucent: false };
    let cutout = TextureInfo { has_transparent: true, has_translucent: false };
    let translucent = TextureInfo { has_transparent: true, has_translucent: true };
    assert_eq!(ChunkTransparencyMode::from_data(&opaque, false), ChunkTransparencyMode::Opaque);
    assert_eq!(ChunkTransparencyMode::from_data(&cutout, false), ChunkTransparencyMode::Cutout);
    assert_eq!(ChunkTransparencyMode::from_data(&translucent, false), ChunkTransparencyMode::Translucent);
    assert_eq!(ChunkTransparencyMode::from_data(&opaque, true), ChunkTransparencyMode::Translucent);
    assert!(!Config::default().enable_mesh_shader);
}

#[test]
fn exterior_neighbors() {
    let pos_x = CardinalDirection { sign: Sign::Positive, axis: Axis::X };
    let neg_z = CardinalDirection { sign: Sign::Negative, axis: Axis::Z };
    assert_eq!(exterior_neighbor((15, 3, 4), pos_x), (0, 3, 4));
    assert_eq!(exterior_neighbor((1, 3, 0), neg_z), (1, 3, 15));
}

#[test]
fn modulo_selection() {
    let v = [10, 20, 30];
    assert_eq!(*get_modulo(&v, 7), 20);
    assert_eq!(*get_modulo(&v, 3), 10);
}

#[test]
fn coordinate_seed_values() {
    assert_eq!(get_coordinate_seed(0, 0, 0), 0);
    // l = 1, l * l * 42317861 + l * 11 = 42317872.
    assert_eq!(get_coordinate_seed(0, 1, 0), 42_317_872 >> 16);
    // l = 3129871 ^ 116129781.
    let l: i64 = 3_129_871 ^ 116_129_781;
    let m = l.wrapping_mul(l).wrapping_mul(42_317_861).wrapping_add(l.wrapping_mul(11));
    assert_eq!(get_coordinate_seed(1, 0, 1), (m as u64) >> 16);
    // Negative coordinates wrap.
    let l: i64 = -3_129_871;
    let m = l.wrapping_mul(l).wrapping_mul(42_317_861).wrapping_add(l.wrapping_mul(11));
    assert_eq!(get_coordinate_seed(-1, 0, 0), (m as u64) >> 16);
}

#[test]
fn ambient_occlusion_offsets_of_up_face() {
    let up = CardinalDirection { sign: Sign::Positive, axis: Axis::Y };
    let offsets = ambient_occlusion_offsets(up);
    assert_eq!(offsets[0], (-1, 1, 0));
    assert_eq!(offsets[1], (-1, 1, 1));
    assert_eq!(offsets[6], (0, 1, -1));
    let south = CardinalDirection { sign: Sign::Negative, axis: Axis::Z };
    assert_eq!(ambient_occlusion_offsets(south)[3], (-1, -1, -1));
}

#[test]
fn ambient_occlusion_packing() {
    assert_eq!(ambient_occlusion_from_sides([false; 8]), 0);
    assert_eq!(ambient_occlusion_from_sides([true; 8]), 0xff);
    // Only the diagonal of the first corner.
    let mut sides = [false; 8];
    sides[1] = true;
    assert_eq!(ambient_occlusion_from_sides(sides), 1);
    // Side 4 touches the second and fourth corners.
    let mut sides = [false; 8];
    sides[4] = true;
    assert_eq!(ambient_occlusion_from_sides(sides), (1 << 2) | (1 << 6));
    // Sides 0 and 2 darken the first corner fully.
    let mut sides = [false; 8];
    sides[0] = true;
    sides[2] = true;
    assert_eq!(ambient_occlusion_from_sides(sides), 3 | (1 << 2) | (1 << 4));
}
