//! Verified core data structures of a voxel game engine.

pub mod index_map;
pub mod gen_map;
pub mod grid;
pub mod chunk;
pub mod resource_location;
pub mod bits;
pub mod graph;
pub mod compiled;
pub mod resolver;
pub mod compiler;
pub mod steps;
pub mod materials;
pub mod label;
pub mod handles;
pub mod enum_set;
pub mod packed;
pub mod mesher;
pub mod blockstate;
pub mod meshing;
pub mod schedule;
pub mod model_resolve;
pub mod world;
pub mod inputs;
pub mod quads;
pub mod gather;
pub mod render_graph;
pub mod dot;
pub mod ref_or_owned;
