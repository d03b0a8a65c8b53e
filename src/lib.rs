//! A chunked voxel world: the voxel and chunk model, boundary-aware face
//! meshing, a block/biome registry, procedural generation with structures
//! that spill across chunk borders, an observer-centred scanner, and the
//! streaming orchestrator that keeps all of it in step.
pub mod coord;
pub mod block;
pub mod chunk;
pub mod mesh;
pub mod scanner;
pub mod coord_map;
pub mod registry;
pub mod pending;
mod random;
pub mod standard;
pub mod generator;
pub mod worldgen;
pub mod texture;
pub mod state;
