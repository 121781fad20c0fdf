//! A voxel world: blocks stored in a sparse octree, chunks of such octrees,
//! and the logic that turns them into meshes, terrain and saved maps.

pub mod world;
pub mod json;
pub mod mesh;
pub mod terrain;
pub mod map_file;
pub mod seed_input;
