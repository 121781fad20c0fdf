pub mod voxel;
pub mod position;
pub mod errors;
pub mod octree;
pub mod laws;
pub mod chunk;
pub mod world_access;
pub mod raycast;

pub use voxel::{BlockFace, BlockType};
pub use position::IVec3;
pub use errors::OctreeError;
pub use octree::Octree;
pub use chunk::{Chunk, CHUNK_SIZE};
pub use world_access::ChunkManager;
pub use raycast::RaycastResult;
