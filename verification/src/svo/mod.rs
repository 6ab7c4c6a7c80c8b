pub mod coords;

pub use coords::{brick_local_from_voxel, chunk_local_from_voxel, div_floor, IVec3, VoxelCoord};
pub mod brick;
pub use brick::{Brick, BrickId, BrickState, BrickSummary};
pub mod pool;
pub use pool::BrickPool;
pub mod vox;
pub use vox::{VoxError, VoxFile, VoxModel, VoxVoxel};
pub mod chunk;
pub use chunk::Chunk;
pub mod world;
pub use world::World;
pub mod freshness;
pub mod dynamic;
pub use dynamic::DynamicComponent;
