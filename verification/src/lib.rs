//! A sparse voxel octree world: bricks of voxels grouped into chunks, a brick
//! pool, the MagicaVoxel `.vox` reader, detachable dynamic components and the
//! streaming window that turns the world into a GPU voxel grid.

pub mod svo;
pub mod chunks;
pub mod chunk_manager;
