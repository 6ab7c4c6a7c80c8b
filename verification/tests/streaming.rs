use svo_engine::chunk_manager::ChunkManager as ChunkSnapshot;
use svo_engine::chunks::{ChunkManager, DirtyRange, GPU_UPLOAD_BUDGET_BYTES, VIEW_VOLUME};
use svo_engine::svo::{IVec3, World};

#[test]
fn dirty_range_len() {
    assert_eq!(DirtyRange { start: 3, end: 10 }.len(), 7);
    assert_eq!(DirtyRange { start: 10, end: 3 }.len(), 0);
}

#[test]
fn new_manager_has_zero_window() {
    let m = ChunkManager::new();
    assert_eq!(m.window_origin(), IVec3::new(0, 0, 0));
    assert_eq!(m.chunk_wrap_offset(), IVec3::new(0, 0, 0));
    assert_eq!(m.data().len(), VIEW_VOLUME);
}

#[test]
fn first_frame_fills_center_first_and_uploads_within_budget() {
    let mut world = World::new();
    world.palette[4] = 0xABCD;
    world.set_voxel(IVec3::new(129, 130, 131), 10, 4);
    let mut m = ChunkManager::new();
    let uploads = m.update_frame(&world, IVec3::new(2, 2, 2));
    assert_eq!(m.window_origin(), IVec3::new(0, 0, 0));
    // the center chunk (window offset (2,2,2)) sits in slot 62 of the ring
    let slot = 62usize;
    let t = 1 + 64 * (2 + 64 * 3);
    assert_eq!(m.data()[slot * 262144 + t], 0xABCD);
    assert_eq!(m.data()[slot * 262144 + t + 1], 0);
    // a fresh window marks all of its data dirty; the upload takes the first budget's worth
    assert_eq!(uploads, vec![DirtyRange { start: 0, end: GPU_UPLOAD_BUDGET_BYTES / 4 }]);
    let bytes: usize = uploads.iter().map(|r| r.len() * 4).sum();
    assert!(bytes <= GPU_UPLOAD_BUDGET_BYTES);
}

#[test]
fn moving_the_window_shifts_origin_and_wrap() {
    let world = World::new();
    let mut m = ChunkManager::new();
    m.update_frame(&world, IVec3::new(2, 2, 2));
    m.update_frame(&world, IVec3::new(3, 2, 1));
    assert_eq!(m.window_origin(), IVec3::new(64, 0, -64));
    assert_eq!(m.chunk_wrap_offset(), IVec3::new(1, 0, 4));
}

#[test]
fn snapshot_reads_materials_of_solid_voxels() {
    let mut world = World::new();
    world.set_voxel(IVec3::new(-64 + 5, 0, 1), 3, 9);
    world.set_voxel(IVec3::new(-64 + 6, 0, 1), -3, 8);
    let mut s = ChunkSnapshot::new();
    s.update_from_world(&world, IVec3::new(-1, 0, 0));
    assert_eq!(s.data()[5 + 64 * 64], 9);
    assert_eq!(s.data()[6 + 64 * 64], 0);
    assert_eq!(s.data()[0], 0);
}

#[test]
fn frames_keep_filling_the_queue_nearest_first() {
    let mut world = World::new();
    world.palette[2] = 0x77;
    // a voxel in the window offset (2,2,1), which is filled in a later frame
    world.set_voxel(IVec3::new(128, 128, 64), 5, 2);
    let mut m = ChunkManager::new();
    for _ in 0..4 {
        m.update_frame(&world, IVec3::new(2, 2, 2));
    }
    let slot = 2 + 5 * (2 + 5 * 1);
    assert_eq!(m.data()[slot * 262144], 0x77);
}
