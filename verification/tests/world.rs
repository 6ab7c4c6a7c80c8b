use svo_engine::svo::world::centered_origin;
use svo_engine::svo::coords::coord_key;
use svo_engine::svo::{BrickState, IVec3, VoxFile, VoxModel, VoxVoxel, World};

#[test]
fn new_world_is_empty_everywhere() {
    let w = World::new();
    assert!(w.chunks.is_empty());
    assert_eq!(w.sample_density(IVec3::new(0, 0, 0)), i8::MIN);
    assert_eq!(w.sample_material(IVec3::new(-5, 100, 3)), 0);
    assert!(w.palette.iter().all(|&c| c == 0));
}

#[test]
fn set_voxel_then_sample_reads_it_back() {
    let mut w = World::new();
    let v = IVec3::new(-1, 5, 70);
    w.set_voxel(v, 12, 3);
    assert_eq!(w.sample_density(v), 12);
    assert_eq!(w.sample_material(v), 3);
    assert_eq!(w.sample_density(IVec3::new(0, 5, 70)), i8::MIN);
    assert_eq!(w.sample_material(IVec3::new(-1, 6, 70)), 0);
    let chunk = &w.chunks[&coord_key(IVec3::new(-1, 0, 1))];
    assert_eq!(chunk.summary_l0.state, BrickState::Mixed);
    assert!(!chunk.is_empty());
}

#[test]
fn set_voxel_in_existing_brick_allocates_nothing() {
    let mut w = World::new();
    w.set_voxel(IVec3::new(1, 1, 1), 1, 1);
    assert_eq!(w.brick_pool.bricks.len(), 1);
    w.set_voxel(IVec3::new(2, 3, 4), 2, 2);
    assert_eq!(w.brick_pool.bricks.len(), 1);
    w.set_voxel(IVec3::new(9, 3, 4), 2, 2);
    assert_eq!(w.brick_pool.bricks.len(), 2);
    assert_eq!(w.sample_density(IVec3::new(1, 1, 1)), 1);
    assert_eq!(w.sample_density(IVec3::new(2, 3, 4)), 2);
}

#[test]
fn remove_voxel_empties_it_and_its_chunk() {
    let mut w = World::new();
    let v = IVec3::new(100, -200, 300);
    w.set_voxel(v, 50, 9);
    w.remove_voxel(v);
    assert_eq!(w.sample_density(v), i8::MIN);
    assert_eq!(w.sample_material(v), 0);
    let (chunk_coord, _) = svo_engine::svo::chunk_local_from_voxel(v, 64);
    assert!(w.chunks[&coord_key(chunk_coord)].is_empty());
}

#[test]
fn get_or_create_chunk_makes_an_empty_chunk_once() {
    let mut w = World::new();
    let c = IVec3::new(3, -2, 1);
    assert!(w.get_or_create_chunk(c).is_empty());
    w.get_or_create_chunk(c).bricks[0] = None;
    assert_eq!(w.chunks.len(), 1);
    w.get_or_create_chunk(c);
    assert_eq!(w.chunks.len(), 1);
}

fn model(voxels: Vec<VoxVoxel>) -> VoxModel {
    VoxModel { size: [8, 8, 8], voxels }
}

#[test]
fn import_vox_model_swaps_y_and_z_and_fills_solid() {
    let mut w = World::new();
    let m = model(vec![
        VoxVoxel { x: 1, y: 2, z: 3, color_index: 5 },
        VoxVoxel { x: 0, y: 0, z: 0, color_index: 6 },
    ]);
    let origin = IVec3::new(10, 20, 30);
    w.import_vox_model(&m, origin);
    assert_eq!(w.sample_density(IVec3::new(11, 23, 32)), i8::MAX);
    assert_eq!(w.sample_material(IVec3::new(11, 23, 32)), 5);
    assert_eq!(w.sample_density(IVec3::new(10, 20, 30)), i8::MAX);
    assert_eq!(w.sample_material(IVec3::new(10, 20, 30)), 6);
    assert_eq!(w.sample_density(IVec3::new(11, 22, 33)), i8::MIN);
    // the written bricks and the summaries above them were refreshed
    let chunk = &w.chunks[&coord_key(IVec3::new(0, 0, 0))];
    assert_eq!(chunk.summary_l0.state, BrickState::Mixed);
    for id in chunk.bricks.iter().flatten() {
        assert_eq!(w.brick_pool.bricks[*id].summary.max_d, i8::MAX);
    }
}

#[test]
fn import_vox_model_later_voxel_wins() {
    let mut w = World::new();
    let m = model(vec![
        VoxVoxel { x: 1, y: 1, z: 1, color_index: 5 },
        VoxVoxel { x: 1, y: 1, z: 1, color_index: 8 },
    ]);
    w.import_vox_model(&m, IVec3::new(0, 0, 0));
    assert_eq!(w.sample_material(IVec3::new(1, 1, 1)), 8);
    assert_eq!(w.brick_pool.bricks.len(), 1);
}

#[test]
fn import_vox_file_takes_palette_and_all_models() {
    let mut w = World::new();
    let mut palette = [0u32; 256];
    palette[3] = 0xFF00FF00;
    let file = VoxFile {
        models: vec![
            model(vec![VoxVoxel { x: 0, y: 0, z: 0, color_index: 3 }]),
            model(vec![VoxVoxel { x: 2, y: 0, z: 0, color_index: 4 }]),
        ],
        palette,
    };
    w.import_vox_file(&file, IVec3::new(-64, 0, 0));
    assert_eq!(w.palette[3], 0xFF00FF00);
    assert_eq!(w.sample_material(IVec3::new(-64, 0, 0)), 3);
    assert_eq!(w.sample_material(IVec3::new(-62, 0, 0)), 4);
}

#[test]
fn detach_component_moves_solid_voxels_only() {
    let mut w = World::new();
    let a = IVec3::new(3, 4, 5);
    let b = IVec3::new(3, 4, 6);
    let c = IVec3::new(500, 4, 6);
    w.set_voxel(a, 5, 2);
    w.set_voxel(b, -3, 7);
    let comp = w.detach_component(&[a, b, c]);
    assert_eq!(w.sample_density(a), i8::MIN);
    assert_eq!(w.sample_material(a), 0);
    assert_eq!(w.sample_density(b), -3);
    assert_eq!(w.sample_material(b), 7);
    assert_eq!(comp.sample_density(&w.brick_pool, a), 5);
    assert_eq!(comp.sample_density(&w.brick_pool, b), i8::MIN);
    assert_eq!(comp.sample_density(&w.brick_pool, c), i8::MIN);
    assert_eq!(comp.bricks.len(), 1);
    assert!(comp.is_empty());
}

#[test]
fn world_keeps_summaries_after_many_writes() {
    let mut w = World::new();
    for i in 0..20 {
        w.set_voxel(IVec3::new(i * 7 - 50, i * 3, -i), i as i8, 1);
    }
    for i in 0..20 {
        assert_eq!(w.sample_density(IVec3::new(i * 7 - 50, i * 3, -i)), i as i8);
    }
    for chunk in w.chunks.values() {
        assert_ne!(chunk.summary_l0.state, BrickState::Empty);
    }
}

#[test]
fn centered_origin_halves_toward_zero_and_swaps_y_z() {
    assert_eq!(centered_origin([10, 20, 31]), IVec3::new(155, 145, 150));
    assert_eq!(centered_origin([0, 0, 0]), IVec3::new(160, 160, 160));
    // a size past i32::MAX reads as a negative i32
    assert_eq!(centered_origin([u32::MAX, 0, 0]), IVec3::new(160, 160, 160));
    assert_eq!(centered_origin([u32::MAX - 2, 0, 0]), IVec3::new(161, 160, 160));
}

#[test]
fn fits_import_checks_room_for_every_voxel() {
    let w = World::new();
    let file = VoxFile { models: vec![model(vec![VoxVoxel { x: 0, y: 0, z: 0, color_index: 1 }])], palette: [0; 256] };
    assert!(w.fits_import(&file));
}

#[test]
fn writes_keep_other_chunks_and_create_their_own() {
    let mut w = World::new();
    w.set_voxel(IVec3::new(1, 1, 1), 3, 3);
    w.remove_voxel(IVec3::new(200, 0, 0));
    assert_eq!(w.chunks.len(), 2);
    assert!(w.chunks.contains_key(&coord_key(IVec3::new(3, 0, 0))));
    assert_eq!(w.sample_density(IVec3::new(1, 1, 1)), 3);
}

#[test]
fn import_creates_only_the_chunks_it_touches() {
    let mut w = World::new();
    w.set_voxel(IVec3::new(-100, 0, 0), 1, 1);
    let m = model(vec![VoxVoxel { x: 1, y: 2, z: 70, color_index: 4 }]);
    w.import_vox_model(&m, IVec3::new(0, 0, 0));
    assert_eq!(w.chunks.len(), 2);
    assert!(w.chunks.contains_key(&coord_key(IVec3::new(0, 1, 0))));
    assert_eq!(w.sample_density(IVec3::new(-100, 0, 0)), 1);
}
