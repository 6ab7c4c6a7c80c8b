use svo_engine::svo::coords::coord_key;
use svo_engine::svo::{BrickPool, BrickState, BrickSummary, DynamicComponent, IVec3};

#[test]
fn new_component_is_empty() {
    let c = DynamicComponent::new();
    assert!(c.bricks.is_empty());
    assert!(c.summary_l2.is_empty());
    assert!(c.summary_l1.is_empty());
    assert_eq!(c.summary_l0, BrickSummary::empty());
    assert!(c.is_empty());
}

#[test]
fn set_voxel_then_sample() {
    let mut pool = BrickPool::default();
    let mut c = DynamicComponent::new();
    let v = IVec3::new(-3, 9, 17);
    c.set_voxel(&mut pool, v, 7, 2);
    assert_eq!(c.sample_density(&pool, v), 7);
    assert_eq!(c.sample_density(&pool, IVec3::new(-4, 9, 17)), i8::MIN);
    assert_eq!(c.bricks.len(), 1);
    assert!(c.bricks.contains_key(&coord_key(IVec3::new(-1, 1, 2))));
    c.set_voxel(&mut pool, IVec3::new(-4, 9, 17), 1, 1);
    assert_eq!(pool.bricks.len(), 1);
}

#[test]
fn rebuild_summaries_groups_by_halved_coordinates() {
    let mut pool = BrickPool::default();
    let mut c = DynamicComponent::new();
    c.set_voxel(&mut pool, IVec3::new(0, 0, 0), 10, 1); // brick (0,0,0)
    c.set_voxel(&mut pool, IVec3::new(8, 0, 0), 20, 1); // brick (1,0,0)
    c.set_voxel(&mut pool, IVec3::new(-8, 0, 0), 30, 1); // brick (-1,0,0): halves toward zero to (0,0,0)
    c.set_voxel(&mut pool, IVec3::new(40, 0, 0), -5, 1); // brick (5,0,0): cell (2,0,0)
    c.rebuild_summaries(&pool);
    assert_eq!(c.summary_l2.len(), 2);
    let cell0 = c.summary_l2[&coord_key(IVec3::new(0, 0, 0))];
    assert_eq!(cell0, BrickSummary { min_d: i8::MIN, max_d: 30, state: BrickState::Mixed });
    let cell2 = c.summary_l2[&coord_key(IVec3::new(2, 0, 0))];
    assert_eq!(cell2, BrickSummary { min_d: i8::MIN, max_d: -5, state: BrickState::Empty });
    assert_eq!(c.summary_l1.len(), 2);
    assert!(c.summary_l1.contains_key(&coord_key(IVec3::new(0, 0, 0))));
    assert!(c.summary_l1.contains_key(&coord_key(IVec3::new(1, 0, 0))));
    assert_eq!(c.summary_l0.max_d, 30);
    assert!(!c.is_empty());
}

#[test]
fn component_without_solid_voxel_is_empty_after_rebuild() {
    let mut pool = BrickPool::default();
    let mut c = DynamicComponent::new();
    c.set_voxel(&mut pool, IVec3::new(1, 2, 3), -1, 1);
    c.set_voxel(&mut pool, IVec3::new(100, 2, 3), -7, 1);
    c.rebuild_summaries(&pool);
    assert!(c.is_empty());
    c.set_voxel(&mut pool, IVec3::new(100, 2, 4), 0, 1);
    c.rebuild_summaries(&pool);
    assert!(!c.is_empty());
}

#[test]
fn remove_brick_releases_it() {
    let mut pool = BrickPool::default();
    let mut c = DynamicComponent::new();
    let v = IVec3::new(12, 0, 0);
    c.set_voxel(&mut pool, v, 4, 4);
    let id = c.bricks[&coord_key(IVec3::new(1, 0, 0))];
    c.remove_brick(IVec3::new(1, 0, 0), &mut pool);
    assert!(c.bricks.is_empty());
    assert_eq!(pool.free_list, vec![id]);
    assert_eq!(c.sample_density(&pool, v), i8::MIN);
    c.remove_brick(IVec3::new(1, 0, 0), &mut pool);
    assert_eq!(pool.free_list, vec![id]);
    c.rebuild_summaries(&pool);
    assert_eq!(c.summary_l0, BrickSummary::empty());
    assert!(c.is_empty());
}
