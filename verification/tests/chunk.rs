use svo_engine::svo::{BrickPool, BrickState, BrickSummary, Chunk, IVec3};

#[test]
fn new_chunk_is_empty() {
    let c = Chunk::new_empty();
    assert_eq!(c.bricks.len(), 512);
    assert!(c.bricks.iter().all(|b| b.is_none()));
    assert!(c.summary_l2.iter().all(|s| *s == BrickSummary::empty()));
    assert!(c.summary_l1.iter().all(|s| *s == BrickSummary::empty()));
    assert!(c.is_empty());
}

#[test]
fn grid_indices() {
    assert_eq!(Chunk::brick_index(IVec3::new(1, 2, 3)), 209);
    assert_eq!(Chunk::brick_index(IVec3::new(7, 7, 7)), 511);
    assert_eq!(Chunk::l2_index(IVec3::new(1, 2, 3)), 57);
    assert_eq!(Chunk::l1_index(IVec3::new(1, 1, 1)), 7);
}

#[test]
fn ensure_brick_allocates_once() {
    let mut c = Chunk::new_empty();
    let mut pool = BrickPool::default();
    let id = c.ensure_brick(&mut pool, IVec3::new(2, 0, 1));
    assert_eq!(c.bricks[Chunk::brick_index(IVec3::new(2, 0, 1))], Some(id));
    assert_eq!(c.ensure_brick(&mut pool, IVec3::new(2, 0, 1)), id);
    assert_eq!(pool.bricks.len(), 1);
}

#[test]
fn update_summaries_for_brick_refreshes_its_path() {
    let mut c = Chunk::new_empty();
    let mut pool = BrickPool::default();
    let b = IVec3::new(5, 2, 7);
    let id = c.ensure_brick(&mut pool, b);
    pool.bricks[id].set_voxel(0, 0, 0, 20, 1);
    pool.bricks[id].recompute_summary();
    c.update_summaries_for_brick(&pool, b);
    let mixed = BrickSummary { min_d: i8::MIN, max_d: 20, state: BrickState::Mixed };
    assert_eq!(c.summary_l2[Chunk::l2_index(IVec3::new(2, 1, 3))], mixed);
    assert_eq!(c.summary_l1[Chunk::l1_index(IVec3::new(1, 0, 1))], mixed);
    assert_eq!(c.summary_l0, mixed);
    assert_eq!(c.summary_l2[0], BrickSummary::empty());
    assert!(!c.is_empty());
}

#[test]
fn recompute_all_summaries_matches_bricks() {
    let mut c = Chunk::new_empty();
    let mut pool = BrickPool::default();
    let id = c.ensure_brick(&mut pool, IVec3::new(0, 0, 0));
    for i in 0..512 {
        pool.bricks[id].density[i] = 3;
    }
    pool.bricks[id].recompute_summary();
    c.recompute_all_summaries(&pool);
    assert_eq!(c.summary_l2[0], BrickSummary { min_d: i8::MIN, max_d: 3, state: BrickState::Mixed });
    assert_eq!(c.summary_l0.max_d, 3);
    // a level-2 cell fully covered by full bricks is full
    let mut d = Chunk::new_empty();
    let mut pool2 = BrickPool::default();
    for k in 0..8 {
        let b = IVec3::new(k % 2, (k / 2) % 2, k / 4);
        let id = d.ensure_brick(&mut pool2, b);
        for i in 0..512 {
            pool2.bricks[id].density[i] = 1;
        }
        pool2.bricks[id].recompute_summary();
    }
    d.recompute_all_summaries(&pool2);
    assert_eq!(d.summary_l2[0], BrickSummary { min_d: 1, max_d: 1, state: BrickState::Full });
    assert_eq!(d.summary_l0.state, BrickState::Mixed);
}

#[test]
fn brick_index_beyond_the_grid() {
    assert_eq!(Chunk::brick_index(IVec3::new(8, 0, 0)), 8);
    assert_eq!(Chunk::l2_index(IVec3::new(0, 4, 0)), 16);
    assert_eq!(Chunk::l1_index(IVec3::new(0, 0, 2)), 8);
    assert_eq!(svo_engine::svo::Brick::index(8, 0, 0), 8);
}
