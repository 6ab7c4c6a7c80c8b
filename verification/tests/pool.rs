use svo_engine::svo::BrickPool;

#[test]
fn allocate_appends_new_bricks() {
    let mut pool = BrickPool::default();
    assert_eq!(pool.allocate(), 0);
    assert_eq!(pool.allocate(), 1);
    assert_eq!(pool.bricks.len(), 2);
}

#[test]
fn release_then_allocate_reuses_last_released_and_resets_it() {
    let mut pool = BrickPool::default();
    let a = pool.allocate();
    let b = pool.allocate();
    pool.bricks[a].set_voxel(0, 0, 0, 9, 9);
    pool.bricks[a].recompute_summary();
    pool.release(b);
    pool.release(a);
    assert_eq!(pool.free_list, vec![b, a]);
    let c = pool.allocate();
    assert_eq!(c, a);
    assert_eq!(pool.bricks[c].density[0], i8::MIN);
    assert_eq!(pool.bricks[c].material[0], 0);
    assert_eq!(pool.allocate(), b);
    assert_eq!(pool.allocate(), 2);
    assert_eq!(pool.bricks.len(), 3);
}

#[test]
fn release_ignores_unknown_ids() {
    let mut pool = BrickPool::default();
    pool.allocate();
    pool.release(5);
    assert!(pool.free_list.is_empty());
    assert_eq!(pool.allocate(), 1);
}

#[test]
fn live_ids_are_never_handed_out_twice() {
    let mut pool = BrickPool::default();
    let mut live = Vec::new();
    for _ in 0..4 {
        live.push(pool.allocate());
    }
    pool.release(live.remove(1));
    pool.release(live.remove(0));
    for _ in 0..3 {
        let id = pool.allocate();
        assert!(!live.contains(&id));
        live.push(id);
    }
    assert_eq!(pool.bricks.len(), 5);
}
