use svo_engine::svo::brick::BRICK_VOLUME;
use svo_engine::svo::{Brick, BrickState, BrickSummary};

fn summary(min_d: i8, max_d: i8, state: BrickState) -> BrickSummary {
    BrickSummary { min_d, max_d, state }
}

#[test]
fn empty_summary_values() {
    assert_eq!(BrickSummary::empty(), summary(i8::MIN, i8::MIN, BrickState::Empty));
}

#[test]
fn from_children_of_nothing_is_empty() {
    assert_eq!(BrickSummary::from_children(&[]), BrickSummary::empty());
}

#[test]
fn from_children_takes_extremes_and_classifies() {
    let empty = summary(-100, -1, BrickState::Empty);
    let full = summary(3, 9, BrickState::Full);
    assert_eq!(BrickSummary::from_children(&[empty, full]), summary(-100, 9, BrickState::Mixed));
    assert_eq!(BrickSummary::from_children(&[full, summary(0, 2, BrickState::Full)]), summary(0, 9, BrickState::Full));
    assert_eq!(BrickSummary::from_children(&[empty, BrickSummary::empty()]), summary(-128, -1, BrickState::Empty));
}

#[test]
fn from_children_single_child() {
    let s = summary(-5, 7, BrickState::Mixed);
    assert_eq!(BrickSummary::from_children(&[s]), s);
}

#[test]
fn brick_index_runs_x_fastest() {
    assert_eq!(Brick::index(0, 0, 0), 0);
    assert_eq!(Brick::index(1, 2, 3), 209);
    assert_eq!(Brick::index(7, 7, 7), BRICK_VOLUME - 1);
}

#[test]
fn new_brick_is_empty() {
    let b = Brick::new_empty();
    assert!(b.density.iter().all(|&d| d == i8::MIN));
    assert!(b.material.iter().all(|&m| m == 0));
    assert_eq!(b.summary, BrickSummary::empty());
}

#[test]
fn set_voxel_writes_one_cell_and_leaves_summary() {
    let mut b = Brick::new_empty();
    b.set_voxel(1, 2, 3, 5, 7);
    assert_eq!(b.density[209], 5);
    assert_eq!(b.material[209], 7);
    assert_eq!(b.density[208], i8::MIN);
    assert_eq!(b.summary, BrickSummary::empty());
}

#[test]
fn recompute_summary_mixed_full_empty() {
    let mut b = Brick::new_empty();
    b.set_voxel(1, 2, 3, 5, 7);
    b.recompute_summary();
    assert_eq!(b.summary, summary(i8::MIN, 5, BrickState::Mixed));

    let mut full = Brick::new_empty();
    for i in 0..BRICK_VOLUME {
        full.density[i] = 10;
    }
    full.density[3] = 0;
    full.recompute_summary();
    assert_eq!(full.summary, summary(0, 10, BrickState::Full));

    let mut empty = Brick::new_empty();
    empty.set_voxel(0, 0, 0, -1, 1);
    empty.recompute_summary();
    assert_eq!(empty.summary, summary(i8::MIN, -1, BrickState::Empty));
}

#[test]
fn from_children_ignores_order_and_groups() {
    let a = summary(-3, 4, BrickState::Mixed);
    let b = summary(1, 9, BrickState::Full);
    let c = summary(-50, -2, BrickState::Empty);
    let whole = BrickSummary::from_children(&[a, b, c]);
    assert_eq!(whole, BrickSummary::from_children(&[c, a, b]));
    let left = BrickSummary::from_children(&[a]);
    let right = BrickSummary::from_children(&[b, c]);
    assert_eq!(whole, BrickSummary::from_children(&[left, right]));
}
