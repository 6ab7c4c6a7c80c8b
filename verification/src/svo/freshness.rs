use vstd::prelude::*;
use crate::svo::brick::{empty_summary, summary_of};
use crate::svo::chunk::{
    Chunk, agg_l1, agg_l2, child_cell, grid_cell, grid_index, lemma_agg_l1_all_empty, lemma_agg_l1_frame,
    lemma_agg_l2_frame, lemma_agg_l2_no_bricks, lemma_child_cell_in_cube, lemma_grid_index_bounds,
    lemma_grid_index_injective, lemma_grid_roundtrip, lemma_other_cell_children, lemma_parent_in_cube,
    parent_cell, slot_summary,
};
use crate::svo::coords::{IVec3, in_cube, spec_coord_key};
use crate::svo::pool::BrickPool;
use crate::svo::world::{World, brick_of, chunk_of, lemma_locate, slot_of, stored};

verus! {

// A world whose summaries are stale at a known list of bricks, given as
// (chunk coordinate, brick coordinate in its chunk) pairs: `World::import_vox_model`
// writes many voxels first and refreshes the bricks it wrote afterwards.

/// Whether brick slot `i` of chunk `k` is listed in `d`.
pub open spec fn dirty_slot(d: Seq<(IVec3, IVec3)>, k: u128, i: int) -> bool {
    exists|j: int| 0 <= j < d.len() && spec_coord_key((#[trigger] d[j]).0) == k && grid_index(d[j].1, 8) == i
}

/// Whether level-2 cell `i` of chunk `k` lies over a brick listed in `d`.
pub open spec fn dirty_l2(d: Seq<(IVec3, IVec3)>, k: u128, i: int) -> bool {
    exists|j: int| 0 <= j < d.len() && spec_coord_key((#[trigger] d[j]).0) == k && grid_index(parent_cell(d[j].1), 4) == i
}

/// Whether level-1 cell `i` of chunk `k` lies over a brick listed in `d`.
pub open spec fn dirty_l1(d: Seq<(IVec3, IVec3)>, k: u128, i: int) -> bool {
    exists|j: int| 0 <= j < d.len() && spec_coord_key((#[trigger] d[j]).0) == k
        && grid_index(parent_cell(parent_cell(d[j].1)), 2) == i
}

/// Whether chunk `k` holds a brick listed in `d`.
pub open spec fn dirty_chunk(d: Seq<(IVec3, IVec3)>, k: u128) -> bool {
    exists|j: int| 0 <= j < d.len() && spec_coord_key((#[trigger] d[j]).0) == k
}

/// The summaries of `w` agree with its voxels everywhere but over the bricks
/// listed in `d`: each brick not listed has the summary of its densities, and
/// each summary cell with no listed brick under it agrees with its children.
pub open spec fn fresh_except(w: World, d: Seq<(IVec3, IVec3)>) -> bool {
    &&& forall|j: int| 0 <= j < d.len() ==> in_cube((#[trigger] d[j]).1, 8)
    &&& forall|k: u128, i: int|
        w.chunks@.contains_key(k) && 0 <= i < 512 && (#[trigger] w.chunks@[k].bricks@[i]) is Some && !dirty_slot(d, k, i)
            ==> w.brick_pool.bricks@[w.chunks@[k].bricks@[i]->0 as int].summary_fresh()
    &&& forall|k: u128, i: int| w.chunks@.contains_key(k) && 0 <= i < 64 && !dirty_l2(d, k, i)
        ==> #[trigger] w.chunks@[k].summary_l2@[i] == agg_l2(w.chunks@[k].bricks@, w.brick_pool.bricks@, grid_cell(i, 4))
    &&& forall|k: u128, i: int| w.chunks@.contains_key(k) && 0 <= i < 8 && !dirty_l1(d, k, i)
        ==> #[trigger] w.chunks@[k].summary_l1@[i] == agg_l1(w.chunks@[k].summary_l2@, grid_cell(i, 2))
    &&& forall|k: u128| w.chunks@.contains_key(k) && !dirty_chunk(d, k)
        ==> (#[trigger] w.chunks@[k]).summary_l0 == summary_of(w.chunks@[k].summary_l1@)
}

/// With nothing listed, `fresh_except` is `summaries_fresh`.
pub proof fn lemma_fresh_except_none(w: World)
    ensures
        fresh_except(w, Seq::empty()) == w.summaries_fresh(),
{
    let d = Seq::<(IVec3, IVec3)>::empty();
    assert(forall|k: u128, i: int| !dirty_slot(d, k, i));
    assert(forall|k: u128, i: int| !dirty_l2(d, k, i));
    assert(forall|k: u128, i: int| !dirty_l1(d, k, i));
    assert(forall|k: u128| !dirty_chunk(d, k));
    if fresh_except(w, d) {
        assert forall|k: u128| w.chunks@.contains_key(k) implies (#[trigger] w.chunks@[k]).summaries_consistent(w.brick_pool.bricks@) by {
            assert(forall|i: int| 0 <= i < 64 ==> #[trigger] w.chunks@[k].summary_l2@[i] == agg_l2(w.chunks@[k].bricks@, w.brick_pool.bricks@, grid_cell(i, 4)));
            assert(forall|i: int| 0 <= i < 8 ==> #[trigger] w.chunks@[k].summary_l1@[i] == agg_l1(w.chunks@[k].summary_l2@, grid_cell(i, 2)));
        }
    }
    if w.summaries_fresh() {
        assert forall|k: u128, i: int| w.chunks@.contains_key(k) && 0 <= i < 64
            implies #[trigger] w.chunks@[k].summary_l2@[i] == agg_l2(w.chunks@[k].bricks@, w.brick_pool.bricks@, grid_cell(i, 4)) by {
            assert(w.chunks@[k].summaries_consistent(w.brick_pool.bricks@));
        }
        assert forall|k: u128, i: int| w.chunks@.contains_key(k) && 0 <= i < 8
            implies #[trigger] w.chunks@[k].summary_l1@[i] == agg_l1(w.chunks@[k].summary_l2@, grid_cell(i, 2)) by {
            assert(w.chunks@[k].summaries_consistent(w.brick_pool.bricks@));
        }
        assert forall|k: u128| w.chunks@.contains_key(k)
            implies (#[trigger] w.chunks@[k]).summary_l0 == summary_of(w.chunks@[k].summary_l1@) by {
            assert(w.chunks@[k].summaries_consistent(w.brick_pool.bricks@));
        }
    }
}

/// Listing one more brick keeps a world fresh except at the list.
pub proof fn lemma_fresh_except_push(w: World, d: Seq<(IVec3, IVec3)>, e: (IVec3, IVec3))
    requires
        fresh_except(w, d),
        in_cube(e.1, 8),
    ensures
        fresh_except(w, d.push(e)),
{
    let d2 = d.push(e);
    assert forall|k: u128, i: int| dirty_slot(d, k, i) implies dirty_slot(d2, k, i) by {
        let j = choose|j: int| 0 <= j < d.len() && spec_coord_key((#[trigger] d[j]).0) == k && grid_index(d[j].1, 8) == i;
        assert(d2[j] == d[j]);
    }
    assert forall|k: u128, i: int| dirty_l2(d, k, i) implies dirty_l2(d2, k, i) by {
        let j = choose|j: int| 0 <= j < d.len() && spec_coord_key((#[trigger] d[j]).0) == k && grid_index(parent_cell(d[j].1), 4) == i;
        assert(d2[j] == d[j]);
    }
    assert forall|k: u128, i: int| dirty_l1(d, k, i) implies dirty_l1(d2, k, i) by {
        let j = choose|j: int| 0 <= j < d.len() && spec_coord_key((#[trigger] d[j]).0) == k
            && grid_index(parent_cell(parent_cell(d[j].1)), 2) == i;
        assert(d2[j] == d[j]);
    }
    assert forall|k: u128| dirty_chunk(d, k) implies dirty_chunk(d2, k) by {
        let j = choose|j: int| 0 <= j < d.len() && spec_coord_key((#[trigger] d[j]).0) == k;
        assert(d2[j] == d[j]);
    }
    assert forall|j: int| 0 <= j < d2.len() implies in_cube((#[trigger] d2[j]).1, 8) by {
        if j < d.len() {
            assert(d2[j] == d[j]);
        }
    }
}

/// Writing one voxel keeps a world fresh except at a list that names the
/// voxel's brick: the write touches that brick only, and no summary.
pub proof fn lemma_store_fresh(
    w0: World,
    w3: World,
    v: IVec3,
    chunk0: Chunk,
    chunk3: Chunk,
    pool1: BrickPool,
    id: usize,
    d: Seq<(IVec3, IVec3)>,
)
    requires
        w0.wf(),
        stored(w0, w3, spec_coord_key(chunk_of(v)), slot_of(v), chunk0, chunk3, pool1, id),
        chunk3.summary_l2 == chunk0.summary_l2,
        chunk3.summary_l1 == chunk0.summary_l1,
        chunk3.summary_l0 == chunk0.summary_l0,
        !w0.chunks@.contains_key(spec_coord_key(chunk_of(v))) ==> {
            &&& forall|i: int| 0 <= i < 64 ==> #[trigger] chunk0.summary_l2@[i] == empty_summary()
            &&& forall|i: int| 0 <= i < 8 ==> #[trigger] chunk0.summary_l1@[i] == empty_summary()
        },
        fresh_except(w0, d),
        d.contains((chunk_of(v), brick_of(v))),
    ensures
        fresh_except(w3, d),
{
    lemma_locate(v);
    let key = spec_coord_key(chunk_of(v));
    let slot = slot_of(v);
    let b = brick_of(v);
    let c2 = parent_cell(b);
    let c1 = parent_cell(c2);
    lemma_parent_in_cube(b, 4);
    lemma_parent_in_cube(c2, 2);
    let bricks0 = w0.brick_pool.bricks@;
    let bricks3 = w3.brick_pool.bricks@;
    let fresh = chunk0.bricks@[slot] is None;
    let j0 = choose|j: int| 0 <= j < d.len() && d[j] == (chunk_of(v), b);
    assert(spec_coord_key(d[j0].0) == key);
    assert(dirty_slot(d, key, slot));
    assert(dirty_l2(d, key, grid_index(c2, 4)));
    assert(dirty_l1(d, key, grid_index(c1, 2)));
    assert(dirty_chunk(d, key));
    assert(w3.chunks@.contains_key(key));
    assert(w3.chunks@[key] == chunk3);
    // a slot other than the written one names no brick `id`, and its brick is unchanged
    assert forall|k: u128, i: int|
        w0.chunks@.contains_key(k) && 0 <= i < 512 && (#[trigger] w0.chunks@[k].bricks@[i]) is Some && !(k == key && i == slot)
        implies w0.chunks@[k].bricks@[i]->0 != id && bricks3[w0.chunks@[k].bricks@[i]->0 as int] == bricks0[w0.chunks@[k].bricks@[i]->0 as int] by {
        let x = w0.chunks@[k].bricks@[i]->0;
        if x == id {
            if fresh {
                let pool0 = w0.brick_pool;
                if pool0.free_ids().len() > 0 {
                    assert(pool0.free_ids()[pool0.free_ids().len() - 1] == id);
                    assert(pool0.free_ids().contains(id));
                }
            } else {
                assert(w0.chunks@.contains_key(key));
                assert(w0.chunks@[key].bricks@[slot] == Some(id));
            }
        }
        if fresh {
            assert(pool1.bricks@[x as int] == bricks0[x as int]);
        }
    }
    // the written chunk before the write agreed with its children where `d` lists nothing
    assert forall|i: int| 0 <= i < 64 && !dirty_l2(d, key, i)
        implies #[trigger] chunk0.summary_l2@[i] == agg_l2(chunk0.bricks@, bricks0, grid_cell(i, 4)) by {
        if !w0.chunks@.contains_key(key) {
            lemma_grid_roundtrip(i, 4);
            lemma_agg_l2_no_bricks(chunk0.bricks@, bricks0, grid_cell(i, 4));
        }
    }
    assert forall|i: int| 0 <= i < 8 && !dirty_l1(d, key, i)
        implies #[trigger] chunk0.summary_l1@[i] == agg_l1(chunk0.summary_l2@, grid_cell(i, 2)) by {
        if !w0.chunks@.contains_key(key) {
            lemma_grid_roundtrip(i, 2);
            lemma_agg_l1_all_empty(chunk0.summary_l2@, grid_cell(i, 2));
        }
    }
    // bricks
    assert forall|k: u128, i: int|
        w3.chunks@.contains_key(k) && 0 <= i < 512 && (#[trigger] w3.chunks@[k].bricks@[i]) is Some && !dirty_slot(d, k, i)
        implies bricks3[w3.chunks@[k].bricks@[i]->0 as int].summary_fresh() by {
        if k == key {
            assert(w3.chunks@[k].bricks@[i] == chunk0.bricks@[i]);
            if !w0.chunks@.contains_key(key) {
                assert(chunk0.bricks@[i] is None);
            }
        }
        assert(w0.chunks@.contains_key(k));
        assert(w3.chunks@[k].bricks@[i] == w0.chunks@[k].bricks@[i]);
    }
    // level 2
    assert forall|k: u128, i: int| w3.chunks@.contains_key(k) && 0 <= i < 64 && !dirty_l2(d, k, i)
        implies #[trigger] w3.chunks@[k].summary_l2@[i] == agg_l2(w3.chunks@[k].bricks@, bricks3, grid_cell(i, 4)) by {
        lemma_grid_roundtrip(i, 4);
        if k == key {
            assert(i != grid_index(c2, 4));
            lemma_other_cell_children(i, b, 4);
            assert forall|kk: int| 0 <= kk < 8 implies slot_summary(chunk0.bricks@, bricks0, grid_index(#[trigger] child_cell(grid_cell(i, 4), kk), 8))
                == slot_summary(chunk3.bricks@, bricks3, grid_index(child_cell(grid_cell(i, 4), kk), 8)) by {
                lemma_child_cell_in_cube(grid_cell(i, 4), kk, 4);
                lemma_grid_index_bounds(child_cell(grid_cell(i, 4), kk), 8);
                let j = grid_index(child_cell(grid_cell(i, 4), kk), 8);
                assert(chunk3.bricks@[j] == chunk0.bricks@[j]);
                if chunk0.bricks@[j] is Some {
                    assert(w0.chunks@.contains_key(key));
                    assert(w0.chunks@[key].bricks@[j] == chunk0.bricks@[j]);
                }
            }
            lemma_agg_l2_frame(chunk0.bricks@, bricks0, chunk3.bricks@, bricks3, grid_cell(i, 4));
        } else {
            let ch = w0.chunks@[k];
            assert(w3.chunks@[k] == ch);
            assert forall|kk: int| 0 <= kk < 8 implies slot_summary(ch.bricks@, bricks0, grid_index(#[trigger] child_cell(grid_cell(i, 4), kk), 8))
                == slot_summary(ch.bricks@, bricks3, grid_index(child_cell(grid_cell(i, 4), kk), 8)) by {
                lemma_child_cell_in_cube(grid_cell(i, 4), kk, 4);
                lemma_grid_index_bounds(child_cell(grid_cell(i, 4), kk), 8);
                let j = grid_index(child_cell(grid_cell(i, 4), kk), 8);
                if ch.bricks@[j] is Some {
                    assert(w0.chunks@[k].bricks@[j] is Some);
                }
            }
            lemma_agg_l2_frame(ch.bricks@, bricks0, ch.bricks@, bricks3, grid_cell(i, 4));
        }
    }
    // level 1 and level 0
    assert forall|k: u128, i: int| w3.chunks@.contains_key(k) && 0 <= i < 8 && !dirty_l1(d, k, i)
        implies #[trigger] w3.chunks@[k].summary_l1@[i] == agg_l1(w3.chunks@[k].summary_l2@, grid_cell(i, 2)) by {
        if k != key {
            assert(w3.chunks@[k] == w0.chunks@[k]);
        }
    }
    assert forall|k: u128| w3.chunks@.contains_key(k) && !dirty_chunk(d, k)
        implies (#[trigger] w3.chunks@[k]).summary_l0 == summary_of(w3.chunks@[k].summary_l1@) by {
        assert(k != key);
        assert(w3.chunks@[k] == w0.chunks@[k]);
    }
}

/// Refreshing the first listed brick (its own summary and the cells above
/// it) keeps a world fresh except at the rest of the list.
#[verifier::rlimit(40)]
pub proof fn lemma_refresh_fresh(
    w0: World,
    w1: World,
    cc: IVec3,
    b: IVec3,
    chunk1: Chunk,
    rest: Seq<(IVec3, IVec3)>,
)
    requires
        w0.wf(),
        in_cube(b, 8),
        w0.chunks@.contains_key(spec_coord_key(cc)),
        w1.chunks@ == w0.chunks@.insert(spec_coord_key(cc), chunk1),
        chunk1.bricks == w0.chunks@[spec_coord_key(cc)].bricks,
        chunk1.summary_l2@ == w0.chunks@[spec_coord_key(cc)].summary_l2@.update(
            grid_index(parent_cell(b), 4),
            agg_l2(chunk1.bricks@, w1.brick_pool.bricks@, parent_cell(b)),
        ),
        chunk1.summary_l1@ == w0.chunks@[spec_coord_key(cc)].summary_l1@.update(
            grid_index(parent_cell(parent_cell(b)), 2),
            agg_l1(chunk1.summary_l2@, parent_cell(parent_cell(b))),
        ),
        chunk1.summary_l0 == summary_of(chunk1.summary_l1@),
        w0.chunks@[spec_coord_key(cc)].bricks@[grid_index(b, 8)] matches Some(id) ==> {
            &&& w1.brick_pool.bricks@.len() == w0.brick_pool.bricks@.len()
            &&& forall|x: int| 0 <= x < w0.brick_pool.bricks@.len() && x != id
                ==> #[trigger] w1.brick_pool.bricks@[x] == w0.brick_pool.bricks@[x]
            &&& w1.brick_pool.bricks@[id as int].summary_fresh()
        },
        w0.chunks@[spec_coord_key(cc)].bricks@[grid_index(b, 8)] is None ==> w1.brick_pool.bricks@ == w0.brick_pool.bricks@,
        fresh_except(w0, seq![(cc, b)] + rest),
    ensures
        fresh_except(w1, rest),
{
    let d = seq![(cc, b)] + rest;
    let key = spec_coord_key(cc);
    let slot = grid_index(b, 8);
    let c2 = parent_cell(b);
    let c1 = parent_cell(c2);
    lemma_grid_index_bounds(b, 8);
    lemma_parent_in_cube(b, 4);
    lemma_parent_in_cube(c2, 2);
    let chunk0 = w0.chunks@[key];
    let bricks0 = w0.brick_pool.bricks@;
    let bricks1 = w1.brick_pool.bricks@;
    assert(d[0] == (cc, b));
    assert forall|j: int| 0 <= j < rest.len() implies #[trigger] d[j + 1] == rest[j] by {}
    // what is listed in `rest` is listed in `d`; what is listed in `d` only is the first entry's
    assert forall|k: u128, i: int| !dirty_slot(rest, k, i) && !(k == key && i == slot) implies !dirty_slot(d, k, i) by {
        if dirty_slot(d, k, i) {
            let j = choose|j: int| 0 <= j < d.len() && spec_coord_key((#[trigger] d[j]).0) == k && grid_index(d[j].1, 8) == i;
            assert(j > 0);
            assert(rest[j - 1] == d[j]);
        }
    }
    assert forall|k: u128, i: int| !dirty_l2(rest, k, i) && !(k == key && i == grid_index(c2, 4)) implies !dirty_l2(d, k, i) by {
        if dirty_l2(d, k, i) {
            let j = choose|j: int| 0 <= j < d.len() && spec_coord_key((#[trigger] d[j]).0) == k && grid_index(parent_cell(d[j].1), 4) == i;
            assert(j > 0);
            assert(rest[j - 1] == d[j]);
        }
    }
    assert forall|k: u128, i: int| !dirty_l1(rest, k, i) && !(k == key && i == grid_index(c1, 2)) implies !dirty_l1(d, k, i) by {
        if dirty_l1(d, k, i) {
            let j = choose|j: int| 0 <= j < d.len() && spec_coord_key((#[trigger] d[j]).0) == k
                && grid_index(parent_cell(parent_cell(d[j].1)), 2) == i;
            assert(j > 0);
            assert(rest[j - 1] == d[j]);
        }
    }
    assert forall|k: u128| !dirty_chunk(rest, k) && k != key implies !dirty_chunk(d, k) by {
        if dirty_chunk(d, k) {
            let j = choose|j: int| 0 <= j < d.len() && spec_coord_key((#[trigger] d[j]).0) == k;
            assert(j > 0);
            assert(rest[j - 1] == d[j]);
        }
    }
    assert forall|j: int| 0 <= j < rest.len() implies in_cube((#[trigger] rest[j]).1, 8) by {
        assert(d[j + 1] == rest[j]);
    }
    // the bricks named by any other slot are unchanged
    assert forall|k: u128, i: int|
        w0.chunks@.contains_key(k) && 0 <= i < 512 && (#[trigger] w0.chunks@[k].bricks@[i]) is Some && !(k == key && i == slot)
        implies bricks1[w0.chunks@[k].bricks@[i]->0 as int] == bricks0[w0.chunks@[k].bricks@[i]->0 as int] by {
        if let Some(id) = chunk0.bricks@[slot] {
            assert(w0.chunks@[k].bricks@[i]->0 != id);
        }
    }
    // bricks
    assert forall|k: u128, i: int|
        w1.chunks@.contains_key(k) && 0 <= i < 512 && (#[trigger] w1.chunks@[k].bricks@[i]) is Some && !dirty_slot(rest, k, i)
        implies bricks1[w1.chunks@[k].bricks@[i]->0 as int].summary_fresh() by {
        assert(w1.chunks@[k].bricks@[i] == w0.chunks@[k].bricks@[i]);
    }
    // level 2
    assert forall|k: u128, i: int| w1.chunks@.contains_key(k) && 0 <= i < 64 && !dirty_l2(rest, k, i)
        implies #[trigger] w1.chunks@[k].summary_l2@[i] == agg_l2(w1.chunks@[k].bricks@, bricks1, grid_cell(i, 4)) by {
        lemma_grid_roundtrip(i, 4);
        if k == key && i == grid_index(c2, 4) {
            lemma_grid_index_injective(grid_cell(i, 4), c2, 4);
        } else {
            let ch = w0.chunks@[k];
            assert(w1.chunks@[k].bricks == ch.bricks);
            assert(w1.chunks@[k].summary_l2@[i] == ch.summary_l2@[i]);
            assert(ch.summary_l2@[i] == agg_l2(ch.bricks@, bricks0, grid_cell(i, 4)));
            if k == key {
                lemma_other_cell_children(i, b, 4);
            }
            assert forall|kk: int| 0 <= kk < 8 implies slot_summary(ch.bricks@, bricks0, grid_index(#[trigger] child_cell(grid_cell(i, 4), kk), 8))
                == slot_summary(ch.bricks@, bricks1, grid_index(child_cell(grid_cell(i, 4), kk), 8)) by {
                lemma_child_cell_in_cube(grid_cell(i, 4), kk, 4);
                lemma_grid_index_bounds(child_cell(grid_cell(i, 4), kk), 8);
                let j = grid_index(child_cell(grid_cell(i, 4), kk), 8);
                if ch.bricks@[j] is Some {
                    assert(w0.chunks@[k].bricks@[j] is Some);
                }
            }
            lemma_agg_l2_frame(ch.bricks@, bricks0, ch.bricks@, bricks1, grid_cell(i, 4));
        }
    }
    // level 1
    assert forall|k: u128, i: int| w1.chunks@.contains_key(k) && 0 <= i < 8 && !dirty_l1(rest, k, i)
        implies #[trigger] w1.chunks@[k].summary_l1@[i] == agg_l1(w1.chunks@[k].summary_l2@, grid_cell(i, 2)) by {
        lemma_grid_roundtrip(i, 2);
        if k == key && i == grid_index(c1, 2) {
            lemma_grid_index_injective(grid_cell(i, 2), c1, 2);
        } else if k == key {
            assert(chunk1.summary_l1@[i] == chunk0.summary_l1@[i]);
            assert(chunk0.summary_l1@[i] == agg_l1(chunk0.summary_l2@, grid_cell(i, 2)));
            lemma_other_cell_children(i, c2, 2);
            assert forall|kk: int| 0 <= kk < 8 implies chunk0.summary_l2@[grid_index(#[trigger] child_cell(grid_cell(i, 2), kk), 4)]
                == chunk1.summary_l2@[grid_index(child_cell(grid_cell(i, 2), kk), 4)] by {
                lemma_child_cell_in_cube(grid_cell(i, 2), kk, 2);
                lemma_grid_index_bounds(child_cell(grid_cell(i, 2), kk), 4);
            }
            lemma_agg_l1_frame(chunk0.summary_l2@, chunk1.summary_l2@, grid_cell(i, 2));
        } else {
            assert(w1.chunks@[k] == w0.chunks@[k]);
        }
    }
    // level 0
    assert forall|k: u128| w1.chunks@.contains_key(k) && !dirty_chunk(rest, k)
        implies (#[trigger] w1.chunks@[k]).summary_l0 == summary_of(w1.chunks@[k].summary_l1@) by {
        if k != key {
            assert(w1.chunks@[k] == w0.chunks@[k]);
        }
    }
}

/// A listed brick of a chunk the world does not hold can be dropped from
/// the list.
pub proof fn lemma_fresh_except_absent(w: World, cc: IVec3, b: IVec3, rest: Seq<(IVec3, IVec3)>)
    requires
        !w.chunks@.contains_key(spec_coord_key(cc)),
        fresh_except(w, seq![(cc, b)] + rest),
    ensures
        fresh_except(w, rest),
{
    let d = seq![(cc, b)] + rest;
    let key = spec_coord_key(cc);
    assert forall|j: int| 0 <= j < rest.len() implies #[trigger] d[j + 1] == rest[j] by {}
    assert forall|k: u128, i: int| !dirty_slot(rest, k, i) && k != key implies !dirty_slot(d, k, i) by {
        if dirty_slot(d, k, i) {
            let j = choose|j: int| 0 <= j < d.len() && spec_coord_key((#[trigger] d[j]).0) == k && grid_index(d[j].1, 8) == i;
            assert(rest[j - 1] == d[j]);
        }
    }
    assert forall|k: u128, i: int| !dirty_l2(rest, k, i) && k != key implies !dirty_l2(d, k, i) by {
        if dirty_l2(d, k, i) {
            let j = choose|j: int| 0 <= j < d.len() && spec_coord_key((#[trigger] d[j]).0) == k && grid_index(parent_cell(d[j].1), 4) == i;
            assert(rest[j - 1] == d[j]);
        }
    }
    assert forall|k: u128, i: int| !dirty_l1(rest, k, i) && k != key implies !dirty_l1(d, k, i) by {
        if dirty_l1(d, k, i) {
            let j = choose|j: int| 0 <= j < d.len() && spec_coord_key((#[trigger] d[j]).0) == k
                && grid_index(parent_cell(parent_cell(d[j].1)), 2) == i;
            assert(rest[j - 1] == d[j]);
        }
    }
    assert forall|k: u128| !dirty_chunk(rest, k) && k != key implies !dirty_chunk(d, k) by {
        if dirty_chunk(d, k) {
            let j = choose|j: int| 0 <= j < d.len() && spec_coord_key((#[trigger] d[j]).0) == k;
            assert(rest[j - 1] == d[j]);
        }
    }
    assert forall|j: int| 0 <= j < rest.len() implies in_cube((#[trigger] rest[j]).1, 8) by {
        assert(d[j + 1] == rest[j]);
    }
}

} // verus!
