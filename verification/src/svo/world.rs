use vstd::prelude::*;
use std::collections::{HashMap, HashSet};
use crate::svo::brick::{Brick, BRICK_SIZE, voxel_index, is_empty_brick};
use crate::svo::brick::{empty_summary, summary_of};
use crate::svo::chunk::{
    Chunk, CHUNK_SIZE, agg_l1, agg_l2, bricks_fresh, child_cell, grid_cell, grid_index, lemma_agg_l1_all_empty,
    lemma_chunk_empty_iff_no_solid, no_solid,
    lemma_agg_l1_frame, lemma_agg_l2_frame, lemma_agg_l2_no_bricks, lemma_grid_index_bounds,
    lemma_grid_index_injective, lemma_grid_roundtrip, lemma_other_cell_children, lemma_parent_in_cube,
    parent_cell, slot_summary,
};
use crate::svo::coords::{
    IVec3, VoxelCoord, brick_local_from_voxel, chunk_local_from_voxel, coord_key, in_cube,
    lemma_coord_key_injective, lemma_div_floor_euclidean, spec_coord_key, spec_div_floor, spec_split,
};
use crate::svo::pool::{BrickPool, allocated};
use crate::svo::vox::{VoxFile, VoxModel, VoxVoxel};
use crate::svo::dynamic::{DynamicComponent, comp_brick_of, comp_density_at, comp_material_at};
use crate::svo::freshness::{
    fresh_except, lemma_fresh_except_absent, lemma_fresh_except_none, lemma_fresh_except_push, lemma_refresh_fresh,
    lemma_store_fresh,
};

verus! {

broadcast use vstd::std_specs::hash::group_hash_axioms;

/// The voxel world: chunks keyed by `coord_key` of their chunk coordinate,
/// the pool that holds their bricks, the components detached from it, and
/// the palette that material indices name colors in.
pub struct World {
    pub chunks: HashMap<u128, Chunk>,
    pub brick_pool: BrickPool,
    pub dynamic_components: Vec<DynamicComponent>,
    pub palette: [u32; 256],
}

// ---------------------------------------------------------------------------
// Where a voxel lives.
// ---------------------------------------------------------------------------

/// The chunk that holds voxel `v`.
pub open spec fn chunk_of(v: IVec3) -> IVec3 {
    spec_split(v, 64).0
}

/// The brick of its chunk that holds voxel `v`.
pub open spec fn brick_of(v: IVec3) -> IVec3 {
    spec_split(spec_split(v, 64).1, 8).0
}

/// Voxel `v`'s coordinate inside its brick.
pub open spec fn in_brick_of(v: IVec3) -> IVec3 {
    spec_split(spec_split(v, 64).1, 8).1
}

/// The brick slot of its chunk that holds voxel `v`.
pub open spec fn slot_of(v: IVec3) -> int {
    grid_index(brick_of(v), 8)
}

/// Voxel `v`'s index in its brick's arrays.
pub open spec fn cell_of(v: IVec3) -> int {
    voxel_index(in_brick_of(v).x as int, in_brick_of(v).y as int, in_brick_of(v).z as int)
}

proof fn lemma_split_axis(a: i32, size: int)
    requires
        size == 64 || size == 8,
    ensures
        spec_div_floor(a as int, size).0 == (spec_div_floor(a as int, size).0 as i32) as int,
        0 <= spec_div_floor(a as int, size).1 < size,
        a == spec_div_floor(a as int, size).0 * size + spec_div_floor(a as int, size).1,
{
    lemma_div_floor_euclidean(a as int, size);
    let q = spec_div_floor(a as int, size).0;
    let r = spec_div_floor(a as int, size).1;
    assert(i32::MIN <= q <= i32::MAX) by (nonlinear_arith)
        requires
            a == q * size + r,
            0 <= r < size,
            size >= 8,
            i32::MIN <= a <= i32::MAX,
    ;
}

/// Where voxel `v` lives: its brick and in-brick coordinates lie in the
/// brick grid, and chunk, brick and in-brick coordinates recombine to `v`.
pub proof fn lemma_locate(v: IVec3)
    ensures
        in_cube(brick_of(v), 8),
        in_cube(in_brick_of(v), 8),
        0 <= slot_of(v) < 512,
        0 <= cell_of(v) < 512,
        v.x == chunk_of(v).x * 64 + brick_of(v).x * 8 + in_brick_of(v).x,
        v.y == chunk_of(v).y * 64 + brick_of(v).y * 8 + in_brick_of(v).y,
        v.z == chunk_of(v).z * 64 + brick_of(v).z * 8 + in_brick_of(v).z,
{
    lemma_split_axis(v.x, 64);
    lemma_split_axis(v.y, 64);
    lemma_split_axis(v.z, 64);
    let l = spec_split(v, 64).1;
    lemma_split_axis(l.x, 8);
    lemma_split_axis(l.y, 8);
    lemma_split_axis(l.z, 8);
    lemma_grid_index_bounds(brick_of(v), 8);
    lemma_grid_index_bounds(in_brick_of(v), 8);
}

/// Two voxels in the same chunk, brick slot and in-brick cell are the same voxel.
pub proof fn lemma_locate_injective(v: IVec3, w: IVec3)
    requires
        spec_coord_key(chunk_of(v)) == spec_coord_key(chunk_of(w)),
        slot_of(v) == slot_of(w),
        cell_of(v) == cell_of(w),
    ensures
        v == w,
{
    lemma_locate(v);
    lemma_locate(w);
    lemma_coord_key_injective(chunk_of(v), chunk_of(w));
    lemma_grid_index_injective(brick_of(v), brick_of(w), 8);
    lemma_grid_index_injective(in_brick_of(v), in_brick_of(w), 8);
}

// ---------------------------------------------------------------------------
// What the world holds.
// ---------------------------------------------------------------------------

/// The id of the brick that holds voxel `v`, if its chunk and brick exist.
pub open spec fn brick_id_at(w: World, v: IVec3) -> Option<usize> {
    let k = spec_coord_key(chunk_of(v));
    if w.chunks@.contains_key(k) {
        w.chunks@[k].bricks@[slot_of(v)]
    } else {
        None
    }
}

/// The density of voxel `v`: `i8::MIN` where no brick holds it.
pub open spec fn density_at(w: World, v: IVec3) -> i8 {
    match brick_id_at(w, v) {
        Some(id) => w.brick_pool.bricks@[id as int].density@[cell_of(v)],
        None => i8::MIN,
    }
}

/// The material of voxel `v`: 0 where no brick holds it.
pub open spec fn material_at(w: World, v: IVec3) -> u8 {
    match brick_id_at(w, v) {
        Some(id) => w.brick_pool.bricks@[id as int].material@[cell_of(v)],
        None => 0u8,
    }
}


/// Whether voxel `v` reads the same in `a` and `b`.
pub open spec fn keeps_voxel(a: World, b: World, v: IVec3) -> bool {
    density_at(b, v) == density_at(a, v) && material_at(b, v) == material_at(a, v)
}

/// A voxel written once and left alone by every later operation reads back
/// what was written: each operation's contract says which voxels it leaves
/// alone.
pub proof fn lemma_read_back_after_write(ws: Seq<World>, v: IVec3, d: i8, m: u8)
    requires
        ws.len() >= 2,
        density_at(ws[1], v) == d,
        material_at(ws[1], v) == m,
        forall|i: int| 1 <= i < ws.len() - 1 ==> keeps_voxel(#[trigger] ws[i], ws[i + 1], v),
    ensures
        density_at(ws.last(), v) == d,
        material_at(ws.last(), v) == m,
    decreases ws.len(),
{
    if ws.len() > 2 {
        let ws0 = ws.drop_last();
        assert forall|i: int| 1 <= i < ws0.len() - 1 implies keeps_voxel(#[trigger] ws0[i], ws0[i + 1], v) by {
            assert(ws0[i] == ws[i] && ws0[i + 1] == ws[i + 1]);
            assert(keeps_voxel(ws[i], ws[i + 1], v));
        }
        lemma_read_back_after_write(ws0, v, d, m);
        assert(keeps_voxel(ws[ws.len() - 2], ws[ws.len() - 1], v));
    }
}

/// What `World::set_voxel` promises of the voxels, from `a` to `b`, for the
/// write `e` (voxel, density, material).
pub open spec fn voxel_write(a: World, b: World, e: (IVec3, i8, u8)) -> bool {
    &&& density_at(b, e.0) == e.1
    &&& material_at(b, e.0) == e.2
    &&& forall|w: IVec3| w != e.0 ==> density_at(b, w) == density_at(a, w) && material_at(b, w) == material_at(a, w)
}

/// The density of voxel `v` after the writes `es`: that of the last write to
/// `v`, else `before`.
pub open spec fn written_density(es: Seq<(IVec3, i8, u8)>, v: IVec3, before: i8) -> i8
    decreases es.len(),
{
    if es.len() == 0 {
        before
    } else if es.last().0 == v {
        es.last().1
    } else {
        written_density(es.drop_last(), v, before)
    }
}

/// The material of voxel `v` after the writes `es`: that of the last write
/// to `v`, else `before`.
pub open spec fn written_material(es: Seq<(IVec3, i8, u8)>, v: IVec3, before: u8) -> u8
    decreases es.len(),
{
    if es.len() == 0 {
        before
    } else if es.last().0 == v {
        es.last().2
    } else {
        written_material(es.drop_last(), v, before)
    }
}

/// After a sequence of voxel writes, each voxel reads back what the last
/// write to it wrote, and a voxel never written reads back what it held
/// before.
pub proof fn lemma_writes_read_back(ws: Seq<World>, es: Seq<(IVec3, i8, u8)>)
    requires
        ws.len() == es.len() + 1,
        forall|i: int| 0 <= i < es.len() ==> voxel_write(ws[i], ws[i + 1], #[trigger] es[i]),
    ensures
        forall|v: IVec3| density_at(ws.last(), v) == written_density(es, v, density_at(ws[0], v))
            && material_at(ws.last(), v) == written_material(es, v, material_at(ws[0], v)),
    decreases es.len(),
{
    if es.len() > 0 {
        let n = es.len() - 1;
        let ws0 = ws.drop_last();
        let es0 = es.drop_last();
        assert forall|i: int| 0 <= i < es0.len() implies voxel_write(ws0[i], ws0[i + 1], #[trigger] es0[i]) by {
            assert(es0[i] == es[i]);
            assert(ws0[i] == ws[i] && ws0[i + 1] == ws[i + 1]);
        }
        lemma_writes_read_back(ws0, es0);
        assert(voxel_write(ws[n], ws[n + 1], es[n]));
        assert(ws0.last() == ws[n]);
        assert(ws0[0] == ws[0]);
    }
}

/// What writing one voxel of brick slot `slot` of chunk `key` did to the
/// world: the chunk's slot now names brick `id` (an existing brick of the
/// slot, or one just allocated), and only brick `id` of the pool changed.
pub open spec fn stored(w0: World, w3: World, key: u128, slot: int, chunk0: Chunk, chunk3: Chunk, pool1: BrickPool, id: usize) -> bool {
    &&& w0.chunks@.contains_key(key) ==> chunk0 == w0.chunks@[key]
    &&& !w0.chunks@.contains_key(key) ==> forall|i: int| 0 <= i < 512 ==> (#[trigger] chunk0.bricks@[i]) is None
    &&& chunk0.wf()
    &&& chunk3.wf()
    &&& 0 <= slot < 512
    &&& chunk3.bricks@ == chunk0.bricks@.update(slot, Some(id))
    &&& w3.chunks@ == w0.chunks@.insert(key, chunk3)
    &&& chunk0.bricks@[slot] matches Some(x) ==> x == id && pool1 == w0.brick_pool
    &&& chunk0.bricks@[slot] is None ==> allocated(w0.brick_pool, pool1, id)
    &&& w3.brick_pool.free_ids() == pool1.free_ids()
    &&& w3.brick_pool.bricks@.len() == pool1.bricks@.len()
    &&& forall|j: int| 0 <= j < pool1.bricks@.len() && j != id ==> w3.brick_pool.bricks@[j] == pool1.bricks@[j]
}

proof fn lemma_store_wf(w0: World, w3: World, key: u128, slot: int, chunk0: Chunk, chunk3: Chunk, pool1: BrickPool, id: usize)
    requires
        w0.wf(),
        stored(w0, w3, key, slot, chunk0, chunk3, pool1, id),
    ensures
        w3.wf(),
{
    let pool0 = w0.brick_pool;
    let fresh = chunk0.bricks@[slot] is None;
    if fresh {
        assert forall|k: u128, i: int|
            w0.chunks@.contains_key(k) && 0 <= i < 512 && (#[trigger] w0.chunks@[k].bricks@[i]) is Some
            implies w0.chunks@[k].bricks@[i]->0 != id by {
            if pool0.free_ids().len() > 0 {
                assert(pool0.free_ids()[pool0.free_ids().len() - 1] == id);
                assert(pool0.free_ids().contains(id));
            }
        }
    }
    if fresh && pool0.free_ids().len() > 0 {
        assert(!w3.brick_pool.free_ids().contains(id)) by {
            if w3.brick_pool.free_ids().contains(id) {
                let j = choose|j: int| 0 <= j < w3.brick_pool.free_ids().len() && w3.brick_pool.free_ids()[j] == id;
                assert(pool0.free_ids()[j] == pool0.free_ids()[pool0.free_ids().len() - 1]);
            }
        }
    }
    if fresh && pool0.free_ids().len() == 0 {
        assert(w3.brick_pool.free_ids().len() == 0);
    }
    assert(w3.brick_pool.free_ids().no_duplicates()) by {
        if fresh && pool0.free_ids().len() > 0 {
            assert forall|a: int, b: int| 0 <= a < b < w3.brick_pool.free_ids().len()
                implies w3.brick_pool.free_ids()[a] != w3.brick_pool.free_ids()[b] by {
                assert(w3.brick_pool.free_ids()[a] == pool0.free_ids()[a]);
                assert(w3.brick_pool.free_ids()[b] == pool0.free_ids()[b]);
            }
        }
    }
    assert(w3.brick_pool.wf()) by {
        assert forall|i: int| 0 <= i < w3.brick_pool.free_ids().len()
            implies #[trigger] w3.brick_pool.free_ids()[i] < w3.brick_pool.bricks@.len() by {
            assert(pool1.wf());
            assert(w3.brick_pool.free_ids()[i] == pool1.free_ids()[i]);
        }
    }
    assert forall|k: u128| w3.chunks@.contains_key(k) implies (#[trigger] w3.chunks@[k]).wf() by {
        if k != key {
            assert(w0.chunks@[k] == w3.chunks@[k]);
        }
    }
    // the slots of the world after the write are those before, but for `slot` of `key`
    assert forall|k: u128, i: int|
        w3.chunks@.contains_key(k) && 0 <= i < 512 && !(k == key && i == slot)
        implies w0.chunks@.contains_key(k) || w3.chunks@[k].bricks@[i] is None by {
        if k == key && !w0.chunks@.contains_key(k) {
            assert(w3.chunks@[k].bricks@[i] == chunk0.bricks@[i]);
        }
    }
    assert forall|k: u128, i: int|
        w3.chunks@.contains_key(k) && 0 <= i < 512 && !(k == key && i == slot) && w0.chunks@.contains_key(k)
        implies #[trigger] w3.chunks@[k].bricks@[i] == w0.chunks@[k].bricks@[i] by {
        if k == key {
            assert(w3.chunks@[k].bricks@[i] == chunk0.bricks@[i]);
        }
    }
    assert forall|k: u128, i: int|
        w3.chunks@.contains_key(k) && 0 <= i < 512 && (#[trigger] w3.chunks@[k].bricks@[i]) is Some
        implies {
            &&& w3.chunks@[k].bricks@[i]->0 < w3.brick_pool.bricks@.len()
            &&& !w3.brick_pool.free_ids().contains(w3.chunks@[k].bricks@[i]->0)
        } by {
        if k == key && i == slot {
            assert(w3.chunks@[k].bricks@[i] == Some(id));
            if !fresh {
                assert(w0.chunks@.contains_key(key));
                assert(w0.chunks@[key].bricks@[slot] == Some(id));
            }
        } else {
            if k == key {
                assert(w3.chunks@[k].bricks@[i] == chunk0.bricks@[i]);
            }
            assert(w0.chunks@.contains_key(k));
            assert(w3.chunks@[k].bricks@[i] == w0.chunks@[k].bricks@[i]);
            let x = w0.chunks@[k].bricks@[i]->0;
            if w3.brick_pool.free_ids().contains(x) {
                let j = choose|j: int| 0 <= j < w3.brick_pool.free_ids().len() && w3.brick_pool.free_ids()[j] == x;
                assert(pool0.free_ids()[j] == x);
            }
        }
    }
    assert forall|k1: u128, i1: int, k2: u128, i2: int|
        w3.chunks@.contains_key(k1) && w3.chunks@.contains_key(k2) && 0 <= i1 < 512 && 0 <= i2 < 512
            && (#[trigger] w3.chunks@[k1].bricks@[i1]) is Some
            && w3.chunks@[k1].bricks@[i1] == (#[trigger] w3.chunks@[k2].bricks@[i2])
        implies k1 == k2 && i1 == i2 by {
        let at1 = k1 == key && i1 == slot;
        let at2 = k2 == key && i2 == slot;
        if !at1 {
            if k1 == key {
                assert(w3.chunks@[k1].bricks@[i1] == chunk0.bricks@[i1]);
            }
            assert(w0.chunks@.contains_key(k1));
            assert(w3.chunks@[k1].bricks@[i1] == w0.chunks@[k1].bricks@[i1]);
        }
        if !at2 {
            if k2 == key {
                assert(w3.chunks@[k2].bricks@[i2] == chunk0.bricks@[i2]);
            }
            assert(w0.chunks@.contains_key(k2));
            assert(w3.chunks@[k2].bricks@[i2] == w0.chunks@[k2].bricks@[i2]);
        }
        if at1 && !at2 {
            if !fresh {
                assert(w0.chunks@.contains_key(key));
                assert(w0.chunks@[key].bricks@[slot] == Some(id));
            }
        }
        if !at1 && at2 {
            if !fresh {
                assert(w0.chunks@.contains_key(key));
                assert(w0.chunks@[key].bricks@[slot] == Some(id));
            }
        }
    }
}


proof fn lemma_store_values(w0: World, w3: World, v: IVec3, chunk0: Chunk, chunk3: Chunk, pool1: BrickPool, id: usize, d: i8, m: u8)
    requires
        w0.wf(),
        stored(w0, w3, spec_coord_key(chunk_of(v)), slot_of(v), chunk0, chunk3, pool1, id),
        id < pool1.bricks@.len(),
        w3.brick_pool.bricks@[id as int].density@ == pool1.bricks@[id as int].density@.update(cell_of(v), d),
        w3.brick_pool.bricks@[id as int].material@ == pool1.bricks@[id as int].material@.update(cell_of(v), m),
    ensures
        density_at(w3, v) == d,
        material_at(w3, v) == m,
        forall|w: IVec3| w != v ==> density_at(w3, w) == density_at(w0, w),
        forall|w: IVec3| w != v ==> material_at(w3, w) == material_at(w0, w),
{
    lemma_locate(v);
    let key = spec_coord_key(chunk_of(v));
    let slot = slot_of(v);
    let fresh = chunk0.bricks@[slot] is None;
    assert(w3.chunks@.contains_key(key));
    assert(w3.chunks@[key].bricks@[slot] == Some(id));
    assert forall|w: IVec3| w != v implies density_at(w3, w) == density_at(w0, w) && material_at(w3, w)
        == material_at(w0, w) by {
        lemma_locate(w);
        let kw = spec_coord_key(chunk_of(w));
        let sw = slot_of(w);
        if kw == key && sw == slot {
            assert(cell_of(w) != cell_of(v)) by {
                if cell_of(w) == cell_of(v) {
                    lemma_locate_injective(v, w);
                }
            }
            assert(brick_id_at(w3, w) == Some(id));
            if fresh {
                if w0.chunks@.contains_key(key) {
                    assert(w0.chunks@[key].bricks@[slot] is None);
                }
                assert(brick_id_at(w0, w) is None);
                assert(pool1.bricks@[id as int].density@[cell_of(w)] == i8::MIN);
                assert(pool1.bricks@[id as int].material@[cell_of(w)] == 0);
            } else {
                assert(w0.chunks@.contains_key(key));
                assert(brick_id_at(w0, w) == Some(id));
            }
        } else {
            if kw == key {
                assert(w3.chunks@[kw].bricks@[sw] == chunk0.bricks@[sw]);
                if !w0.chunks@.contains_key(key) {
                    assert(chunk0.bricks@[sw] is None);
                }
            }
            assert(brick_id_at(w3, w) == brick_id_at(w0, w));
            if let Some(x) = brick_id_at(w0, w) {
                assert(w0.chunks@.contains_key(kw));
                assert(w0.chunks@[kw].bricks@[sw] == Some(x));
                assert(x != id) by {
                    if x == id {
                        if fresh {
                            let pool0 = w0.brick_pool;
                            if pool0.free_ids().len() > 0 {
                                assert(pool0.free_ids()[pool0.free_ids().len() - 1] == id);
                                assert(pool0.free_ids().contains(id));
                            }
                        } else {
                            assert(w0.chunks@.contains_key(key));
                            assert(w0.chunks@[key].bricks@[slot] == Some(id));
                        }
                    }
                }
                assert(x < w0.brick_pool.bricks@.len());
                if fresh {
                    assert(pool1.bricks@[x as int] == w0.brick_pool.bricks@[x as int]);
                }
                assert(w3.brick_pool.bricks@[x as int] == w0.brick_pool.bricks@[x as int]);
            }
        }
    }
}


/// The summaries written after a voxel write: the chunk's summaries were
/// those before, but for the level-2 cell of the written brick, the level-1
/// cell above it and level 0, which were recomputed.
pub open spec fn summaries_refreshed(w3: World, v: IVec3, chunk0: Chunk, chunk3: Chunk) -> bool {
    let c2 = parent_cell(brick_of(v));
    let c1 = parent_cell(c2);
    &&& chunk3.summary_l2@ == chunk0.summary_l2@.update(grid_index(c2, 4), agg_l2(chunk3.bricks@, w3.brick_pool.bricks@, c2))
    &&& chunk3.summary_l1@ == chunk0.summary_l1@.update(grid_index(c1, 2), agg_l1(chunk3.summary_l2@, c1))
    &&& chunk3.summary_l0 == summary_of(chunk3.summary_l1@)
}

proof fn lemma_store_summaries(w0: World, w3: World, v: IVec3, chunk0: Chunk, chunk3: Chunk, pool1: BrickPool, id: usize)
    requires
        w0.wf(),
        w0.summaries_fresh(),
        w3.wf(),
        stored(w0, w3, spec_coord_key(chunk_of(v)), slot_of(v), chunk0, chunk3, pool1, id),
        !w0.chunks@.contains_key(spec_coord_key(chunk_of(v))) ==> {
            &&& forall|i: int| 0 <= i < 64 ==> #[trigger] chunk0.summary_l2@[i] == empty_summary()
            &&& forall|i: int| 0 <= i < 8 ==> #[trigger] chunk0.summary_l1@[i] == empty_summary()
        },
        w3.brick_pool.bricks@[id as int].summary_fresh(),
        summaries_refreshed(w3, v, chunk0, chunk3),
    ensures
        w3.summaries_fresh(),
{
    lemma_locate(v);
    let key = spec_coord_key(chunk_of(v));
    let slot = slot_of(v);
    let b = brick_of(v);
    let c2 = parent_cell(b);
    let c1 = parent_cell(c2);
    lemma_parent_in_cube(b, 4);
    lemma_parent_in_cube(c2, 2);
    let bricks0 = w0.brick_pool.bricks@;
    let bricks3 = w3.brick_pool.bricks@;
    let fresh = chunk0.bricks@[slot] is None;
    assert(w3.chunks@.contains_key(key));
    assert(w3.chunks@[key] == chunk3);
    // a slot other than the written one names no brick `id`, and its brick is unchanged
    assert forall|k: u128, i: int|
        w0.chunks@.contains_key(k) && 0 <= i < 512 && (#[trigger] w0.chunks@[k].bricks@[i]) is Some && !(k == key && i == slot)
        implies w0.chunks@[k].bricks@[i]->0 != id && bricks3[w0.chunks@[k].bricks@[i]->0 as int] == bricks0[w0.chunks@[k].bricks@[i]->0 as int] by {
        let x = w0.chunks@[k].bricks@[i]->0;
        if x == id {
            if fresh {
                let pool0 = w0.brick_pool;
                if pool0.free_ids().len() > 0 {
                    assert(pool0.free_ids()[pool0.free_ids().len() - 1] == id);
                    assert(pool0.free_ids().contains(id));
                }
            } else {
                assert(w0.chunks@.contains_key(key));
                assert(w0.chunks@[key].bricks@[slot] == Some(id));
            }
        }
        if fresh {
            assert(pool1.bricks@[x as int] == bricks0[x as int]);
        }
    }
    // slot summaries of the written chunk are unchanged away from the written slot
    assert forall|i: int| 0 <= i < 512 && i != slot
        implies #[trigger] slot_summary(chunk3.bricks@, bricks3, i) == slot_summary(chunk0.bricks@, bricks0, i) by {
        assert(chunk3.bricks@[i] == chunk0.bricks@[i]);
        if chunk0.bricks@[i] is Some {
            assert(w0.chunks@.contains_key(key));
            assert(w0.chunks@[key].bricks@[i] == chunk0.bricks@[i]);
        }
    }
    // the chunk before the write was consistent
    assert forall|i: int| 0 <= i < 64 implies #[trigger] chunk0.summary_l2@[i] == agg_l2(chunk0.bricks@, bricks0, grid_cell(i, 4)) by {
        if !w0.chunks@.contains_key(key) {
            lemma_grid_roundtrip(i, 4);
            lemma_agg_l2_no_bricks(chunk0.bricks@, bricks0, grid_cell(i, 4));
        }
    }
    assert forall|i: int| 0 <= i < 8 implies #[trigger] chunk0.summary_l1@[i] == agg_l1(chunk0.summary_l2@, grid_cell(i, 2)) by {
        if !w0.chunks@.contains_key(key) {
            lemma_grid_roundtrip(i, 2);
            lemma_agg_l1_all_empty(chunk0.summary_l2@, grid_cell(i, 2));
        }
    }
    // the written chunk is consistent
    assert forall|i: int| 0 <= i < 64 implies #[trigger] chunk3.summary_l2@[i] == agg_l2(chunk3.bricks@, bricks3, grid_cell(i, 4)) by {
        lemma_grid_roundtrip(i, 4);
        if i != grid_index(c2, 4) {
            lemma_other_cell_children(i, b, 4);
            assert forall|k: int| 0 <= k < 8 implies slot_summary(chunk0.bricks@, bricks0, grid_index(#[trigger] child_cell(grid_cell(i, 4), k), 8))
                == slot_summary(chunk3.bricks@, bricks3, grid_index(child_cell(grid_cell(i, 4), k), 8)) by {
                crate::svo::chunk::lemma_child_cell_in_cube(grid_cell(i, 4), k, 4);
                lemma_grid_index_bounds(child_cell(grid_cell(i, 4), k), 8);
            }
            lemma_agg_l2_frame(chunk0.bricks@, bricks0, chunk3.bricks@, bricks3, grid_cell(i, 4));
        } else {
            lemma_grid_index_injective(grid_cell(i, 4), c2, 4);
        }
    }
    assert forall|i: int| 0 <= i < 8 implies #[trigger] chunk3.summary_l1@[i] == agg_l1(chunk3.summary_l2@, grid_cell(i, 2)) by {
        lemma_grid_roundtrip(i, 2);
        if i != grid_index(c1, 2) {
            lemma_other_cell_children(i, c2, 2);
            assert forall|k: int| 0 <= k < 8 implies chunk0.summary_l2@[grid_index(#[trigger] child_cell(grid_cell(i, 2), k), 4)]
                == chunk3.summary_l2@[grid_index(child_cell(grid_cell(i, 2), k), 4)] by {
                crate::svo::chunk::lemma_child_cell_in_cube(grid_cell(i, 2), k, 2);
                lemma_grid_index_bounds(child_cell(grid_cell(i, 2), k), 4);
            }
            lemma_agg_l1_frame(chunk0.summary_l2@, chunk3.summary_l2@, grid_cell(i, 2));
        } else {
            lemma_grid_index_injective(grid_cell(i, 2), c1, 2);
        }
    }
    assert(chunk3.summaries_consistent(bricks3));
    // every other chunk is unchanged, and so are the bricks it names
    assert forall|k: u128| w3.chunks@.contains_key(k) implies (#[trigger] w3.chunks@[k]).summaries_consistent(bricks3) by {
        if k != key {
            let ch = w0.chunks@[k];
            assert(w3.chunks@[k] == ch);
            assert(ch.summaries_consistent(bricks0));
            assert forall|i: int| 0 <= i < 64 implies #[trigger] ch.summary_l2@[i] == agg_l2(ch.bricks@, bricks3, grid_cell(i, 4)) by {
                lemma_grid_roundtrip(i, 4);
                assert forall|kk: int| 0 <= kk < 8 implies slot_summary(ch.bricks@, bricks0, grid_index(#[trigger] child_cell(grid_cell(i, 4), kk), 8))
                    == slot_summary(ch.bricks@, bricks3, grid_index(child_cell(grid_cell(i, 4), kk), 8)) by {
                    crate::svo::chunk::lemma_child_cell_in_cube(grid_cell(i, 4), kk, 4);
                    lemma_grid_index_bounds(child_cell(grid_cell(i, 4), kk), 8);
                    let j = grid_index(child_cell(grid_cell(i, 4), kk), 8);
                    if ch.bricks@[j] is Some {
                        assert(w0.chunks@[k].bricks@[j] is Some);
                    }
                }
                lemma_agg_l2_frame(ch.bricks@, bricks0, ch.bricks@, bricks3, grid_cell(i, 4));
            }
        }
    }
    assert forall|k: u128, i: int|
        w3.chunks@.contains_key(k) && 0 <= i < 512 && (#[trigger] w3.chunks@[k].bricks@[i]) is Some
        implies bricks3[w3.chunks@[k].bricks@[i]->0 as int].summary_fresh() by {
        if !(k == key && i == slot) {
            if k == key {
                assert(w3.chunks@[k].bricks@[i] == chunk0.bricks@[i]);
                if !w0.chunks@.contains_key(key) {
                    assert(chunk0.bricks@[i] is None);
                }
            }
            assert(w0.chunks@.contains_key(k));
            assert(w3.chunks@[k].bricks@[i] == w0.chunks@[k].bricks@[i]);
        }
    }
}


/// Two worlds with the same brick tables and the same pool free list and
/// size: the structure of one is that of the other.
pub open spec fn same_layout(w0: World, w1: World) -> bool {
    &&& w1.chunks@.dom() == w0.chunks@.dom()
    &&& forall|k: u128| w0.chunks@.contains_key(k) ==> (#[trigger] w1.chunks@[k]).bricks == w0.chunks@[k].bricks
        && w1.chunks@[k].wf()
    &&& w1.brick_pool.free_ids() == w0.brick_pool.free_ids()
    &&& w1.brick_pool.bricks@.len() == w0.brick_pool.bricks@.len()
}

proof fn lemma_same_layout_wf(w0: World, w1: World)
    requires
        w0.wf(),
        same_layout(w0, w1),
    ensures
        w1.wf(),
        forall|v: IVec3| #[trigger] brick_id_at(w1, v) == brick_id_at(w0, v),
{
    assert forall|k: u128, i: int|
        w1.chunks@.contains_key(k) && 0 <= i < 512 && (#[trigger] w1.chunks@[k].bricks@[i]) is Some
        implies {
            &&& w1.chunks@[k].bricks@[i]->0 < w1.brick_pool.bricks@.len()
            &&& !w1.brick_pool.free_ids().contains(w1.chunks@[k].bricks@[i]->0)
        } by {
        assert(w0.chunks@.contains_key(k));
        assert(w1.chunks@[k].bricks@[i] == w0.chunks@[k].bricks@[i]);
    }
    assert forall|k1: u128, i1: int, k2: u128, i2: int|
        w1.chunks@.contains_key(k1) && w1.chunks@.contains_key(k2) && 0 <= i1 < 512 && 0 <= i2 < 512
            && (#[trigger] w1.chunks@[k1].bricks@[i1]) is Some
            && w1.chunks@[k1].bricks@[i1] == (#[trigger] w1.chunks@[k2].bricks@[i2])
        implies k1 == k2 && i1 == i2 by {
        assert(w0.chunks@.contains_key(k1));
        assert(w0.chunks@.contains_key(k2));
        assert(w1.chunks@[k1].bricks@[i1] == w0.chunks@[k1].bricks@[i1]);
        assert(w1.chunks@[k2].bricks@[i2] == w0.chunks@[k2].bricks@[i2]);
    }
    assert forall|v: IVec3| #[trigger] brick_id_at(w1, v) == brick_id_at(w0, v) by {
        let k = spec_coord_key(chunk_of(v));
        if w0.chunks@.contains_key(k) {
            assert(w1.chunks@[k].bricks == w0.chunks@[k].bricks);
        }
    }
}


/// Where voxel `v` of a model imported at `origin` lands: the file's z axis
/// is the world's y axis.
pub open spec fn vox_position(origin: IVec3, v: VoxVoxel) -> IVec3 {
    IVec3 { x: (origin.x + v.x) as i32, y: (origin.y + v.z) as i32, z: (origin.z + v.y) as i32 }
}

/// The key of brick `b` (in its chunk) of chunk `c` in the set of written
/// bricks: the chunk's key and the brick's slot.
pub open spec fn spec_brick_key(c: IVec3, b: IVec3) -> u128 {
    (spec_coord_key(c) * 512 + grid_index(b, 8)) as u128
}

/// Brick keys tell bricks apart.
proof fn lemma_brick_key_injective(c1: IVec3, b1: IVec3, c2: IVec3, b2: IVec3)
    requires
        in_cube(b1, 8),
        in_cube(b2, 8),
        spec_brick_key(c1, b1) == spec_brick_key(c2, b2),
    ensures
        c1 == c2,
        b1 == b2,
{
    lemma_grid_index_bounds(b1, 8);
    lemma_grid_index_bounds(b2, 8);
    lemma_coord_key_bound(c1);
    lemma_coord_key_bound(c2);
    let k1 = spec_coord_key(c1) as int;
    let k2 = spec_coord_key(c2) as int;
    let s1 = grid_index(b1, 8);
    let s2 = grid_index(b2, 8);
    assert(k1 * 512 + s1 == k2 * 512 + s2);
    assert(k1 == k2) by (nonlinear_arith)
        requires
            k1 * 512 + s1 == k2 * 512 + s2,
            0 <= s1 < 512,
            0 <= s2 < 512,
    ;
    lemma_coord_key_injective(c1, c2);
    lemma_grid_index_injective(b1, b2, 8);
}

proof fn lemma_coord_key_bound(c: IVec3)
    ensures
        spec_coord_key(c) < 0x1_0000_0000_0000_0000_0000_0000,
{
    let x = c.x + 0x8000_0000;
    let y = c.y + 0x8000_0000;
    let z = c.z + 0x8000_0000;
    assert(0 <= x * 0x1_0000_0000_0000_0000 + y * 0x1_0000_0000 + z < 0x1_0000_0000_0000_0000_0000_0000) by (nonlinear_arith)
        requires
            0 <= x < 0x1_0000_0000,
            0 <= y < 0x1_0000_0000,
            0 <= z < 0x1_0000_0000,
    ;
}

/// The key of brick `b` of chunk `c` in the set of written bricks.
fn brick_key(c: IVec3, b: IVec3) -> (k: u128)
    requires
        in_cube(b, 8),
    ensures
        k == spec_brick_key(c, b),
{
    proof {
        lemma_coord_key_bound(c);
    }
    coord_key(c) * 512 + Chunk::brick_index(b) as u128
}

/// Where a model of size `size` (the `.vox` x, y, z) goes so that it is
/// centered in the first window: the window's center voxel minus half the
/// model's extent (the file's z axis up the world's y axis), each size read
/// as an `i32` and halved toward zero.
pub open spec fn spec_centered_origin(size: [u32; 3]) -> IVec3 {
    IVec3 {
        x: (160 - trunc_half(size@[0] as i32)) as i32,
        y: (160 - trunc_half(size@[2] as i32)) as i32,
        z: (160 - trunc_half(size@[1] as i32)) as i32,
    }
}

/// `a` halved toward zero.
pub open spec fn trunc_half(a: i32) -> int {
    if a >= 0 { a / 2 } else { -((-(a as int)) / 2) }
}

/// The origin that centers a model of size `size` in the first window;
/// every such origin can be imported at.
pub fn centered_origin(size: [u32; 3]) -> (o: IVec3)
    ensures
        o == spec_centered_origin(size),
        vox_origin_ok(o),
{
    let center = crate::chunks::VIEW_SIZE / 2;
    let sx = size[0] as i32;
    let sy = size[2] as i32;
    let sz = size[1] as i32;
    IVec3::new(center - sx / 2, center - sy / 2, center - sz / 2)
}

/// Whether chunk key `k` holds a voxel of `voxels` imported at `origin`.
pub open spec fn touched(voxels: Seq<VoxVoxel>, origin: IVec3, k: u128) -> bool {
    exists|i: int| 0 <= i < voxels.len() && spec_coord_key(chunk_of(vox_position(origin, #[trigger] voxels[i]))) == k
}

/// Whether chunk key `k` holds a voxel of one of `models` imported at `origin`.
pub open spec fn touched_models(models: Seq<VoxModel>, origin: IVec3, k: u128) -> bool {
    exists|m: int| 0 <= m < models.len() && touched((#[trigger] models[m]).voxels@, origin, k)
}

/// Whether every voxel of a model imported at `origin` lands on a valid
/// coordinate.
pub open spec fn vox_origin_ok(origin: IVec3) -> bool {
    &&& origin.x <= i32::MAX - 255
    &&& origin.y <= i32::MAX - 255
    &&& origin.z <= i32::MAX - 255
}

/// The density of voxel `w` after importing `voxels` at `origin` over a
/// world where it was `before`: a voxel of the model is solid (`i8::MAX`).
pub open spec fn imported_density(voxels: Seq<VoxVoxel>, origin: IVec3, w: IVec3, before: i8) -> i8
    decreases voxels.len(),
{
    if voxels.len() == 0 {
        before
    } else if vox_position(origin, voxels.last()) == w {
        i8::MAX
    } else {
        imported_density(voxels.drop_last(), origin, w, before)
    }
}

/// The material of voxel `w` after importing `voxels` at `origin` over a
/// world where it was `before`: the color index of the last model voxel
/// that lands on `w`.
pub open spec fn imported_material(voxels: Seq<VoxVoxel>, origin: IVec3, w: IVec3, before: u8) -> u8
    decreases voxels.len(),
{
    if voxels.len() == 0 {
        before
    } else if vox_position(origin, voxels.last()) == w {
        voxels.last().color_index
    } else {
        imported_material(voxels.drop_last(), origin, w, before)
    }
}


/// The number of voxels of all the models.
pub open spec fn vox_voxel_count(models: Seq<VoxModel>) -> int
    decreases models.len(),
{
    if models.len() == 0 {
        0
    } else {
        vox_voxel_count(models.drop_last()) + models.last().voxels@.len()
    }
}

proof fn lemma_voxel_count_prefix(models: Seq<VoxModel>, n: int)
    requires
        0 <= n <= models.len(),
    ensures
        vox_voxel_count(models.take(n)) <= vox_voxel_count(models),
        n > 0 ==> vox_voxel_count(models.take(n)) == vox_voxel_count(models.take(n - 1)) + models[n - 1].voxels@.len(),
    decreases models.len() - n,
{
    if n > 0 {
        assert(models.take(n).drop_last() =~= models.take(n - 1));
    }
    if n < models.len() {
        lemma_voxel_count_prefix(models, n + 1);
        assert(models.take(n + 1).drop_last() =~= models.take(n));
    } else {
        assert(models.take(n) =~= models);
    }
}

/// The density of voxel `w` after importing the models one after another.
pub open spec fn imported_density_models(models: Seq<VoxModel>, origin: IVec3, w: IVec3, before: i8) -> i8
    decreases models.len(),
{
    if models.len() == 0 {
        before
    } else {
        imported_density(models.last().voxels@, origin, w, imported_density_models(models.drop_last(), origin, w, before))
    }
}

/// The material of voxel `w` after importing the models one after another.
pub open spec fn imported_material_models(models: Seq<VoxModel>, origin: IVec3, w: IVec3, before: u8) -> u8
    decreases models.len(),
{
    if models.len() == 0 {
        before
    } else {
        imported_material(models.last().voxels@, origin, w, imported_material_models(models.drop_last(), origin, w, before))
    }
}


/// Replacing chunk `key` by one with the same brick table, while the pool
/// keeps its free list, its size and every brick's voxels, changes neither
/// the structure nor any voxel.
#[verifier::rlimit(80)]
proof fn lemma_refresh_frame(w3: World, w4: World, key: u128, chunk: Chunk)
    requires
        w3.wf(),
        w3.chunks@.contains_key(key),
        w4.chunks@ == w3.chunks@.remove(key).insert(key, chunk),
        chunk.bricks == w3.chunks@[key].bricks,
        chunk.wf(),
        w4.brick_pool.free_ids() == w3.brick_pool.free_ids(),
        w4.brick_pool.bricks@.len() == w3.brick_pool.bricks@.len(),
        forall|x: int| 0 <= x < w4.brick_pool.bricks@.len() ==> (#[trigger] w4.brick_pool.bricks@[x]).density
            == w3.brick_pool.bricks@[x].density && w4.brick_pool.bricks@[x].material == w3.brick_pool.bricks@[x].material,
    ensures
        w4.wf(),
        same_layout(w3, w4),
        forall|w: IVec3| #[trigger] density_at(w4, w) == density_at(w3, w),
        forall|w: IVec3| #[trigger] material_at(w4, w) == material_at(w3, w),
{
    assert(w4.chunks@ =~= w3.chunks@.insert(key, chunk));
    assert(same_layout(w3, w4));
    lemma_same_layout_wf(w3, w4);
    assert forall|w: IVec3| #[trigger] density_at(w4, w) == density_at(w3, w) && material_at(w4, w) == material_at(w3, w) by {
        assert(brick_id_at(w4, w) == brick_id_at(w3, w));
        if let Some(x) = brick_id_at(w3, w) {
            let k = spec_coord_key(chunk_of(w));
            lemma_locate(w);
            assert(w3.chunks@[k].bricks@[slot_of(w)] is Some);
        }
    }
}


/// Whether some brick slot of the world names brick `id`.
pub open spec fn world_uses(w: World, id: usize) -> bool {
    exists|k: u128, i: int| w.chunks@.contains_key(k) && 0 <= i < 512 && #[trigger] w.chunks@[k].bricks@[i] == Some(id)
}

/// How the pool may change over several world operations: bricks that no
/// slot of `w0` used and that were not free in `w0` stay as they were, the
/// free list only loses ids, and a brick newly in use was free or is new.
pub open spec fn pool_kept(w0: World, w1: World) -> bool {
    &&& w1.brick_pool.bricks@.len() >= w0.brick_pool.bricks@.len()
    &&& forall|j: usize| #![trigger w1.brick_pool.bricks@[j as int]]
        j < w0.brick_pool.bricks@.len() && !world_uses(w0, j) && !w0.brick_pool.free_ids().contains(j)
            ==> w1.brick_pool.bricks@[j as int] == w0.brick_pool.bricks@[j as int]
    &&& forall|j: usize| #[trigger] w1.brick_pool.free_ids().contains(j) ==> w0.brick_pool.free_ids().contains(j)
    &&& forall|j: usize| #[trigger] world_uses(w1, j) ==> world_uses(w0, j) || w0.brick_pool.free_ids().contains(j)
        || j >= w0.brick_pool.bricks@.len()
}

proof fn lemma_pool_kept_refl(w: World)
    ensures
        pool_kept(w, w),
{
}

proof fn lemma_pool_kept_trans(w0: World, w1: World, w2: World)
    requires
        pool_kept(w0, w1),
        pool_kept(w1, w2),
    ensures
        pool_kept(w0, w2),
{
    assert forall|j: usize| #![trigger w2.brick_pool.bricks@[j as int]]
        j < w0.brick_pool.bricks@.len() && !world_uses(w0, j) && !w0.brick_pool.free_ids().contains(j)
        implies w2.brick_pool.bricks@[j as int] == w0.brick_pool.bricks@[j as int] by {
        assert(!world_uses(w1, j));
        assert(!w1.brick_pool.free_ids().contains(j));
        assert(w1.brick_pool.bricks@[j as int] == w0.brick_pool.bricks@[j as int]);
    }
}

proof fn lemma_frame_kept(w0: World, w1: World)
    requires
        pool_frame(w0, w1),
    ensures
        pool_kept(w0, w1),
{
    assert forall|j: usize| #[trigger] w1.brick_pool.free_ids().contains(j) implies w0.brick_pool.free_ids().contains(j) by {
        let f0 = w0.brick_pool.free_ids();
        let f1 = w1.brick_pool.free_ids();
        let i = choose|i: int| 0 <= i < f1.len() && f1[i] == j;
        if f1 != f0 {
            assert(f0[i] == j);
        }
    }
}

/// Every brick of component `c` was free in `w0` or is newer than `w0`'s pool.
pub open spec fn comp_from(w0: World, c: DynamicComponent) -> bool {
    forall|k: u128| #[trigger] c.bricks@.contains_key(k) ==> w0.brick_pool.free_ids().contains(c.bricks@[k])
        || c.bricks@[k] >= w0.brick_pool.bricks@.len()
}

/// Writing a voxel of a component keeps the pool's frame since `w0`: the
/// brick it writes was free in `w0` or is new.
proof fn lemma_component_kept(w0: World, wa0: World, wa: World, c0: DynamicComponent, c1: DynamicComponent, v: IVec3)
    requires
        pool_kept(w0, wa0),
        comp_from(w0, c0),
        wa.chunks == wa0.chunks,
        ({
            let id = c1.bricks@[spec_coord_key(comp_brick_of(v))];
            &&& c1.bricks@ == c0.bricks@.insert(spec_coord_key(comp_brick_of(v)), id)
            &&& wa.brick_pool.bricks@.len() >= wa0.brick_pool.bricks@.len()
            &&& forall|j: int| 0 <= j < wa0.brick_pool.bricks@.len() && j != id ==> wa.brick_pool.bricks@[j] == wa0.brick_pool.bricks@[j]
            &&& if c0.bricks@.contains_key(spec_coord_key(comp_brick_of(v))) {
                &&& id == c0.bricks@[spec_coord_key(comp_brick_of(v))]
                &&& wa.brick_pool.free_ids() == wa0.brick_pool.free_ids()
            } else {
                allocated(wa0.brick_pool, wa.brick_pool, id)
                    || ({
                        &&& wa.brick_pool.free_ids() == wa0.brick_pool.free_ids().drop_last()
                        &&& wa0.brick_pool.free_ids().len() > 0
                        &&& id == wa0.brick_pool.free_ids().last()
                    })
                    || ({
                        &&& wa.brick_pool.free_ids() == wa0.brick_pool.free_ids()
                        &&& id == wa0.brick_pool.bricks@.len()
                    })
            }
        }),
    ensures
        pool_kept(w0, wa),
        comp_from(w0, c1),
{
    let key = spec_coord_key(comp_brick_of(v));
    let id = c1.bricks@[key];
    let f0 = wa0.brick_pool.free_ids();
    let f1 = wa.brick_pool.free_ids();
    assert forall|j: usize| #[trigger] f1.contains(j) implies f0.contains(j) by {
        let i = choose|i: int| 0 <= i < f1.len() && f1[i] == j;
        if f1 != f0 {
            assert(f1 == f0.drop_last());
            assert(f0[i] == j);
        }
    }
    assert(w0.brick_pool.free_ids().contains(id) || id >= w0.brick_pool.bricks@.len()) by {
        if c0.bricks@.contains_key(key) {
        } else if f0.len() > 0 && id == f0.last() {
            assert(f0.contains(f0[f0.len() - 1]));
        } else if f0.len() > 0 && allocated(wa0.brick_pool, wa.brick_pool, id) {
            assert(f0.contains(f0[f0.len() - 1]));
        }
    }
    assert forall|k: u128| #[trigger] c1.bricks@.contains_key(k) implies w0.brick_pool.free_ids().contains(c1.bricks@[k])
        || c1.bricks@[k] >= w0.brick_pool.bricks@.len() by {
        if k != key {
            assert(c0.bricks@.contains_key(k));
        }
    }
    assert forall|j: usize| #[trigger] world_uses(wa, j) implies world_uses(wa0, j) by {
        let (k, i) = choose|k: u128, i: int| wa.chunks@.contains_key(k) && 0 <= i < 512
            && #[trigger] wa.chunks@[k].bricks@[i] == Some(j);
        assert(wa0.chunks@[k].bricks@[i] == Some(j));
    }
}

/// How the pool may change while the world writes: bricks that no slot
/// used and that were not free stay as they were, the free list only loses
/// its last id, and a brick newly in use was free or is new.
pub open spec fn pool_frame(w0: World, w3: World) -> bool {
    &&& w3.brick_pool.bricks@.len() >= w0.brick_pool.bricks@.len()
    &&& forall|j: usize| #![trigger w3.brick_pool.bricks@[j as int]]
        j < w0.brick_pool.bricks@.len() && !world_uses(w0, j) && !w0.brick_pool.free_ids().contains(j)
            ==> w3.brick_pool.bricks@[j as int] == w0.brick_pool.bricks@[j as int]
    &&& w3.brick_pool.free_ids() == w0.brick_pool.free_ids() || (w0.brick_pool.free_ids().len() > 0
        && w3.brick_pool.free_ids() == w0.brick_pool.free_ids().drop_last())
    &&& forall|j: usize| #[trigger] world_uses(w3, j) ==> world_uses(w0, j) || w0.brick_pool.free_ids().contains(j)
        || j >= w0.brick_pool.bricks@.len()
}

proof fn lemma_store_frame(w0: World, w3: World, key: u128, slot: int, chunk0: Chunk, chunk3: Chunk, pool1: BrickPool, id: usize)
    requires
        w0.wf(),
        stored(w0, w3, key, slot, chunk0, chunk3, pool1, id),
    ensures
        pool_frame(w0, w3),
{
    let fresh = chunk0.bricks@[slot] is None;
    let pool0 = w0.brick_pool;
    if !fresh {
        assert(w0.chunks@.contains_key(key));
        assert(w0.chunks@[key].bricks@[slot] == Some(id));
        assert(world_uses(w0, id));
    } else if pool0.free_ids().len() > 0 {
        assert(pool0.free_ids()[pool0.free_ids().len() - 1] == id);
        assert(pool0.free_ids().contains(id));
    }
    assert forall|j: usize| #![trigger w3.brick_pool.bricks@[j as int]]
        j < pool0.bricks@.len() && !world_uses(w0, j) && !pool0.free_ids().contains(j)
        implies w3.brick_pool.bricks@[j as int] == pool0.bricks@[j as int] by {
        assert(j != id);
    }
    assert forall|j: usize| #[trigger] world_uses(w3, j) implies world_uses(w0, j) || pool0.free_ids().contains(j)
        || j >= pool0.bricks@.len() by {
        let (k, i) = choose|k: u128, i: int| w3.chunks@.contains_key(k) && 0 <= i < 512 && #[trigger] w3.chunks@[k].bricks@[i] == Some(j);
        if !(k == key && i == slot) {
            if k == key {
                assert(w3.chunks@[k].bricks@[i] == chunk0.bricks@[i]);
                if !w0.chunks@.contains_key(key) {
                    assert(chunk0.bricks@[i] is None);
                }
            }
            assert(w0.chunks@.contains_key(k));
            assert(w0.chunks@[k].bricks@[i] == Some(j));
        }
    }
}


/// No brick of component `c` is a brick of the world.
pub open spec fn comp_disjoint(w: World, c: DynamicComponent) -> bool {
    forall|k: u128| #[trigger] c.bricks@.contains_key(k) ==> !world_uses(w, c.bricks@[k])
}

/// Whether `detach_component` moves voxel `v` out of the world: it is in
/// the list and solid (density at least 0) before the call.
pub open spec fn detached(voxels: Seq<IVec3>, w0: World, v: IVec3) -> bool {
    voxels.contains(v) && density_at(w0, v) >= 0
}

/// The world's chunks are as they were, and so is every brick they name,
/// none of which is free; the pool is well formed.
pub open spec fn world_bricks_kept(w0: World, wa: World) -> bool {
    &&& wa.chunks == w0.chunks
    &&& wa.brick_pool.wf()
    &&& wa.brick_pool.free_ids().no_duplicates()
    &&& wa.brick_pool.bricks@.len() >= w0.brick_pool.bricks@.len()
    &&& forall|k: u128, i: int|
        w0.chunks@.contains_key(k) && 0 <= i < 512 && (#[trigger] w0.chunks@[k].bricks@[i]) is Some ==> {
            &&& wa.brick_pool.bricks@[w0.chunks@[k].bricks@[i]->0 as int] == w0.brick_pool.bricks@[w0.chunks@[k].bricks@[i]->0 as int]
            &&& !wa.brick_pool.free_ids().contains(w0.chunks@[k].bricks@[i]->0)
        }
}

proof fn lemma_kept_wf(w0: World, wa: World)
    requires
        w0.wf(),
        world_bricks_kept(w0, wa),
    ensures
        wa.wf(),
        forall|w: IVec3| #[trigger] density_at(wa, w) == density_at(w0, w) && material_at(wa, w) == material_at(w0, w),
{
    assert forall|w: IVec3| #[trigger] density_at(wa, w) == density_at(w0, w) && material_at(wa, w) == material_at(w0, w) by {
        if let Some(x) = brick_id_at(w0, w) {
            lemma_locate(w);
            let k = spec_coord_key(chunk_of(w));
            assert(w0.chunks@[k].bricks@[slot_of(w)] is Some);
        }
    }
}

#[verifier::rlimit(40)]
proof fn lemma_kept_summaries(w0: World, wa: World)
    requires
        w0.wf(),
        w0.summaries_fresh(),
        world_bricks_kept(w0, wa),
    ensures
        wa.summaries_fresh(),
{
    let pool0 = w0.brick_pool;
    let poola = wa.brick_pool;
    assert forall|k: u128| wa.chunks@.contains_key(k) implies (#[trigger] wa.chunks@[k]).summaries_consistent(poola.bricks@) by {
        let ch = w0.chunks@[k];
        assert(ch.summaries_consistent(pool0.bricks@));
        assert forall|i: int| 0 <= i < 64 implies #[trigger] ch.summary_l2@[i] == agg_l2(ch.bricks@, poola.bricks@, grid_cell(i, 4)) by {
            lemma_grid_roundtrip(i, 4);
            assert forall|kk: int| 0 <= kk < 8 implies slot_summary(ch.bricks@, pool0.bricks@, grid_index(#[trigger] child_cell(grid_cell(i, 4), kk), 8))
                == slot_summary(ch.bricks@, poola.bricks@, grid_index(child_cell(grid_cell(i, 4), kk), 8)) by {
                crate::svo::chunk::lemma_child_cell_in_cube(grid_cell(i, 4), kk, 4);
                lemma_grid_index_bounds(child_cell(grid_cell(i, 4), kk), 8);
                let j = grid_index(child_cell(grid_cell(i, 4), kk), 8);
                if ch.bricks@[j] is Some {
                    assert(w0.chunks@[k].bricks@[j] is Some);
                }
            }
            lemma_agg_l2_frame(ch.bricks@, pool0.bricks@, ch.bricks@, poola.bricks@, grid_cell(i, 4));
        }
    }
    assert forall|k: u128, i: int|
        wa.chunks@.contains_key(k) && 0 <= i < 512 && (#[trigger] wa.chunks@[k].bricks@[i]) is Some
        implies poola.bricks@[wa.chunks@[k].bricks@[i]->0 as int].summary_fresh() by {
        assert(w0.chunks@[k].bricks@[i] is Some);
    }
}

/// After a component wrote one voxel into bricks of the world's pool, the
/// world keeps its bricks and does not share one with the component.
proof fn lemma_component_step(w0: World, wa: World, c0: DynamicComponent, c1: DynamicComponent, v: IVec3)
    requires
        w0.wf(),
        c0.wf_in(w0.brick_pool),
        comp_disjoint(w0, c0),
        wa.chunks == w0.chunks,
        c1.wf_in(wa.brick_pool),
        wa.brick_pool.wf(),
        wa.brick_pool.free_ids().no_duplicates(),
        ({
            let id = c1.bricks@[spec_coord_key(comp_brick_of(v))];
            &&& c1.bricks@ == c0.bricks@.insert(spec_coord_key(comp_brick_of(v)), id)
            &&& wa.brick_pool.bricks@.len() >= w0.brick_pool.bricks@.len()
            &&& forall|j: int| 0 <= j < w0.brick_pool.bricks@.len() && j != id ==> wa.brick_pool.bricks@[j] == w0.brick_pool.bricks@[j]
            &&& if c0.bricks@.contains_key(spec_coord_key(comp_brick_of(v))) {
                &&& id == c0.bricks@[spec_coord_key(comp_brick_of(v))]
                &&& wa.brick_pool.free_ids() == w0.brick_pool.free_ids()
                &&& wa.brick_pool.bricks@.len() == w0.brick_pool.bricks@.len()
            } else {
                allocated(w0.brick_pool, wa.brick_pool, id)
                    || ({
                        &&& wa.brick_pool.free_ids() == w0.brick_pool.free_ids().drop_last()
                        &&& w0.brick_pool.free_ids().len() > 0
                        &&& id == w0.brick_pool.free_ids().last()
                        &&& wa.brick_pool.bricks@.len() == w0.brick_pool.bricks@.len()
                    })
                    || ({
                        &&& wa.brick_pool.free_ids() == w0.brick_pool.free_ids()
                        &&& w0.brick_pool.free_ids().len() == 0
                        &&& id == w0.brick_pool.bricks@.len()
                        &&& wa.brick_pool.bricks@.len() == w0.brick_pool.bricks@.len() + 1
                    })
            }
        }),
    ensures
        world_bricks_kept(w0, wa),
        comp_disjoint(wa, c1),
{
    let key = spec_coord_key(comp_brick_of(v));
    let id = c1.bricks@[key];
    let existed = c0.bricks@.contains_key(key);
    let pool0 = w0.brick_pool;
    let poola = wa.brick_pool;
    assert(!world_uses(w0, id)) by {
        if existed {
            assert(c0.bricks@[key] == id);
        } else if world_uses(w0, id) {
            let (k, i) = choose|k: u128, i: int| w0.chunks@.contains_key(k) && 0 <= i < 512 && #[trigger] w0.chunks@[k].bricks@[i] == Some(id);
            assert(w0.chunks@[k].bricks@[i] is Some);
            if pool0.free_ids().len() > 0 && id == pool0.free_ids().last() {
                assert(pool0.free_ids()[pool0.free_ids().len() - 1] == id);
                assert(pool0.free_ids().contains(id));
            }
        }
    }
    assert forall|k: u128, i: int|
        w0.chunks@.contains_key(k) && 0 <= i < 512 && (#[trigger] w0.chunks@[k].bricks@[i]) is Some
        implies {
            &&& poola.bricks@[w0.chunks@[k].bricks@[i]->0 as int] == pool0.bricks@[w0.chunks@[k].bricks@[i]->0 as int]
            &&& !poola.free_ids().contains(w0.chunks@[k].bricks@[i]->0)
        } by {
        let x = w0.chunks@[k].bricks@[i]->0;
        if x == id {
            assert(w0.chunks@[k].bricks@[i] == Some(id));
        }
        if poola.free_ids().contains(x) {
            let j = choose|j: int| 0 <= j < poola.free_ids().len() && poola.free_ids()[j] == x;
            assert(pool0.free_ids()[j] == x);
        }
    }
    assert forall|k: u128| #[trigger] c1.bricks@.contains_key(k) implies !world_uses(wa, c1.bricks@[k]) by {
        if k != key {
            assert(c0.bricks@.contains_key(k));
        }
    }
}

proof fn lemma_after_world_write(wa: World, wb: World, c: DynamicComponent)
    requires
        c.wf_in(wa.brick_pool),
        comp_disjoint(wa, c),
        pool_frame(wa, wb),
    ensures
        c.wf_in(wb.brick_pool),
        comp_disjoint(wb, c),
        forall|w: IVec3| #[trigger] comp_density_at(c, wb.brick_pool.bricks@, w) == comp_density_at(c, wa.brick_pool.bricks@, w)
            && comp_material_at(c, wb.brick_pool.bricks@, w) == comp_material_at(c, wa.brick_pool.bricks@, w),
{
    let pa = wa.brick_pool;
    let pb = wb.brick_pool;
    assert forall|k: u128| #[trigger] c.bricks@.contains_key(k) implies {
        &&& c.bricks@[k] < pb.bricks@.len()
        &&& !pb.free_ids().contains(c.bricks@[k])
        &&& !world_uses(wb, c.bricks@[k])
        &&& pb.bricks@[c.bricks@[k] as int] == pa.bricks@[c.bricks@[k] as int]
    } by {
        let x = c.bricks@[k];
        if pb.free_ids().contains(x) {
            let j = choose|j: int| 0 <= j < pb.free_ids().len() && pb.free_ids()[j] == x;
            assert(pa.free_ids()[j] == x);
        }
        assert(!world_uses(wa, x));
        assert(pb.bricks@[x as int] == pa.bricks@[x as int]);
    }
    assert forall|w: IVec3| #[trigger] comp_density_at(c, pb.bricks@, w) == comp_density_at(c, pa.bricks@, w)
        && comp_material_at(c, pb.bricks@, w) == comp_material_at(c, pa.bricks@, w) by {
        let k = spec_coord_key(comp_brick_of(w));
        if c.bricks@.contains_key(k) {
            assert(pb.bricks@[c.bricks@[k] as int] == pa.bricks@[c.bricks@[k] as int]);
        }
    }
}


/// The facts `detach_component` keeps after handling the voxels `t`.
pub open spec fn detach_state(w0: World, s: World, c: DynamicComponent, t: Seq<IVec3>) -> bool {
    &&& forall|w: IVec3| #[trigger] density_at(s, w) == if detached(t, w0, w) { i8::MIN } else { density_at(w0, w) }
    &&& forall|w: IVec3| #[trigger] material_at(s, w) == if detached(t, w0, w) { 0u8 } else { material_at(w0, w) }
    &&& forall|w: IVec3| #[trigger] comp_density_at(c, s.brick_pool.bricks@, w) == if detached(t, w0, w) {
        density_at(w0, w)
    } else {
        i8::MIN
    }
    &&& forall|w: IVec3| #[trigger] comp_material_at(c, s.brick_pool.bricks@, w) == if detached(t, w0, w) {
        material_at(w0, w)
    } else {
        0u8
    }
}

proof fn lemma_detach_step(w0: World, s0: World, c0: DynamicComponent, s1: World, c1: DynamicComponent, t0: Seq<IVec3>, v: IVec3, did: bool)
    requires
        detach_state(w0, s0, c0, t0),
        did ==> {
            &&& density_at(s0, v) >= 0
            &&& density_at(s1, v) == i8::MIN
            &&& material_at(s1, v) == 0
            &&& forall|w: IVec3| w != v ==> density_at(s1, w) == density_at(s0, w) && material_at(s1, w) == material_at(s0, w)
            &&& comp_density_at(c1, s1.brick_pool.bricks@, v) == density_at(s0, v)
            &&& comp_material_at(c1, s1.brick_pool.bricks@, v) == material_at(s0, v)
            &&& forall|w: IVec3| w != v ==> comp_density_at(c1, s1.brick_pool.bricks@, w) == comp_density_at(c0, s0.brick_pool.bricks@, w)
                && comp_material_at(c1, s1.brick_pool.bricks@, w) == comp_material_at(c0, s0.brick_pool.bricks@, w)
        },
        !did ==> s1 == s0 && c1 == c0 && density_at(s0, v) < 0,
    ensures
        detach_state(w0, s1, c1, t0.push(v)),
{
    let t1 = t0.push(v);
    assert forall|w: IVec3| #![trigger t1.contains(w)] t1.contains(w) <==> t0.contains(w) || w == v by {
        if t1.contains(w) && w != v {
            let j = choose|j: int| 0 <= j < t1.len() && t1[j] == w;
            assert(t0[j] == w);
        }
        if w == v {
            assert(t1[t0.len() as int] == v);
        }
        if t0.contains(w) {
            let j = choose|j: int| 0 <= j < t0.len() && t0[j] == w;
            assert(t1[j] == w);
        }
    }
    assert(density_at(s0, v) == if detached(t0, w0, v) { i8::MIN } else { density_at(w0, v) });
    assert(material_at(s0, v) == if detached(t0, w0, v) { 0u8 } else { material_at(w0, v) });
    assert forall|w: IVec3| #[trigger] density_at(s1, w) == (if detached(t1, w0, w) { i8::MIN } else { density_at(w0, w) })
        && material_at(s1, w) == (if detached(t1, w0, w) { 0u8 } else { material_at(w0, w) })
        && comp_density_at(c1, s1.brick_pool.bricks@, w) == (if detached(t1, w0, w) { density_at(w0, w) } else { i8::MIN })
        && comp_material_at(c1, s1.brick_pool.bricks@, w) == (if detached(t1, w0, w) { material_at(w0, w) } else { 0u8 }) by {
        assert(density_at(s0, w) == if detached(t0, w0, w) { i8::MIN } else { density_at(w0, w) });
        assert(material_at(s0, w) == if detached(t0, w0, w) { 0u8 } else { material_at(w0, w) });
        assert(comp_density_at(c0, s0.brick_pool.bricks@, w) == if detached(t0, w0, w) { density_at(w0, w) } else { i8::MIN });
        assert(comp_material_at(c0, s0.brick_pool.bricks@, w) == if detached(t0, w0, w) { material_at(w0, w) } else { 0u8 });
        if w == v {
            assert(t1.contains(v));
        }
    }
}

/// In a world whose summaries are fresh, a chunk counts as empty exactly
/// when no voxel of its bricks has a density of zero or more; every world
/// operation keeps the summaries fresh, so this holds after any of them.
pub proof fn lemma_world_chunk_empty(w: World, k: u128)
    requires
        w.wf(),
        w.summaries_fresh(),
        w.chunks@.contains_key(k),
    ensures
        (w.chunks@[k].summary_l0.state == crate::svo::brick::BrickState::Empty) <==> no_solid(w.chunks@[k], w.brick_pool.bricks@),
{
    let c = w.chunks@[k];
    assert(c.wf());
    assert(c.summaries_consistent(w.brick_pool.bricks@));
    assert forall|i: int| 0 <= i < 512 && (#[trigger] c.bricks@[i]) is Some
        implies w.brick_pool.bricks@[c.bricks@[i]->0 as int].summary_fresh() by {
        assert(w.chunks@[k].bricks@[i] is Some);
    }
    assert(bricks_fresh(c, w.brick_pool.bricks@));
    lemma_chunk_empty_iff_no_solid(c, w.brick_pool.bricks@);
}

impl World {
    /// The world's structure: every chunk has its tables, every brick slot
    /// names a brick of the pool that is not on the free list, no two slots
    /// share a brick, and no id is twice on the free list.
    pub open spec fn wf(&self) -> bool {
        &&& self.brick_pool.wf()
        &&& self.brick_pool.free_ids().no_duplicates()
        &&& forall|k: u128| self.chunks@.contains_key(k) ==> (#[trigger] self.chunks@[k]).wf()
        &&& forall|k: u128, i: int|
            self.chunks@.contains_key(k) && 0 <= i < 512 && (#[trigger] self.chunks@[k].bricks@[i]) is Some
                ==> {
                &&& self.chunks@[k].bricks@[i]->0 < self.brick_pool.bricks@.len()
                &&& !self.brick_pool.free_ids().contains(self.chunks@[k].bricks@[i]->0)
            }
        &&& forall|k1: u128, i1: int, k2: u128, i2: int|
            self.chunks@.contains_key(k1) && self.chunks@.contains_key(k2) && 0 <= i1 < 512 && 0 <= i2
                < 512 && (#[trigger] self.chunks@[k1].bricks@[i1]) is Some
                && self.chunks@[k1].bricks@[i1] == (#[trigger] self.chunks@[k2].bricks@[i2]) ==> k1 == k2
                && i1 == i2
    }

    /// The summaries agree with the voxels: each brick of a chunk has the
    /// summary of its densities, and each chunk's summary pyramid agrees
    /// with its bricks.
    pub open spec fn summaries_fresh(&self) -> bool {
        &&& forall|k: u128, i: int|
            self.chunks@.contains_key(k) && 0 <= i < 512 && (#[trigger] self.chunks@[k].bricks@[i]) is Some
                ==> self.brick_pool.bricks@[self.chunks@[k].bricks@[i]->0 as int].summary_fresh()
        &&& forall|k: u128| self.chunks@.contains_key(k) ==> (#[trigger] self.chunks@[k]).summaries_consistent(
            self.brick_pool.bricks@,
        )
    }

    /// An empty world: no chunk, no brick, a zero palette.
    pub fn new() -> (w: Self)
        ensures
            w.wf(),
            w.summaries_fresh(),
            w.chunks@.len() == 0,
            w.brick_pool.bricks@.len() == 0,
            w.dynamic_components@.len() == 0,
            forall|i: int| 0 <= i < 256 ==> w.palette@[i] == 0,
            forall|v: IVec3| density_at(w, v) == i8::MIN && material_at(w, v) == 0,
    {
        let w = Self {
            chunks: HashMap::new(),
            brick_pool: BrickPool::default(),
            dynamic_components: Vec::new(),
            palette: [0u32; 256],
        };
        w
    }

    /// The chunk at `chunk_coord`, made empty first if the world has none.
    pub fn get_or_create_chunk(&mut self, chunk_coord: IVec3) -> (chunk: &mut Chunk)
        ensures
            old(self).chunks@.contains_key(spec_coord_key(chunk_coord)) ==> *chunk == old(self).chunks@[spec_coord_key(chunk_coord)],
            !old(self).chunks@.contains_key(spec_coord_key(chunk_coord)) ==> {
                &&& chunk.wf()
                &&& forall|i: int| 0 <= i < 512 ==> (#[trigger] chunk.bricks@[i]) is None
                &&& forall|i: int| 0 <= i < 64 ==> #[trigger] chunk.summary_l2@[i] == empty_summary()
                &&& forall|i: int| 0 <= i < 8 ==> #[trigger] chunk.summary_l1@[i] == empty_summary()
                &&& chunk.summary_l0 == empty_summary()
            },
            final(self).chunks@ == old(self).chunks@.insert(spec_coord_key(chunk_coord), *final(chunk)),
            final(self).brick_pool == old(self).brick_pool,
            final(self).palette == old(self).palette,
            final(self).dynamic_components == old(self).dynamic_components,
    {
        self.chunks.entry(coord_key(chunk_coord)).or_insert(Chunk::new_empty())
    }

    /// The density of voxel `voxel`, `i8::MIN` where the world holds none.
    pub fn sample_density(&self, voxel: VoxelCoord) -> (d: i8)
        requires
            self.wf(),
        ensures
            d == density_at(*self, voxel),
    {
        proof {
            lemma_locate(voxel);
        }
        let (chunk_coord, local_voxel) = chunk_local_from_voxel(voxel, CHUNK_SIZE);
        let (brick_coord, in_brick) = brick_local_from_voxel(local_voxel, BRICK_SIZE);
        if let Some(chunk) = self.chunks.get(&coord_key(chunk_coord)) {
            if let Some(brick_id) = chunk.bricks[Chunk::brick_index(brick_coord)] {
                let idx = Brick::index(in_brick.x, in_brick.y, in_brick.z);
                return self.brick_pool.bricks[brick_id].density[idx];
            }
        }
        i8::MIN
    }

    /// The material of voxel `voxel`, 0 where the world holds none.
    pub fn sample_material(&self, voxel: VoxelCoord) -> (m: u8)
        requires
            self.wf(),
        ensures
            m == material_at(*self, voxel),
    {
        proof {
            lemma_locate(voxel);
        }
        let (chunk_coord, local_voxel) = chunk_local_from_voxel(voxel, CHUNK_SIZE);
        let (brick_coord, in_brick) = brick_local_from_voxel(local_voxel, BRICK_SIZE);
        if let Some(chunk) = self.chunks.get(&coord_key(chunk_coord)) {
            if let Some(brick_id) = chunk.bricks[Chunk::brick_index(brick_coord)] {
                let idx = Brick::index(in_brick.x, in_brick.y, in_brick.z);
                return self.brick_pool.bricks[brick_id].material[idx];
            }
        }
        0
    }

    /// Sets voxel `voxel` to `density` and `material`, creating its chunk
    /// and brick when they do not exist yet, and refreshes the summaries.
    pub fn set_voxel(&mut self, voxel: VoxelCoord, density: i8, material: u8)
        requires
            old(self).wf(),
            old(self).brick_pool.bricks@.len() < usize::MAX,
        ensures
            final(self).wf(),
            density_at(*final(self), voxel) == density,
            material_at(*final(self), voxel) == material,
            voxel_write(*old(self), *final(self), (voxel, density, material)),
            old(self).summaries_fresh() ==> final(self).summaries_fresh(),
            final(self).chunks@.contains_key(spec_coord_key(chunk_of(voxel))),
            final(self).chunks@.remove(spec_coord_key(chunk_of(voxel))) == old(self).chunks@.remove(spec_coord_key(chunk_of(voxel))),
            pool_frame(*old(self), *final(self)),
            final(self).brick_pool.bricks@.len() <= old(self).brick_pool.bricks@.len() + 1,
            brick_id_at(*old(self), voxel) is Some ==> final(self).brick_pool.bricks@.len() == old(self).brick_pool.bricks@.len(),
            forall|w: IVec3| w != voxel ==> density_at(*final(self), w) == density_at(*old(self), w),
            forall|w: IVec3| w != voxel ==> material_at(*final(self), w) == material_at(*old(self), w),
            final(self).palette == old(self).palette,
            final(self).dynamic_components == old(self).dynamic_components,
    {
        proof {
            lemma_locate(voxel);
        }
        let ghost w0 = *self;
        let (chunk_coord, local_voxel) = chunk_local_from_voxel(voxel, CHUNK_SIZE);
        let (brick_coord, in_brick) = brick_local_from_voxel(local_voxel, BRICK_SIZE);
        let key = coord_key(chunk_coord);
        let ghost slot = slot_of(voxel);
        let ghost cell = cell_of(voxel);
        let mut chunk = match self.chunks.remove(&key) {
            Some(c) => c,
            None => Chunk::new_empty(),
        };
        let ghost chunk0 = chunk;
        let ghost pool0 = self.brick_pool;
        let brick_id = chunk.ensure_brick(&mut self.brick_pool, brick_coord);
        let ghost pool1 = self.brick_pool;
        self.brick_pool.bricks[brick_id].set_voxel(in_brick.x, in_brick.y, in_brick.z, density, material);
        self.brick_pool.bricks[brick_id].recompute_summary();
        chunk.update_summaries_for_brick(&self.brick_pool, brick_coord);
        self.chunks.insert(key, chunk);
        proof {
            let w3 = *self;
            assert(w0.chunks@.contains_key(key) ==> chunk0 == w0.chunks@[key]);
            assert(!w0.chunks@.contains_key(key) ==> forall|i: int| 0 <= i < 512 ==> (#[trigger] chunk0.bricks@[i]) is None);
            assert(chunk0.wf());
            assert(chunk.wf());
            assert(chunk.bricks@ == chunk0.bricks@.update(slot, Some(brick_id)));
            assert(w3.chunks@ == w0.chunks@.insert(key, chunk));
            assert(w3.chunks@.remove(key) =~= w0.chunks@.remove(key));
            assert(chunk0.bricks@[slot] matches Some(x) ==> x == brick_id && pool1 == w0.brick_pool);
            assert(chunk0.bricks@[slot] is None ==> allocated(w0.brick_pool, pool1, brick_id));
            assert(w3.brick_pool.free_ids() == pool1.free_ids());
            assert(w3.brick_pool.bricks@.len() == pool1.bricks@.len());
            assert(forall|j: int| 0 <= j < pool1.bricks@.len() && j != brick_id ==> w3.brick_pool.bricks@[j] == pool1.bricks@[j]);
            lemma_store_wf(w0, *self, key, slot, chunk0, chunk, pool1, brick_id);
            lemma_store_values(w0, *self, voxel, chunk0, chunk, pool1, brick_id, density, material);
            lemma_store_frame(w0, *self, key, slot, chunk0, chunk, pool1, brick_id);
            if brick_id_at(w0, voxel) is Some {
                assert(w0.chunks@.contains_key(key));
                assert(chunk0.bricks@[slot] is Some);
            }
            if w0.summaries_fresh() {
                assert(summaries_refreshed(*self, voxel, chunk0, chunk));
                lemma_store_summaries(w0, *self, voxel, chunk0, chunk, pool1, brick_id);
            }
        }
    }


    /// Writes one voxel into its brick, creating chunk and brick as needed,
    /// without refreshing any summary.
    fn store_voxel(&mut self, voxel: VoxelCoord, density: i8, material: u8)
        requires
            old(self).wf(),
            old(self).brick_pool.bricks@.len() < usize::MAX,
        ensures
            final(self).wf(),
            final(self).brick_pool.bricks@.len() <= old(self).brick_pool.bricks@.len() + 1,
            density_at(*final(self), voxel) == density,
            material_at(*final(self), voxel) == material,
            forall|w: IVec3| w != voxel ==> density_at(*final(self), w) == density_at(*old(self), w),
            forall|w: IVec3| w != voxel ==> material_at(*final(self), w) == material_at(*old(self), w),
            final(self).palette == old(self).palette,
            final(self).dynamic_components == old(self).dynamic_components,
            forall|d: Seq<(IVec3, IVec3)>| #![trigger fresh_except(*final(self), d)]
                fresh_except(*old(self), d) && d.contains((chunk_of(voxel), brick_of(voxel))) ==> fresh_except(*final(self), d),
            final(self).chunks@.contains_key(spec_coord_key(chunk_of(voxel))),
            final(self).chunks@.remove(spec_coord_key(chunk_of(voxel))) == old(self).chunks@.remove(spec_coord_key(chunk_of(voxel))),
            pool_frame(*old(self), *final(self)),
    {
        proof {
            lemma_locate(voxel);
        }
        let ghost w0 = *self;
        let (chunk_coord, local_voxel) = chunk_local_from_voxel(voxel, CHUNK_SIZE);
        let (brick_coord, in_brick) = brick_local_from_voxel(local_voxel, BRICK_SIZE);
        let key = coord_key(chunk_coord);
        let ghost slot = slot_of(voxel);
        let mut chunk = match self.chunks.remove(&key) {
            Some(c) => c,
            None => Chunk::new_empty(),
        };
        let ghost chunk0 = chunk;
        let brick_id = chunk.ensure_brick(&mut self.brick_pool, brick_coord);
        let ghost pool1 = self.brick_pool;
        self.brick_pool.bricks[brick_id].set_voxel(in_brick.x, in_brick.y, in_brick.z, density, material);
        self.chunks.insert(key, chunk);
        proof {
            let w3 = *self;
            assert(w3.chunks@ == w0.chunks@.insert(key, chunk));
            assert(w3.chunks@.remove(key) =~= w0.chunks@.remove(key));
            assert(forall|j: int| 0 <= j < pool1.bricks@.len() && j != brick_id ==> w3.brick_pool.bricks@[j] == pool1.bricks@[j]);
            assert(stored(w0, w3, key, slot, chunk0, chunk, pool1, brick_id));
            lemma_store_wf(w0, w3, key, slot, chunk0, chunk, pool1, brick_id);
            lemma_store_frame(w0, w3, key, slot, chunk0, chunk, pool1, brick_id);
            lemma_store_values(w0, w3, voxel, chunk0, chunk, pool1, brick_id, density, material);
            assert forall|d: Seq<(IVec3, IVec3)>| #![trigger fresh_except(w3, d)]
                fresh_except(w0, d) && d.contains((chunk_of(voxel), brick_of(voxel))) implies fresh_except(w3, d) by {
                lemma_store_fresh(w0, w3, voxel, chunk0, chunk, pool1, brick_id, d);
            }
        }
    }


    /// Recomputes the summary of brick `brick_coord` of chunk `chunk_coord`
    /// (when both exist) and the chunk summaries above it.
    fn refresh_brick(&mut self, chunk_coord: IVec3, brick_coord: IVec3)
        requires
            old(self).wf(),
            in_cube(brick_coord, 8),
        ensures
            final(self).wf(),
            same_layout(*old(self), *final(self)),
            forall|w: IVec3| #[trigger] density_at(*final(self), w) == density_at(*old(self), w),
            forall|w: IVec3| #[trigger] material_at(*final(self), w) == material_at(*old(self), w),
            final(self).palette == old(self).palette,
            final(self).dynamic_components == old(self).dynamic_components,
            forall|rest: Seq<(IVec3, IVec3)>| #![trigger fresh_except(*final(self), rest)]
                fresh_except(*old(self), seq![(chunk_coord, brick_coord)] + rest) ==> fresh_except(*final(self), rest),
            final(self).chunks@.dom() == old(self).chunks@.dom(),
            final(self).chunks@.remove(spec_coord_key(chunk_coord)) == old(self).chunks@.remove(spec_coord_key(chunk_coord)),
            pool_kept(*old(self), *final(self)),
    {
        let key = coord_key(chunk_coord);
        let ghost w3 = *self;
        if let Some(mut chunk) = self.chunks.remove(&key) {
            assert(chunk.ids_in(self.brick_pool.bricks@));
            let ghost chunk0 = chunk;
            let slot = Chunk::brick_index(brick_coord);
            if let Some(brick_id) = chunk.bricks[slot] {
                self.brick_pool.bricks[brick_id].recompute_summary();
                proof {
                    assert(w3.chunks@[key].bricks@[slot as int] == Some(brick_id));
                    assert(world_uses(w3, brick_id));
                }
            }
            let ghost pool2 = self.brick_pool;
            proof {
                assert forall|j: usize| j < w3.brick_pool.bricks@.len() && !world_uses(w3, j)
                    implies #[trigger] pool2.bricks@[j as int] == w3.brick_pool.bricks@[j as int] by {
                }
            }
            chunk.update_summaries_for_brick(&self.brick_pool, brick_coord);
            self.chunks.insert(key, chunk);
            proof {
                lemma_refresh_frame(w3, *self, key, chunk);
                assert(self.chunks@ =~= w3.chunks@.insert(key, chunk));
                assert(self.chunks@.dom() =~= w3.chunks@.dom());
                assert(self.chunks@.remove(key) =~= w3.chunks@.remove(key));
                assert(chunk0 == w3.chunks@[key]);
                assert forall|rest: Seq<(IVec3, IVec3)>| #![trigger fresh_except(*self, rest)]
                    fresh_except(w3, seq![(chunk_coord, brick_coord)] + rest) implies fresh_except(*self, rest) by {
                    lemma_refresh_fresh(w3, *self, chunk_coord, brick_coord, chunk, rest);
                }
                assert forall|j: usize| #[trigger] world_uses(*self, j) implies world_uses(w3, j) by {
                    let (k, i) = choose|k: u128, i: int| self.chunks@.contains_key(k) && 0 <= i < 512
                        && #[trigger] self.chunks@[k].bricks@[i] == Some(j);
                    assert(w3.chunks@[k].bricks@[i] == Some(j));
                }
                assert(pool_kept(w3, *self));
            }
        } else {
            assert(self.chunks@ =~= w3.chunks@);
            assert(self.chunks@.remove(key) =~= w3.chunks@.remove(key));
            assert(same_layout(w3, *self));
            assert forall|rest: Seq<(IVec3, IVec3)>| #![trigger fresh_except(*self, rest)]
                fresh_except(w3, seq![(chunk_coord, brick_coord)] + rest) implies fresh_except(*self, rest) by {
                lemma_fresh_except_absent(w3, chunk_coord, brick_coord, rest);
                assert(self.chunks@ == w3.chunks@);
                assert(self.brick_pool == w3.brick_pool);
            }
            assert forall|j: usize| #[trigger] world_uses(*self, j) implies world_uses(w3, j) by {
                let (k, i) = choose|k: u128, i: int| self.chunks@.contains_key(k) && 0 <= i < 512
                    && #[trigger] self.chunks@[k].bricks@[i] == Some(j);
                assert(w3.chunks@[k].bricks@[i] == Some(j));
            }
        }
    }

    /// Whether the pool can take every voxel of `vox` as a new brick: what
    /// `import_vox_file` requires of the pool's size.
    pub fn fits_import(&self, vox: &VoxFile) -> (ok: bool)
        ensures
            ok == (self.brick_pool.bricks@.len() + vox_voxel_count(vox.models@) < usize::MAX),
    {
        let mut total: usize = self.brick_pool.bricks.len();
        let mut i: usize = 0;
        while i < vox.models.len()
            invariant
                i <= vox.models@.len(),
                total == self.brick_pool.bricks@.len() + vox_voxel_count(vox.models@.take(i as int)),
            decreases vox.models@.len() - i,
        {
            proof {
                lemma_voxel_count_prefix(vox.models@, i as int + 1);
                lemma_voxel_count_prefix(vox.models@, vox.models@.len() as int);
                assert(vox.models@.take(vox.models@.len() as int) =~= vox.models@);
            }
            match total.checked_add(vox.models[i].voxels.len()) {
                Some(t) => total = t,
                None => return false,
            }
            i += 1;
        }
        proof {
            assert(vox.models@.take(i as int) =~= vox.models@);
        }
        total < usize::MAX
    }

    /// Imports a `.vox` model with its corner at `origin`: each voxel of the
    /// model becomes solid (density `i8::MAX`) with its color index as
    /// material, the file's z axis pointing up the world's y axis; then the
    /// summaries of every brick written are refreshed.
    #[verifier::rlimit(80)]
    pub fn import_vox_model(&mut self, model: &VoxModel, origin: VoxelCoord)
        requires
            old(self).wf(),
            vox_origin_ok(origin),
            old(self).brick_pool.bricks@.len() + model.voxels@.len() < usize::MAX,
        ensures
            final(self).wf(),
            final(self).brick_pool.bricks@.len() <= old(self).brick_pool.bricks@.len() + model.voxels@.len(),
            forall|w: IVec3| #[trigger] density_at(*final(self), w) == imported_density(model.voxels@, origin, w, density_at(*old(self), w)),
            forall|w: IVec3| #[trigger] material_at(*final(self), w) == imported_material(model.voxels@, origin, w, material_at(*old(self), w)),
            final(self).palette == old(self).palette,
            final(self).dynamic_components == old(self).dynamic_components,
            old(self).summaries_fresh() ==> final(self).summaries_fresh(),
            forall|k: u128| #[trigger] final(self).chunks@.contains_key(k) <==> old(self).chunks@.contains_key(k)
                || touched(model.voxels@, origin, k),
            forall|k: u128| old(self).chunks@.contains_key(k) && !touched(model.voxels@, origin, k)
                ==> #[trigger] final(self).chunks@[k] == old(self).chunks@[k],
            pool_kept(*old(self), *final(self)),
    {
        let ghost w0 = *self;
        let mut dirty_bricks: Vec<(IVec3, IVec3)> = Vec::new();
        let mut seen: HashSet<u128> = HashSet::new();
        proof {
            lemma_pool_kept_refl(w0);
            lemma_fresh_except_none(w0);
            assert(dirty_bricks@ =~= Seq::<(IVec3, IVec3)>::empty());
        }
        let mut i: usize = 0;
        while i < model.voxels.len()
            invariant
                i <= model.voxels@.len(),
                vox_origin_ok(origin),
                self.wf(),
                w0.summaries_fresh() ==> fresh_except(*self, dirty_bricks@),
                self.brick_pool.bricks@.len() <= w0.brick_pool.bricks@.len() + i,
                w0.brick_pool.bricks@.len() + model.voxels@.len() < usize::MAX,
                forall|j: int| 0 <= j < dirty_bricks@.len() ==> in_cube(#[trigger] dirty_bricks@[j].1, 8),
                forall|w: IVec3| #[trigger] density_at(*self, w) == imported_density(model.voxels@.take(i as int), origin, w, density_at(w0, w)),
                forall|w: IVec3| #[trigger] material_at(*self, w) == imported_material(model.voxels@.take(i as int), origin, w, material_at(w0, w)),
                self.palette == w0.palette,
                self.dynamic_components == w0.dynamic_components,
                forall|x: u128| #[trigger] seen@.contains(x) <==> exists|j: int| 0 <= j < dirty_bricks@.len()
                    && spec_brick_key((#[trigger] dirty_bricks@[j]).0, dirty_bricks@[j].1) == x,
                forall|j: int| 0 <= j < dirty_bricks@.len() ==> touched(model.voxels@.take(i as int), origin, spec_coord_key((#[trigger] dirty_bricks@[j]).0)),
                forall|k: u128| #[trigger] self.chunks@.contains_key(k) <==> w0.chunks@.contains_key(k)
                    || touched(model.voxels@.take(i as int), origin, k),
                forall|k: u128| w0.chunks@.contains_key(k) && !touched(model.voxels@.take(i as int), origin, k)
                    ==> #[trigger] self.chunks@[k] == w0.chunks@[k],
                pool_kept(w0, *self),
            decreases model.voxels@.len() - i,
        {
            let voxel = model.voxels[i];
            let world = IVec3::new(origin.x + voxel.x as i32, origin.y + voxel.z as i32, origin.z + voxel.y as i32);
            assert(world == vox_position(origin, voxel));
            let ghost w1 = *self;
            let ghost d0 = dirty_bricks@;
            self.store_voxel(world, i8::MAX, voxel.color_index);
            proof {
                lemma_frame_kept(w1, *self);
                lemma_pool_kept_trans(w0, w1, *self);
            }
            let (chunk_coord, local_voxel) = chunk_local_from_voxel(world, CHUNK_SIZE);
            let (brick_coord, in_brick) = brick_local_from_voxel(local_voxel, BRICK_SIZE);
            proof {
                lemma_locate(world);
                assert(chunk_coord == chunk_of(world) && brick_coord == brick_of(world));
            }
            let key = brick_key(chunk_coord, brick_coord);
            let found = seen.contains(&key);
            proof {
                if found {
                    let j = choose|j: int| 0 <= j < d0.len() && spec_brick_key((#[trigger] d0[j]).0, d0[j].1) == key;
                    lemma_brick_key_injective(d0[j].0, d0[j].1, chunk_coord, brick_coord);
                    assert(d0[j] == (chunk_coord, brick_coord));
                }
            }
            if !found {
                dirty_bricks.push((chunk_coord, brick_coord));
                seen.insert(key);
                proof {
                    assert(dirty_bricks@.last() == (chunk_coord, brick_coord));
                    assert forall|x: u128| #[trigger] seen@.contains(x) <==> exists|j: int| 0 <= j < dirty_bricks@.len()
                        && spec_brick_key((#[trigger] dirty_bricks@[j]).0, dirty_bricks@[j].1) == x by {
                        if x == key {
                            assert(dirty_bricks@[d0.len() as int] == (chunk_coord, brick_coord));
                        } else if seen@.contains(x) {
                            let j = choose|j: int| 0 <= j < d0.len() && spec_brick_key((#[trigger] d0[j]).0, d0[j].1) == x;
                            assert(dirty_bricks@[j] == d0[j]);
                        } else if exists|j: int| 0 <= j < dirty_bricks@.len() && spec_brick_key((#[trigger] dirty_bricks@[j]).0, dirty_bricks@[j].1) == x {
                            let j = choose|j: int| 0 <= j < dirty_bricks@.len() && spec_brick_key((#[trigger] dirty_bricks@[j]).0, dirty_bricks@[j].1) == x;
                            assert(j < d0.len());
                            assert(dirty_bricks@[j] == d0[j]);
                        }
                    }
                }
            }
            proof {
                if w0.summaries_fresh() {
                    if !found {
                        lemma_fresh_except_push(w1, d0, (chunk_coord, brick_coord));
                    }
                    assert(fresh_except(w1, dirty_bricks@));
                    assert(dirty_bricks@.contains((chunk_of(world), brick_of(world))));
                    assert(fresh_except(*self, dirty_bricks@));
                }
            }
            proof {
                let t0 = model.voxels@.take(i as int);
                let t1 = model.voxels@.take(i as int + 1);
                assert(t1.drop_last() =~= t0);
                assert(t1.last() == voxel);
                let wkey = spec_coord_key(chunk_of(world));
                assert forall|k: u128| touched(t1, origin, k) <==> touched(t0, origin, k) || k == wkey by {
                    if touched(t1, origin, k) {
                        let j = choose|j: int| 0 <= j < t1.len() && spec_coord_key(chunk_of(vox_position(origin, #[trigger] t1[j]))) == k;
                        if j < i {
                            assert(t0[j] == t1[j]);
                        }
                    }
                    if touched(t0, origin, k) {
                        let j = choose|j: int| 0 <= j < t0.len() && spec_coord_key(chunk_of(vox_position(origin, #[trigger] t0[j]))) == k;
                        assert(t1[j] == t0[j]);
                    }
                    if k == wkey {
                        assert(t1[i as int] == voxel);
                    }
                }
                assert forall|k: u128| #[trigger] self.chunks@.contains_key(k) <==> w0.chunks@.contains_key(k) || touched(t1, origin, k) by {
                    if k != wkey {
                        assert(w1.chunks@.remove(wkey).contains_key(k) == self.chunks@.remove(wkey).contains_key(k));
                    }
                }
                assert forall|k: u128| w0.chunks@.contains_key(k) && !touched(t1, origin, k) implies #[trigger] self.chunks@[k] == w0.chunks@[k] by {
                    assert(w1.chunks@.remove(wkey)[k] == self.chunks@.remove(wkey)[k]);
                }
                assert forall|j: int| 0 <= j < dirty_bricks@.len() implies touched(t1, origin, spec_coord_key((#[trigger] dirty_bricks@[j]).0)) by {
                    if j < d0.len() {
                        assert(dirty_bricks@[j] == d0[j]);
                    }
                }
                assert forall|w: IVec3| #[trigger] density_at(*self, w) == imported_density(t1, origin, w, density_at(w0, w))
                    && material_at(*self, w) == imported_material(t1, origin, w, material_at(w0, w)) by {
                    if w != world {
                        assert(density_at(*self, w) == density_at(w1, w));
                        assert(material_at(*self, w) == material_at(w1, w));
                    }
                }
            }
            i += 1;
        }
        proof {
            assert(model.voxels@.take(model.voxels@.len() as int) =~= model.voxels@);
        }
        let ghost w2 = *self;
        proof {
            assert(dirty_bricks@.subrange(0, dirty_bricks@.len() as int) =~= dirty_bricks@);
        }
        let mut d: usize = 0;
        while d < dirty_bricks.len()
            invariant
                d <= dirty_bricks@.len(),
                self.wf(),
                w0.summaries_fresh() ==> fresh_except(*self, dirty_bricks@.subrange(d as int, dirty_bricks@.len() as int)),
                forall|j: int| 0 <= j < dirty_bricks@.len() ==> in_cube(#[trigger] dirty_bricks@[j].1, 8),
                self.brick_pool.bricks@.len() == w2.brick_pool.bricks@.len(),
                forall|w: IVec3| #[trigger] density_at(*self, w) == density_at(w2, w),
                forall|w: IVec3| #[trigger] material_at(*self, w) == material_at(w2, w),
                self.palette == w2.palette,
                self.dynamic_components == w2.dynamic_components,
                forall|j: int| 0 <= j < dirty_bricks@.len() ==> touched(model.voxels@, origin, spec_coord_key((#[trigger] dirty_bricks@[j]).0)),
                self.chunks@.dom() == w2.chunks@.dom(),
                forall|k: u128| w2.chunks@.contains_key(k) && !touched(model.voxels@, origin, k)
                    ==> #[trigger] self.chunks@[k] == w2.chunks@[k],
                pool_kept(w0, *self),
            decreases dirty_bricks@.len() - d,
        {
            let (chunk_coord, brick_coord) = dirty_bricks[d];
            let ghost rest = dirty_bricks@.subrange(d as int + 1, dirty_bricks@.len() as int);
            proof {
                assert(dirty_bricks@.subrange(d as int, dirty_bricks@.len() as int) =~= seq![(chunk_coord, brick_coord)] + rest);
            }
            let ghost w3 = *self;
            self.refresh_brick(chunk_coord, brick_coord);
            proof {
                lemma_pool_kept_trans(w0, w3, *self);
                assert(touched(model.voxels@, origin, spec_coord_key(dirty_bricks@[d as int].0)));
                assert forall|k: u128| w2.chunks@.contains_key(k) && !touched(model.voxels@, origin, k)
                    implies #[trigger] self.chunks@[k] == w2.chunks@[k] by {
                    assert(w3.chunks@.remove(spec_coord_key(chunk_coord))[k] == self.chunks@.remove(spec_coord_key(chunk_coord))[k]);
                }
                if w0.summaries_fresh() {
                    assert(fresh_except(*self, rest));
                }
            }
            d += 1;
        }
        proof {
            assert(dirty_bricks@.subrange(d as int, dirty_bricks@.len() as int) =~= Seq::<(IVec3, IVec3)>::empty());
            lemma_fresh_except_none(*self);
        }
    }

    /// Imports every model of a `.vox` file at `origin`, after taking the
    /// file's palette as the world's.
    pub fn import_vox_file(&mut self, vox: &VoxFile, origin: VoxelCoord)
        requires
            old(self).wf(),
            vox_origin_ok(origin),
            old(self).brick_pool.bricks@.len() + vox_voxel_count(vox.models@) < usize::MAX,
        ensures
            final(self).wf(),
            final(self).palette == vox.palette,
            final(self).dynamic_components == old(self).dynamic_components,
            forall|w: IVec3| #[trigger] density_at(*final(self), w) == imported_density_models(vox.models@, origin, w, density_at(*old(self), w)),
            forall|w: IVec3| #[trigger] material_at(*final(self), w) == imported_material_models(vox.models@, origin, w, material_at(*old(self), w)),
            old(self).summaries_fresh() ==> final(self).summaries_fresh(),
            forall|k: u128| #[trigger] final(self).chunks@.contains_key(k) <==> old(self).chunks@.contains_key(k)
                || touched_models(vox.models@, origin, k),
            forall|k: u128| old(self).chunks@.contains_key(k) && !touched_models(vox.models@, origin, k)
                ==> #[trigger] final(self).chunks@[k] == old(self).chunks@[k],
            pool_kept(*old(self), *final(self)),
    {
        let ghost w0 = *self;
        self.palette = vox.palette;
        proof {
            assert(pool_kept(w0, *self));
        }
        let mut i: usize = 0;
        while i < vox.models.len()
            invariant
                i <= vox.models@.len(),
                vox_origin_ok(origin),
                self.wf(),
                self.palette == vox.palette,
                self.dynamic_components == w0.dynamic_components,
                self.brick_pool.bricks@.len() <= w0.brick_pool.bricks@.len() + vox_voxel_count(vox.models@.take(i as int)),
                w0.brick_pool.bricks@.len() + vox_voxel_count(vox.models@) < usize::MAX,
                forall|w: IVec3| #[trigger] density_at(*self, w) == imported_density_models(vox.models@.take(i as int), origin, w, density_at(w0, w)),
                forall|w: IVec3| #[trigger] material_at(*self, w) == imported_material_models(vox.models@.take(i as int), origin, w, material_at(w0, w)),
                w0.summaries_fresh() ==> self.summaries_fresh(),
                forall|k: u128| #[trigger] self.chunks@.contains_key(k) <==> w0.chunks@.contains_key(k)
                    || touched_models(vox.models@.take(i as int), origin, k),
                forall|k: u128| w0.chunks@.contains_key(k) && !touched_models(vox.models@.take(i as int), origin, k)
                    ==> #[trigger] self.chunks@[k] == w0.chunks@[k],
                pool_kept(w0, *self),
            decreases vox.models@.len() - i,
        {
            proof {
                let t1 = vox.models@.take(i as int + 1);
                assert(t1.drop_last() =~= vox.models@.take(i as int));
                lemma_voxel_count_prefix(vox.models@, i as int + 1);
            }
            let ghost w1 = *self;
            self.import_vox_model(&vox.models[i], origin);
            proof {
                lemma_pool_kept_trans(w0, w1, *self);
                let t0 = vox.models@.take(i as int);
                let t1 = vox.models@.take(i as int + 1);
                let mv = vox.models@[i as int].voxels@;
                assert forall|k: u128| touched_models(t1, origin, k) <==> touched_models(t0, origin, k) || touched(mv, origin, k) by {
                    if touched_models(t1, origin, k) {
                        let m = choose|m: int| 0 <= m < t1.len() && touched((#[trigger] t1[m]).voxels@, origin, k);
                        if m < i {
                            assert(t0[m] == t1[m]);
                        }
                    }
                    if touched_models(t0, origin, k) {
                        let m = choose|m: int| 0 <= m < t0.len() && touched((#[trigger] t0[m]).voxels@, origin, k);
                        assert(t1[m] == t0[m]);
                    }
                    if touched(mv, origin, k) {
                        assert(t1[i as int] == vox.models@[i as int]);
                    }
                }
            }
            i += 1;
        }
        proof {
            assert(vox.models@.take(vox.models@.len() as int) =~= vox.models@);
        }
    }


    /// Moves the solid voxels among `voxels` out of the world into a new
    /// component (in world coordinates, with the identity placement): each
    /// listed voxel whose density is at least 0 keeps its density and
    /// material in the component and becomes empty in the world.
    pub fn detach_component(&mut self, voxels: &[VoxelCoord]) -> (component: DynamicComponent)
        requires
            old(self).wf(),
            old(self).brick_pool.bricks@.len() + voxels@.len() < usize::MAX,
        ensures
            final(self).wf(),
            old(self).summaries_fresh() ==> final(self).summaries_fresh(),
            component.wf_in(final(self).brick_pool),
            comp_disjoint(*final(self), component),
            component.summary_l0 == crate::svo::brick::empty_summary(),
            component.summary_l2@.len() == 0,
            component.summary_l1@.len() == 0,
            forall|w: IVec3| #[trigger] density_at(*final(self), w) == if detached(voxels@, *old(self), w) {
                i8::MIN
            } else {
                density_at(*old(self), w)
            },
            forall|w: IVec3| #[trigger] material_at(*final(self), w) == if detached(voxels@, *old(self), w) {
                0u8
            } else {
                material_at(*old(self), w)
            },
            forall|w: IVec3| #[trigger] comp_density_at(component, final(self).brick_pool.bricks@, w) == if detached(
                voxels@,
                *old(self),
                w,
            ) {
                density_at(*old(self), w)
            } else {
                i8::MIN
            },
            forall|w: IVec3| #[trigger] comp_material_at(component, final(self).brick_pool.bricks@, w) == if detached(
                voxels@,
                *old(self),
                w,
            ) {
                material_at(*old(self), w)
            } else {
                0u8
            },
            final(self).palette == old(self).palette,
            final(self).dynamic_components == old(self).dynamic_components,
            pool_kept(*old(self), *final(self)),
    {
        let ghost w0 = *self;
        let mut component = DynamicComponent::new();
        proof {
            lemma_pool_kept_refl(w0);
        }
        let mut i: usize = 0;
        while i < voxels.len()
            invariant
                i <= voxels@.len(),
                self.wf(),
                w0.summaries_fresh() ==> self.summaries_fresh(),
                component.wf_in(self.brick_pool),
                comp_disjoint(*self, component),
                self.brick_pool.bricks@.len() <= w0.brick_pool.bricks@.len() + i,
                w0.brick_pool.bricks@.len() + voxels@.len() < usize::MAX,
                self.palette == w0.palette,
                self.dynamic_components == w0.dynamic_components,
                detach_state(w0, *self, component, voxels@.take(i as int)),
                component.summary_l0 == crate::svo::brick::empty_summary(),
                component.summary_l2@.len() == 0,
                component.summary_l1@.len() == 0,
                pool_kept(w0, *self),
                comp_from(w0, component),
            decreases voxels@.len() - i,
        {
            let voxel = voxels[i];
            proof {
                lemma_locate(voxel);
            }
            let ghost s0 = *self;
            let ghost c0 = component;
            let ghost t0 = voxels@.take(i as int);
            let mut did = false;
            let (chunk_coord, local_voxel) = chunk_local_from_voxel(voxel, CHUNK_SIZE);
            let (brick_coord, in_brick) = brick_local_from_voxel(local_voxel, BRICK_SIZE);
            let brick_id = match self.chunks.get(&coord_key(chunk_coord)) {
                Some(chunk) => chunk.bricks[Chunk::brick_index(brick_coord)],
                None => None,
            };
            assert(brick_id == brick_id_at(*self, voxel));
            if let Some(brick_id) = brick_id {
                let idx = Brick::index(in_brick.x, in_brick.y, in_brick.z);
                let density = self.brick_pool.bricks[brick_id].density[idx];
                let material = self.brick_pool.bricks[brick_id].material[idx];
                if density >= 0 {
                    let ghost wa0 = *self;
                    let ghost c0 = component;
                    component.set_voxel(&mut self.brick_pool, voxel, density, material);
                    proof {
                        lemma_component_kept(w0, wa0, *self, c0, component, voxel);
                        lemma_component_step(wa0, *self, c0, component, voxel);
                        lemma_kept_wf(wa0, *self);
                        if w0.summaries_fresh() {
                            lemma_kept_summaries(wa0, *self);
                        }
                    }
                    let ghost wa = *self;
                    self.set_voxel(voxel, i8::MIN, 0);
                    proof {
                        lemma_frame_kept(wa, *self);
                        lemma_pool_kept_trans(w0, wa, *self);
                        lemma_after_world_write(wa, *self, component);
                    }
                    did = true;
                }
            }
            proof {
                lemma_detach_step(w0, s0, c0, *self, component, t0, voxel, did);
                assert(voxels@.take(i as int + 1) =~= t0.push(voxel));
            }
            i += 1;
        }
        proof {
            assert(voxels@.take(voxels@.len() as int) =~= voxels@);
        }
        component
    }

    /// Empties voxel `voxel`: density `i8::MIN`, material 0.
    pub fn remove_voxel(&mut self, voxel: VoxelCoord)
        requires
            old(self).wf(),
            old(self).brick_pool.bricks@.len() < usize::MAX,
        ensures
            final(self).wf(),
            density_at(*final(self), voxel) == i8::MIN,
            material_at(*final(self), voxel) == 0,
            voxel_write(*old(self), *final(self), (voxel, i8::MIN, 0u8)),
            old(self).summaries_fresh() ==> final(self).summaries_fresh(),
            final(self).chunks@.contains_key(spec_coord_key(chunk_of(voxel))),
            final(self).chunks@.remove(spec_coord_key(chunk_of(voxel))) == old(self).chunks@.remove(spec_coord_key(chunk_of(voxel))),
            pool_frame(*old(self), *final(self)),
            forall|w: IVec3| w != voxel ==> density_at(*final(self), w) == density_at(*old(self), w),
            forall|w: IVec3| w != voxel ==> material_at(*final(self), w) == material_at(*old(self), w),
            final(self).palette == old(self).palette,
            final(self).dynamic_components == old(self).dynamic_components,
    {
        self.set_voxel(voxel, i8::MIN, 0);
    }
}

} // verus!
