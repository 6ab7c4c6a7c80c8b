use vstd::prelude::*;
use std::collections::HashMap;
use crate::svo::brick::{
    Brick, BrickId, BrickState, BrickSummary, BRICK_SIZE, classify, empty_summary, fold_max, fold_max_d, fold_min_d,
    lemma_fold_max_bounds, lemma_fold_max_d_bounds, lemma_fold_min_d_bounds, summary_of, voxel_index,
};
use crate::svo::coords::{abs, key_coord, trunc_div};
use vstd::std_specs::iter::IteratorSpec;
use crate::svo::chunk::{grid_index, lemma_grid_index_bounds, lemma_grid_index_injective};
use crate::svo::coords::{
    IVec3, VoxelCoord, brick_local_from_voxel, coord_key, in_cube, lemma_coord_key_injective,
    lemma_div_floor_euclidean, lemma_key_coord, spec_coord_key, spec_div_floor, spec_key_coord,
    spec_split,
};
use crate::svo::pool::{BrickPool, allocated};

verus! {

broadcast use vstd::std_specs::hash::group_hash_axioms;

/// A free-floating body of voxels cut out of the world: its bricks, keyed by
/// `coord_key` of their brick coordinate, and the summaries over them
/// (level-2 cells of 2x2x2 bricks, level-1 cells of 2x2x2 level-2 cells,
/// and one level-0 summary). Its bricks live in the world's pool.
pub struct DynamicComponent {
    pub bricks: HashMap<u128, BrickId>,
    pub summary_l2: HashMap<u128, BrickSummary>,
    pub summary_l1: HashMap<u128, BrickSummary>,
    pub summary_l0: BrickSummary,
}

/// The brick of a component that holds voxel `v`.
pub open spec fn comp_brick_of(v: IVec3) -> IVec3 {
    spec_split(v, 8).0
}

/// Voxel `v`'s index in its brick's arrays.
pub open spec fn comp_cell_of(v: IVec3) -> int {
    grid_index(spec_split(v, 8).1, 8)
}

/// The id of the component brick that holds voxel `v`, if there is one.
pub open spec fn comp_brick_id_at(c: DynamicComponent, v: IVec3) -> Option<BrickId> {
    let k = spec_coord_key(comp_brick_of(v));
    if c.bricks@.contains_key(k) { Some(c.bricks@[k]) } else { None }
}

/// The density of voxel `v` of a component whose bricks are in `bricks`:
/// `i8::MIN` where it has no brick.
pub open spec fn comp_density_at(c: DynamicComponent, bricks: Seq<Brick>, v: IVec3) -> i8 {
    match comp_brick_id_at(c, v) {
        Some(id) => bricks[id as int].density@[comp_cell_of(v)],
        None => i8::MIN,
    }
}

/// The material of voxel `v` of a component: 0 where it has no brick.
pub open spec fn comp_material_at(c: DynamicComponent, bricks: Seq<Brick>, v: IVec3) -> u8 {
    match comp_brick_id_at(c, v) {
        Some(id) => bricks[id as int].material@[comp_cell_of(v)],
        None => 0u8,
    }
}

pub proof fn lemma_comp_locate(v: IVec3)
    ensures
        in_cube(spec_split(v, 8).1, 8),
        0 <= comp_cell_of(v) < 512,
        v.x == comp_brick_of(v).x * 8 + spec_split(v, 8).1.x,
        v.y == comp_brick_of(v).y * 8 + spec_split(v, 8).1.y,
        v.z == comp_brick_of(v).z * 8 + spec_split(v, 8).1.z,
{
    lemma_comp_split_axis(v.x);
    lemma_comp_split_axis(v.y);
    lemma_comp_split_axis(v.z);
    lemma_grid_index_bounds(spec_split(v, 8).1, 8);
}

proof fn lemma_comp_split_axis(a: i32)
    ensures
        spec_div_floor(a as int, 8).0 == (spec_div_floor(a as int, 8).0 as i32) as int,
        0 <= spec_div_floor(a as int, 8).1 < 8,
        a == spec_div_floor(a as int, 8).0 * 8 + spec_div_floor(a as int, 8).1,
{
    lemma_div_floor_euclidean(a as int, 8);
}

/// Two voxels in the same brick and cell are the same voxel.
pub proof fn lemma_comp_locate_injective(v: IVec3, w: IVec3)
    requires
        spec_coord_key(comp_brick_of(v)) == spec_coord_key(comp_brick_of(w)),
        comp_cell_of(v) == comp_cell_of(w),
    ensures
        v == w,
{
    lemma_comp_locate(v);
    lemma_comp_locate(w);
    lemma_coord_key_injective(comp_brick_of(v), comp_brick_of(w));
    lemma_grid_index_injective(spec_split(v, 8).1, spec_split(w, 8).1, 8);
}


/// Half of coordinate `c`, each axis divided by 2 toward zero: the cell of
/// the next coarser level that holds `c`.
pub open spec fn half(c: IVec3) -> IVec3 {
    IVec3 { x: trunc_div(c.x as int, 2) as i32, y: trunc_div(c.y as int, 2) as i32, z: trunc_div(c.z as int, 2) as i32 }
}

/// The key of the cell of the next coarser level that holds the cell of key `k`.
pub open spec fn parent_key(k: u128) -> u128 {
    spec_coord_key(half(spec_key_coord(k)))
}

/// Whether `s` summarizes the entries of `m` whose parent is `c`: its
/// minimum and maximum are the least and greatest among them, and its state
/// is theirs.
pub open spec fn summarizes_group(s: BrickSummary, m: Map<u128, BrickSummary>, c: u128) -> bool {
    &&& forall|k: u128| #[trigger] m.contains_key(k) && parent_key(k) == c ==> s.min_d <= m[k].min_d && m[k].max_d <= s.max_d
    &&& exists|k: u128| #[trigger] m.contains_key(k) && parent_key(k) == c && m[k].min_d == s.min_d
    &&& exists|k: u128| #[trigger] m.contains_key(k) && parent_key(k) == c && m[k].max_d == s.max_d
    &&& s.state == classify(s.min_d, s.max_d)
}

/// Whether `r` holds, for each parent cell of the entries of `m`, the
/// summary of the entries under it, and nothing else.
pub open spec fn grouped_by_parent(r: Map<u128, BrickSummary>, m: Map<u128, BrickSummary>) -> bool {
    &&& forall|c: u128| #[trigger] r.contains_key(c) <==> exists|k: u128| #[trigger] m.contains_key(k) && parent_key(k) == c
    &&& forall|c: u128| #[trigger] r.contains_key(c) ==> summarizes_group(r[c], m, c)
}

/// Whether `s` summarizes all the entries of `m`: the empty summary for none.
pub open spec fn summarizes_all(s: BrickSummary, m: Map<u128, BrickSummary>) -> bool {
    if m.dom() == Set::<u128>::empty() {
        s == empty_summary()
    } else {
        &&& forall|k: u128| #[trigger] m.contains_key(k) ==> s.min_d <= m[k].min_d && m[k].max_d <= s.max_d
        &&& exists|k: u128| #[trigger] m.contains_key(k) && m[k].min_d == s.min_d
        &&& exists|k: u128| #[trigger] m.contains_key(k) && m[k].max_d == s.max_d
        &&& s.state == classify(s.min_d, s.max_d)
    }
}

/// The summary of each brick of the component, by key.
pub open spec fn brick_summaries(c: DynamicComponent, bricks: Seq<Brick>) -> Map<u128, BrickSummary> {
    Map::new(|k: u128| c.bricks@.contains_key(k), |k: u128| bricks[c.bricks@[k] as int].summary)
}

/// Whether `e` lists the entries of `m`, each key once.
pub open spec fn lists(e: Seq<(u128, BrickSummary)>, m: Map<u128, BrickSummary>) -> bool {
    &&& forall|i: int, j: int| 0 <= i < j < e.len() ==> (#[trigger] e[i]).0 != (#[trigger] e[j]).0
    &&& forall|i: int| 0 <= i < e.len() ==> m.contains_key((#[trigger] e[i]).0) && m[e[i].0] == e[i].1
    &&& forall|k: u128| #[trigger] m.contains_key(k) ==> exists|i: int| 0 <= i < e.len() && (#[trigger] e[i]).0 == k
}

/// `grouped_by_parent` over a list of entries.
pub open spec fn grouped_seq(r: Map<u128, BrickSummary>, e: Seq<(u128, BrickSummary)>) -> bool {
    &&& forall|c: u128| #[trigger] r.contains_key(c) <==> exists|i: int| 0 <= i < e.len() && parent_key((#[trigger] e[i]).0) == c
    &&& forall|c: u128| #[trigger] r.contains_key(c) ==> {
        &&& forall|i: int| 0 <= i < e.len() && parent_key((#[trigger] e[i]).0) == c ==> r[c].min_d <= e[i].1.min_d && e[i].1.max_d <= r[c].max_d
        &&& exists|i: int| 0 <= i < e.len() && parent_key((#[trigger] e[i]).0) == c && e[i].1.min_d == r[c].min_d
        &&& exists|i: int| 0 <= i < e.len() && parent_key((#[trigger] e[i]).0) == c && e[i].1.max_d == r[c].max_d
        &&& r[c].state == classify(r[c].min_d, r[c].max_d)
    }
}

proof fn lemma_grouped_seq_map(r: Map<u128, BrickSummary>, e: Seq<(u128, BrickSummary)>, m: Map<u128, BrickSummary>)
    requires
        grouped_seq(r, e),
        lists(e, m),
    ensures
        grouped_by_parent(r, m),
{
    assert forall|c: u128| #[trigger] r.contains_key(c) <==> exists|k: u128| #[trigger] m.contains_key(k) && parent_key(k) == c by {
        if r.contains_key(c) {
            let i = choose|i: int| 0 <= i < e.len() && parent_key((#[trigger] e[i]).0) == c;
            assert(m.contains_key(e[i].0));
        }
        if exists|k: u128| #[trigger] m.contains_key(k) && parent_key(k) == c {
            let k = choose|k: u128| #[trigger] m.contains_key(k) && parent_key(k) == c;
            let i = choose|i: int| 0 <= i < e.len() && (#[trigger] e[i]).0 == k;
            assert(parent_key(e[i].0) == c);
        }
    }
    assert forall|c: u128| #[trigger] r.contains_key(c) implies summarizes_group(r[c], m, c) by {
        assert forall|k: u128| #[trigger] m.contains_key(k) && parent_key(k) == c implies r[c].min_d <= m[k].min_d && m[k].max_d <= r[c].max_d by {
            let i = choose|i: int| 0 <= i < e.len() && (#[trigger] e[i]).0 == k;
            assert(parent_key(e[i].0) == c);
        }
        let i = choose|i: int| 0 <= i < e.len() && parent_key((#[trigger] e[i]).0) == c && e[i].1.min_d == r[c].min_d;
        assert(m.contains_key(e[i].0) && parent_key(e[i].0) == c && m[e[i].0].min_d == r[c].min_d);
        let j = choose|j: int| 0 <= j < e.len() && parent_key((#[trigger] e[j]).0) == c && e[j].1.max_d == r[c].max_d;
        assert(m.contains_key(e[j].0) && parent_key(e[j].0) == c && m[e[j].0].max_d == r[c].max_d);
    }
}

/// Half of `c`, each axis divided by 2 toward zero.
fn half_of(c: IVec3) -> (h: IVec3)
    ensures
        h == half(c),
{
    let h = IVec3::new(c.x / 2, c.y / 2, c.z / 2);
    assert(c.x >= 0 ==> h.x == c.x / 2);
    assert(c.x < 0 ==> h.x == -((-(c.x as int)) / 2));
    assert(c.y >= 0 ==> h.y == c.y / 2);
    assert(c.y < 0 ==> h.y == -((-(c.y as int)) / 2));
    assert(c.z >= 0 ==> h.z == c.z / 2);
    assert(c.z < 0 ==> h.z == -((-(c.z as int)) / 2));
    h
}

/// The groups after the first `i` entries: one per parent cell met so far,
/// holding the values of the entries under it.
pub open spec fn groups_ok(g: Map<u128, Vec<BrickSummary>>, e: Seq<(u128, BrickSummary)>, i: int) -> bool {
    &&& forall|c: u128| #[trigger] g.contains_key(c) <==> exists|j: int| 0 <= j < i && parent_key((#[trigger] e[j]).0) == c
    &&& forall|c: u128| #[trigger] g.contains_key(c) ==> g[c]@.len() > 0 && forall|x: BrickSummary| #[trigger] g[c]@.contains(x)
        <==> exists|j: int| 0 <= j < i && parent_key((#[trigger] e[j]).0) == c && e[j].1 == x
}

#[verifier::rlimit(50)]
proof fn lemma_group_step(g0: Map<u128, Vec<BrickSummary>>, g1: Map<u128, Vec<BrickSummary>>, e: Seq<(u128, BrickSummary)>, i: int, v0: Seq<BrickSummary>, vnew: Vec<BrickSummary>)
    requires
        0 <= i < e.len(),
        groups_ok(g0, e, i),
        g0.contains_key(parent_key(e[i].0)) ==> v0 == g0[parent_key(e[i].0)]@,
        !g0.contains_key(parent_key(e[i].0)) ==> v0 == Seq::<BrickSummary>::empty(),
        vnew@ == v0.push(e[i].1),
        g1 == g0.insert(parent_key(e[i].0), vnew),
    ensures
        groups_ok(g1, e, i + 1),
{
    let cell = parent_key(e[i].0);
    let summary = e[i].1;
    assert forall|c: u128| #[trigger] g1.contains_key(c) <==> exists|j: int| 0 <= j < i + 1 && parent_key((#[trigger] e[j]).0) == c by {
        if c == cell {
            assert(parent_key(e[i].0) == c);
        } else if exists|j: int| 0 <= j < i + 1 && parent_key((#[trigger] e[j]).0) == c {
            let j = choose|j: int| 0 <= j < i + 1 && parent_key((#[trigger] e[j]).0) == c;
            assert(j < i);
        }
    }
    assert forall|c: u128| #[trigger] g1.contains_key(c) implies g1[c]@.len() > 0 && forall|x: BrickSummary| #[trigger] g1[c]@.contains(x)
        <==> exists|j: int| 0 <= j < i + 1 && parent_key((#[trigger] e[j]).0) == c && e[j].1 == x by {
        if c == cell {
            assert forall|x: BrickSummary| #[trigger] g1[c]@.contains(x)
                <==> exists|j: int| 0 <= j < i + 1 && parent_key((#[trigger] e[j]).0) == c && e[j].1 == x by {
                let g = g1[c]@;
                if g.contains(x) {
                    let a = choose|a: int| 0 <= a < g.len() && g[a] == x;
                    if a == v0.len() {
                        assert(parent_key(e[i].0) == c && e[i].1 == x);
                    } else {
                        assert(v0[a] == x);
                        assert(v0.contains(x));
                        assert(g0.contains_key(c));
                        assert(g0[c]@.contains(x));
                        let j = choose|j: int| 0 <= j < i && parent_key((#[trigger] e[j]).0) == c && e[j].1 == x;
                        assert(0 <= j < i + 1);
                    }
                }
                if exists|j: int| 0 <= j < i + 1 && parent_key((#[trigger] e[j]).0) == c && e[j].1 == x {
                    let j = choose|j: int| 0 <= j < i + 1 && parent_key((#[trigger] e[j]).0) == c && e[j].1 == x;
                    if j == i {
                        assert(g[v0.len() as int] == x);
                    } else {
                        assert(g0.contains_key(c));
                        assert(g0[c]@.contains(x));
                        let a = choose|a: int| 0 <= a < v0.len() && v0[a] == x;
                        assert(g[a] == x);
                    }
                }
            }
        } else {
            assert(g0.contains_key(c));
            assert(g1[c] == g0[c]);
            assert forall|x: BrickSummary| #[trigger] g1[c]@.contains(x)
                <==> exists|j: int| 0 <= j < i + 1 && parent_key((#[trigger] e[j]).0) == c && e[j].1 == x by {
                if exists|j: int| 0 <= j < i + 1 && parent_key((#[trigger] e[j]).0) == c && e[j].1 == x {
                    let j = choose|j: int| 0 <= j < i + 1 && parent_key((#[trigger] e[j]).0) == c && e[j].1 == x;
                    assert(j < i);
                }
            }
        }
    }
}

/// Summarizes the entries `entries` by the parent cell of their keys.
fn summarize_by_parent(entries: &Vec<(u128, BrickSummary)>) -> (r: HashMap<u128, BrickSummary>)
    requires
        forall|i: int| 0 <= i < entries@.len() ==> (#[trigger] entries@[i]).0 == spec_coord_key(spec_key_coord(entries@[i].0)),
    ensures
        grouped_seq(r@, entries@),
        forall|c: u128| #[trigger] r@.contains_key(c) ==> c == spec_coord_key(spec_key_coord(c)),
{
    let ghost e = entries@;
    let mut groups: HashMap<u128, Vec<BrickSummary>> = HashMap::new();
    let mut i: usize = 0;
    while i < entries.len()
        invariant
            i <= e.len(),
            entries@ == e,
            forall|j: int| 0 <= j < e.len() ==> (#[trigger] e[j]).0 == spec_coord_key(spec_key_coord(e[j].0)),
            groups_ok(groups@, e, i as int),
        decreases e.len() - i,
    {
        let (k, summary) = entries[i];
        let cell = coord_key(half_of(key_coord(k)));
        assert(cell == parent_key(k));
        let ghost g0 = groups@;
        let mut v = match groups.remove(&cell) {
            Some(v) => v,
            None => Vec::new(),
        };
        let ghost v0 = v@;
        v.push(summary);
        let ghost vnew = v;
        let ghost g_mid = groups@;
        groups.insert(cell, v);
        proof {
            assert(g_mid =~= g0.remove(cell));
            assert(groups@ =~= g0.insert(cell, vnew));
            assert(e[i as int] == (k, summary));
            lemma_group_step(g0, groups@, e, i as int, v0, vnew);
        }
        i += 1;
    }
    let mut r: HashMap<u128, BrickSummary> = HashMap::new();
    let ghost ks = vstd::std_specs::hash::spec_keys_iter(&groups).remaining();
    for c in it: groups.keys()
        invariant
            it.seq() == ks,
            ks.unref().to_set() == groups@.dom(),
            ks.no_duplicates(),
            forall|x: u128| #[trigger] r@.contains_key(x) <==> exists|j: int| 0 <= j < it.index() && *ks[j] == x,
            forall|x: u128| #[trigger] r@.contains_key(x) ==> groups@.contains_key(x) && r@[x] == summary_of(groups@[x]@),
    {
        let ghost idx = it.index();
        assert(*ks[idx] == *c);
        assert(ks.unref().contains(*c)) by {
            assert(ks.unref()[idx] == *c);
        }
        let cell = *c;
        match groups.get(&cell) {
            Some(v) => {
                r.insert(cell, BrickSummary::from_children(v.as_slice()));
            },
            None => {},
        }
        proof {
            assert forall|x: u128| #[trigger] r@.contains_key(x) <==> exists|j: int| 0 <= j < idx + 1 && *ks[j] == x by {
                if x == cell {
                    assert(*ks[idx] == x);
                }
            }
        }
    }
    proof {
        assert forall|c: u128| #[trigger] r@.contains_key(c) <==> groups@.contains_key(c) by {
            if groups@.contains_key(c) {
                assert(ks.unref().to_set().contains(c));
                let j = choose|j: int| 0 <= j < ks.unref().len() && ks.unref()[j] == c;
                assert(*ks[j] == c);
            }
        }
        assert forall|c: u128| #[trigger] r@.contains_key(c) implies {
            &&& forall|i: int| 0 <= i < e.len() && parent_key((#[trigger] e[i]).0) == c ==> r@[c].min_d <= e[i].1.min_d && e[i].1.max_d <= r@[c].max_d
            &&& exists|i: int| 0 <= i < e.len() && parent_key((#[trigger] e[i]).0) == c && e[i].1.min_d == r@[c].min_d
            &&& exists|i: int| 0 <= i < e.len() && parent_key((#[trigger] e[i]).0) == c && e[i].1.max_d == r@[c].max_d
            &&& r@[c].state == classify(r@[c].min_d, r@[c].max_d)
        } by {
            let g = groups@[c]@;
            lemma_fold_min_d_bounds(g);
            lemma_fold_max_d_bounds(g);
            assert forall|i: int| 0 <= i < e.len() && parent_key((#[trigger] e[i]).0) == c implies r@[c].min_d <= e[i].1.min_d && e[i].1.max_d <= r@[c].max_d by {
                assert(g.contains(e[i].1));
                let a = choose|a: int| 0 <= a < g.len() && g[a] == e[i].1;
            }
            let a = choose|a: int| 0 <= a < g.len() && fold_min_d(g) == #[trigger] g[a].min_d;
            assert(g.contains(g[a]));
            let b = choose|b: int| 0 <= b < g.len() && fold_max_d(g) == #[trigger] g[b].max_d;
            assert(g.contains(g[b]));
        }
        assert forall|c: u128| #[trigger] r@.contains_key(c) implies c == spec_coord_key(spec_key_coord(c)) by {
            let j = choose|j: int| 0 <= j < e.len() && parent_key((#[trigger] e[j]).0) == c;
            lemma_key_coord(half(spec_key_coord(e[j].0)));
        }
    }
    r
}

/// The entries of `m`, each key once.
fn entries_of(m: &HashMap<u128, BrickSummary>) -> (e: Vec<(u128, BrickSummary)>)
    ensures
        lists(e@, m@),
{
    let mut e: Vec<(u128, BrickSummary)> = Vec::new();
    let ghost ks = vstd::std_specs::hash::spec_keys_iter(m).remaining();
    for k in it: m.keys()
        invariant
            it.seq() == ks,
            ks.unref().to_set() == m@.dom(),
            ks.no_duplicates(),
            e@.len() == it.index(),
            forall|j: int| 0 <= j < it.index() ==> (#[trigger] e@[j]).0 == *ks[j] && m@.contains_key(e@[j].0)
                && e@[j].1 == m@[e@[j].0],
    {
        let ghost idx = it.index();
        assert(*ks[idx] == *k);
        assert(ks.unref().contains(*k)) by {
            assert(ks.unref()[idx] == *k);
        }
        match m.get(k) {
            Some(s) => e.push((*k, *s)),
            None => {},
        }
    }
    proof {
        lemma_lists_from_keys(e@, m@, ks.unref());
    }
    e
}

proof fn lemma_lists_from_keys(e: Seq<(u128, BrickSummary)>, m: Map<u128, BrickSummary>, ks: Seq<u128>)
    requires
        ks.to_set() == m.dom(),
        ks.no_duplicates(),
        e.len() == ks.len(),
        forall|j: int| 0 <= j < ks.len() ==> (#[trigger] e[j]).0 == ks[j] && m.contains_key(e[j].0) && e[j].1 == m[e[j].0],
    ensures
        lists(e, m),
{
    assert forall|i: int, j: int| 0 <= i < j < e.len() implies (#[trigger] e[i]).0 != (#[trigger] e[j]).0 by {
        assert(ks[i] != ks[j]);
    }
    assert forall|k: u128| #[trigger] m.contains_key(k) implies exists|i: int| 0 <= i < e.len() && (#[trigger] e[i]).0 == k by {
        assert(ks.to_set().contains(k));
        let j = choose|j: int| 0 <= j < ks.len() && ks[j] == k;
        assert(e[j].0 == k);
    }
}

/// The values of a list of entries, in order.
fn entry_values(e: &Vec<(u128, BrickSummary)>) -> (v: Vec<BrickSummary>)
    ensures
        v@.len() == e@.len(),
        forall|j: int| 0 <= j < e@.len() ==> #[trigger] v@[j] == e@[j].1,
{
    let mut v: Vec<BrickSummary> = Vec::new();
    let mut i: usize = 0;
    while i < e.len()
        invariant
            i <= e@.len(),
            v@.len() == i,
            forall|j: int| 0 <= j < i ==> #[trigger] v@[j] == e@[j].1,
        decreases e@.len() - i,
    {
        v.push(e[i].1);
        i += 1;
    }
    v
}

/// The summary of the values of entries that list `m` summarizes all of `m`.
proof fn lemma_summarizes_all(e: Seq<(u128, BrickSummary)>, v: Seq<BrickSummary>, m: Map<u128, BrickSummary>)
    requires
        lists(e, m),
        v.len() == e.len(),
        forall|j: int| 0 <= j < e.len() ==> #[trigger] v[j] == e[j].1,
    ensures
        summarizes_all(summary_of(v), m),
{
    if e.len() == 0 {
        assert(m.dom() =~= Set::<u128>::empty()) by {
            assert forall|k: u128| !m.dom().contains(k) by {
                if m.contains_key(k) {
                    let i = choose|i: int| 0 <= i < e.len() && (#[trigger] e[i]).0 == k;
                }
            }
        }
    } else {
        assert(m.contains_key(e[0].0));
        assert(m.dom() != Set::<u128>::empty()) by {
            assert(m.dom().contains(e[0].0));
        }
        let s = summary_of(v);
        lemma_fold_min_d_bounds(v);
        lemma_fold_max_d_bounds(v);
        assert forall|k: u128| #[trigger] m.contains_key(k) implies s.min_d <= m[k].min_d && m[k].max_d <= s.max_d by {
            let i = choose|i: int| 0 <= i < e.len() && (#[trigger] e[i]).0 == k;
            assert(v[i] == e[i].1);
        }
        let a = choose|a: int| 0 <= a < v.len() && fold_min_d(v) == #[trigger] v[a].min_d;
        assert(v[a] == e[a].1);
        assert(m.contains_key(e[a].0) && m[e[a].0].min_d == s.min_d);
        let b = choose|b: int| 0 <= b < v.len() && fold_max_d(v) == #[trigger] v[b].max_d;
        assert(v[b] == e[b].1);
        assert(m.contains_key(e[b].0) && m[e[b].0].max_d == s.max_d);
    }
}

/// Each entry of `m` has its parent cell in `r`, with a maximum no greater.
pub open spec fn caps_max(r: Map<u128, BrickSummary>, m: Map<u128, BrickSummary>) -> bool {
    forall|k: u128| #[trigger] m.contains_key(k) ==> r.contains_key(parent_key(k)) && m[k].max_d <= r[parent_key(k)].max_d
}

/// Each maximum in `r` is the maximum of some entry of `m`.
pub open spec fn reaches_max(r: Map<u128, BrickSummary>, m: Map<u128, BrickSummary>) -> bool {
    forall|c: u128| #[trigger] r.contains_key(c) ==> exists|k: u128| #[trigger] m.contains_key(k) && m[k].max_d == r[c].max_d
}

/// A grouped map's maximum bounds each entry under it.
proof fn lemma_group_caps(r: Map<u128, BrickSummary>, m: Map<u128, BrickSummary>)
    requires
        grouped_by_parent(r, m),
    ensures
        caps_max(r, m),
{
    assert forall|k: u128| #[trigger] m.contains_key(k) implies r.contains_key(parent_key(k)) && m[k].max_d <= r[parent_key(k)].max_d by {
        assert(r.contains_key(parent_key(k)));
        assert(summarizes_group(r[parent_key(k)], m, parent_key(k)));
    }
}

/// A grouped map's maximum is reached by an entry under it.
proof fn lemma_group_reaches(r: Map<u128, BrickSummary>, m: Map<u128, BrickSummary>)
    requires
        grouped_by_parent(r, m),
    ensures
        reaches_max(r, m),
{
    assert forall|c: u128| #[trigger] r.contains_key(c) implies exists|k: u128| #[trigger] m.contains_key(k) && m[k].max_d == r[c].max_d by {
        assert(summarizes_group(r[c], m, c));
        let k = choose|k: u128| #[trigger] m.contains_key(k) && parent_key(k) == c && m[k].max_d == r[c].max_d;
        assert(m.contains_key(k) && m[k].max_d == r[c].max_d);
    }
}

/// Whether `b` holds, for each brick of `c`, a maximum that bounds the brick's
/// densities and is one of them.
pub open spec fn max_of_densities(c: DynamicComponent, bricks: Seq<Brick>, b: Map<u128, BrickSummary>) -> bool {
    &&& forall|k: u128| #[trigger] b.contains_key(k) <==> c.bricks@.contains_key(k)
    &&& forall|k: u128, i: int| #[trigger] c.bricks@.contains_key(k) && 0 <= i < 512
        ==> #[trigger] bricks[c.bricks@[k] as int].density@[i] <= b[k].max_d
    &&& forall|k: u128| #[trigger] c.bricks@.contains_key(k)
        ==> exists|i: int| 0 <= i < 512 && #[trigger] bricks[c.bricks@[k] as int].density@[i] == b[k].max_d
}

proof fn lemma_fresh_max(c: DynamicComponent, bricks: Seq<Brick>)
    requires
        forall|k: u128| #[trigger] c.bricks@.contains_key(k) ==> bricks[c.bricks@[k] as int].summary_fresh(),
    ensures
        max_of_densities(c, bricks, brick_summaries(c, bricks)),
{
    let b = brick_summaries(c, bricks);
    assert forall|k: u128| #[trigger] c.bricks@.contains_key(k) implies
        (forall|i: int| 0 <= i < 512 ==> #[trigger] bricks[c.bricks@[k] as int].density@[i] <= b[k].max_d)
        && exists|i: int| 0 <= i < 512 && #[trigger] bricks[c.bricks@[k] as int].density@[i] == b[k].max_d by {
        let d = bricks[c.bricks@[k] as int].density@;
        assert(bricks[c.bricks@[k] as int].summary_fresh());
        lemma_fold_max_bounds(d);
    }
}

proof fn lemma_chain_caps(c: DynamicComponent, bricks: Seq<Brick>, b: Map<u128, BrickSummary>, l2: Map<u128, BrickSummary>, l1: Map<u128, BrickSummary>, s: BrickSummary)
    requires
        max_of_densities(c, bricks, b),
        caps_max(l2, b),
        caps_max(l1, l2),
        summarizes_all(s, l1),
    ensures
        (s.state == BrickState::Empty) ==> forall|k: u128, i: int|
            #[trigger] c.bricks@.contains_key(k) && 0 <= i < 512 ==> #[trigger] bricks[c.bricks@[k] as int].density@[i] < 0,
{
    if s.state == BrickState::Empty {
        assert forall|k: u128, i: int| #[trigger] c.bricks@.contains_key(k) && 0 <= i < 512
            implies #[trigger] bricks[c.bricks@[k] as int].density@[i] < 0 by {
            assert(b.contains_key(k));
            assert(l2.contains_key(parent_key(k)));
            assert(l1.contains_key(parent_key(parent_key(k))));
            assert(l1.dom().contains(parent_key(parent_key(k))));
        }
    }
}

proof fn lemma_chain_reaches(c: DynamicComponent, bricks: Seq<Brick>, b: Map<u128, BrickSummary>, l2: Map<u128, BrickSummary>, l1: Map<u128, BrickSummary>, s: BrickSummary)
    requires
        max_of_densities(c, bricks, b),
        reaches_max(l2, b),
        reaches_max(l1, l2),
        summarizes_all(s, l1),
    ensures
        (forall|k: u128, i: int| #[trigger] c.bricks@.contains_key(k) && 0 <= i < 512
            ==> #[trigger] bricks[c.bricks@[k] as int].density@[i] < 0) ==> s.state == BrickState::Empty,
{
    if l1.dom() != Set::<u128>::empty() {
        if forall|k: u128, i: int| #[trigger] c.bricks@.contains_key(k) && 0 <= i < 512
            ==> #[trigger] bricks[c.bricks@[k] as int].density@[i] < 0 {
            let c1 = choose|k: u128| #[trigger] l1.contains_key(k) && l1[k].max_d == s.max_d;
            let c2 = choose|k: u128| #[trigger] l2.contains_key(k) && l2[k].max_d == l1[c1].max_d;
            let k = choose|k: u128| #[trigger] b.contains_key(k) && b[k].max_d == l2[c2].max_d;
            assert(c.bricks@.contains_key(k));
            let i = choose|i: int| 0 <= i < 512 && #[trigger] bricks[c.bricks@[k] as int].density@[i] == b[k].max_d;
        }
    }
}

/// Once the summaries are rebuilt over bricks whose own summaries are fresh,
/// the component counts as empty (its level-0 state is `Empty`) exactly when
/// every voxel of every one of its bricks has a negative density.
pub proof fn lemma_rebuilt_empty_iff_no_solid(c: DynamicComponent, bricks: Seq<Brick>)
    requires
        forall|k: u128| #[trigger] c.bricks@.contains_key(k) ==> bricks[c.bricks@[k] as int].summary_fresh(),
        grouped_by_parent(c.summary_l2@, brick_summaries(c, bricks)),
        grouped_by_parent(c.summary_l1@, c.summary_l2@),
        summarizes_all(c.summary_l0, c.summary_l1@),
    ensures
        (c.summary_l0.state == BrickState::Empty) <==> forall|k: u128, i: int|
            #[trigger] c.bricks@.contains_key(k) && 0 <= i < 512 ==> #[trigger] bricks[c.bricks@[k] as int].density@[i] < 0,
{
    let b = brick_summaries(c, bricks);
    lemma_fresh_max(c, bricks);
    assert((c.summary_l0.state == BrickState::Empty) ==> forall|k: u128, i: int|
        #[trigger] c.bricks@.contains_key(k) && 0 <= i < 512 ==> #[trigger] bricks[c.bricks@[k] as int].density@[i] < 0) by {
        lemma_group_caps(c.summary_l2@, b);
        lemma_group_caps(c.summary_l1@, c.summary_l2@);
        lemma_chain_caps(c, bricks, b, c.summary_l2@, c.summary_l1@, c.summary_l0);
    }
    assert((forall|k: u128, i: int| #[trigger] c.bricks@.contains_key(k) && 0 <= i < 512
        ==> #[trigger] bricks[c.bricks@[k] as int].density@[i] < 0) ==> c.summary_l0.state == BrickState::Empty) by {
        lemma_group_reaches(c.summary_l2@, b);
        lemma_group_reaches(c.summary_l1@, c.summary_l2@);
        lemma_chain_reaches(c, bricks, b, c.summary_l2@, c.summary_l1@, c.summary_l0);
    }
}

impl DynamicComponent {
    /// The component's bricks lie in `pool`, off its free list, each used
    /// once, under keys that `coord_key` made.
    pub open spec fn wf_in(&self, pool: BrickPool) -> bool {
        &&& forall|k: u128| self.bricks@.contains_key(k) ==> k == spec_coord_key(spec_key_coord(k))
        &&& forall|k: u128| #[trigger] self.bricks@.contains_key(k) ==> {
            &&& self.bricks@[k] < pool.bricks@.len()
            &&& !pool.free_ids().contains(self.bricks@[k])
        }
        &&& forall|k1: u128, k2: u128|
            self.bricks@.contains_key(k1) && self.bricks@.contains_key(k2) && #[trigger] self.bricks@[k1]
                == #[trigger] self.bricks@[k2] ==> k1 == k2
    }

    /// A component without bricks.
    pub fn new() -> (c: Self)
        ensures
            c.bricks@.len() == 0,
            c.summary_l2@.len() == 0,
            c.summary_l1@.len() == 0,
            c.summary_l0 == crate::svo::brick::empty_summary(),
            forall|p: BrickPool| c.wf_in(p),
    {
        Self {
            bricks: HashMap::new(),
            summary_l2: HashMap::new(),
            summary_l1: HashMap::new(),
            summary_l0: BrickSummary::empty(),
        }
    }

    /// Sets voxel `voxel` (in component coordinates) to `density` and
    /// `material`, taking a brick from `pool` if the component has none there,
    /// and refreshes that brick's summary.
    #[verifier::rlimit(50)]
    pub fn set_voxel(&mut self, pool: &mut BrickPool, voxel: VoxelCoord, density: i8, material: u8)
        requires
            old(self).wf_in(*old(pool)),
            old(pool).wf(),
            old(pool).free_ids().no_duplicates(),
            old(pool).bricks@.len() < usize::MAX,
        ensures
            final(self).wf_in(*final(pool)),
            final(pool).wf(),
            final(pool).free_ids().no_duplicates(),
            final(self).summary_l2 == old(self).summary_l2,
            final(self).summary_l1 == old(self).summary_l1,
            final(self).summary_l0 == old(self).summary_l0,
            comp_density_at(*final(self), final(pool).bricks@, voxel) == density,
            comp_material_at(*final(self), final(pool).bricks@, voxel) == material,
            forall|w: IVec3| w != voxel ==> comp_density_at(*final(self), final(pool).bricks@, w)
                == comp_density_at(*old(self), old(pool).bricks@, w),
            forall|w: IVec3| w != voxel ==> comp_material_at(*final(self), final(pool).bricks@, w)
                == comp_material_at(*old(self), old(pool).bricks@, w),
            ({
                let id = final(self).bricks@[spec_coord_key(comp_brick_of(voxel))];
                &&& final(self).bricks@ == old(self).bricks@.insert(spec_coord_key(comp_brick_of(voxel)), id)
                &&& final(pool).bricks@.len() >= old(pool).bricks@.len()
                &&& forall|j: int| 0 <= j < old(pool).bricks@.len() && j != id ==> final(pool).bricks@[j] == old(pool).bricks@[j]
                &&& final(pool).bricks@[id as int].summary_fresh()
                &&& if old(self).bricks@.contains_key(spec_coord_key(comp_brick_of(voxel))) {
                    &&& id == old(self).bricks@[spec_coord_key(comp_brick_of(voxel))]
                    &&& final(pool).free_ids() == old(pool).free_ids()
                    &&& final(pool).bricks@.len() == old(pool).bricks@.len()
                } else {
                    allocated(*old(pool), *final(pool), id)
                        || ({
                            &&& final(pool).free_ids() == old(pool).free_ids().drop_last()
                            &&& old(pool).free_ids().len() > 0
                            &&& id == old(pool).free_ids().last()
                            &&& final(pool).bricks@.len() == old(pool).bricks@.len()
                        })
                        || ({
                            &&& final(pool).free_ids() == old(pool).free_ids()
                            &&& old(pool).free_ids().len() == 0
                            &&& id == old(pool).bricks@.len()
                            &&& final(pool).bricks@.len() == old(pool).bricks@.len() + 1
                        })
                }
            }),
    {
        proof {
            lemma_comp_locate(voxel);
        }
        let (brick_coord, in_brick) = brick_local_from_voxel(voxel, BRICK_SIZE);
        let key = coord_key(brick_coord);
        let ghost c0 = *self;
        let ghost p0 = *pool;
        let brick_id = match self.bricks.get(&key) {
            Some(id) => *id,
            None => {
                let id = pool.allocate();
                self.bricks.insert(key, id);
                id
            },
        };
        let ghost p1 = *pool;
        pool.bricks[brick_id].set_voxel(in_brick.x, in_brick.y, in_brick.z, density, material);
        pool.bricks[brick_id].recompute_summary();
        proof {
            lemma_key_coord(brick_coord);
            let c1 = *self;
            let p2 = *pool;
            let existed = c0.bricks@.contains_key(key);
            assert(c1.bricks@ == c0.bricks@.insert(key, brick_id));
            assert(p2.free_ids() == p1.free_ids());
            assert(p2.bricks@.len() == p1.bricks@.len());
            assert(existed ==> p1 == p0);
            assert(!existed ==> allocated(p0, p1, brick_id));
            assert(p2.free_ids().no_duplicates()) by {
                if !existed && p0.free_ids().len() > 0 {
                    assert forall|a: int, b: int| 0 <= a < b < p2.free_ids().len()
                        implies p2.free_ids()[a] != p2.free_ids()[b] by {
                        assert(p2.free_ids()[a] == p0.free_ids()[a]);
                        assert(p2.free_ids()[b] == p0.free_ids()[b]);
                    }
                }
            }
            if !existed {
                assert forall|k: u128| c0.bricks@.contains_key(k) implies c0.bricks@[k] != brick_id by {
                    if p0.free_ids().len() > 0 {
                        assert(p0.free_ids()[p0.free_ids().len() - 1] == brick_id);
                        assert(p0.free_ids().contains(brick_id));
                    }
                }
            }
            assert forall|k: u128| #[trigger] c1.bricks@.contains_key(k) implies {
                &&& c1.bricks@[k] < p2.bricks@.len()
                &&& !p2.free_ids().contains(c1.bricks@[k])
            } by {
                let x = c1.bricks@[k];
                if k != key || existed {
                    assert(c0.bricks@.contains_key(k));
                    assert(x == c0.bricks@[k]);
                    assert(x < p0.bricks@.len());
                    assert(!p0.free_ids().contains(x));
                    if p2.free_ids().contains(x) {
                        let j = choose|j: int| 0 <= j < p2.free_ids().len() && p2.free_ids()[j] == x;
                        assert(p0.free_ids()[j] == x);
                        assert(p0.free_ids().contains(x));
                    }
                } else {
                    assert(x == brick_id);
                    if p0.free_ids().len() > 0 {
                        if p2.free_ids().contains(brick_id) {
                            let j = choose|j: int| 0 <= j < p2.free_ids().len() && p2.free_ids()[j] == brick_id;
                            assert(p0.free_ids()[j] == p0.free_ids()[p0.free_ids().len() - 1]);
                            assert(j == p0.free_ids().len() - 1);
                        }
                    } else {
                        assert(p2.free_ids().len() == 0);
                    }
                }
                assert(x < p2.bricks@.len());
                assert(!p2.free_ids().contains(x));
            }
            assert forall|w: IVec3| w != voxel implies comp_density_at(c1, p2.bricks@, w) == comp_density_at(c0, p0.bricks@, w)
                && comp_material_at(c1, p2.bricks@, w) == comp_material_at(c0, p0.bricks@, w) by {
                lemma_comp_locate(w);
                let kw = spec_coord_key(comp_brick_of(w));
                if kw == key {
                    assert(comp_cell_of(w) != comp_cell_of(voxel)) by {
                        if comp_cell_of(w) == comp_cell_of(voxel) {
                            lemma_comp_locate_injective(w, voxel);
                        }
                    }
                } else if c0.bricks@.contains_key(kw) {
                    assert(c0.bricks@[kw] != brick_id);
                }
            }
        }
    }

    /// The summary of each of the component's bricks, by key, each key once.
    fn brick_entries(&self, pool: &BrickPool) -> (e: Vec<(u128, BrickSummary)>)
        requires
            self.wf_in(*pool),
        ensures
            lists(e@, brick_summaries(*self, pool.bricks@)),
    {
        let ghost m = brick_summaries(*self, pool.bricks@);
        let mut e: Vec<(u128, BrickSummary)> = Vec::new();
        let ghost ks = vstd::std_specs::hash::spec_keys_iter(&self.bricks).remaining();
        for k in it: self.bricks.keys()
            invariant
                it.seq() == ks,
                ks.unref().to_set() == self.bricks@.dom(),
                ks.no_duplicates(),
                self.wf_in(*pool),
                m == brick_summaries(*self, pool.bricks@),
                e@.len() == it.index(),
                forall|j: int| 0 <= j < it.index() ==> (#[trigger] e@[j]).0 == *ks[j] && m.contains_key(e@[j].0)
                    && e@[j].1 == m[e@[j].0],
        {
            let ghost idx = it.index();
            assert(*ks[idx] == *k);
            assert(ks.unref().contains(*k)) by {
                assert(ks.unref()[idx] == *k);
            }
            match self.bricks.get(k) {
                Some(id) => e.push((*k, pool.bricks[*id].summary)),
                None => {},
            }
        }
        proof {
            assert(m.dom() =~= self.bricks@.dom());
            lemma_lists_from_keys(e@, m, ks.unref());
        }
        e
    }

    /// Recomputes the level-2, level-1 and level-0 summaries from the
    /// summaries of the component's bricks.
    pub fn rebuild_summaries(&mut self, pool: &BrickPool)
        requires
            old(self).wf_in(*pool),
        ensures
            final(self).bricks == old(self).bricks,
            grouped_by_parent(final(self).summary_l2@, brick_summaries(*old(self), pool.bricks@)),
            grouped_by_parent(final(self).summary_l1@, final(self).summary_l2@),
            summarizes_all(final(self).summary_l0, final(self).summary_l1@),
    {
        let ghost m2 = brick_summaries(*self, pool.bricks@);
        let e2 = self.brick_entries(pool);
        proof {
            assert forall|i: int| 0 <= i < e2@.len() implies (#[trigger] e2@[i]).0 == spec_coord_key(spec_key_coord(e2@[i].0)) by {
                assert(self.bricks@.contains_key(e2@[i].0));
            }
        }
        let l2 = summarize_by_parent(&e2);
        proof {
            lemma_grouped_seq_map(l2@, e2@, m2);
        }
        let e1 = entries_of(&l2);
        proof {
            assert forall|i: int| 0 <= i < e1@.len() implies (#[trigger] e1@[i]).0 == spec_coord_key(spec_key_coord(e1@[i].0)) by {
                assert(l2@.contains_key(e1@[i].0));
            }
        }
        let l1 = summarize_by_parent(&e1);
        proof {
            lemma_grouped_seq_map(l1@, e1@, l2@);
        }
        let e0 = entries_of(&l1);
        let v0 = entry_values(&e0);
        let l0 = BrickSummary::from_children(v0.as_slice());
        proof {
            lemma_summarizes_all(e0@, v0@, l1@);
        }
        self.summary_l2 = l2;
        self.summary_l1 = l1;
        self.summary_l0 = l0;
    }

    /// Removes the component's brick at brick coordinate `coord`, if any,
    /// and gives it back to the pool.
    pub fn remove_brick(&mut self, coord: IVec3, pool: &mut BrickPool)
        requires
            old(self).wf_in(*old(pool)),
            old(pool).wf(),
        ensures
            final(self).bricks@ == old(self).bricks@.remove(spec_coord_key(coord)),
            final(self).summary_l2 == old(self).summary_l2,
            final(self).summary_l1 == old(self).summary_l1,
            final(self).summary_l0 == old(self).summary_l0,
            final(pool).wf(),
            final(pool).bricks == old(pool).bricks,
            old(self).bricks@.contains_key(spec_coord_key(coord)) ==> final(pool).free_ids() == old(pool).free_ids().push(
                old(self).bricks@[spec_coord_key(coord)],
            ),
            !old(self).bricks@.contains_key(spec_coord_key(coord)) ==> final(pool).free_ids() == old(pool).free_ids(),
            final(self).wf_in(*final(pool)),
    {
        let key = coord_key(coord);
        let ghost c0 = *self;
        if let Some(id) = self.bricks.remove(&key) {
            pool.release(id);
            proof {
                assert forall|k: u128| #[trigger] self.bricks@.contains_key(k) implies {
                    &&& self.bricks@[k] < pool.bricks@.len()
                    &&& !pool.free_ids().contains(self.bricks@[k])
                } by {
                    assert(c0.bricks@.contains_key(k));
                    assert(c0.bricks@[k] != id);
                    if pool.free_ids().contains(self.bricks@[k]) {
                        let j = choose|j: int| 0 <= j < pool.free_ids().len() && pool.free_ids()[j] == self.bricks@[k];
                        if j < pool.free_ids().len() - 1 {
                            assert(old(pool).free_ids()[j] == self.bricks@[k]);
                        }
                    }
                }
            }
        } else {
            assert(self.bricks@ =~= c0.bricks@.remove(key));
        }
    }

    /// The density of voxel `voxel` of the component, `i8::MIN` where it
    /// has no brick.
    pub fn sample_density(&self, pool: &BrickPool, voxel: VoxelCoord) -> (d: i8)
        requires
            self.wf_in(*pool),
        ensures
            d == comp_density_at(*self, pool.bricks@, voxel),
    {
        proof {
            lemma_comp_locate(voxel);
        }
        let (brick_coord, in_brick) = brick_local_from_voxel(voxel, BRICK_SIZE);
        if let Some(id) = self.bricks.get(&coord_key(brick_coord)) {
            let brick = &pool.bricks[*id];
            let idx = Brick::index(in_brick.x, in_brick.y, in_brick.z);
            return brick.density[idx];
        }
        i8::MIN
    }

    /// Whether the component holds no solid voxel, by its level-0 summary.
    pub fn is_empty(&self) -> (r: bool)
        ensures
            r == (self.summary_l0.state == BrickState::Empty),
    {
        self.summary_l0.state == BrickState::Empty
    }
}

} // verus!
