use vstd::prelude::*;
use crate::svo::brick::{
    Brick, BrickId, BrickState, BrickSummary, BRICK_SIZE, empty_summary, fold_max, fold_max_d, lemma_fold_max_bounds,
    lemma_fold_max_d_bounds, lemma_summary_of_empties, summary_of,
};
use crate::svo::coords::{IVec3, in_cube};
use crate::svo::pool::{BrickPool, allocated};

verus! {

/// Edge length of a chunk, in voxels.
pub const CHUNK_SIZE: i32 = 64;

/// Bricks along each edge of a chunk (`CHUNK_SIZE / BRICK_SIZE`).
pub const BRICKS_PER_AXIS: i32 = 8;

/// Bricks in a chunk.
pub const BRICKS_PER_CHUNK: usize = 512;

/// Cells along each edge of the level-2 summary grid (2x2x2 bricks a cell).
pub const L2_AXIS: i32 = 4;

/// Cells along each edge of the level-1 summary grid (2x2x2 level-2 cells a cell).
pub const L1_AXIS: i32 = 2;

/// A 64-voxel cube of the world: an optional brick for each of its 8x8x8
/// brick slots, and a summary pyramid over them (4x4x4 level-2 cells, 2x2x2
/// level-1 cells and the level-0 summary of the whole chunk).
#[derive(Clone)]
pub struct Chunk {
    pub bricks: Vec<Option<BrickId>>,
    pub summary_l2: Vec<BrickSummary>,
    pub summary_l1: Vec<BrickSummary>,
    pub summary_l0: BrickSummary,
}

/// The index of cell `c` in a grid with `axis` cells an edge: x runs fastest.
pub open spec fn grid_index(c: IVec3, axis: int) -> int {
    c.x + axis * (c.y + axis * c.z)
}

/// The cell at index `i` of a grid with `axis` cells an edge.
pub open spec fn grid_cell(i: int, axis: int) -> IVec3 {
    IVec3 { x: (i % axis) as i32, y: ((i / axis) % axis) as i32, z: (i / (axis * axis)) as i32 }
}

/// The `k`-th of the eight children of cell `c` in the next finer grid, in
/// the order x, then y, then z.
pub open spec fn child_cell(c: IVec3, k: int) -> IVec3 {
    IVec3 {
        x: (2 * c.x + k % 2) as i32,
        y: (2 * c.y + (k / 2) % 2) as i32,
        z: (2 * c.z + k / 4) as i32,
    }
}

/// The parent of cell `c` in the next coarser grid.
pub open spec fn parent_cell(c: IVec3) -> IVec3 {
    IVec3 { x: (c.x / 2) as i32, y: (c.y / 2) as i32, z: (c.z / 2) as i32 }
}

/// The summary that brick slot `idx` contributes: that of its brick, or the
/// empty summary for a slot without one.
pub open spec fn slot_summary(slots: Seq<Option<BrickId>>, bricks: Seq<Brick>, idx: int) -> BrickSummary {
    match slots[idx] {
        Some(id) => bricks[id as int].summary,
        None => empty_summary(),
    }
}

/// The eight brick summaries under level-2 cell `cell`.
pub open spec fn l2_children(slots: Seq<Option<BrickId>>, bricks: Seq<Brick>, cell: IVec3) -> Seq<BrickSummary> {
    Seq::new(8, |k: int| slot_summary(slots, bricks, grid_index(child_cell(cell, k), 8)))
}

/// The eight level-2 summaries under level-1 cell `cell`.
pub open spec fn l1_children(l2: Seq<BrickSummary>, cell: IVec3) -> Seq<BrickSummary> {
    Seq::new(8, |k: int| l2[grid_index(child_cell(cell, k), 4)])
}

/// What `aggregate_l2` computes for `cell`.
pub open spec fn agg_l2(slots: Seq<Option<BrickId>>, bricks: Seq<Brick>, cell: IVec3) -> BrickSummary {
    summary_of(l2_children(slots, bricks, cell))
}

/// What `aggregate_l1` computes for `cell`.
pub open spec fn agg_l1(l2: Seq<BrickSummary>, cell: IVec3) -> BrickSummary {
    summary_of(l1_children(l2, cell))
}

pub proof fn lemma_grid_roundtrip(i: int, axis: int)
    requires
        axis == 2 || axis == 4 || axis == 5 || axis == 8,
        0 <= i < axis * axis * axis,
    ensures
        in_cube(grid_cell(i, axis), axis),
        grid_index(grid_cell(i, axis), axis) == i,
{
    assert(0 <= i % axis < axis);
    assert(0 <= (i / axis) % axis < axis);
    assert(0 <= i / (axis * axis) < axis) by (nonlinear_arith)
        requires
            0 <= i < axis * axis * axis,
            axis > 0,
    ;
    vstd::arithmetic::div_mod::lemma_fundamental_div_mod(i, axis);
    vstd::arithmetic::div_mod::lemma_fundamental_div_mod(i / axis, axis);
    vstd::arithmetic::div_mod::lemma_div_denominator(i, axis, axis);
    assert(i == i % axis + axis * ((i / axis) % axis + axis * (i / (axis * axis)))) by (nonlinear_arith)
        requires
            i == axis * (i / axis) + i % axis,
            i / axis == axis * ((i / axis) / axis) + (i / axis) % axis,
            (i / axis) / axis == i / (axis * axis),
    ;
}

pub proof fn lemma_grid_index_bounds(c: IVec3, axis: int)
    requires
        axis > 0,
        in_cube(c, axis),
    ensures
        0 <= grid_index(c, axis) < axis * axis * axis,
{
    assert(0 <= c.x + axis * (c.y + axis * c.z) < axis * axis * axis) by (nonlinear_arith)
        requires
            axis > 0,
            0 <= c.x < axis,
            0 <= c.y < axis,
            0 <= c.z < axis,
    ;
}

/// Distinct cells of a grid have distinct indices.
pub proof fn lemma_grid_index_injective(a: IVec3, b: IVec3, axis: int)
    requires
        axis > 0,
        in_cube(a, axis),
        in_cube(b, axis),
        grid_index(a, axis) == grid_index(b, axis),
    ensures
        a == b,
{
    let ia = grid_index(a, axis);
    assert(a.x == ia % axis && b.x == ia % axis && a.y + axis * a.z == ia / axis && b.y + axis * b.z
        == ia / axis) by {
        vstd::arithmetic::div_mod::lemma_fundamental_div_mod_converse(ia, axis, a.y + axis * a.z, a.x as int);
        vstd::arithmetic::div_mod::lemma_fundamental_div_mod_converse(ia, axis, b.y + axis * b.z, b.x as int);
    }
    let j = ia / axis;
    vstd::arithmetic::div_mod::lemma_fundamental_div_mod_converse(j, axis, a.z as int, a.y as int);
    vstd::arithmetic::div_mod::lemma_fundamental_div_mod_converse(j, axis, b.z as int, b.y as int);
}

pub proof fn lemma_child_cell_in_cube(c: IVec3, k: int, axis: int)
    requires
        0 < axis <= 4,
        in_cube(c, axis),
        0 <= k < 8,
    ensures
        in_cube(child_cell(c, k), 2 * axis),
        parent_cell(child_cell(c, k)) == c,
{
    let ch = child_cell(c, k);
    assert(0 <= k % 2 < 2 && 0 <= (k / 2) % 2 < 2 && 0 <= k / 4 < 2);
    assert(ch.x == 2 * c.x + k % 2);
    assert(ch.y == 2 * c.y + (k / 2) % 2);
    assert(ch.z == 2 * c.z + k / 4);
    assert(ch.x / 2 == c.x);
    assert(ch.y / 2 == c.y);
    assert(ch.z / 2 == c.z);
}

/// A level-2 summary depends only on what its eight brick slots contribute.
pub proof fn lemma_agg_l2_frame(
    slots0: Seq<Option<BrickId>>,
    bricks0: Seq<Brick>,
    slots1: Seq<Option<BrickId>>,
    bricks1: Seq<Brick>,
    cell: IVec3,
)
    requires
        forall|k: int| 0 <= k < 8 ==> slot_summary(slots0, bricks0, grid_index(#[trigger] child_cell(cell, k), 8))
            == slot_summary(slots1, bricks1, grid_index(child_cell(cell, k), 8)),
    ensures
        agg_l2(slots0, bricks0, cell) == agg_l2(slots1, bricks1, cell),
{
    assert(l2_children(slots0, bricks0, cell) =~= l2_children(slots1, bricks1, cell)) by {
        assert forall|k: int| 0 <= k < 8 implies l2_children(slots0, bricks0, cell)[k] == l2_children(slots1, bricks1, cell)[k] by {
            assert(slot_summary(slots0, bricks0, grid_index(child_cell(cell, k), 8))
                == slot_summary(slots1, bricks1, grid_index(child_cell(cell, k), 8)));
        }
    }
}

/// A level-1 summary depends only on its eight level-2 cells.
pub proof fn lemma_agg_l1_frame(l2a: Seq<BrickSummary>, l2b: Seq<BrickSummary>, cell: IVec3)
    requires
        forall|k: int| 0 <= k < 8 ==> l2a[grid_index(#[trigger] child_cell(cell, k), 4)] == l2b[grid_index(child_cell(cell, k), 4)],
    ensures
        agg_l1(l2a, cell) == agg_l1(l2b, cell),
{
    assert(l1_children(l2a, cell) =~= l1_children(l2b, cell)) by {
        assert forall|k: int| 0 <= k < 8 implies l1_children(l2a, cell)[k] == l1_children(l2b, cell)[k] by {
            assert(l2a[grid_index(child_cell(cell, k), 4)] == l2b[grid_index(child_cell(cell, k), 4)]);
        }
    }
}

/// The children of a cell other than `b`'s parent do not include `b`.
pub proof fn lemma_other_cell_children(i: int, b: IVec3, axis: int)
    requires
        axis == 2 || axis == 4,
        0 <= i < axis * axis * axis,
        in_cube(b, 2 * axis),
        i != grid_index(parent_cell(b), axis),
    ensures
        forall|k: int| 0 <= k < 8 ==> grid_index(#[trigger] child_cell(grid_cell(i, axis), k), 2 * axis) != grid_index(b, 2 * axis),
{
    lemma_grid_roundtrip(i, axis);
    assert forall|k: int| 0 <= k < 8 implies grid_index(#[trigger] child_cell(grid_cell(i, axis), k), 2 * axis) != grid_index(b, 2 * axis) by {
        lemma_child_cell_in_cube(grid_cell(i, axis), k, axis);
        if grid_index(child_cell(grid_cell(i, axis), k), 2 * axis) == grid_index(b, 2 * axis) {
            lemma_grid_index_injective(child_cell(grid_cell(i, axis), k), b, 2 * axis);
        }
    }
}

/// The cell that is `b`'s parent lies in the coarser grid.
pub proof fn lemma_parent_in_cube(b: IVec3, axis: int)
    requires
        axis == 2 || axis == 4,
        in_cube(b, 2 * axis),
    ensures
        in_cube(parent_cell(b), axis),
        0 <= grid_index(parent_cell(b), axis) < axis * axis * axis,
{
    lemma_grid_index_bounds(parent_cell(b), axis);
}

/// With no brick in any slot, every level-2 summary is the empty one.
pub proof fn lemma_agg_l2_no_bricks(slots: Seq<Option<BrickId>>, bricks: Seq<Brick>, cell: IVec3)
    requires
        in_cube(cell, 4),
        forall|i: int| 0 <= i < 512 ==> (#[trigger] slots[i]) is None,
    ensures
        agg_l2(slots, bricks, cell) == empty_summary(),
{
    assert forall|k: int| 0 <= k < 8 implies #[trigger] l2_children(slots, bricks, cell)[k] == empty_summary() by {
        lemma_child_cell_in_cube(cell, k, 4);
        lemma_grid_index_bounds(child_cell(cell, k), 8);
    }
    lemma_summary_of_empties(l2_children(slots, bricks, cell));
}

/// With every level-2 summary empty, every level-1 summary is the empty one.
pub proof fn lemma_agg_l1_all_empty(l2: Seq<BrickSummary>, cell: IVec3)
    requires
        in_cube(cell, 2),
        forall|i: int| 0 <= i < 64 ==> #[trigger] l2[i] == empty_summary(),
    ensures
        agg_l1(l2, cell) == empty_summary(),
{
    assert forall|k: int| 0 <= k < 8 implies #[trigger] l1_children(l2, cell)[k] == empty_summary() by {
        lemma_child_cell_in_cube(cell, k, 2);
        lemma_grid_index_bounds(child_cell(cell, k), 4);
    }
    lemma_summary_of_empties(l1_children(l2, cell));
}

impl Chunk {
    /// The lengths of the brick table and of the summary grids.
    pub open spec fn wf(&self) -> bool {
        &&& self.bricks@.len() == 512
        &&& self.summary_l2@.len() == 64
        &&& self.summary_l1@.len() == 8
    }

    /// Every brick id of the chunk names a brick of `bricks`.
    pub open spec fn ids_in(&self, bricks: Seq<Brick>) -> bool {
        forall|i: int| 0 <= i < 512 && (#[trigger] self.bricks@[i]) is Some ==> self.bricks@[i]->0 < bricks.len()
    }

    /// The summary pyramid agrees with the bricks' summaries: each level-2
    /// cell summarizes its eight bricks, each level-1 cell its eight level-2
    /// cells, and level 0 the level-1 cells.
    pub open spec fn summaries_consistent(&self, bricks: Seq<Brick>) -> bool {
        &&& forall|i: int| 0 <= i < 64 ==> #[trigger] self.summary_l2@[i] == agg_l2(self.bricks@, bricks, grid_cell(i, 4))
        &&& forall|i: int| 0 <= i < 8 ==> #[trigger] self.summary_l1@[i] == agg_l1(self.summary_l2@, grid_cell(i, 2))
        &&& self.summary_l0 == summary_of(self.summary_l1@)
    }

    /// A chunk without bricks, all its summaries empty.
    pub fn new_empty() -> (c: Self)
        ensures
            c.wf(),
            forall|i: int| 0 <= i < 512 ==> c.bricks@[i] is None,
            forall|i: int| 0 <= i < 64 ==> c.summary_l2@[i] == empty_summary(),
            forall|i: int| 0 <= i < 8 ==> c.summary_l1@[i] == empty_summary(),
            c.summary_l0 == empty_summary(),
    {
        Self {
            bricks: vec![None; BRICKS_PER_CHUNK],
            summary_l2: vec![BrickSummary::empty(); 64],
            summary_l1: vec![BrickSummary::empty(); 8],
            summary_l0: BrickSummary::empty(),
        }
    }

    /// The slot of brick `local_brick` in `bricks`, x running fastest; a
    /// slot of the chunk when the brick lies in `0..8` on each axis.
    pub fn brick_index(local_brick: IVec3) -> (idx: usize)
        requires
            0 <= local_brick.x,
            0 <= local_brick.y,
            0 <= local_brick.z,
            grid_index(local_brick, 8) <= usize::MAX,
        ensures
            idx == grid_index(local_brick, 8),
            in_cube(local_brick, 8) ==> idx < 512,
    {
        proof {
            if in_cube(local_brick, 8) {
                lemma_grid_index_bounds(local_brick, 8);
            }
        }
        let x = local_brick.x as usize;
        let y = local_brick.y as usize;
        let z = local_brick.z as usize;
        x + (BRICKS_PER_AXIS as usize) * (y + (BRICKS_PER_AXIS as usize) * z)
    }

    /// The index of level-2 cell `cell`, x running fastest; a cell of the
    /// grid when it lies in `0..4` on each axis.
    pub fn l2_index(cell: IVec3) -> (idx: usize)
        requires
            0 <= cell.x,
            0 <= cell.y,
            0 <= cell.z,
            grid_index(cell, 4) <= usize::MAX,
        ensures
            idx == grid_index(cell, 4),
            in_cube(cell, 4) ==> idx < 64,
    {
        proof {
            if in_cube(cell, 4) {
                lemma_grid_index_bounds(cell, 4);
            }
        }
        let x = cell.x as usize;
        let y = cell.y as usize;
        let z = cell.z as usize;
        x + (L2_AXIS as usize) * (y + (L2_AXIS as usize) * z)
    }

    /// The index of level-1 cell `cell`, x running fastest; a cell of the
    /// grid when it lies in `0..2` on each axis.
    pub fn l1_index(cell: IVec3) -> (idx: usize)
        requires
            0 <= cell.x,
            0 <= cell.y,
            0 <= cell.z,
            grid_index(cell, 2) <= usize::MAX,
        ensures
            idx == grid_index(cell, 2),
            in_cube(cell, 2) ==> idx < 8,
    {
        proof {
            if in_cube(cell, 2) {
                lemma_grid_index_bounds(cell, 2);
            }
        }
        let x = cell.x as usize;
        let y = cell.y as usize;
        let z = cell.z as usize;
        x + (L1_AXIS as usize) * (y + (L1_AXIS as usize) * z)
    }

    /// Gives brick `local_brick` a brick of the pool if its slot has none,
    /// and returns the slot's brick id.
    pub fn ensure_brick(&mut self, pool: &mut BrickPool, local_brick: IVec3) -> (id: BrickId)
        requires
            old(self).wf(),
            in_cube(local_brick, 8),
            old(pool).wf(),
            old(pool).bricks@.len() < usize::MAX,
        ensures
            final(self).wf(),
            final(self).summary_l2 == old(self).summary_l2,
            final(self).summary_l1 == old(self).summary_l1,
            final(self).summary_l0 == old(self).summary_l0,
            final(self).bricks@ == old(self).bricks@.update(grid_index(local_brick, 8), Some(id)),
            old(self).bricks@[grid_index(local_brick, 8)] matches Some(old_id) ==> {
                &&& id == old_id
                &&& *final(pool) == *old(pool)
            },
            old(self).bricks@[grid_index(local_brick, 8)] is None ==> allocated(*old(pool), *final(pool), id),
    {
        let idx = Self::brick_index(local_brick);
        if let Some(id) = self.bricks[idx] {
            assert(self.bricks@ == old(self).bricks@.update(idx as int, Some(id)));
            return id;
        }
        let id = pool.allocate();
        self.bricks.set(idx, Some(id));
        id
    }

    /// The summary of the eight bricks under level-2 cell `cell`.
    fn aggregate_l2(&self, pool: &BrickPool, cell: IVec3) -> (s: BrickSummary)
        requires
            self.wf(),
            in_cube(cell, 4),
            self.ids_in(pool.bricks@),
        ensures
            s == agg_l2(self.bricks@, pool.bricks@, cell),
    {
        let mut summaries: Vec<BrickSummary> = Vec::with_capacity(8);
        let mut k: usize = 0;
        while k < 8
            invariant
                k <= 8,
                self.wf(),
                in_cube(cell, 4),
                self.ids_in(pool.bricks@),
                summaries@ == l2_children(self.bricks@, pool.bricks@, cell).subrange(0, k as int),
            decreases 8 - k,
        {
            let brick_coord = IVec3::new(
                cell.x * 2 + (k % 2) as i32,
                cell.y * 2 + ((k / 2) % 2) as i32,
                cell.z * 2 + (k / 4) as i32,
            );
            proof {
                lemma_child_cell_in_cube(cell, k as int, 4);
                assert(brick_coord == child_cell(cell, k as int));
            }
            let idx = Self::brick_index(brick_coord);
            if let Some(id) = self.bricks[idx] {
                summaries.push(pool.bricks[id].summary);
            } else {
                summaries.push(BrickSummary::empty());
            }
            k += 1;
            proof {
                assert(summaries@ =~= l2_children(self.bricks@, pool.bricks@, cell).subrange(0, k as int));
            }
        }
        proof {
            assert(summaries@ =~= l2_children(self.bricks@, pool.bricks@, cell));
        }
        BrickSummary::from_children(summaries.as_slice())
    }

    /// The summary of the eight level-2 cells under level-1 cell `cell`.
    fn aggregate_l1(&self, cell: IVec3) -> (s: BrickSummary)
        requires
            self.wf(),
            in_cube(cell, 2),
        ensures
            s == agg_l1(self.summary_l2@, cell),
    {
        let mut summaries: Vec<BrickSummary> = Vec::with_capacity(8);
        let mut k: usize = 0;
        while k < 8
            invariant
                k <= 8,
                self.wf(),
                in_cube(cell, 2),
                summaries@ == l1_children(self.summary_l2@, cell).subrange(0, k as int),
            decreases 8 - k,
        {
            let l2_cell = IVec3::new(
                cell.x * 2 + (k % 2) as i32,
                cell.y * 2 + ((k / 2) % 2) as i32,
                cell.z * 2 + (k / 4) as i32,
            );
            proof {
                lemma_child_cell_in_cube(cell, k as int, 2);
                assert(l2_cell == child_cell(cell, k as int));
            }
            let idx = Self::l2_index(l2_cell);
            summaries.push(self.summary_l2[idx]);
            k += 1;
            proof {
                assert(summaries@ =~= l1_children(self.summary_l2@, cell).subrange(0, k as int));
            }
        }
        proof {
            assert(summaries@ =~= l1_children(self.summary_l2@, cell));
        }
        BrickSummary::from_children(summaries.as_slice())
    }

    /// The summary of the whole chunk, from its level-1 cells.
    fn aggregate_l0(&self) -> (s: BrickSummary)
        ensures
            s == summary_of(self.summary_l1@),
    {
        BrickSummary::from_children(self.summary_l1.as_slice())
    }

    /// Recomputes the level-2 cell that holds brick `local_brick`, the
    /// level-1 cell above it and the level-0 summary.
    pub fn update_summaries_for_brick(&mut self, pool: &BrickPool, local_brick: IVec3)
        requires
            old(self).wf(),
            in_cube(local_brick, 8),
            old(self).ids_in(pool.bricks@),
        ensures
            final(self).wf(),
            final(self).bricks == old(self).bricks,
            final(self).summary_l2@ == old(self).summary_l2@.update(
                grid_index(parent_cell(local_brick), 4),
                agg_l2(old(self).bricks@, pool.bricks@, parent_cell(local_brick)),
            ),
            final(self).summary_l1@ == old(self).summary_l1@.update(
                grid_index(parent_cell(parent_cell(local_brick)), 2),
                agg_l1(final(self).summary_l2@, parent_cell(parent_cell(local_brick))),
            ),
            final(self).summary_l0 == summary_of(final(self).summary_l1@),
    {
        let l2_cell = IVec3::new(local_brick.x / 2, local_brick.y / 2, local_brick.z / 2);
        assert(l2_cell == parent_cell(local_brick));
        let l2_summary = self.aggregate_l2(pool, l2_cell);
        self.summary_l2.set(Self::l2_index(l2_cell), l2_summary);

        let l1_cell = IVec3::new(l2_cell.x / 2, l2_cell.y / 2, l2_cell.z / 2);
        assert(l1_cell == parent_cell(l2_cell));
        let l1_summary = self.aggregate_l1(l1_cell);
        self.summary_l1.set(Self::l1_index(l1_cell), l1_summary);

        self.summary_l0 = self.aggregate_l0();
    }

    /// Recomputes every summary of the chunk from its bricks.
    pub fn recompute_all_summaries(&mut self, pool: &BrickPool)
        requires
            old(self).wf(),
            old(self).ids_in(pool.bricks@),
        ensures
            final(self).wf(),
            final(self).bricks == old(self).bricks,
            final(self).summaries_consistent(pool.bricks@),
    {
        let mut i: usize = 0;
        while i < 64
            invariant
                i <= 64,
                self.wf(),
                self.bricks == old(self).bricks,
                self.ids_in(pool.bricks@),
                forall|j: int| 0 <= j < i ==> #[trigger] self.summary_l2@[j] == agg_l2(self.bricks@, pool.bricks@, grid_cell(j, 4)),
            decreases 64 - i,
        {
            let cell = IVec3::new((i % 4) as i32, ((i / 4) % 4) as i32, (i / 16) as i32);
            proof {
                lemma_grid_roundtrip(i as int, 4);
                assert(cell == grid_cell(i as int, 4));
            }
            let idx = Self::l2_index(cell);
            let s = self.aggregate_l2(pool, cell);
            self.summary_l2.set(idx, s);
            i += 1;
        }
        let mut i: usize = 0;
        while i < 8
            invariant
                i <= 8,
                self.wf(),
                self.bricks == old(self).bricks,
                forall|j: int| 0 <= j < 64 ==> #[trigger] self.summary_l2@[j] == agg_l2(self.bricks@, pool.bricks@, grid_cell(j, 4)),
                forall|j: int| 0 <= j < i ==> #[trigger] self.summary_l1@[j] == agg_l1(self.summary_l2@, grid_cell(j, 2)),
            decreases 8 - i,
        {
            let cell = IVec3::new((i % 2) as i32, ((i / 2) % 2) as i32, (i / 4) as i32);
            proof {
                lemma_grid_roundtrip(i as int, 2);
                assert(cell == grid_cell(i as int, 2));
            }
            let idx = Self::l1_index(cell);
            let s = self.aggregate_l1(cell);
            self.summary_l1.set(idx, s);
            i += 1;
        }
        self.summary_l0 = self.aggregate_l0();
    }

    /// Whether the chunk holds no solid voxel, by its level-0 summary.
    pub fn is_empty(&self) -> (r: bool)
        ensures
            r == (self.summary_l0.state == BrickState::Empty),
    {
        self.summary_l0.state == BrickState::Empty
    }
}

/// Whether the summaries of `c` agree with `bricks` everywhere but at the
/// level-2 and level-1 cells above brick `b` and at level 0.
pub open spec fn consistent_but_above(c: Chunk, bricks: Seq<Brick>, b: IVec3) -> bool {
    &&& forall|i: int| 0 <= i < 64 && i != grid_index(parent_cell(b), 4)
        ==> #[trigger] c.summary_l2@[i] == agg_l2(c.bricks@, bricks, grid_cell(i, 4))
    &&& forall|i: int| 0 <= i < 8 && i != grid_index(parent_cell(parent_cell(b)), 2)
        ==> #[trigger] c.summary_l1@[i] == agg_l1(c.summary_l2@, grid_cell(i, 2))
}

/// Recomputing the cells above a brick, as `update_summaries_for_brick`
/// does, makes a chunk whose summaries were right everywhere else
/// consistent again.
pub proof fn lemma_update_restores(c0: Chunk, c1: Chunk, bricks: Seq<Brick>, b: IVec3)
    requires
        c0.wf(),
        in_cube(b, 8),
        consistent_but_above(c0, bricks, b),
        c1.wf(),
        c1.bricks == c0.bricks,
        c1.summary_l2@ == c0.summary_l2@.update(grid_index(parent_cell(b), 4), agg_l2(c0.bricks@, bricks, parent_cell(b))),
        c1.summary_l1@ == c0.summary_l1@.update(
            grid_index(parent_cell(parent_cell(b)), 2),
            agg_l1(c1.summary_l2@, parent_cell(parent_cell(b))),
        ),
        c1.summary_l0 == summary_of(c1.summary_l1@),
    ensures
        c1.summaries_consistent(bricks),
{
    let c2 = parent_cell(b);
    let cc1 = parent_cell(c2);
    lemma_parent_in_cube(b, 4);
    lemma_parent_in_cube(c2, 2);
    assert forall|i: int| 0 <= i < 64 implies #[trigger] c1.summary_l2@[i] == agg_l2(c1.bricks@, bricks, grid_cell(i, 4)) by {
        lemma_grid_roundtrip(i, 4);
        if i == grid_index(c2, 4) {
            lemma_grid_index_injective(grid_cell(i, 4), c2, 4);
        }
    }
    assert forall|i: int| 0 <= i < 8 implies #[trigger] c1.summary_l1@[i] == agg_l1(c1.summary_l2@, grid_cell(i, 2)) by {
        lemma_grid_roundtrip(i, 2);
        if i == grid_index(cc1, 2) {
            lemma_grid_index_injective(grid_cell(i, 2), cc1, 2);
        } else {
            lemma_other_cell_children(i, c2, 2);
            assert forall|k: int| 0 <= k < 8 implies c0.summary_l2@[grid_index(#[trigger] child_cell(grid_cell(i, 2), k), 4)]
                == c1.summary_l2@[grid_index(child_cell(grid_cell(i, 2), k), 4)] by {
                lemma_child_cell_in_cube(grid_cell(i, 2), k, 2);
                lemma_grid_index_bounds(child_cell(grid_cell(i, 2), k), 4);
            }
            lemma_agg_l1_frame(c0.summary_l2@, c1.summary_l2@, grid_cell(i, 2));
        }
    }
}

// ---------------------------------------------------------------------------
// What the level-0 summary says of the chunk's voxels.
// ---------------------------------------------------------------------------

/// Which of its parent's eight children cell `c` is.
pub open spec fn child_rank(c: IVec3) -> int {
    c.x % 2 + 2 * (c.y % 2) + 4 * (c.z % 2)
}

/// A cell of a grid is a child of its parent in the coarser grid.
pub proof fn lemma_parent_child(c: IVec3, axis: int)
    requires
        axis == 2 || axis == 4,
        in_cube(c, 2 * axis),
    ensures
        in_cube(parent_cell(c), axis),
        0 <= child_rank(c) < 8,
        child_cell(parent_cell(c), child_rank(c)) == c,
{
    let k = child_rank(c);
    assert(0 <= c.x % 2 < 2 && 0 <= c.y % 2 < 2 && 0 <= c.z % 2 < 2);
    assert(k % 2 == c.x % 2);
    assert((k / 2) % 2 == c.y % 2);
    assert(k / 4 == c.z % 2);
    lemma_parent_in_cube(c, axis);
}

/// A summary of children has the greatest maximum among them.
proof fn lemma_summary_max(s: Seq<BrickSummary>)
    requires
        s.len() > 0,
    ensures
        forall|k: int| 0 <= k < s.len() ==> #[trigger] s[k].max_d <= summary_of(s).max_d,
        exists|k: int| 0 <= k < s.len() && #[trigger] s[k].max_d == summary_of(s).max_d,
{
    lemma_fold_max_d_bounds(s);
}

/// What brick slot `i` contributes is negative at its maximum when the
/// slot's brick, if any, has a fresh summary and only negative densities.
proof fn lemma_slot_max_negative(slots: Seq<Option<BrickId>>, bricks: Seq<Brick>, i: int)
    requires
        slots[i] is Some ==> bricks[slots[i]->0 as int].summary_fresh(),
        slots[i] is Some ==> forall|j: int| 0 <= j < 512 ==> #[trigger] bricks[slots[i]->0 as int].density@[j] < 0,
    ensures
        slot_summary(slots, bricks, i).max_d < 0,
{
    if let Some(id) = slots[i] {
        let d = bricks[id as int].density@;
        lemma_fold_max_bounds(d);
        let j = choose|j: int| 0 <= j < d.len() && fold_max(d) == #[trigger] d[j];
        assert(bricks[id as int].density@[j] < 0);
    }
}

/// Whether every brick of the chunk has a fresh summary.
pub open spec fn bricks_fresh(c: Chunk, bricks: Seq<Brick>) -> bool {
    forall|i: int| 0 <= i < 512 && (#[trigger] c.bricks@[i]) is Some ==> bricks[c.bricks@[i]->0 as int].summary_fresh()
}

/// Whether no voxel of a brick of the chunk has a density of zero or more.
pub open spec fn no_solid(c: Chunk, bricks: Seq<Brick>) -> bool {
    forall|i: int, j: int| 0 <= i < 512 && 0 <= j < 512 && (#[trigger] c.bricks@[i]) is Some
        ==> #[trigger] bricks[c.bricks@[i]->0 as int].density@[j] < 0
}

/// Whether every brick of the chunk has a negative maximum in its summary
/// (a slot without a brick counts as empty).
pub open spec fn bricks_below_zero(c: Chunk, bricks: Seq<Brick>) -> bool {
    forall|i: int| 0 <= i < 512 && (#[trigger] c.bricks@[i]) is Some ==> bricks[c.bricks@[i]->0 as int].summary.max_d < 0
}

proof fn lemma_slots_negative_empty(c: Chunk, bricks: Seq<Brick>)
    requires
        c.wf(),
        c.summaries_consistent(bricks),
        bricks_below_zero(c, bricks),
    ensures
        c.summary_l0.state == BrickState::Empty,
{
    let slots = c.bricks@;
    assert forall|i: int| 0 <= i < 64 implies #[trigger] c.summary_l2@[i].max_d < 0 by {
        lemma_grid_roundtrip(i, 4);
        let cell = grid_cell(i, 4);
        let ch = l2_children(slots, bricks, cell);
        lemma_summary_max(ch);
        let k = choose|k: int| 0 <= k < ch.len() && #[trigger] ch[k].max_d == summary_of(ch).max_d;
        lemma_child_cell_in_cube(cell, k, 4);
        let idx = grid_index(child_cell(cell, k), 8);
        lemma_grid_index_bounds(child_cell(cell, k), 8);
        if slots[idx] is Some {
            assert(c.bricks@[idx] is Some);
        }
    }
    assert forall|i: int| 0 <= i < 8 implies #[trigger] c.summary_l1@[i].max_d < 0 by {
        lemma_grid_roundtrip(i, 2);
        let cell = grid_cell(i, 2);
        let ch = l1_children(c.summary_l2@, cell);
        lemma_summary_max(ch);
        let k = choose|k: int| 0 <= k < ch.len() && #[trigger] ch[k].max_d == summary_of(ch).max_d;
        lemma_child_cell_in_cube(cell, k, 2);
        lemma_grid_index_bounds(child_cell(cell, k), 4);
        assert(c.summary_l2@[grid_index(child_cell(cell, k), 4)].max_d < 0);
    }
    lemma_summary_max(c.summary_l1@);
}

proof fn lemma_no_solid_empty(c: Chunk, bricks: Seq<Brick>)
    requires
        c.wf(),
        c.summaries_consistent(bricks),
        bricks_fresh(c, bricks),
        no_solid(c, bricks),
    ensures
        c.summary_l0.state == BrickState::Empty,
{
    let slots = c.bricks@;
    assert forall|i: int| 0 <= i < 512 && (#[trigger] c.bricks@[i]) is Some implies bricks[c.bricks@[i]->0 as int].summary.max_d < 0 by {
        assert forall|j: int| 0 <= j < 512 implies #[trigger] bricks[slots[i]->0 as int].density@[j] < 0 by {
            assert(bricks[c.bricks@[i]->0 as int].density@[j] < 0);
        }
        lemma_slot_max_negative(slots, bricks, i);
    }
    lemma_slots_negative_empty(c, bricks);
}

/// What a brick slot contributes lies under the level-0 maximum, through
/// its level-2 and level-1 cells.
proof fn lemma_slot_under_top(c: Chunk, bricks: Seq<Brick>, i: int)
    requires
        c.wf(),
        c.summaries_consistent(bricks),
        0 <= i < 512,
    ensures
        slot_summary(c.bricks@, bricks, i).max_d <= c.summary_l0.max_d,
{
    let slots = c.bricks@;
    lemma_grid_roundtrip(i, 8);
    let b = grid_cell(i, 8);
    lemma_parent_child(b, 4);
    let p2 = parent_cell(b);
    let i2 = grid_index(p2, 4);
    lemma_grid_index_bounds(p2, 4);
    lemma_grid_roundtrip(i2, 4);
    lemma_grid_index_injective(grid_cell(i2, 4), p2, 4);
    let ch2 = l2_children(slots, bricks, p2);
    lemma_summary_max(ch2);
    assert(ch2[child_rank(b)] == slot_summary(slots, bricks, i));
    assert(c.summary_l2@[i2] == agg_l2(slots, bricks, p2));
    lemma_parent_child(p2, 2);
    let p1 = parent_cell(p2);
    let i1 = grid_index(p1, 2);
    lemma_grid_index_bounds(p1, 2);
    lemma_grid_roundtrip(i1, 2);
    lemma_grid_index_injective(grid_cell(i1, 2), p1, 2);
    let ch1 = l1_children(c.summary_l2@, p1);
    lemma_summary_max(ch1);
    assert(ch1[child_rank(p2)] == c.summary_l2@[i2]);
    assert(c.summary_l1@[i1] == agg_l1(c.summary_l2@, p1));
    lemma_summary_max(c.summary_l1@);
    assert(c.summary_l1@[i1].max_d <= c.summary_l0.max_d);
}

proof fn lemma_empty_no_solid(c: Chunk, bricks: Seq<Brick>)
    requires
        c.wf(),
        c.summaries_consistent(bricks),
        bricks_fresh(c, bricks),
        c.summary_l0.state == BrickState::Empty,
    ensures
        no_solid(c, bricks),
{
    assert(c.summary_l0.max_d < 0);
    assert forall|i: int, j: int| 0 <= i < 512 && 0 <= j < 512 && (#[trigger] c.bricks@[i]) is Some
        implies #[trigger] bricks[c.bricks@[i]->0 as int].density@[j] < 0 by {
        let id = c.bricks@[i]->0;
        let d = bricks[id as int].density@;
        lemma_fold_max_bounds(d);
        assert(d[j] <= fold_max(d));
        assert(bricks[id as int].summary_fresh());
        lemma_slot_under_top(c, bricks, i);
    }
}

/// With its summaries consistent and each brick's summary fresh, a chunk
/// counts as empty (its level-0 state is `Empty`) exactly when no voxel of
/// its bricks has a density of zero or more.
pub proof fn lemma_chunk_empty_iff_no_solid(c: Chunk, bricks: Seq<Brick>)
    requires
        c.wf(),
        c.summaries_consistent(bricks),
        bricks_fresh(c, bricks),
    ensures
        (c.summary_l0.state == BrickState::Empty) <==> no_solid(c, bricks),
{
    if no_solid(c, bricks) {
        lemma_no_solid_empty(c, bricks);
    }
    if c.summary_l0.state == BrickState::Empty {
        lemma_empty_no_solid(c, bricks);
    }
}

} // verus!
