use vstd::prelude::*;
use std::collections::VecDeque;
use crate::svo::chunk::{CHUNK_SIZE, grid_index, lemma_grid_index_bounds, lemma_grid_index_injective, lemma_grid_roundtrip, grid_cell};
use crate::svo::coords::{IVec3, in_cube};
use crate::svo::world::{World, density_at, material_at};

verus! {

/// How many chunks the streaming window reaches out from its center chunk.
pub const VIEW_RADIUS_CHUNKS: i32 = 2;

/// Chunks along each edge of the window (`2 * VIEW_RADIUS_CHUNKS + 1`).
pub const VIEW_DIAMETER_CHUNKS: i32 = 5;

/// Voxels along each edge of the window (`CHUNK_SIZE * VIEW_DIAMETER_CHUNKS`).
pub const VIEW_SIZE: i32 = 320;

/// Voxels in the window (`VIEW_SIZE` cubed).
pub const VIEW_VOLUME: usize = 32768000;

/// Voxels in a chunk.
pub const CHUNK_VOLUME: usize = 262144;

/// Chunks in the window.
pub const WINDOW_CHUNK_COUNT: usize = 125;

/// Voxels the CPU may fill in one frame: two chunks.
pub const CPU_VOXEL_BUDGET: usize = 524288;

/// Bytes the GPU may receive in one frame.
pub const GPU_UPLOAD_BUDGET_BYTES: usize = 262144;

/// A chunk of the window waiting to be filled, with its priority: the
/// nearer the window's center, the higher.
#[derive(Clone, Copy, Debug, PartialEq, Eq)]
pub struct WorkUnit {
    pub chunk_offset: IVec3,
    pub priority: i32,
}

/// A half-open range `start..end` of voxel indices of the window's data
/// that the GPU copy does not have yet.
#[derive(Clone, Copy, Debug, PartialEq, Eq)]
pub struct DirtyRange {
    pub start: usize,
    pub end: usize,
}

impl DirtyRange {
    /// The number of indices in the range, 0 when it is reversed.
    pub fn len(&self) -> (n: usize)
        ensures
            n == if self.end >= self.start { self.end - self.start } else { 0 },
    {
        if self.end >= self.start { self.end - self.start } else { 0 }
    }
}

/// Streams the world into a window of 5x5x5 chunks around the viewer. The
/// window's voxel colors are stored by chunk in a ring: a chunk's storage
/// place is its offset in the window plus the wrap offset, modulo 5, so that
/// moving the window refills only the chunks that came into view. Chunks are
/// filled on the CPU a few at a time, nearest first, and the ranges of data
/// that changed are handed out for upload under a byte budget.
pub struct ChunkManager {
    data: Vec<u32>,
    chunk_states: Vec<u8>,
    work_queue: Vec<WorkUnit>,
    urgent_queue: VecDeque<WorkUnit>,
    pending_dirty: Vec<DirtyRange>,
    merged_dirty: Vec<DirtyRange>,
    scratch_dirty: Vec<DirtyRange>,
    last_center: Option<IVec3>,
    window_origin: IVec3,
    chunk_wrap_offset: IVec3,
}

// ---------------------------------------------------------------------------
// The window and its ring storage.
// ---------------------------------------------------------------------------

/// Whether `o` is a chunk offset inside the window.
pub open spec fn in_window(o: IVec3) -> bool {
    in_cube(o, 5)
}

/// Where the chunk at window offset `o` is stored, for wrap offset `wrap`.
pub open spec fn storage_offset(o: IVec3, wrap: IVec3) -> IVec3 {
    IVec3 { x: ((o.x + wrap.x) % 5) as i32, y: ((o.y + wrap.y) % 5) as i32, z: ((o.z + wrap.z) % 5) as i32 }
}

/// The storage slot of the chunk at window offset `o`.
pub open spec fn storage_slot(o: IVec3, wrap: IVec3) -> int {
    grid_index(storage_offset(o, wrap), 5)
}

/// The wrap offset that goes with window origin chunk `c`: `c` modulo 5.
pub open spec fn spec_wrap(c: IVec3) -> IVec3 {
    IVec3 { x: (c.x % 5) as i32, y: (c.y % 5) as i32, z: (c.z % 5) as i32 }
}

/// The priority of the chunk at window offset `o`: minus its squared
/// distance, in chunks, from the window's center.
pub open spec fn priority_of(o: IVec3) -> int {
    -((o.x - 2) * (o.x - 2) + (o.y - 2) * (o.y - 2) + (o.z - 2) * (o.z - 2))
}

/// Whether a center chunk keeps the window's voxel coordinates within `i32`.
pub open spec fn center_ok(c: IVec3) -> bool {
    &&& -33554430 <= c.x <= 33554429
    &&& -33554430 <= c.y <= 33554429
    &&& -33554430 <= c.z <= 33554429
}

/// The chunk at the window's corner for center chunk `c`.
pub open spec fn origin_chunk(c: IVec3) -> IVec3 {
    IVec3 { x: (c.x - 2) as i32, y: (c.y - 2) as i32, z: (c.z - 2) as i32 }
}

/// The window origin, in voxels, for center chunk `c`.
pub open spec fn origin_for(c: IVec3) -> IVec3 {
    IVec3 { x: ((c.x - 2) * 64) as i32, y: ((c.y - 2) * 64) as i32, z: ((c.z - 2) * 64) as i32 }
}

/// The color of voxel `v` of the world: its material's palette entry where
/// it is solid, else 0.
pub open spec fn voxel_color(w: World, v: IVec3) -> u32 {
    if density_at(w, v) >= 0 {
        w.palette@[material_at(w, v) as int]
    } else {
        0
    }
}


/// The work unit that queues the chunk at window offset `o`.
pub open spec fn unit_of(o: IVec3) -> WorkUnit {
    WorkUnit { chunk_offset: o, priority: priority_of(o) as i32 }
}

/// Whether offset `o` lies on the plane where coordinate `axis` (0 for x,
/// 1 for y, 2 for z) is `fixed`.
pub open spec fn on_plane(o: IVec3, axis: int, fixed: int) -> bool {
    if axis == 0 {
        o.x == fixed
    } else if axis == 1 {
        o.y == fixed
    } else {
        o.z == fixed
    }
}

/// Whether the chunk at window offset `o` came into view when the window
/// moved by `delta` chunks: it lies on a face of the window toward the move.
pub open spec fn exposed(o: IVec3, delta: IVec3) -> bool {
    ||| delta.x > 0 && o.x == 4
    ||| delta.x < 0 && o.x == 0
    ||| delta.y > 0 && o.y == 4
    ||| delta.y < 0 && o.y == 0
    ||| delta.z > 0 && o.z == 4
    ||| delta.z < 0 && o.z == 0
}


/// The rank of offset `o` among the 25 offsets of its plane across `axis`:
/// the two other coordinates, the first one running fastest.
pub open spec fn plane_rank(o: IVec3, axis: int) -> int {
    if axis == 0 {
        o.y + 5 * o.z
    } else if axis == 1 {
        o.x + 5 * o.z
    } else {
        o.x + 5 * o.y
    }
}

proof fn lemma_plane_rank_injective(a: IVec3, b: IVec3, axis: int, fixed: int)
    requires
        in_window(a),
        in_window(b),
        on_plane(a, axis, fixed),
        on_plane(b, axis, fixed),
        plane_rank(a, axis) == plane_rank(b, axis),
    ensures
        a == b,
{
}


/// The voxel at flat index `t` of a chunk (x fastest, then y, then z) whose
/// corner is voxel `base`.
pub open spec fn chunk_voxel(base: IVec3, t: int) -> IVec3 {
    IVec3 { x: (base.x + t % 64) as i32, y: (base.y + (t / 64) % 64) as i32, z: (base.z + t / 4096) as i32 }
}

/// The corner voxel of the chunk at window offset `o`, for window origin `origin`.
pub open spec fn chunk_base(origin: IVec3, o: IVec3) -> IVec3 {
    IVec3 { x: (origin.x + o.x * 64) as i32, y: (origin.y + o.y * 64) as i32, z: (origin.z + o.z * 64) as i32 }
}

/// Whether the chunk whose corner is `base` lies within `i32` coordinates.
pub open spec fn base_ok(base: IVec3) -> bool {
    &&& base.x + 63 <= i32::MAX
    &&& base.y + 63 <= i32::MAX
    &&& base.z + 63 <= i32::MAX
}

/// Whether `data` holds, from `start` on, the colors of the world's chunk
/// whose corner is `base`.
pub open spec fn holds_chunk(data: Seq<u32>, start: int, w: World, base: IVec3) -> bool {
    forall|t: int| 0 <= t < 262144 ==> #[trigger] data[start + t] == voxel_color(w, chunk_voxel(base, t))
}


/// The order of the work queue: by priority, then by z, y and x offset.
pub open spec fn unit_le(a: WorkUnit, b: WorkUnit) -> bool {
    ||| a.priority < b.priority
    ||| a.priority == b.priority && a.chunk_offset.z < b.chunk_offset.z
    ||| a.priority == b.priority && a.chunk_offset.z == b.chunk_offset.z && a.chunk_offset.y < b.chunk_offset.y
    ||| a.priority == b.priority && a.chunk_offset.z == b.chunk_offset.z && a.chunk_offset.y == b.chunk_offset.y
        && a.chunk_offset.x <= b.chunk_offset.x
}


/// The 4096 rows, 64 voxels each, of storage slot `slot`, in order.
pub open spec fn rows_of(slot: int) -> Seq<DirtyRange> {
    Seq::new(
        4096,
        |k: int| DirtyRange { start: (slot * 262144 + 64 * k) as usize, end: (slot * 262144 + 64 * k + 64) as usize },
    )
}

/// The rows of the storage slots of the chunks `filled`, one chunk after another.
pub open spec fn rows_of_all(filled: Seq<IVec3>, wrap: IVec3) -> Seq<DirtyRange>
    decreases filled.len(),
{
    if filled.len() == 0 {
        Seq::empty()
    } else {
        rows_of_all(filled.drop_last(), wrap) + rows_of(storage_slot(filled.last(), wrap))
    }
}

/// Whether data index `i` lies in the storage of one of the chunks `filled`.
pub open spec fn in_filled(filled: Seq<IVec3>, wrap: IVec3, i: int) -> bool {
    exists|j: int| 0 <= j < filled.len() && storage_slot(#[trigger] filled[j], wrap) * 262144 <= i < storage_slot(filled[j], wrap) * 262144 + 262144
}

/// What `pump_cpu` did to `m0`, giving `m1`: it filled the chunks `filled`
/// (at most two, the greatest of the queue first) with the world's colors,
/// marked them filled, added their rows to the pending ranges, and took them
/// and the already filled units off the queue, keeping every other unit
/// queued; it stopped early only when the queue ran empty.
pub open spec fn pumped(m0: ChunkManager, m1: ChunkManager, w: World, filled: Seq<IVec3>) -> bool {
    &&& pumped_so_far(m0, m1, w, filled)
    &&& dropped_ok(m0, m1, filled)
    &&& filled.len() < 2 ==> m1.queue().len() == 0
}

/// Every unit that left the queue from `m0` to `m1` was filled, or its chunk
/// was filled already in `m0`.
pub open spec fn dropped_ok(m0: ChunkManager, m1: ChunkManager, filled: Seq<IVec3>) -> bool {
    forall|u: WorkUnit| #[trigger] m0.queue().contains(u) && !m1.queue().contains(u)
        ==> filled.contains(u.chunk_offset) || m0.states()[storage_slot(u.chunk_offset, m0.wrap())] == 1
}

proof fn lemma_pop_dropped(m0: ChunkManager, s0: ChunkManager, s1: ChunkManager, filled: Seq<IVec3>, u: WorkUnit)
    requires
        dropped_ok(m0, s0, filled),
        exists|i: int| 0 <= i < s0.queue().len() && s0.queue()[i] == u && s1.queue() == s0.queue().remove(i),
    ensures
        forall|v: WorkUnit| #[trigger] m0.queue().contains(v) && !s1.queue().contains(v) && v != u
            ==> filled.contains(v.chunk_offset) || m0.states()[storage_slot(v.chunk_offset, m0.wrap())] == 1,
{
    let i = choose|i: int| 0 <= i < s0.queue().len() && s0.queue()[i] == u && s1.queue() == s0.queue().remove(i);
    assert forall|v: WorkUnit| #[trigger] m0.queue().contains(v) && !s1.queue().contains(v) && v != u
        implies filled.contains(v.chunk_offset) || m0.states()[storage_slot(v.chunk_offset, m0.wrap())] == 1 by {
        if s0.queue().contains(v) {
            let j = choose|j: int| 0 <= j < s0.queue().len() && s0.queue()[j] == v;
            if j < i {
                assert(s1.queue()[j] == v);
            } else {
                assert(j != i);
                assert(s1.queue()[j - 1] == v);
            }
        }
    }
}

/// What `pump_cpu` has done to `m0` so far, giving `m1`, having filled `filled`.
pub open spec fn pumped_so_far(m0: ChunkManager, m1: ChunkManager, w: World, filled: Seq<IVec3>) -> bool {
    let wrap = m0.wrap();
    &&& filled.len() <= 2
    &&& forall|i: int| 0 <= i < filled.len() ==> in_window(#[trigger] filled[i])
    &&& filled.len() == 2 ==> filled[0] != filled[1]
    &&& m1.origin() == m0.origin()
    &&& m1.wrap() == m0.wrap()
    &&& m1.center() == m0.center()
    &&& m1.urgent() == m0.urgent()
    &&& m1.states().len() == 125
    &&& forall|o: IVec3| in_window(o) ==> #[trigger] m1.states()[storage_slot(o, wrap)] == if filled.contains(o) {
        1u8
    } else {
        m0.states()[storage_slot(o, wrap)]
    }
    &&& forall|i: int| 0 <= i < filled.len() ==> m0.states()[storage_slot(#[trigger] filled[i], wrap)] != 1
    &&& forall|i: int| 0 <= i < filled.len() ==> holds_chunk(m1.data_view(), storage_slot(#[trigger] filled[i], wrap) * 262144, w, chunk_base(m0.origin(), filled[i]))
    &&& m1.data_view().len() == m0.data_view().len()
    &&& forall|i: int| 0 <= i < m0.data_view().len() && !in_filled(filled, wrap, i) ==> #[trigger] m1.data_view()[i] == m0.data_view()[i]
    &&& m1.pending() == m0.pending() + rows_of_all(filled, wrap)
    &&& forall|i: int| 0 <= i < filled.len() ==> m0.queue().contains(unit_of(#[trigger] filled[i]))
    &&& filled.len() == 2 ==> unit_le(unit_of(filled[1]), unit_of(filled[0]))
    &&& forall|u: WorkUnit| #[trigger] m1.queue().contains(u) ==> m0.queue().contains(u)
    &&& forall|u: WorkUnit, i: int| #[trigger] m1.queue().contains(u) && 0 <= i < filled.len() ==> unit_le(u, unit_of(#[trigger] filled[i]))
}


/// Whether index `x` lies in one of the ranges `rs`.
pub open spec fn covered(rs: Seq<DirtyRange>, x: int) -> bool {
    exists|i: int| 0 <= i < rs.len() && (#[trigger] rs[i]).start <= x < rs[i].end
}

/// Whether `rs` is the canonical form of a union of ranges: each range is
/// non-empty and ends before the next one starts (with a gap between them).
pub open spec fn canonical(rs: Seq<DirtyRange>) -> bool {
    &&& forall|i: int| 0 <= i < rs.len() ==> (#[trigger] rs[i]).start < rs[i].end
    &&& forall|i: int, j: int| 0 <= i < j < rs.len() ==> (#[trigger] rs[i]).end < (#[trigger] rs[j]).start
}

/// Whether `rs` is sorted by start.
pub open spec fn sorted_by_start(rs: Seq<DirtyRange>) -> bool {
    forall|i: int, j: int| 0 <= i <= j < rs.len() ==> (#[trigger] rs[i]).start <= (#[trigger] rs[j]).start
}


/// How the merged ranges `m` are handed out under a budget of `remaining`
/// bytes, four bytes a voxel, in order: a range that fits is uploaded whole;
/// the first one that does not fit is uploaded in part (at least one voxel)
/// and its rest stays pending, as does every range after the budget is
/// spent. Gives the uploads and the ranges left pending.
pub open spec fn upload_plan(m: Seq<DirtyRange>, remaining: int) -> (Seq<DirtyRange>, Seq<DirtyRange>)
    decreases m.len(),
{
    if m.len() == 0 {
        (Seq::empty(), Seq::empty())
    } else {
        let r = m[0];
        let rest = m.subrange(1, m.len() as int);
        if remaining <= 0 {
            let p = upload_plan(rest, 0);
            (p.0, seq![r] + p.1)
        } else if (r.end - r.start) * 4 <= remaining {
            let p = upload_plan(rest, remaining - (r.end - r.start) * 4);
            (seq![r] + p.0, p.1)
        } else {
            let elems = if remaining / 4 >= 1 { remaining / 4 } else { 1 };
            let end = (r.start + elems) as usize;
            let p = upload_plan(rest, 0);
            (seq![DirtyRange { start: r.start, end }] + p.0, seq![DirtyRange { start: end, end: r.end }] + p.1)
        }
    }
}

/// The bytes that the ranges `rs` hold, four a voxel.
pub open spec fn bytes_of(rs: Seq<DirtyRange>) -> int
    decreases rs.len(),
{
    if rs.len() == 0 {
        0
    } else {
        (rs[0].end - rs[0].start) * 4 + bytes_of(rs.subrange(1, rs.len() as int))
    }
}

/// The upload budget holds: what one frame uploads is at most the budget
/// (a whole number of voxels).
pub proof fn lemma_upload_within_budget(m: Seq<DirtyRange>, remaining: int)
    requires
        remaining >= 0,
        remaining % 4 == 0,
        forall|i: int| 0 <= i < m.len() ==> (#[trigger] m[i]).start < m[i].end,
    ensures
        bytes_of(upload_plan(m, remaining).0) <= remaining,
    decreases m.len(),
{
    if m.len() > 0 {
        let r = m[0];
        let rest = m.subrange(1, m.len() as int);
        assert forall|i: int| 0 <= i < rest.len() implies (#[trigger] rest[i]).start < rest[i].end by {
            assert(rest[i] == m[i + 1]);
        }
        if remaining <= 0 {
            lemma_upload_within_budget(rest, 0);
        } else if (r.end - r.start) * 4 <= remaining {
            lemma_upload_within_budget(rest, remaining - (r.end - r.start) * 4);
            let u = upload_plan(m, remaining).0;
            assert(u.subrange(1, u.len() as int) =~= upload_plan(rest, remaining - (r.end - r.start) * 4).0);
        } else {
            lemma_upload_within_budget(rest, 0);
            let u = upload_plan(m, remaining).0;
            let elems = if remaining / 4 >= 1 { remaining / 4 } else { 1 };
            assert(u.subrange(1, u.len() as int) =~= upload_plan(rest, 0).0);
            assert(elems * 4 <= remaining);
            assert(u[0].end - u[0].start == elems) by {
                assert(r.start + elems < r.end);
            }
        }
    }
}

/// The upload plan splits the merged ranges exactly: an index is uploaded
/// or left pending, never both, just where the merged ranges cover it.
/// Every upload is a non-empty range inside the ranges it was cut from.
pub proof fn lemma_upload_ranges_bounded(m: Seq<DirtyRange>, remaining: int)
    requires
        forall|i: int| 0 <= i < m.len() ==> (#[trigger] m[i]).start < m[i].end <= VIEW_VOLUME,
    ensures
        forall|i: int| 0 <= i < upload_plan(m, remaining).0.len()
            ==> (#[trigger] upload_plan(m, remaining).0[i]).start < upload_plan(m, remaining).0[i].end <= VIEW_VOLUME,
    decreases m.len(),
{
    if m.len() > 0 {
        let r = m[0];
        let rest = m.subrange(1, m.len() as int);
        assert forall|i: int| 0 <= i < rest.len() implies (#[trigger] rest[i]).start < rest[i].end <= VIEW_VOLUME by {
            assert(rest[i] == m[i + 1]);
        }
        lemma_upload_ranges_bounded(rest, 0);
        lemma_upload_ranges_bounded(rest, remaining - (r.end - r.start) * 4);
        let plan = upload_plan(m, remaining).0;
        if remaining <= 0 {
            assert(plan == upload_plan(rest, 0).0);
        } else if (r.end - r.start) * 4 <= remaining {
            let p = upload_plan(rest, remaining - (r.end - r.start) * 4).0;
            assert(plan == seq![r] + p);
            assert forall|i: int| 0 <= i < plan.len() implies (#[trigger] plan[i]).start < plan[i].end <= VIEW_VOLUME by {
                if i > 0 {
                    assert(plan[i] == p[i - 1]);
                }
            }
        } else {
            let elems = if remaining / 4 >= 1 { remaining / 4 } else { 1 };
            assert(elems <= r.end - r.start);
            let p = upload_plan(rest, 0).0;
            let first = DirtyRange { start: r.start, end: (r.start + elems) as usize };
            assert(plan == seq![first] + p);
            assert forall|i: int| 0 <= i < plan.len() implies (#[trigger] plan[i]).start < plan[i].end <= VIEW_VOLUME by {
                if i > 0 {
                    assert(plan[i] == p[i - 1]);
                }
            }
        }
    }
}

pub proof fn lemma_upload_partition(m: Seq<DirtyRange>, remaining: int, x: int)
    requires
        canonical(m),
        forall|i: int| 0 <= i < m.len() ==> (#[trigger] m[i]).end <= VIEW_VOLUME,
    ensures
        covered(upload_plan(m, remaining).0, x) || covered(upload_plan(m, remaining).1, x) <==> covered(m, x),
        !(covered(upload_plan(m, remaining).0, x) && covered(upload_plan(m, remaining).1, x)),
    decreases m.len(),
{
    if m.len() > 0 {
        let r = m[0];
        let rest = m.subrange(1, m.len() as int);
        assert(canonical(rest)) by {
            assert forall|i: int, j: int| 0 <= i < j < rest.len() implies (#[trigger] rest[i]).end < (#[trigger] rest[j]).start by {
                assert(rest[i] == m[i + 1] && rest[j] == m[j + 1]);
            }
            assert forall|i: int| 0 <= i < rest.len() implies (#[trigger] rest[i]).start < rest[i].end by {
                assert(rest[i] == m[i + 1]);
            }
        }
        assert forall|i: int| 0 <= i < rest.len() implies (#[trigger] rest[i]).end <= VIEW_VOLUME by {
            assert(rest[i] == m[i + 1]);
        }
        let rem2 = if remaining <= 0 { 0 } else if (r.end - r.start) * 4 <= remaining { remaining - (r.end - r.start) * 4 } else { 0 };
        lemma_upload_partition(rest, rem2, x);
        let p = upload_plan(rest, rem2);
        let q = upload_plan(m, remaining);
        // covered by the first range or by the rest
        assert(covered(m, x) <==> (r.start <= x < r.end) || covered(rest, x)) by {
            if covered(m, x) {
                let i = choose|i: int| 0 <= i < m.len() && (#[trigger] m[i]).start <= x < m[i].end;
                if i > 0 {
                    assert(rest[i - 1] == m[i]);
                }
            }
            if covered(rest, x) {
                let i = choose|i: int| 0 <= i < rest.len() && (#[trigger] rest[i]).start <= x < rest[i].end;
                assert(m[i + 1] == rest[i]);
            }
            if r.start <= x < r.end {
                assert(m[0] == r);
            }
        }
        // the first range lies before all of the rest
        assert(covered(rest, x) ==> r.end < x) by {
            if covered(rest, x) {
                let i = choose|i: int| 0 <= i < rest.len() && (#[trigger] rest[i]).start <= x < rest[i].end;
                assert(m[i + 1] == rest[i]);
                assert(m[0].end < m[i + 1].start);
            }
        }
        if remaining <= 0 {
            assert(q.0 == p.0);
            lemma_covered_prepend(r, p.1, x);
        } else if (r.end - r.start) * 4 <= remaining {
            assert(q.1 == p.1);
            lemma_covered_prepend(r, p.0, x);
        } else {
            let elems = if remaining / 4 >= 1 { remaining / 4 } else { 1 };
            let end = (r.start + elems) as usize;
            assert(r.start + elems <= r.end) by {
                if remaining / 4 >= 1 {
                    assert((remaining / 4) * 4 <= remaining);
                }
            }
            lemma_covered_prepend(DirtyRange { start: r.start, end }, p.0, x);
            lemma_covered_prepend(DirtyRange { start: end, end: r.end }, p.1, x);
        }
    }
}

proof fn lemma_covered_prepend(r: DirtyRange, rs: Seq<DirtyRange>, x: int)
    ensures
        covered(seq![r] + rs, x) <==> (r.start <= x < r.end) || covered(rs, x),
{
    let s = seq![r] + rs;
    if covered(s, x) {
        let i = choose|i: int| 0 <= i < s.len() && (#[trigger] s[i]).start <= x < s[i].end;
        if i > 0 {
            assert(rs[i - 1] == s[i]);
        }
    }
    if covered(rs, x) {
        let i = choose|i: int| 0 <= i < rs.len() && (#[trigger] rs[i]).start <= x < rs[i].end;
        assert(s[i + 1] == rs[i]);
    }
    if r.start <= x < r.end {
        assert(s[0] == r);
    }
}

proof fn lemma_storage_in_window(o: IVec3, wrap: IVec3)
    ensures
        in_window(storage_offset(o, wrap)),
        0 <= storage_slot(o, wrap) < 125,
{
    lemma_grid_index_bounds(storage_offset(o, wrap), 5);
}

/// Different window offsets have different storage slots: the ring is a
/// permutation of the window.
pub proof fn lemma_storage_injective(a: IVec3, b: IVec3, wrap: IVec3)
    requires
        in_window(a),
        in_window(b),
        storage_slot(a, wrap) == storage_slot(b, wrap),
    ensures
        a == b,
{
    lemma_storage_in_window(a, wrap);
    lemma_storage_in_window(b, wrap);
    lemma_grid_index_injective(storage_offset(a, wrap), storage_offset(b, wrap), 5);
    assert((a.x + wrap.x) % 5 == (b.x + wrap.x) % 5);
    assert((a.y + wrap.y) % 5 == (b.y + wrap.y) % 5);
    assert((a.z + wrap.z) % 5 == (b.z + wrap.z) % 5);
}

/// `value` modulo `size`, in `0..size`.
fn rem_euclid(value: i32, size: i32) -> (r: i32)
    requires
        size > 0,
    ensures
        r == value % size,
        0 <= r < size,
{
    match value.checked_rem_euclid(size) {
        Some(r) => r,
        None => 0,
    }
}


/// The absolute value of `v` (never `i32::MIN` here).
fn abs_i32(v: i32) -> (r: i32)
    requires
        v > i32::MIN,
    ensures
        r == if v >= 0 { v as int } else { -v },
{
    if v >= 0 { v } else { -v }
}

proof fn lemma_mod5_shift(c: int, w: int) -> (o: int)
    requires
        0 <= c < 5,
        0 <= w < 5,
    ensures
        0 <= o < 5,
        (o + w) % 5 == c,
{
    let o = if c >= w { c - w } else { c - w + 5 };
    if o + w >= 5 {
        vstd::arithmetic::div_mod::lemma_fundamental_div_mod_converse(o + w, 5, 1, c);
    } else {
        vstd::arithmetic::div_mod::lemma_fundamental_div_mod_converse(o + w, 5, 0, c);
    }
    o
}

/// Every storage slot is the slot of some window offset.
proof fn lemma_storage_surjective(j: int, wrap: IVec3) -> (o: IVec3)
    requires
        0 <= j < 125,
        in_window(wrap),
    ensures
        in_window(o),
        storage_slot(o, wrap) == j,
{
    lemma_grid_roundtrip(j, 5);
    let c = grid_cell(j, 5);
    let ox = lemma_mod5_shift(c.x as int, wrap.x as int);
    let oy = lemma_mod5_shift(c.y as int, wrap.y as int);
    let oz = lemma_mod5_shift(c.z as int, wrap.z as int);
    let o = IVec3 { x: ox as i32, y: oy as i32, z: oz as i32 };
    assert(storage_offset(o, wrap) == c);
    o
}

/// What a reset leaves: all data 0, every chunk queued and marked queued,
/// nothing urgent, all the data pending, and the new place of the window.
pub open spec fn reset_to(m: ChunkManager, center: IVec3, origin: IVec3, wrap: IVec3) -> bool {
    &&& m.data_view() == Seq::new(VIEW_VOLUME as nat, |j: int| 0u32)
    &&& m.states().len() == 125
    &&& forall|j: int| 0 <= j < 125 ==> #[trigger] m.states()[j] == 2
    &&& forall|u: WorkUnit| #[trigger] m.queue().contains(u) <==> (in_window(u.chunk_offset) && u == unit_of(u.chunk_offset))
    &&& m.urgent().len() == 0
    &&& m.pending() == seq![DirtyRange { start: 0, end: VIEW_VOLUME }]
    &&& m.origin() == origin
    &&& m.wrap() == wrap
    &&& m.center() == Some(center)
}

/// The chunk offset, in chunks, from center `a` to center `b`.
pub open spec fn center_delta(a: IVec3, b: IVec3) -> IVec3 {
    IVec3 { x: (b.x - a.x) as i32, y: (b.y - a.y) as i32, z: (b.z - a.z) as i32 }
}

/// Whether the move from `a` to `b` is a jump of a whole window or more.
pub open spec fn far_move(a: IVec3, b: IVec3) -> bool {
    ||| b.x - a.x >= 5 || a.x - b.x >= 5
    ||| b.y - a.y >= 5 || a.y - b.y >= 5
    ||| b.z - a.z >= 5 || a.z - b.z >= 5
}

/// What `publish_center(center)` does to manager `m0`, giving `m1`.
pub open spec fn published(m0: ChunkManager, m1: ChunkManager, center: IVec3) -> bool {
    let origin = origin_for(center);
    let wrap = spec_wrap(IVec3 { x: (center.x - 2) as i32, y: (center.y - 2) as i32, z: (center.z - 2) as i32 });
    match m0.center() {
        None => reset_to(m1, center, origin, wrap),
        Some(last) => if last == center {
            m1 == m0
        } else if far_move(last, center) {
            reset_to(m1, center, origin, wrap)
        } else {
            let delta = center_delta(last, center);
            &&& m1.data_view() == m0.data_view()
            &&& m1.urgent() == m0.urgent()
            &&& m1.pending() == m0.pending()
            &&& m1.origin() == origin
            &&& m1.wrap() == wrap
            &&& m1.center() == Some(center)
            &&& m1.states().len() == 125
            &&& forall|o: IVec3| in_window(o) ==> #[trigger] m1.states()[storage_slot(o, wrap)] == if exposed(o, delta) {
                2u8
            } else {
                m0.states()[storage_slot(o, wrap)]
            }
            &&& forall|u: WorkUnit| #[trigger] m1.queue().contains(u) <==> m0.queue().contains(u) || (in_window(
                u.chunk_offset,
            ) && u == unit_of(u.chunk_offset) && exposed(u.chunk_offset, delta))
        },
    }
}


proof fn lemma_base_ok(center: IVec3, o: IVec3)
    requires
        center_ok(center),
        in_window(o),
    ensures
        base_ok(chunk_base(origin_for(center), o)),
        origin_for(center).x + o.x * 64 >= i32::MIN,
        origin_for(center).y + o.y * 64 >= i32::MIN,
        origin_for(center).z + o.z * 64 >= i32::MIN,
        origin_for(center).x + o.x * 64 <= i32::MAX,
        origin_for(center).y + o.y * 64 <= i32::MAX,
        origin_for(center).z + o.z * 64 <= i32::MAX,
{
}

proof fn lemma_pop_keeps(m0: ChunkManager, s0: ChunkManager, s1: ChunkManager, w: World, filled: Seq<IVec3>, u: WorkUnit)
    requires
        s0.wf(),
        pumped_so_far(m0, s0, w, filled),
        s1.same_but_queue(&s0),
        s1.states() == s0.states(),
        exists|i: int| 0 <= i < s0.queue().len() && s0.queue()[i] == u && s1.queue() == s0.queue().remove(i),
        forall|i: int| 0 <= i < s0.queue().len() ==> unit_le(#[trigger] s0.queue()[i], u),
    ensures
        pumped_so_far(m0, s1, w, filled),
        in_window(u.chunk_offset),
        u == unit_of(u.chunk_offset),
        m0.queue().contains(u),
        forall|v: WorkUnit| #[trigger] s1.queue().contains(v) ==> unit_le(v, u),
        forall|i: int| 0 <= i < filled.len() ==> unit_le(u, unit_of(#[trigger] filled[i])),
{
    let i = choose|i: int| 0 <= i < s0.queue().len() && s0.queue()[i] == u && s1.queue() == s0.queue().remove(i);
    assert(s0.queue().contains(u));
    assert forall|v: WorkUnit| #[trigger] s1.queue().contains(v) implies s0.queue().contains(v) && unit_le(v, u) by {
        let j = choose|j: int| 0 <= j < s1.queue().len() && s1.queue()[j] == v;
        if j < i {
            assert(s0.queue()[j] == v);
        } else {
            assert(s0.queue()[j + 1] == v);
        }
    }
}

proof fn lemma_fill_keeps(m0: ChunkManager, s1: ChunkManager, s2: ChunkManager, w: World, filled: Seq<IVec3>, o: IVec3)
    requires
        pumped_so_far(m0, s1, w, filled),
        filled.len() <= 1,
        in_window(o),
        s1.data_view().len() == VIEW_VOLUME,
        s1.wrap() == m0.wrap(),
        s1.states()[storage_slot(o, m0.wrap())] != 1,
        m0.queue().contains(unit_of(o)),
        forall|v: WorkUnit| #[trigger] s1.queue().contains(v) ==> unit_le(v, unit_of(o)),
        forall|i: int| 0 <= i < filled.len() ==> unit_le(unit_of(o), unit_of(#[trigger] filled[i])),
        s2.queue() == s1.queue(),
        s2.origin() == s1.origin(),
        s2.wrap() == s1.wrap(),
        s2.center() == s1.center(),
        s2.urgent() == s1.urgent(),
        s2.states() == s1.states().update(storage_slot(o, m0.wrap()), 1),
        s2.pending() == s1.pending() + rows_of(storage_slot(o, m0.wrap())),
        s2.data_view().len() == s1.data_view().len(),
        holds_chunk(s2.data_view(), storage_slot(o, m0.wrap()) * 262144, w, chunk_base(m0.origin(), o)),
        forall|i: int| 0 <= i < s1.data_view().len() && !(storage_slot(o, m0.wrap()) * 262144 <= i < storage_slot(o, m0.wrap()) * 262144 + 262144)
            ==> s2.data_view()[i] == s1.data_view()[i],
    ensures
        pumped_so_far(m0, s2, w, filled.push(o)),
{
    let wrap = m0.wrap();
    let f2 = filled.push(o);
    let so = storage_slot(o, wrap);
    lemma_storage_in_window(o, wrap);
    assert(!filled.contains(o)) by {
        if filled.contains(o) {
            let j = choose|j: int| 0 <= j < filled.len() && filled[j] == o;
            assert(s1.states()[storage_slot(filled[j], wrap)] == 1);
        }
    }
    assert forall|p: IVec3| #![trigger f2.contains(p)] f2.contains(p) <==> filled.contains(p) || p == o by {
        if f2.contains(p) && p != o {
            let j = choose|j: int| 0 <= j < f2.len() && f2[j] == p;
            assert(filled[j] == p);
        }
        if p == o {
            assert(f2[filled.len() as int] == o);
        }
        if filled.contains(p) {
            let j = choose|j: int| 0 <= j < filled.len() && filled[j] == p;
            assert(f2[j] == p);
        }
    }
    assert forall|p: IVec3| in_window(p) implies #[trigger] s2.states()[storage_slot(p, wrap)] == if f2.contains(p) {
        1u8
    } else {
        m0.states()[storage_slot(p, wrap)]
    } by {
        lemma_storage_in_window(p, wrap);
        if p != o && storage_slot(p, wrap) == so {
            lemma_storage_injective(p, o, wrap);
        }
    }
    assert forall|i: int| 0 <= i < f2.len() implies m0.states()[storage_slot(#[trigger] f2[i], wrap)] != 1 by {
        if i == filled.len() {
            assert(f2[i] == o);
            assert(s1.states()[so] == m0.states()[so]);
        } else {
            assert(f2[i] == filled[i]);
        }
    }
    // the storage of an earlier chunk is untouched
    assert forall|i: int| 0 <= i < filled.len() implies storage_slot(#[trigger] filled[i], wrap) != so by {
        if storage_slot(filled[i], wrap) == so {
            lemma_storage_injective(filled[i], o, wrap);
            assert(filled.contains(o));
        }
    }
    assert forall|i: int| 0 <= i < f2.len() implies holds_chunk(s2.data_view(), storage_slot(#[trigger] f2[i], wrap) * 262144, w, chunk_base(m0.origin(), f2[i])) by {
        if i < filled.len() {
            let sf = storage_slot(filled[i], wrap);
            assert(f2[i] == filled[i]);
            lemma_storage_in_window(filled[i], wrap);
            assert(holds_chunk(s1.data_view(), sf * 262144, w, chunk_base(m0.origin(), filled[i])));
            assert forall|t: int| 0 <= t < 262144 implies #[trigger] s2.data_view()[sf * 262144 + t] == voxel_color(w, chunk_voxel(chunk_base(m0.origin(), filled[i]), t)) by {
                assert(!(so * 262144 <= sf * 262144 + t < so * 262144 + 262144) && 0 <= sf * 262144 + t < VIEW_VOLUME) by (nonlinear_arith)
                    requires
                        sf != so,
                        0 <= t < 262144,
                        0 <= sf < 125,
                        0 <= so < 125,
                ;
                assert(s1.data_view()[sf * 262144 + t] == voxel_color(w, chunk_voxel(chunk_base(m0.origin(), filled[i]), t)));
            }
        } else {
            assert(f2[i] == o);
        }
    }
    assert forall|i: int| 0 <= i < m0.data_view().len() && !in_filled(f2, wrap, i) implies #[trigger] s2.data_view()[i] == m0.data_view()[i] by {
        assert(!in_filled(filled, wrap, i)) by {
            if in_filled(filled, wrap, i) {
                let j = choose|j: int| 0 <= j < filled.len() && storage_slot(#[trigger] filled[j], wrap) * 262144 <= i < storage_slot(filled[j], wrap) * 262144 + 262144;
                assert(f2[j] == filled[j]);
            }
        }
        assert(!(so * 262144 <= i < so * 262144 + 262144)) by {
            if so * 262144 <= i < so * 262144 + 262144 {
                assert(f2[filled.len() as int] == o);
            }
        }
    }
    assert(rows_of_all(f2, wrap) == rows_of_all(filled, wrap) + rows_of(so)) by {
        assert(f2.drop_last() =~= filled);
    }
    assert(s2.pending() =~= m0.pending() + rows_of_all(f2, wrap));
    assert forall|i: int| 0 <= i < f2.len() implies m0.queue().contains(unit_of(#[trigger] f2[i])) by {
        if i < filled.len() {
            assert(f2[i] == filled[i]);
        }
    }
    if f2.len() == 2 {
        assert(f2[0] == filled[0]);
        assert(f2[1] == o);
    }
    assert forall|u: WorkUnit, i: int| #[trigger] s2.queue().contains(u) && 0 <= i < f2.len() implies unit_le(u, unit_of(#[trigger] f2[i])) by {
        if i < filled.len() {
            assert(f2[i] == filled[i]);
        }
    }
}


/// Whether the center moved by at most one chunk along each axis.
pub open spec fn small_move(a: IVec3, b: IVec3) -> bool {
    &&& -1 <= b.x - a.x <= 1
    &&& -1 <= b.y - a.y <= 1
    &&& -1 <= b.z - a.z <= 1
}

/// Whether the world chunk at window offset `o` of the window around
/// `center` (world chunk `center - 2 + o`) lay in the window around `last`.
pub open spec fn was_in_view(last: IVec3, center: IVec3, o: IVec3) -> bool {
    &&& 0 <= o.x + center.x - last.x < 5
    &&& 0 <= o.y + center.y - last.y < 5
    &&& 0 <= o.z + center.z - last.z < 5
}

/// Whether every chunk of `m`'s window marked filled holds the colors of
/// world `w` for the world chunk it stands for in the current window.
pub open spec fn ring_valid(m: ChunkManager, w: World) -> bool {
    forall|o: IVec3| #[trigger] in_window(o) && m.states()[storage_slot(o, m.wrap())] == 1
        ==> holds_chunk(m.data_view(), storage_slot(o, m.wrap()) * 262144, w, chunk_base(m.origin(), o))
}

/// A chunk that pumping did not fill keeps its data.
proof fn lemma_unfilled_chunk_kept(d1: Seq<u32>, d2: Seq<u32>, filled: Seq<IVec3>, wrap: IVec3, o: IVec3, w: World, base: IVec3)
    requires
        in_window(o),
        !filled.contains(o),
        forall|j: int| 0 <= j < filled.len() ==> in_window(#[trigger] filled[j]),
        d1.len() == VIEW_VOLUME,
        forall|i: int| 0 <= i < d1.len() && !in_filled(filled, wrap, i) ==> #[trigger] d2[i] == d1[i],
        holds_chunk(d1, storage_slot(o, wrap) * 262144, w, base),
    ensures
        holds_chunk(d2, storage_slot(o, wrap) * 262144, w, base),
{
    let so = storage_slot(o, wrap);
    lemma_storage_in_window(o, wrap);
    assert forall|t: int| 0 <= t < 262144 implies #[trigger] d2[so * 262144 + t] == voxel_color(w, chunk_voxel(base, t)) by {
        let i = so * 262144 + t;
        assert(0 <= i < VIEW_VOLUME) by (nonlinear_arith)
            requires
                0 <= so < 125,
                0 <= t < 262144,
                i == so * 262144 + t,
        ;
        if in_filled(filled, wrap, i) {
            let j = choose|j: int| 0 <= j < filled.len() && storage_slot(#[trigger] filled[j], wrap) * 262144 <= i
                < storage_slot(filled[j], wrap) * 262144 + 262144;
            let sj = storage_slot(filled[j], wrap);
            assert(sj == so) by (nonlinear_arith)
                requires
                    sj * 262144 <= i < sj * 262144 + 262144,
                    i == so * 262144 + t,
                    0 <= t < 262144,
            ;
            lemma_storage_injective(filled[j], o, wrap);
            assert(filled.contains(o));
        }
        assert(d1[i] == voxel_color(w, chunk_voxel(base, t)));
    }
}

/// Pumping keeps a valid ring valid: what it fills it fills with the
/// world's colors, and it leaves the data of every other chunk alone.
proof fn lemma_pumped_valid(m1: ChunkManager, m2: ChunkManager, w: World, filled: Seq<IVec3>)
    requires
        m1.data_view().len() == VIEW_VOLUME,
        ring_valid(m1, w),
        pumped(m1, m2, w, filled),
    ensures
        ring_valid(m2, w),
{
    let wrap = m1.wrap();
    assert forall|o: IVec3| #[trigger] in_window(o) && m2.states()[storage_slot(o, m2.wrap())] == 1
        implies holds_chunk(m2.data_view(), storage_slot(o, m2.wrap()) * 262144, w, chunk_base(m2.origin(), o)) by {
        if filled.contains(o) {
            let j = choose|j: int| 0 <= j < filled.len() && filled[j] == o;
            assert(holds_chunk(m2.data_view(), storage_slot(filled[j], wrap) * 262144, w, chunk_base(m1.origin(), filled[j])));
        } else {
            assert(m1.states()[storage_slot(o, wrap)] == 1);
            lemma_unfilled_chunk_kept(m1.data_view(), m2.data_view(), filled, wrap, o, w, chunk_base(m1.origin(), o));
        }
    }
}

/// Publishing a center keeps a valid ring valid, unless the window moves
/// by two to four chunks along some axis: then the chunks between the old
/// and the new face are neither refilled nor in the old window.
proof fn lemma_published_valid(m0: ChunkManager, m1: ChunkManager, center: IVec3, w: World)
    requires
        m0.wf(),
        ring_valid(m0, w),
        center_ok(center),
        published(m0, m1, center),
        m0.center() is None || m0.center()->0 == center || small_move(m0.center()->0, center)
            || far_move(m0.center()->0, center),
    ensures
        ring_valid(m1, w),
{
    if let Some(last) = m0.center() {
        if last != center && !far_move(last, center) {
            let delta = center_delta(last, center);
            let wrap1 = spec_wrap(origin_chunk(center));
            assert(m0.wrap() == spec_wrap(origin_chunk(last)));
            assert(center_ok(last));
            assert forall|o: IVec3| #[trigger] in_window(o) && m1.states()[storage_slot(o, m1.wrap())] == 1
                implies holds_chunk(m1.data_view(), storage_slot(o, m1.wrap()) * 262144, w, chunk_base(m1.origin(), o)) by {
                assert(!exposed(o, delta));
                let p = IVec3 { x: (o.x + center.x - last.x) as i32, y: (o.y + center.y - last.y) as i32, z: (o.z + center.z - last.z) as i32 };
                assert(in_window(p));
                assert(world_chunk(last, p) == world_chunk(center, o));
                lemma_storage_follows_world_chunk(last, p);
                lemma_storage_follows_world_chunk(center, o);
                assert(storage_slot(p, m0.wrap()) == storage_slot(o, wrap1));
                assert(m0.states()[storage_slot(p, m0.wrap())] == 1);
                assert(chunk_base(m0.origin(), p) == chunk_base(m1.origin(), o));
            }
        }
    }
}

/// A chunk marked not filled and queued before pumping is afterwards still
/// queued and not filled, or filled with the world's colors.
proof fn lemma_pump_serves(m1: ChunkManager, m2: ChunkManager, w: World, filled: Seq<IVec3>, o: IVec3)
    requires
        pumped(m1, m2, w, filled),
        in_window(o),
        m1.states()[storage_slot(o, m1.wrap())] != 1,
        m1.queue().contains(unit_of(o)),
    ensures
        (m2.queue().contains(unit_of(o)) && m2.states()[storage_slot(o, m2.wrap())] != 1)
            || holds_chunk(m2.data_view(), storage_slot(o, m2.wrap()) * 262144, w, chunk_base(m1.origin(), o)),
{
    let wrap = m1.wrap();
    let u = unit_of(o);
    if filled.contains(o) {
        let j = choose|j: int| 0 <= j < filled.len() && filled[j] == o;
        assert(holds_chunk(m2.data_view(), storage_slot(filled[j], wrap) * 262144, w, chunk_base(m1.origin(), filled[j])));
    } else {
        assert(m2.states()[storage_slot(o, wrap)] == m1.states()[storage_slot(o, wrap)]);
        if !m2.queue().contains(u) {
            assert(m1.queue().contains(u) && !m2.queue().contains(u));
            assert(filled.contains(u.chunk_offset) || m1.states()[storage_slot(u.chunk_offset, m1.wrap())] == 1);
        }
    }
}

/// When the window moves by one chunk or less along each axis, every chunk
/// that came into view is, after publishing and pumping, either filled with
/// the world's colors for its place in the new window, or marked not filled
/// and queued.
pub proof fn lemma_new_chunks_refreshed(
    m0: ChunkManager,
    m1: ChunkManager,
    m2: ChunkManager,
    w: World,
    filled: Seq<IVec3>,
    center: IVec3,
    last: IVec3,
)
    requires
        m0.center() == Some(last),
        last != center,
        small_move(last, center),
        published(m0, m1, center),
        pumped(m1, m2, w, filled),
    ensures
        forall|o: IVec3| in_window(o) && !#[trigger] was_in_view(last, center, o) ==> {
            ||| m2.queue().contains(unit_of(o)) && m2.states()[storage_slot(o, m2.wrap())] != 1
            ||| holds_chunk(m2.data_view(), storage_slot(o, m2.wrap()) * 262144, w, chunk_base(origin_for(center), o))
        },
{
    let delta = center_delta(last, center);
    assert(!far_move(last, center));
    assert forall|o: IVec3| in_window(o) && !#[trigger] was_in_view(last, center, o) implies {
        ||| m2.queue().contains(unit_of(o)) && m2.states()[storage_slot(o, m2.wrap())] != 1
        ||| holds_chunk(m2.data_view(), storage_slot(o, m2.wrap()) * 262144, w, chunk_base(origin_for(center), o))
    } by {
        assert(delta.x == center.x - last.x && delta.y == center.y - last.y && delta.z == center.z - last.z);
        assert(exposed(o, delta));
        assert(m1.states()[storage_slot(o, m1.wrap())] == 2u8);
        assert(m1.queue().contains(unit_of(o)));
        lemma_pump_serves(m1, m2, w, filled, o);
    }
}

/// On the first frame, and after a jump of a whole window or more, every
/// chunk of the window is, after publishing and pumping, either filled with
/// the world's colors for its place, or marked not filled and queued.
pub proof fn lemma_all_chunks_refreshed(
    m0: ChunkManager,
    m1: ChunkManager,
    m2: ChunkManager,
    w: World,
    filled: Seq<IVec3>,
    center: IVec3,
)
    requires
        m0.center() is None || far_move(m0.center()->0, center),
        published(m0, m1, center),
        pumped(m1, m2, w, filled),
    ensures
        forall|o: IVec3| #[trigger] in_window(o) ==> {
            ||| m2.queue().contains(unit_of(o)) && m2.states()[storage_slot(o, m2.wrap())] != 1
            ||| holds_chunk(m2.data_view(), storage_slot(o, m2.wrap()) * 262144, w, chunk_base(origin_for(center), o))
        },
{
    if let Some(last) = m0.center() {
        assert(last != center) by {
            if last == center {
                assert(!far_move(last, center));
            }
        }
    }
    assert forall|o: IVec3| #[trigger] in_window(o) implies {
        ||| m2.queue().contains(unit_of(o)) && m2.states()[storage_slot(o, m2.wrap())] != 1
        ||| holds_chunk(m2.data_view(), storage_slot(o, m2.wrap()) * 262144, w, chunk_base(origin_for(center), o))
    } by {
        lemma_storage_in_window(o, m1.wrap());
        assert(m1.states()[storage_slot(o, m1.wrap())] == 2u8);
        assert(m1.queue().contains(unit_of(o)));
        lemma_pump_serves(m1, m2, w, filled, o);
    }
}

proof fn lemma_published_origin(m0: ChunkManager, m1: ChunkManager, center: IVec3)
    requires
        m0.wf(),
        published(m0, m1, center),
        m1.center() == Some(center),
    ensures
        m1.origin() == origin_for(center),
{
    match m0.center() {
        None => {},
        Some(last) => {
            if last == center {
                assert(m0.center() == Some(center));
            }
        },
    }
}


/// The world chunk at window offset `o` for center chunk `center`.
pub open spec fn world_chunk(center: IVec3, o: IVec3) -> IVec3 {
    IVec3 { x: (center.x - 2 + o.x) as i32, y: (center.y - 2 + o.y) as i32, z: (center.z - 2 + o.z) as i32 }
}

/// The ring storage follows the world: the storage place of the window's
/// chunk at offset `o` is the world chunk coordinate modulo 5, whatever the
/// window's center, so a chunk that stays in view as the window moves keeps
/// its place and its data.
pub proof fn lemma_storage_follows_world_chunk(center: IVec3, o: IVec3)
    requires
        center_ok(center),
        in_window(o),
    ensures
        storage_offset(o, spec_wrap(origin_chunk(center))) == spec_wrap(world_chunk(center, o)),
{
    let oc = origin_chunk(center);
    vstd::arithmetic::div_mod::lemma_add_mod_noop(o.x as int, oc.x as int, 5);
    vstd::arithmetic::div_mod::lemma_add_mod_noop(o.y as int, oc.y as int, 5);
    vstd::arithmetic::div_mod::lemma_add_mod_noop(o.z as int, oc.z as int, 5);
    vstd::arithmetic::div_mod::lemma_small_mod(o.x as nat, 5);
    vstd::arithmetic::div_mod::lemma_small_mod(o.y as nat, 5);
    vstd::arithmetic::div_mod::lemma_small_mod(o.z as nat, 5);
}

impl ChunkManager {
    pub closed spec fn data_view(&self) -> Seq<u32> {
        self.data@
    }

    pub closed spec fn states(&self) -> Seq<u8> {
        self.chunk_states@
    }

    pub closed spec fn queue(&self) -> Seq<WorkUnit> {
        self.work_queue@
    }

    pub closed spec fn urgent(&self) -> Seq<WorkUnit> {
        self.urgent_queue@
    }

    pub closed spec fn pending(&self) -> Seq<DirtyRange> {
        self.pending_dirty@
    }

    pub closed spec fn center(&self) -> Option<IVec3> {
        self.last_center
    }

    pub closed spec fn origin(&self) -> IVec3 {
        self.window_origin
    }

    pub closed spec fn wrap(&self) -> IVec3 {
        self.chunk_wrap_offset
    }

    /// The data holds the whole window, there is a state per chunk, the wrap
    /// offset lies in `0..5`, every queued unit is that of a chunk of the
    /// window, nothing is urgent, and every pending range is a non-empty part
    /// of the data.
    pub closed spec fn wf(&self) -> bool {
        &&& self.data@.len() == VIEW_VOLUME
        &&& self.chunk_states@.len() == 125
        &&& in_window(self.chunk_wrap_offset)
        &&& forall|i: int| 0 <= i < self.work_queue@.len() ==> in_window(#[trigger] self.work_queue@[i].chunk_offset)
            && self.work_queue@[i] == unit_of(self.work_queue@[i].chunk_offset)
        &&& self.urgent_queue@.len() == 0
        &&& forall|i: int| 0 <= i < self.pending_dirty@.len() ==> (#[trigger] self.pending_dirty@[i]).start
            < self.pending_dirty@[i].end <= VIEW_VOLUME
        &&& self.last_center matches Some(c) ==> center_ok(c) && self.window_origin == origin_for(c)
            && self.chunk_wrap_offset == spec_wrap(origin_chunk(c))
    }

    /// Everything but the queue and the chunk states is as in `other`.
    pub closed spec fn same_but_queue(&self, other: &Self) -> bool {
        &&& self.data@ == other.data@
        &&& self.urgent_queue@ == other.urgent_queue@
        &&& self.pending_dirty@ == other.pending_dirty@
        &&& self.last_center == other.last_center
        &&& self.window_origin == other.window_origin
        &&& self.chunk_wrap_offset == other.chunk_wrap_offset
    }

    /// Everything but the pending ranges is as in `other`.
    pub closed spec fn same_but_pending(&self, other: &Self) -> bool {
        &&& self.data@ == other.data@
        &&& self.chunk_states@ == other.chunk_states@
        &&& self.work_queue@ == other.work_queue@
        &&& self.urgent_queue@ == other.urgent_queue@
        &&& self.merged_dirty@ == other.merged_dirty@
        &&& self.scratch_dirty@ == other.scratch_dirty@
        &&& self.last_center == other.last_center
        &&& self.window_origin == other.window_origin
        &&& self.chunk_wrap_offset == other.chunk_wrap_offset
    }

    /// A manager with an empty window, waiting for its first center.
    pub fn new() -> (m: Self)
        ensures
            m.wf(),
            m.data_view().len() == VIEW_VOLUME,
            m.states().len() == 125,
            forall|w: World| ring_valid(m, w),
            m.center() is None,
            m.origin() == IVec3::zero(),
            m.wrap() == IVec3::zero(),
            forall|i: int| 0 <= i < VIEW_VOLUME ==> m.data_view()[i] == 0,
            forall|i: int| 0 <= i < 125 ==> m.states()[i] == 0,
            m.queue().len() == 0,
            m.urgent().len() == 0,
            m.pending().len() == 0,
    {
        let data = vec![0u32; VIEW_VOLUME];
        let chunk_states = vec![0u8; WINDOW_CHUNK_COUNT];
        let work_queue: Vec<WorkUnit> = Vec::with_capacity(WINDOW_CHUNK_COUNT);
        let urgent_queue: VecDeque<WorkUnit> = VecDeque::with_capacity(WINDOW_CHUNK_COUNT);
        let pending_dirty: Vec<DirtyRange> = Vec::with_capacity(WINDOW_CHUNK_COUNT * 64);
        let merged_dirty: Vec<DirtyRange> = Vec::with_capacity(WINDOW_CHUNK_COUNT * 64);
        let scratch_dirty: Vec<DirtyRange> = Vec::with_capacity(WINDOW_CHUNK_COUNT * 64);
        Self {
            data,
            chunk_states,
            work_queue,
            urgent_queue,
            pending_dirty,
            merged_dirty,
            scratch_dirty,
            last_center: None,
            window_origin: IVec3::new(0, 0, 0),
            chunk_wrap_offset: IVec3::new(0, 0, 0),
        }
    }

    /// The window's origin, in voxels.
    pub fn window_origin(&self) -> (o: IVec3)
        ensures
            o == self.origin(),
    {
        self.window_origin
    }

    /// The wrap offset of the ring storage.
    pub fn chunk_wrap_offset(&self) -> (o: IVec3)
        ensures
            o == self.wrap(),
    {
        self.chunk_wrap_offset
    }

    /// The colors of the window's voxels, chunk after chunk in ring order:
    /// what the ranges that `update_frame` returns index into.
    pub fn data(&self) -> (d: &[u32])
        ensures
            d@ == self.data_view(),
    {
        self.data.as_slice()
    }

    /// Whether `chunk_offset` lies inside the window.
    fn is_chunk_in_window(&self, chunk_offset: IVec3) -> (r: bool)
        ensures
            r == in_window(chunk_offset),
    {
        let size = VIEW_DIAMETER_CHUNKS;
        chunk_offset.x >= 0 && chunk_offset.y >= 0 && chunk_offset.z >= 0 && chunk_offset.x < size
            && chunk_offset.y < size && chunk_offset.z < size
    }

    /// The index of cell `(x, y, z)` in a cube grid `size` cells an edge.
    fn chunk_index(x: usize, y: usize, z: usize, size: usize) -> (i: usize)
        requires
            x + size * (y + size * z) <= usize::MAX,
        ensures
            i == x + size * (y + size * z),
    {
        proof {
            assert(size * z <= usize::MAX && y + size * z <= usize::MAX && size * (y + size * z) <= usize::MAX)
                by (nonlinear_arith)
                requires
                    x + size * (y + size * z) <= usize::MAX,
                    size >= 0,
                    y >= 0,
                    z >= 0,
                    x >= 0,
                    y <= usize::MAX,
            {
                if size >= 1 {
                    assert(size * z >= z);
                    assert(size * (y + size * z) >= y + size * z);
                }
            }
        }
        x + size * (y + size * z)
    }

    /// Where the chunk at window offset `chunk_offset` is stored.
    fn storage_chunk_offset(&self, chunk_offset: IVec3) -> (s: IVec3)
        requires
            self.wf(),
            in_window(chunk_offset),
        ensures
            s == storage_offset(chunk_offset, self.wrap()),
            in_window(s),
    {
        proof {
            lemma_storage_in_window(chunk_offset, self.chunk_wrap_offset);
        }
        let size = VIEW_DIAMETER_CHUNKS;
        let wrapped = IVec3::new(
            chunk_offset.x + self.chunk_wrap_offset.x,
            chunk_offset.y + self.chunk_wrap_offset.y,
            chunk_offset.z + self.chunk_wrap_offset.z,
        );
        IVec3::new(rem_euclid(wrapped.x, size), rem_euclid(wrapped.y, size), rem_euclid(wrapped.z, size))
    }

    /// The slot, in the chunk tables, of storage cell `chunk_offset`.
    fn storage_chunk_index(&self, chunk_offset: IVec3) -> (i: usize)
        requires
            in_window(chunk_offset),
        ensures
            i == grid_index(chunk_offset, 5),
            i < 125,
    {
        proof {
            lemma_grid_index_bounds(chunk_offset, 5);
        }
        Self::chunk_index(
            chunk_offset.x as usize,
            chunk_offset.y as usize,
            chunk_offset.z as usize,
            VIEW_DIAMETER_CHUNKS as usize,
        )
    }

    /// The wrap offset for window origin chunk `chunk_coord`.
    fn wrap_chunk(chunk_coord: IVec3) -> (w: IVec3)
        ensures
            w == spec_wrap(chunk_coord),
            in_window(w),
    {
        let size = VIEW_DIAMETER_CHUNKS;
        IVec3::new(rem_euclid(chunk_coord.x, size), rem_euclid(chunk_coord.y, size), rem_euclid(chunk_coord.z, size))
    }

    /// Queues the chunk at window offset `chunk_offset` unless its state
    /// says it is queued or filled already.
    fn enqueue_chunk(&mut self, chunk_offset: IVec3)
        requires
            old(self).wf(),
            in_window(chunk_offset),
        ensures
            final(self).wf(),
            final(self).same_but_queue(old(self)),
            old(self).states()[storage_slot(chunk_offset, old(self).wrap())] != 0 ==> {
                &&& final(self).states() == old(self).states()
                &&& final(self).queue() == old(self).queue()
            },
            old(self).states()[storage_slot(chunk_offset, old(self).wrap())] == 0 ==> {
                &&& final(self).states() == old(self).states().update(storage_slot(chunk_offset, old(self).wrap()), 2)
                &&& final(self).queue() == old(self).queue().push(
                    WorkUnit { chunk_offset, priority: priority_of(chunk_offset) as i32 },
                )
            },
    {
        let idx = self.storage_chunk_index(self.storage_chunk_offset(chunk_offset));
        if self.chunk_states[idx] != 0 {
            return;
        }
        self.chunk_states.set(idx, 2);
        let center = IVec3::splat(VIEW_RADIUS_CHUNKS);
        let delta = IVec3::new(chunk_offset.x - center.x, chunk_offset.y - center.y, chunk_offset.z - center.z);
        assert(-2 <= delta.x <= 2 && -2 <= delta.y <= 2 && -2 <= delta.z <= 2);
        assert(0 <= delta.x * delta.x <= 4) by (nonlinear_arith)
            requires
                -2 <= delta.x <= 2,
        ;
        assert(0 <= delta.y * delta.y <= 4) by (nonlinear_arith)
            requires
                -2 <= delta.y <= 2,
        ;
        assert(0 <= delta.z * delta.z <= 4) by (nonlinear_arith)
            requires
                -2 <= delta.z <= 2,
        ;
        let dist2 = delta.x * delta.x + delta.y * delta.y + delta.z * delta.z;
        let priority = -dist2;
        self.work_queue.push(WorkUnit { chunk_offset, priority });
    }

    /// Marks the chunk at window offset `chunk_offset` as not filled and
    /// queues it.
    fn enqueue_chunk_forced(&mut self, chunk_offset: IVec3)
        requires
            old(self).wf(),
            in_window(chunk_offset),
        ensures
            final(self).wf(),
            final(self).same_but_queue(old(self)),
            final(self).states() == old(self).states().update(storage_slot(chunk_offset, old(self).wrap()), 2),
            final(self).queue() == old(self).queue().push(
                WorkUnit { chunk_offset, priority: priority_of(chunk_offset) as i32 },
            ),
    {
        let idx = self.storage_chunk_index(self.storage_chunk_offset(chunk_offset));
        self.chunk_states.set(idx, 0);
        self.enqueue_chunk(chunk_offset);
        assert(self.chunk_states@ =~= old(self).chunk_states@.update(idx as int, 2));
    }

    /// Queues every chunk of the window whose state is 0 (not queued nor
    /// filled), in the order x, then y, then z.
    fn enqueue_full_window(&mut self)
        requires
            old(self).wf(),
        ensures
            final(self).wf(),
            final(self).same_but_queue(old(self)),
            final(self).states().len() == 125,
            forall|o: IVec3| in_window(o) ==> #[trigger] final(self).states()[storage_slot(o, old(self).wrap())] == if old(self).states()[storage_slot(o, old(self).wrap())] == 0 {
                2u8
            } else {
                old(self).states()[storage_slot(o, old(self).wrap())]
            },
            forall|u: WorkUnit| #[trigger] final(self).queue().contains(u) <==> old(self).queue().contains(u) || (in_window(u.chunk_offset)
                && u == unit_of(u.chunk_offset) && old(self).states()[storage_slot(u.chunk_offset, old(self).wrap())] == 0),
    {
        let ghost s0 = *self;
        let mut i: usize = 0;
        while i < WINDOW_CHUNK_COUNT
            invariant
                i <= 125,
                self.wf(),
                self.same_but_queue(&s0),
                s0.wf(),
                forall|o: IVec3| in_window(o) ==> #[trigger] self.states()[storage_slot(o, s0.wrap())] == if grid_index(o, 5) < i && s0.states()[storage_slot(o, s0.wrap())] == 0 {
                    2u8
                } else {
                    s0.states()[storage_slot(o, s0.wrap())]
                },
                forall|u: WorkUnit| #[trigger] self.queue().contains(u) <==> s0.queue().contains(u) || (in_window(u.chunk_offset)
                    && u == unit_of(u.chunk_offset) && grid_index(u.chunk_offset, 5) < i && s0.states()[storage_slot(u.chunk_offset, s0.wrap())] == 0),
            decreases 125 - i,
        {
            let o = IVec3::new((i % 5) as i32, ((i / 5) % 5) as i32, (i / 25) as i32);
            proof {
                lemma_grid_roundtrip(i as int, 5);
                assert(o == grid_cell(i as int, 5));
            }
            let ghost s1 = *self;
            self.enqueue_chunk(o);
            proof {
                lemma_storage_in_window(o, s0.wrap());
                assert forall|p: IVec3| in_window(p) implies #[trigger] self.states()[storage_slot(p, s0.wrap())] == if grid_index(p, 5) < i + 1 && s0.states()[storage_slot(p, s0.wrap())] == 0 {
                    2u8
                } else {
                    s0.states()[storage_slot(p, s0.wrap())]
                } by {
                    lemma_storage_in_window(p, s0.wrap());
                    if p == o {
                    } else {
                        if storage_slot(p, s0.wrap()) == storage_slot(o, s0.wrap()) {
                            lemma_storage_injective(p, o, s0.wrap());
                        }
                        if grid_index(p, 5) == i {
                            lemma_grid_index_injective(p, o, 5);
                        }
                    }
                }
                assert forall|u: WorkUnit| #[trigger] self.queue().contains(u) <==> s0.queue().contains(u) || (in_window(u.chunk_offset)
                    && u == unit_of(u.chunk_offset) && grid_index(u.chunk_offset, 5) < i + 1 && s0.states()[storage_slot(u.chunk_offset, s0.wrap())] == 0) by {
                    if self.queue().len() > s1.queue().len() {
                        assert(self.queue() == s1.queue().push(unit_of(o)));
                        if self.queue().contains(u) && u != unit_of(o) {
                            let j = choose|j: int| 0 <= j < self.queue().len() && self.queue()[j] == u;
                            assert(s1.queue()[j] == u);
                        }
                        if s1.queue().contains(u) {
                            let j = choose|j: int| 0 <= j < s1.queue().len() && s1.queue()[j] == u;
                            assert(self.queue()[j] == u);
                        }
                        if u == unit_of(o) {
                            assert(self.queue()[s1.queue().len() as int] == u);
                        }
                    }
                    if in_window(u.chunk_offset) && grid_index(u.chunk_offset, 5) == i {
                        lemma_grid_index_injective(u.chunk_offset, o, 5);
                    }
                }
            }
            i += 1;
        }
    }


    /// Queues the chunks that came into view when the window moved by
    /// `delta_chunks`: for each axis it moved along, the face of the window
    /// toward the move is refilled.
    fn enqueue_exposed(&mut self, delta_chunks: IVec3)
        requires
            old(self).wf(),
        ensures
            final(self).wf(),
            final(self).same_but_queue(old(self)),
            final(self).states().len() == 125,
            forall|o: IVec3| in_window(o) ==> #[trigger] final(self).states()[storage_slot(o, old(self).wrap())] == if exposed(o, delta_chunks) {
                2u8
            } else {
                old(self).states()[storage_slot(o, old(self).wrap())]
            },
            forall|u: WorkUnit| #[trigger] final(self).queue().contains(u) <==> old(self).queue().contains(u) || (in_window(u.chunk_offset)
                && u == unit_of(u.chunk_offset) && exposed(u.chunk_offset, delta_chunks)),
    {
        let size = VIEW_DIAMETER_CHUNKS;
        let ghost s0 = *self;
        if delta_chunks.x > 0 {
            self.enqueue_plane(0, size - 1);
        } else if delta_chunks.x < 0 {
            self.enqueue_plane(0, 0);
        }
        let ghost s1 = *self;
        if delta_chunks.y > 0 {
            self.enqueue_plane(1, size - 1);
        } else if delta_chunks.y < 0 {
            self.enqueue_plane(1, 0);
        }
        let ghost s2 = *self;
        if delta_chunks.z > 0 {
            self.enqueue_plane(2, size - 1);
        } else if delta_chunks.z < 0 {
            self.enqueue_plane(2, 0);
        }
        proof {
            let w = s0.wrap();
            assert(s1.wrap() == w && s2.wrap() == w);
            assert forall|o: IVec3| in_window(o) implies #[trigger] self.states()[storage_slot(o, w)] == if exposed(o, delta_chunks) {
                2u8
            } else {
                s0.states()[storage_slot(o, w)]
            } by {
                let a = s1.states()[storage_slot(o, w)];
                let b = s2.states()[storage_slot(o, w)];
                assert(a == if (delta_chunks.x > 0 && o.x == 4) || (delta_chunks.x < 0 && o.x == 0) { 2u8 } else { s0.states()[storage_slot(o, w)] });
                assert(b == if (delta_chunks.y > 0 && o.y == 4) || (delta_chunks.y < 0 && o.y == 0) { 2u8 } else { a });
            }
            assert forall|u: WorkUnit| #[trigger] self.queue().contains(u) <==> s0.queue().contains(u) || (in_window(u.chunk_offset)
                && u == unit_of(u.chunk_offset) && exposed(u.chunk_offset, delta_chunks)) by {
                assert(s1.queue().contains(u) == s1.queue().contains(u));
                assert(s2.queue().contains(u) == s2.queue().contains(u));
            }
        }
    }

    /// Empties the window and queues all of it again: every voxel is 0,
    /// every chunk is queued, and all the data is pending upload.
    fn reset_window(&mut self, center_chunk: IVec3, new_origin: IVec3, new_wrap: IVec3)
        requires
            old(self).wf(),
            center_ok(center_chunk),
            new_origin == origin_for(center_chunk),
            new_wrap == spec_wrap(origin_chunk(center_chunk)),
        ensures
            final(self).wf(),
            reset_to(*final(self), center_chunk, new_origin, new_wrap),
    {
        let mut i: usize = 0;
        while i < VIEW_VOLUME
            invariant
                i <= VIEW_VOLUME,
                self.wf(),
                forall|j: int| 0 <= j < i ==> self.data@[j] == 0,
            decreases VIEW_VOLUME - i,
        {
            self.data.set(i, 0);
            i += 1;
        }
        let mut i: usize = 0;
        while i < WINDOW_CHUNK_COUNT
            invariant
                i <= 125,
                self.wf(),
                forall|j: int| 0 <= j < VIEW_VOLUME ==> self.data@[j] == 0,
                forall|j: int| 0 <= j < i ==> self.chunk_states@[j] == 0,
            decreases 125 - i,
        {
            self.chunk_states.set(i, 0);
            i += 1;
        }
        self.work_queue.clear();
        self.urgent_queue.clear();
        self.pending_dirty.clear();
        self.pending_dirty.push(DirtyRange { start: 0, end: VIEW_VOLUME });
        self.window_origin = new_origin;
        self.chunk_wrap_offset = new_wrap;
        self.last_center = Some(center_chunk);
        proof {
            assert(self.work_queue@.len() == 0);
            assert(self.wf());
        }
        let ghost s1 = *self;
        self.enqueue_full_window();
        proof {
            assert(s1.wrap() == new_wrap);
            assert(forall|j: int| 0 <= j < 125 ==> s1.states()[j] == 0);
            assert forall|j: int| 0 <= j < 125 implies #[trigger] self.states()[j] == 2 by {
                let o = lemma_storage_surjective(j, new_wrap);
                assert(s1.states()[storage_slot(o, new_wrap)] == 0);
                assert(self.states()[storage_slot(o, new_wrap)] == 2);
            }
            assert(self.data@ == s1.data@);
            assert forall|u: WorkUnit| #[trigger] self.queue().contains(u) <==> (in_window(u.chunk_offset) && u == unit_of(u.chunk_offset)) by {
                if in_window(u.chunk_offset) {
                    lemma_storage_in_window(u.chunk_offset, new_wrap);
                }
            }
            assert(self.data@ =~= Seq::new(VIEW_VOLUME as nat, |j: int| 0u32));
        }
    }

    /// Moves the window to center chunk `center_chunk`. The first time, or
    /// after a jump of a whole window or more along some axis, the window is
    /// emptied and queued again; after a smaller move only the chunks that
    /// came into view are queued, the others keeping their storage and data.
    fn publish_center(&mut self, center_chunk: IVec3)
        requires
            old(self).wf(),
            center_ok(center_chunk),
        ensures
            final(self).wf(),
            final(self).center() == Some(center_chunk),
            published(*old(self), *final(self), center_chunk),
    {
        let window_origin_chunk = IVec3::new(
            center_chunk.x - VIEW_RADIUS_CHUNKS,
            center_chunk.y - VIEW_RADIUS_CHUNKS,
            center_chunk.z - VIEW_RADIUS_CHUNKS,
        );
        let new_origin = IVec3::new(
            window_origin_chunk.x * CHUNK_SIZE,
            window_origin_chunk.y * CHUNK_SIZE,
            window_origin_chunk.z * CHUNK_SIZE,
        );
        let new_wrap = Self::wrap_chunk(window_origin_chunk);
        assert(new_origin == origin_for(center_chunk));
        assert(window_origin_chunk == origin_chunk(center_chunk));
        if self.last_center.is_none() {
            self.reset_window(center_chunk, new_origin, new_wrap);
            return;
        }
        let last_center = match self.last_center {
            Some(c) => c,
            None => center_chunk,
        };
        if last_center == center_chunk {
            return;
        }
        let delta_chunks = IVec3::new(
            center_chunk.x - last_center.x,
            center_chunk.y - last_center.y,
            center_chunk.z - last_center.z,
        );
        if abs_i32(delta_chunks.x) >= VIEW_DIAMETER_CHUNKS || abs_i32(delta_chunks.y) >= VIEW_DIAMETER_CHUNKS
            || abs_i32(delta_chunks.z) >= VIEW_DIAMETER_CHUNKS {
            self.reset_window(center_chunk, new_origin, new_wrap);
            return;
        }
        self.window_origin = new_origin;
        self.chunk_wrap_offset = new_wrap;
        self.last_center = Some(center_chunk);
        let ghost s1 = *self;
        self.enqueue_exposed(delta_chunks);
        let ghost s2 = *self;
        proof {
            assert(self.states() == s2.states());
            assert(self.queue() == s2.queue());
            assert(new_wrap == spec_wrap(IVec3 { x: (center_chunk.x - 2) as i32, y: (center_chunk.y - 2) as i32, z: (center_chunk.z - 2) as i32 }));
            let m0 = *old(self);
            let m1 = *self;
            assert(m0.center() == Some(last_center));
            assert(!far_move(last_center, center_chunk));
            assert(delta_chunks == center_delta(last_center, center_chunk));
            assert(s1.states() == m0.states());
            assert(s1.wrap() == new_wrap);
            assert(m1.data_view() == m0.data_view());
            assert(m1.urgent() == m0.urgent());
            assert(m1.pending() == m0.pending());
            assert(m1.origin() == origin_for(center_chunk));
            assert(m1.wrap() == new_wrap);
            assert(m1.states().len() == 125);
        }
    }


    /// Fills `data[base_index..base_index + CHUNK_VOLUME]` with the colors
    /// of the world's chunk at window offset `chunk_offset`: a voxel's color
    /// is its material's palette entry where it is solid, else 0.
    fn compute_chunk(world: &World, window_origin: IVec3, chunk_offset: IVec3, data: &mut Vec<u32>, base_index: usize)
        requires
            world.wf(),
            base_index + CHUNK_VOLUME <= old(data)@.len(),
            base_ok(chunk_base(window_origin, chunk_offset)),
            window_origin.x + chunk_offset.x * 64 >= i32::MIN,
            window_origin.y + chunk_offset.y * 64 >= i32::MIN,
            window_origin.z + chunk_offset.z * 64 >= i32::MIN,
            window_origin.x + chunk_offset.x * 64 <= i32::MAX,
            window_origin.y + chunk_offset.y * 64 <= i32::MAX,
            window_origin.z + chunk_offset.z * 64 <= i32::MAX,
            i32::MIN <= chunk_offset.x * 64 <= i32::MAX,
            i32::MIN <= chunk_offset.y * 64 <= i32::MAX,
            i32::MIN <= chunk_offset.z * 64 <= i32::MAX,
        ensures
            final(data)@.len() == old(data)@.len(),
            holds_chunk(final(data)@, base_index as int, *world, chunk_base(window_origin, chunk_offset)),
            forall|i: int| 0 <= i < old(data)@.len() && !(base_index <= i < base_index + CHUNK_VOLUME) ==> final(data)@[i] == old(data)@[i],
    {
        let corner = IVec3::new(
            window_origin.x + chunk_offset.x * CHUNK_SIZE,
            window_origin.y + chunk_offset.y * CHUNK_SIZE,
            window_origin.z + chunk_offset.z * CHUNK_SIZE,
        );
        let data_len = data.len();
        assert(old(data)@.len() == data_len);
        let mut t: usize = 0;
        while t < CHUNK_VOLUME
            invariant
                t <= CHUNK_VOLUME,
                world.wf(),
                base_index + CHUNK_VOLUME <= data@.len(),
                data@.len() == old(data)@.len(),
                old(data)@.len() <= usize::MAX,
                base_ok(corner),
                corner == chunk_base(window_origin, chunk_offset),
                forall|u: int| 0 <= u < t ==> #[trigger] data@[base_index + u] == voxel_color(*world, chunk_voxel(corner, u)),
                forall|i: int| 0 <= i < old(data)@.len() && !(base_index <= i < base_index + CHUNK_VOLUME) ==> data@[i] == old(data)@[i],
            decreases CHUNK_VOLUME - t,
        {
            let x = (t % 64) as i32;
            let y = ((t / 64) % 64) as i32;
            let z = (t / 4096) as i32;
            let voxel = IVec3::new(corner.x + x, corner.y + y, corner.z + z);
            assert(voxel == chunk_voxel(corner, t as int));
            let density = world.sample_density(voxel);
            let material = if density >= 0 {
                let index = world.sample_material(voxel);
                world.palette[index as usize]
            } else {
                0
            };
            data.set(base_index + t, material);
            t += 1;
        }
        proof {
            assert forall|u: int| 0 <= u < 262144 implies #[trigger] data@[base_index + u] == voxel_color(*world, chunk_voxel(corner, u)) by {
            }
        }
    }


    /// Takes the greatest unit out of the work queue, in the queue's order.
    fn pop_work(&mut self) -> (r: Option<WorkUnit>)
        requires
            old(self).wf(),
        ensures
            final(self).wf(),
            final(self).same_but_queue(old(self)),
            final(self).states() == old(self).states(),
            r is None <==> old(self).queue().len() == 0,
            r is None ==> final(self).queue() == old(self).queue(),
            r matches Some(u) ==> {
                &&& exists|i: int| 0 <= i < old(self).queue().len() && old(self).queue()[i] == u
                    && final(self).queue() == old(self).queue().remove(i)
                &&& forall|i: int| 0 <= i < old(self).queue().len() ==> unit_le(#[trigger] old(self).queue()[i], u)
            },
    {
        if self.work_queue.len() == 0 {
            return None;
        }
        let mut best: usize = 0;
        let mut i: usize = 1;
        while i < self.work_queue.len()
            invariant
                1 <= i <= self.work_queue@.len(),
                best < i,
                forall|j: int| 0 <= j < i ==> unit_le(#[trigger] self.work_queue@[j], self.work_queue@[best as int]),
            decreases self.work_queue@.len() - i,
        {
            let a = self.work_queue[i];
            let b = self.work_queue[best];
            let greater = a.priority > b.priority || (a.priority == b.priority && (a.chunk_offset.z > b.chunk_offset.z
                || (a.chunk_offset.z == b.chunk_offset.z && (a.chunk_offset.y > b.chunk_offset.y
                || (a.chunk_offset.y == b.chunk_offset.y && a.chunk_offset.x > b.chunk_offset.x)))));
            if greater {
                best = i;
            }
            i += 1;
        }
        let ghost q0 = self.work_queue@;
        let u = self.work_queue.remove(best);
        proof {
            assert forall|j: int| 0 <= j < self.work_queue@.len() implies in_window(#[trigger] self.work_queue@[j].chunk_offset)
                && self.work_queue@[j] == unit_of(self.work_queue@[j].chunk_offset) by {
                if j < best {
                    assert(self.work_queue@[j] == q0[j]);
                } else {
                    assert(self.work_queue@[j] == q0[j + 1]);
                }
            }
            assert(q0 == old(self).queue());
            assert(q0[best as int] == u);
            assert(self.queue() == q0.remove(best as int));
        }
        Some(u)
    }


    /// Fills queued chunks, greatest first, while the voxel budget of a
    /// frame allows, skipping units whose chunk is filled already.
    fn pump_cpu(&mut self, world: &World)
        requires
            old(self).wf(),
            world.wf(),
            old(self).center() is Some,
            old(self).origin() == origin_for(old(self).center()->0),
        ensures
            final(self).wf(),
            exists|filled: Seq<IVec3>| pumped(*old(self), *final(self), *world, filled),
    {
        let ghost m0 = *self;
        let ghost mut filled: Seq<IVec3> = Seq::empty();
        let mut budget = CPU_VOXEL_BUDGET;
        proof {
            assert(rows_of_all(filled, m0.wrap()) =~= Seq::<DirtyRange>::empty());
            assert(m0.pending() + rows_of_all(filled, m0.wrap()) =~= m0.pending());
        }
        while budget > 0
            invariant_except_break
                budget == CPU_VOXEL_BUDGET - CHUNK_VOLUME * filled.len(),
                filled.len() <= 1 ==> budget > 0,
            invariant
                self.wf(),
                world.wf(),
                m0.wf(),
                m0.center() is Some,
                m0.origin() == origin_for(m0.center()->0),
                filled.len() <= 2,
                pumped_so_far(m0, *self, *world, filled),
                dropped_ok(m0, *self, filled),
                budget == CPU_VOXEL_BUDGET - CHUNK_VOLUME * filled.len(),
            ensures
                pumped(m0, *self, *world, filled),
            decreases self.work_queue@.len(),
        {
            let ghost s0 = *self;
            let front = self.urgent_queue.pop_front();
            let ghost s_mid = *self;
            proof {
                assert(front is None);
                assert(s_mid.queue() == s0.queue());
                assert(s_mid.wf());
                assert(pumped_so_far(m0, s_mid, *world, filled));
            }
            let work = match front {
                Some(w) => Some(w),
                None => self.pop_work(),
            };
            let work_unit = match work {
                Some(w) => w,
                None => {
                    break;
                },
            };
            proof {
                lemma_pop_keeps(m0, s_mid, *self, *world, filled, work_unit);
                lemma_pop_dropped(m0, s_mid, *self, filled, work_unit);
            }
            if !self.is_chunk_in_window(work_unit.chunk_offset) {
                continue;
            }
            let idx = self.storage_chunk_index(self.storage_chunk_offset(work_unit.chunk_offset));
            if self.chunk_states[idx] == 1 {
                proof {
                    assert(self.states()[storage_slot(work_unit.chunk_offset, m0.wrap())] == 1);
                }
                continue;
            }
            assert(budget >= CHUNK_VOLUME);
            if budget < CHUNK_VOLUME {
                self.work_queue.push(work_unit);
                break;
            }
            assert(idx * CHUNK_VOLUME + CHUNK_VOLUME <= VIEW_VOLUME) by (nonlinear_arith)
                requires
                    idx < 125,
            ;
            let base_index = idx * CHUNK_VOLUME;
            let chunk_offset = work_unit.chunk_offset;
            let ghost s1 = *self;
            proof {
                lemma_base_ok(m0.center()->0, chunk_offset);
            }
            Self::compute_chunk(world, self.window_origin, chunk_offset, &mut self.data, base_index);
            let ghost s1b = *self;
            let mut k: usize = 0;
            while k < 4096
                invariant
                    k <= 4096,
                    base_index == idx * CHUNK_VOLUME,
                    self.data@ == s1b.data@,
                    self.chunk_states@ == s1b.chunk_states@,
                    self.work_queue@ == s1b.work_queue@,
                    self.urgent_queue@ == s1b.urgent_queue@,
                    self.last_center == s1b.last_center,
                    self.window_origin == s1b.window_origin,
                    self.chunk_wrap_offset == s1b.chunk_wrap_offset,
                    s1b.pending_dirty@ == s1.pending_dirty@,
                    idx < 125,
                    self.pending_dirty@ == s1.pending_dirty@ + rows_of(idx as int).take(k as int),
                decreases 4096 - k,
            {
                let row_start = base_index + 64 * k;
                self.pending_dirty.push(DirtyRange { start: row_start, end: row_start + 64 });
                k += 1;
                proof {
                    assert(rows_of(idx as int).take(k as int) =~= rows_of(idx as int).take(k as int - 1).push(
                        DirtyRange { start: row_start, end: (row_start + 64) as usize },
                    ));
                }
            }
            self.chunk_states.set(idx, 1);
            budget = budget - CHUNK_VOLUME;
            proof {
                assert(rows_of(idx as int).take(4096) =~= rows_of(idx as int));
                lemma_fill_keeps(m0, s1, *self, *world, filled, chunk_offset);
                let f2 = filled.push(chunk_offset);
                assert(f2.contains(chunk_offset)) by {
                    assert(f2[filled.len() as int] == chunk_offset);
                }
                assert forall|p: IVec3| filled.contains(p) implies #[trigger] f2.contains(p) by {
                    let j = choose|j: int| 0 <= j < filled.len() && filled[j] == p;
                    assert(f2[j] == p);
                }
                filled = f2;
            }
        }
        proof {
            assert(pumped(m0, *self, *world, filled));
        }
    }


    /// Sorts the pending ranges by start.
    fn sort_pending(&mut self)
        requires
            old(self).wf(),
        ensures
            final(self).wf(),
            final(self).same_but_pending(old(self)),
            sorted_by_start(final(self).pending()),
            forall|r: DirtyRange| #[trigger] final(self).pending().contains(r) <==> old(self).pending().contains(r),
    {
        let ghost p0 = self.pending_dirty@;
        let mut sorted: Vec<DirtyRange> = Vec::new();
        let mut i: usize = 0;
        while i < self.pending_dirty.len()
            invariant
                i <= self.pending_dirty@.len(),
                self.pending_dirty@ == p0,
                sorted_by_start(sorted@),
                forall|r: DirtyRange| #[trigger] sorted@.contains(r) <==> p0.take(i as int).contains(r),
            decreases self.pending_dirty@.len() - i,
        {
            let r = self.pending_dirty[i];
            let mut j: usize = sorted.len();
            while j > 0 && sorted[j - 1].start > r.start
                invariant
                    j <= sorted@.len(),
                    forall|k: int| j <= k < sorted@.len() ==> (#[trigger] sorted@[k]).start > r.start,
                decreases j,
            {
                j -= 1;
            }
            let ghost before = sorted@;
            sorted.insert(j, r);
            proof {
                assert forall|a: int, b: int| 0 <= a <= b < sorted@.len() implies (#[trigger] sorted@[a]).start <= (#[trigger] sorted@[b]).start by {
                    if a < j as int && b < j as int {
                        assert(sorted@[a] == before[a] && sorted@[b] == before[b]);
                    } else if a < j as int && b == j as int {
                        assert(sorted@[a] == before[a]);
                        if j > 0 {
                            assert(before[j - 1].start <= r.start);
                            assert(before[a].start <= before[j - 1].start);
                        }
                    } else if a < j as int {
                        assert(sorted@[a] == before[a] && sorted@[b] == before[b - 1]);
                    } else if a == j as int && b > j as int {
                        assert(sorted@[b] == before[b - 1]);
                    } else if a > j as int {
                        assert(sorted@[a] == before[a - 1] && sorted@[b] == before[b - 1]);
                    }
                }
                let t1 = p0.take(i as int + 1);
                let t0 = p0.take(i as int);
                assert(t1 =~= t0.push(r));
                assert forall|x: DirtyRange| #[trigger] sorted@.contains(x) <==> t1.contains(x) by {
                    if sorted@.contains(x) {
                        let k = choose|k: int| 0 <= k < sorted@.len() && sorted@[k] == x;
                        if k < j as int {
                            assert(before[k] == x);
                        } else if k > j as int {
                            assert(before[k - 1] == x);
                        }
                        if x != r {
                            assert(before.contains(x));
                            let m = choose|m: int| 0 <= m < t0.len() && t0[m] == x;
                            assert(t1[m] == x);
                        } else {
                            assert(t1[i as int] == r);
                        }
                    }
                    if t1.contains(x) {
                        let m = choose|m: int| 0 <= m < t1.len() && t1[m] == x;
                        if m < i as int {
                            assert(t0[m] == x);
                            assert(before.contains(x));
                            let k = choose|k: int| 0 <= k < before.len() && before[k] == x;
                            if k < j as int {
                                assert(sorted@[k] == x);
                            } else {
                                assert(sorted@[k + 1] == x);
                            }
                        } else {
                            assert(sorted@[j as int] == r);
                        }
                    }
                }
            }
            i += 1;
        }
        proof {
            assert(p0.take(p0.len() as int) =~= p0);
        }
        self.pending_dirty = sorted;
        proof {
            assert forall|k: int| 0 <= k < self.pending_dirty@.len() implies (#[trigger] self.pending_dirty@[k]).start
                < self.pending_dirty@[k].end <= VIEW_VOLUME by {
                let r = self.pending_dirty@[k];
                assert(self.pending_dirty@.contains(r));
                assert(p0.contains(r));
                let m = choose|m: int| 0 <= m < p0.len() && p0[m] == r;
            }
        }
    }

    /// Merges the pending ranges into `merged_dirty`, which must be empty:
    /// sorted by start, a range that starts inside or right at the end of
    /// the last merged range extends it. Leaves no pending range.
    fn merge_dirty_ranges(&mut self)
        requires
            old(self).wf(),
            old(self).merged_dirty@.len() == 0,
        ensures
            final(self).wf(),
            final(self).pending().len() == 0,
            canonical(final(self).merged_dirty@),
            forall|k: int| 0 <= k < final(self).merged_dirty@.len() ==> (#[trigger] final(self).merged_dirty@[k]).end <= VIEW_VOLUME,
            forall|x: int| #[trigger] covered(final(self).merged_dirty@, x) <==> covered(old(self).pending(), x),
            final(self).data_view() == old(self).data_view(),
            final(self).states() == old(self).states(),
            final(self).queue() == old(self).queue(),
            final(self).center() == old(self).center(),
            final(self).origin() == old(self).origin(),
            final(self).wrap() == old(self).wrap(),
    {
        self.sort_pending();
        let ghost p = self.pending_dirty@;
        let ghost s_sorted = *self;
        proof {
            let q = old(self).pending();
            assert forall|x: int| covered(p, x) <==> covered(q, x) by {
                if covered(p, x) {
                    let i = choose|i: int| 0 <= i < p.len() && (#[trigger] p[i]).start <= x < p[i].end;
                    let r = p[i];
                    assert(p.contains(r));
                    assert(q.contains(r));
                    let j = choose|j: int| 0 <= j < q.len() && q[j] == r;
                    assert(q[j].start <= x < q[j].end);
                }
                if covered(q, x) {
                    let i = choose|i: int| 0 <= i < q.len() && (#[trigger] q[i]).start <= x < q[i].end;
                    let r = q[i];
                    assert(q.contains(r));
                    assert(p.contains(r));
                    let j = choose|j: int| 0 <= j < p.len() && p[j] == r;
                    assert(p[j].start <= x < p[j].end);
                }
            }
        }
        let mut i: usize = 0;
        while i < self.pending_dirty.len()
            invariant
                i <= p.len(),
                self.pending_dirty@ == p,
                s_sorted.wf(),
                self.data@ == s_sorted.data@,
                self.chunk_states@ == s_sorted.chunk_states@,
                self.work_queue@ == s_sorted.work_queue@,
                self.urgent_queue@ == s_sorted.urgent_queue@,
                self.last_center == s_sorted.last_center,
                self.window_origin == s_sorted.window_origin,
                self.chunk_wrap_offset == s_sorted.chunk_wrap_offset,
                sorted_by_start(p),
                forall|k: int| 0 <= k < p.len() ==> (#[trigger] p[k]).start < p[k].end <= VIEW_VOLUME,
                canonical(self.merged_dirty@),
                forall|k: int| 0 <= k < self.merged_dirty@.len() ==> (#[trigger] self.merged_dirty@[k]).end <= VIEW_VOLUME,
                i > 0 ==> self.merged_dirty@.len() > 0,
                forall|k: int, m: int| 0 <= k < self.merged_dirty@.len() && i <= m < p.len() ==> (#[trigger] self.merged_dirty@[k]).start <= (#[trigger] p[m]).start,
                forall|x: int| #[trigger] covered(self.merged_dirty@, x) <==> covered(p.take(i as int), x),
            decreases p.len() - i,
        {
            let range = self.pending_dirty[i];
            let n = self.merged_dirty.len();
            let ghost m0 = self.merged_dirty@;
            let mut merged_into_last = false;
            if n > 0 {
                let last = self.merged_dirty[n - 1];
                if range.start <= last.end {
                    let new_end = if last.end >= range.end { last.end } else { range.end };
                    self.merged_dirty.set(n - 1, DirtyRange { start: last.start, end: new_end });
                    merged_into_last = true;
                }
            }
            if !merged_into_last {
                self.merged_dirty.push(range);
            }
            proof {
                let t0 = p.take(i as int);
                let t1 = p.take(i as int + 1);
                assert(t1 =~= t0.push(range));
                assert forall|x: int| #[trigger] covered(self.merged_dirty@, x) <==> covered(t1, x) by {
                    assert(covered(t1, x) <==> covered(t0, x) || (range.start <= x < range.end)) by {
                        if covered(t1, x) {
                            let k = choose|k: int| 0 <= k < t1.len() && (#[trigger] t1[k]).start <= x < t1[k].end;
                            if k < i as int {
                                assert(t0[k] == t1[k]);
                            }
                        }
                        if covered(t0, x) {
                            let k = choose|k: int| 0 <= k < t0.len() && (#[trigger] t0[k]).start <= x < t0[k].end;
                            assert(t1[k] == t0[k]);
                        }
                        if range.start <= x < range.end {
                            assert(t1[i as int] == range);
                        }
                    }
                    if merged_into_last {
                        let last = m0[n - 1];
                        if covered(self.merged_dirty@, x) {
                            let k = choose|k: int| 0 <= k < self.merged_dirty@.len() && (#[trigger] self.merged_dirty@[k]).start <= x < self.merged_dirty@[k].end;
                            if k < n - 1 {
                                assert(m0[k] == self.merged_dirty@[k]);
                            } else if x < last.end {
                                assert(m0[n - 1].start <= x < m0[n - 1].end);
                            }
                        }
                        if covered(m0, x) {
                            let k = choose|k: int| 0 <= k < m0.len() && (#[trigger] m0[k]).start <= x < m0[k].end;
                            if k < n - 1 {
                                assert(self.merged_dirty@[k] == m0[k]);
                            } else {
                                assert(self.merged_dirty@[n - 1].start <= x < self.merged_dirty@[n - 1].end);
                            }
                        }
                        if range.start <= x < range.end {
                            assert(last.start <= range.start);
                            assert(self.merged_dirty@[n - 1].start <= x < self.merged_dirty@[n - 1].end);
                        }
                    } else {
                        if covered(self.merged_dirty@, x) {
                            let k = choose|k: int| 0 <= k < self.merged_dirty@.len() && (#[trigger] self.merged_dirty@[k]).start <= x < self.merged_dirty@[k].end;
                            if k < n {
                                assert(m0[k] == self.merged_dirty@[k]);
                            }
                        }
                        if covered(m0, x) {
                            let k = choose|k: int| 0 <= k < m0.len() && (#[trigger] m0[k]).start <= x < m0[k].end;
                            assert(self.merged_dirty@[k] == m0[k]);
                        }
                        if range.start <= x < range.end {
                            assert(self.merged_dirty@[n as int] == range);
                        }
                    }
                }
                if merged_into_last {
                    assert forall|a: int, b: int| 0 <= a < b < self.merged_dirty@.len() implies (#[trigger] self.merged_dirty@[a]).end < (#[trigger] self.merged_dirty@[b]).start by {
                        assert(self.merged_dirty@[a] == m0[a]);
                        if b < n - 1 {
                            assert(self.merged_dirty@[b] == m0[b]);
                        } else {
                            assert(self.merged_dirty@[b].start == m0[n - 1].start);
                        }
                    }
                } else {
                    assert forall|a: int, b: int| 0 <= a < b < self.merged_dirty@.len() implies (#[trigger] self.merged_dirty@[a]).end < (#[trigger] self.merged_dirty@[b]).start by {
                        assert(self.merged_dirty@[a] == m0[a]);
                        if b < n {
                            assert(self.merged_dirty@[b] == m0[b]);
                        } else {
                            assert(m0[a].end <= m0[n - 1].end);
                        }
                    }
                }
                assert forall|k: int, m: int| 0 <= k < self.merged_dirty@.len() && i + 1 <= m < p.len() implies (#[trigger] self.merged_dirty@[k]).start <= (#[trigger] p[m]).start by {
                    if k < n {
                        assert(self.merged_dirty@[k].start == m0[k].start);
                    } else {
                        assert(p[i as int].start <= p[m].start);
                    }
                }
            }
            i += 1;
        }
        proof {
            assert(p.take(p.len() as int) =~= p);
        }
        self.pending_dirty.clear();
    }


    /// Hands out the pending ranges for upload, merged, under the byte
    /// budget of a frame; what does not fit stays pending. Returns the
    /// ranges of `data` to copy to the GPU, in order.
    fn pump_gpu(&mut self) -> (uploads: Vec<DirtyRange>)
        requires
            old(self).wf(),
        ensures
            final(self).wf(),
            final(self).data_view() == old(self).data_view(),
            final(self).states() == old(self).states(),
            final(self).queue() == old(self).queue(),
            final(self).center() == old(self).center(),
            final(self).origin() == old(self).origin(),
            final(self).wrap() == old(self).wrap(),
            old(self).pending().len() == 0 ==> uploads@.len() == 0 && final(self).pending() == old(self).pending(),
            old(self).pending().len() > 0 ==> exists|m: Seq<DirtyRange>| {
                &&& canonical(m)
                &&& forall|i: int| 0 <= i < m.len() ==> (#[trigger] m[i]).end <= VIEW_VOLUME
                &&& forall|x: int| #[trigger] covered(m, x) <==> covered(old(self).pending(), x)
                &&& uploads@ == upload_plan(m, GPU_UPLOAD_BUDGET_BYTES as int).0
                &&& final(self).pending() == upload_plan(m, GPU_UPLOAD_BUDGET_BYTES as int).1
            },
    {
        let mut uploads: Vec<DirtyRange> = Vec::new();
        if self.pending_dirty.len() == 0 {
            return uploads;
        }
        self.merged_dirty.clear();
        self.merge_dirty_ranges();
        let ghost m = self.merged_dirty@;
        let mut remaining_bytes = GPU_UPLOAD_BUDGET_BYTES;
        self.scratch_dirty.clear();
        let ghost s0 = *self;
        proof {
            assert(m.subrange(0, m.len() as int) =~= m);
            assert(uploads@ + upload_plan(m, GPU_UPLOAD_BUDGET_BYTES as int).0 =~= upload_plan(m, GPU_UPLOAD_BUDGET_BYTES as int).0);
            assert(self.scratch_dirty@ + upload_plan(m, GPU_UPLOAD_BUDGET_BYTES as int).1 =~= upload_plan(m, GPU_UPLOAD_BUDGET_BYTES as int).1);
        }
        let mut i: usize = 0;
        while i < self.merged_dirty.len()
            invariant
                i <= m.len(),
                self.merged_dirty@ == m,
                canonical(m),
                forall|k: int| 0 <= k < m.len() ==> (#[trigger] m[k]).end <= VIEW_VOLUME,
                remaining_bytes <= GPU_UPLOAD_BUDGET_BYTES,
                remaining_bytes % 4 == 0,
                self.data@ == s0.data@,
                self.chunk_states@ == s0.chunk_states@,
                self.work_queue@ == s0.work_queue@,
                self.urgent_queue@ == s0.urgent_queue@,
                self.pending_dirty@ == s0.pending_dirty@,
                self.last_center == s0.last_center,
                self.window_origin == s0.window_origin,
                self.chunk_wrap_offset == s0.chunk_wrap_offset,
                s0.wf(),
                upload_plan(m, GPU_UPLOAD_BUDGET_BYTES as int).0 == uploads@ + upload_plan(m.subrange(i as int, m.len() as int), remaining_bytes as int).0,
                upload_plan(m, GPU_UPLOAD_BUDGET_BYTES as int).1 == self.scratch_dirty@ + upload_plan(m.subrange(i as int, m.len() as int), remaining_bytes as int).1,
                forall|k: int| 0 <= k < self.scratch_dirty@.len() ==> (#[trigger] self.scratch_dirty@[k]).start < self.scratch_dirty@[k].end <= VIEW_VOLUME,
            decreases m.len() - i,
        {
            let range = self.merged_dirty[i];
            let ghost rest = m.subrange(i as int + 1, m.len() as int);
            let ghost up0 = uploads@;
            let ghost sc0 = self.scratch_dirty@;
            let ghost rem0 = remaining_bytes as int;
            proof {
                assert(m.subrange(i as int, m.len() as int)[0] == range);
                assert(m.subrange(i as int, m.len() as int).subrange(1, m.len() - i) =~= rest);
            }
            if remaining_bytes == 0 {
                self.scratch_dirty.push(range);
                proof {
                    assert(sc0 + (seq![range] + upload_plan(rest, 0).1) =~= self.scratch_dirty@ + upload_plan(rest, 0).1);
                }
            } else {
                let bytes = range.len() * 4;
                if bytes <= remaining_bytes {
                    uploads.push(range);
                    remaining_bytes = remaining_bytes - bytes;
                    proof {
                        assert(up0 + (seq![range] + upload_plan(rest, remaining_bytes as int).0) =~= uploads@ + upload_plan(rest, remaining_bytes as int).0);
                    }
                } else {
                    let max_elements = remaining_bytes / 4;
                    assert(1 <= max_elements < range.end - range.start);
                    let end = range.start + if max_elements >= 1 { max_elements } else { 1 };
                    uploads.push(DirtyRange { start: range.start, end });
                    self.scratch_dirty.push(DirtyRange { start: end, end: range.end });
                    remaining_bytes = 0;
                    proof {
                        assert(up0 + (seq![DirtyRange { start: range.start, end }] + upload_plan(rest, 0).0) =~= uploads@ + upload_plan(rest, 0).0);
                        assert(sc0 + (seq![DirtyRange { start: end, end: range.end }] + upload_plan(rest, 0).1) =~= self.scratch_dirty@ + upload_plan(rest, 0).1);
                        assert((max_elements as int) * 4 <= rem0);
                    }
                }
            }
            i += 1;
        }
        proof {
            assert(m.subrange(m.len() as int, m.len() as int) =~= Seq::<DirtyRange>::empty());
            assert(uploads@ =~= upload_plan(m, GPU_UPLOAD_BUDGET_BYTES as int).0);
            assert(self.scratch_dirty@ =~= upload_plan(m, GPU_UPLOAD_BUDGET_BYTES as int).1);
        }
        self.merged_dirty.clear();
        self.pending_dirty.clear();
        self.pending_dirty.append(&mut self.scratch_dirty);
        uploads
    }

    /// One frame of streaming: moves the window to `center_chunk`, fills
    /// queued chunks from `world` within the CPU budget, and returns the
    /// ranges of the data to upload within the GPU budget.
    pub fn update_frame(&mut self, world: &World, center_chunk: IVec3) -> (uploads: Vec<DirtyRange>)
        requires
            old(self).wf(),
            world.wf(),
            center_ok(center_chunk),
        ensures
            final(self).wf(),
            final(self).data_view().len() == VIEW_VOLUME,
            final(self).states().len() == 125,
            forall|i: int| 0 <= i < uploads@.len() ==> (#[trigger] uploads@[i]).start < uploads@[i].end <= VIEW_VOLUME,
            final(self).center() == Some(center_chunk),
            final(self).origin() == origin_for(center_chunk),
            old(self).center() is Some && old(self).center()->0 != center_chunk && small_move(old(self).center()->0, center_chunk)
                ==> forall|o: IVec3| in_window(o) && !#[trigger] was_in_view(old(self).center()->0, center_chunk, o) ==> {
                    ||| final(self).queue().contains(unit_of(o)) && final(self).states()[storage_slot(o, final(self).wrap())] != 1
                    ||| holds_chunk(final(self).data_view(), storage_slot(o, final(self).wrap()) * 262144, *world, chunk_base(final(self).origin(), o))
                },
            ring_valid(*old(self), *world) && (old(self).center() is None || old(self).center()->0 == center_chunk
                || small_move(old(self).center()->0, center_chunk) || far_move(old(self).center()->0, center_chunk))
                ==> ring_valid(*final(self), *world),
            old(self).center() is None || far_move(old(self).center()->0, center_chunk) ==> forall|o: IVec3| #[trigger] in_window(o) ==> {
                ||| final(self).queue().contains(unit_of(o)) && final(self).states()[storage_slot(o, final(self).wrap())] != 1
                ||| holds_chunk(final(self).data_view(), storage_slot(o, final(self).wrap()) * 262144, *world, chunk_base(final(self).origin(), o))
            },
            exists|m1: ChunkManager, m2: ChunkManager, filled: Seq<IVec3>| {
                &&& published(*old(self), m1, center_chunk)
                &&& pumped(m1, m2, *world, filled)
                &&& final(self).data_view() == m2.data_view()
                &&& final(self).states() == m2.states()
                &&& final(self).queue() == m2.queue()
                &&& final(self).wrap() == m2.wrap()
                &&& (m2.pending().len() == 0 ==> uploads@.len() == 0 && final(self).pending() == m2.pending())
                &&& (m2.pending().len() > 0 ==> exists|m: Seq<DirtyRange>| {
                    &&& canonical(m)
                    &&& forall|x: int| #[trigger] covered(m, x) <==> covered(m2.pending(), x)
                    &&& uploads@ == upload_plan(m, GPU_UPLOAD_BUDGET_BYTES as int).0
                    &&& final(self).pending() == upload_plan(m, GPU_UPLOAD_BUDGET_BYTES as int).1
                })
            },
    {
        self.publish_center(center_chunk);
        let ghost m1 = *self;
        proof {
            lemma_published_origin(*old(self), m1, center_chunk);
        }
        self.pump_cpu(world);
        let ghost m2 = *self;
        let uploads = self.pump_gpu();
        proof {
            let filled = choose|filled: Seq<IVec3>| pumped(m1, m2, *world, filled);
            assert(published(*old(self), m1, center_chunk) && pumped(m1, m2, *world, filled));
            if ring_valid(*old(self), *world) && (old(self).center() is None || old(self).center()->0 == center_chunk
                || small_move(old(self).center()->0, center_chunk) || far_move(old(self).center()->0, center_chunk)) {
                lemma_published_valid(*old(self), m1, center_chunk, *world);
                lemma_pumped_valid(m1, m2, *world, filled);
                assert(ring_valid(*self, *world));
            }
            if old(self).center() is None || far_move(old(self).center()->0, center_chunk) {
                lemma_all_chunks_refreshed(*old(self), m1, m2, *world, filled, center_chunk);
            }
            if let Some(last) = old(self).center() {
                if last != center_chunk && small_move(last, center_chunk) {
                    lemma_new_chunks_refreshed(*old(self), m1, m2, *world, filled, center_chunk, last);
                }
            }
            if m2.pending().len() > 0 {
                let m = choose|m: Seq<DirtyRange>| {
                    &&& canonical(m)
                    &&& forall|i: int| 0 <= i < m.len() ==> (#[trigger] m[i]).end <= VIEW_VOLUME
                    &&& forall|x: int| #[trigger] covered(m, x) <==> covered(m2.pending(), x)
                    &&& uploads@ == upload_plan(m, GPU_UPLOAD_BUDGET_BYTES as int).0
                    &&& self.pending() == upload_plan(m, GPU_UPLOAD_BUDGET_BYTES as int).1
                };
                lemma_upload_ranges_bounded(m, GPU_UPLOAD_BUDGET_BYTES as int);
            }
        }
        uploads
    }

    /// Forces every chunk of the window on the plane where coordinate `axis`
    /// is `fixed` to be filled again, and queues it.
    fn enqueue_plane(&mut self, axis: u8, fixed: i32)
        requires
            old(self).wf(),
            axis < 3,
            0 <= fixed < 5,
        ensures
            final(self).wf(),
            final(self).same_but_queue(old(self)),
            final(self).states().len() == 125,
            forall|o: IVec3| in_window(o) ==> #[trigger] final(self).states()[storage_slot(o, old(self).wrap())] == if on_plane(o, axis as int, fixed as int) {
                2u8
            } else {
                old(self).states()[storage_slot(o, old(self).wrap())]
            },
            forall|u: WorkUnit| #[trigger] final(self).queue().contains(u) <==> old(self).queue().contains(u) || (in_window(u.chunk_offset)
                && u == unit_of(u.chunk_offset) && on_plane(u.chunk_offset, axis as int, fixed as int)),
    {
        let ghost s0 = *self;
        let mut k: i32 = 0;
        while k < 25
            invariant
                0 <= k <= 25,
                axis < 3,
                0 <= fixed < 5,
                self.wf(),
                self.same_but_queue(&s0),
                s0.wf(),
                forall|o: IVec3| in_window(o) ==> #[trigger] self.states()[storage_slot(o, s0.wrap())] == if on_plane(o, axis as int, fixed as int) && plane_rank(o, axis as int) < k {
                    2u8
                } else {
                    s0.states()[storage_slot(o, s0.wrap())]
                },
                forall|u: WorkUnit| #[trigger] self.queue().contains(u) <==> s0.queue().contains(u) || (in_window(u.chunk_offset)
                    && u == unit_of(u.chunk_offset) && on_plane(u.chunk_offset, axis as int, fixed as int) && plane_rank(u.chunk_offset, axis as int) < k),
            decreases 25 - k,
        {
            let a = k % 5;
            let b = k / 5;
            let o = if axis == 0 {
                IVec3::new(fixed, a, b)
            } else if axis == 1 {
                IVec3::new(a, fixed, b)
            } else {
                IVec3::new(a, b, fixed)
            };
            assert(in_window(o) && on_plane(o, axis as int, fixed as int) && plane_rank(o, axis as int) == k);
            let ghost s1 = *self;
            self.enqueue_chunk_forced(o);
            proof {
                lemma_storage_in_window(o, s0.wrap());
                assert forall|p: IVec3| in_window(p) implies #[trigger] self.states()[storage_slot(p, s0.wrap())] == if on_plane(p, axis as int, fixed as int) && plane_rank(p, axis as int) < k + 1 {
                    2u8
                } else {
                    s0.states()[storage_slot(p, s0.wrap())]
                } by {
                    lemma_storage_in_window(p, s0.wrap());
                    if p != o {
                        if storage_slot(p, s0.wrap()) == storage_slot(o, s0.wrap()) {
                            lemma_storage_injective(p, o, s0.wrap());
                        }
                        if on_plane(p, axis as int, fixed as int) && plane_rank(p, axis as int) == k {
                            lemma_plane_rank_injective(p, o, axis as int, fixed as int);
                        }
                    }
                }
                assert forall|u: WorkUnit| #[trigger] self.queue().contains(u) <==> s0.queue().contains(u) || (in_window(u.chunk_offset)
                    && u == unit_of(u.chunk_offset) && on_plane(u.chunk_offset, axis as int, fixed as int) && plane_rank(u.chunk_offset, axis as int) < k + 1) by {
                    assert(self.queue() == s1.queue().push(unit_of(o)));
                    if self.queue().contains(u) && u != unit_of(o) {
                        let j = choose|j: int| 0 <= j < self.queue().len() && self.queue()[j] == u;
                        assert(s1.queue()[j] == u);
                    }
                    if s1.queue().contains(u) {
                        let j = choose|j: int| 0 <= j < s1.queue().len() && s1.queue()[j] == u;
                        assert(self.queue()[j] == u);
                    }
                    if u == unit_of(o) {
                        assert(self.queue()[s1.queue().len() as int] == u);
                    }
                    if in_window(u.chunk_offset) && on_plane(u.chunk_offset, axis as int, fixed as int) && plane_rank(u.chunk_offset, axis as int) == k {
                        lemma_plane_rank_injective(u.chunk_offset, o, axis as int, fixed as int);
                    }
                }
            }
            k += 1;
        }
    }
}

} // verus!
