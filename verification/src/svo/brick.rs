use vstd::prelude::*;

verus! {

pub type BrickId = usize;

/// Edge length of a brick, in voxels.
pub const BRICK_SIZE: i32 = 8;

/// Number of voxels in a brick (`BRICK_SIZE` cubed).
pub const BRICK_VOLUME: usize = 512;

/// Whether a brick (or a group of bricks) holds no solid voxel, only solid
/// voxels, or both. A voxel is solid when its density is non-negative.
#[derive(Debug, Clone, Copy, PartialEq, Eq, Structural)]
pub enum BrickState {
    Empty,
    Full,
    Mixed,
}

/// The density range of a brick or of a group of bricks, with its state.
#[derive(Debug, Clone, Copy, PartialEq, Eq, Structural)]
pub struct BrickSummary {
    pub min_d: i8,
    pub max_d: i8,
    pub state: BrickState,
}

/// The state that a density range `min_d..=max_d` stands for.
pub open spec fn classify(min_d: i8, max_d: i8) -> BrickState {
    if max_d < 0 {
        BrickState::Empty
    } else if min_d >= 0 {
        BrickState::Full
    } else {
        BrickState::Mixed
    }
}

pub open spec fn min_i8(a: i8, b: i8) -> i8 {
    if b < a { b } else { a }
}

pub open spec fn max_i8(a: i8, b: i8) -> i8 {
    if b > a { b } else { a }
}

/// The least `min_d` of a sequence of summaries, starting from `i8::MAX`.
pub open spec fn fold_min_d(s: Seq<BrickSummary>) -> i8
    decreases s.len(),
{
    if s.len() == 0 {
        i8::MAX
    } else {
        min_i8(fold_min_d(s.drop_last()), s.last().min_d)
    }
}

/// The greatest `max_d` of a sequence of summaries, starting from `i8::MIN`.
pub open spec fn fold_max_d(s: Seq<BrickSummary>) -> i8
    decreases s.len(),
{
    if s.len() == 0 {
        i8::MIN
    } else {
        max_i8(fold_max_d(s.drop_last()), s.last().max_d)
    }
}

/// The least density of a sequence of voxels, starting from `i8::MAX`.
pub open spec fn fold_min(s: Seq<i8>) -> i8
    decreases s.len(),
{
    if s.len() == 0 {
        i8::MAX
    } else {
        min_i8(fold_min(s.drop_last()), s.last())
    }
}

/// The greatest density of a sequence of voxels, starting from `i8::MIN`.
pub open spec fn fold_max(s: Seq<i8>) -> i8
    decreases s.len(),
{
    if s.len() == 0 {
        i8::MIN
    } else {
        max_i8(fold_max(s.drop_last()), s.last())
    }
}

/// The summary of an empty brick: every density is `i8::MIN`.
pub open spec fn empty_summary() -> BrickSummary {
    BrickSummary { min_d: i8::MIN, max_d: i8::MIN, state: BrickState::Empty }
}

/// What `BrickSummary::from_children` computes: the empty summary for no
/// children, else the smallest `min_d`, the largest `max_d` and their state.
pub open spec fn summary_of(children: Seq<BrickSummary>) -> BrickSummary {
    if children.len() == 0 {
        empty_summary()
    } else {
        BrickSummary {
            min_d: fold_min_d(children),
            max_d: fold_max_d(children),
            state: classify(fold_min_d(children), fold_max_d(children)),
        }
    }
}

/// The summary of a brick's densities, as `Brick::recompute_summary` sets it.
pub open spec fn density_summary(density: Seq<i8>) -> BrickSummary {
    BrickSummary {
        min_d: fold_min(density),
        max_d: fold_max(density),
        state: classify(fold_min(density), fold_max(density)),
    }
}

/// The folded minimum is a lower bound of every child and is reached by one.
pub proof fn lemma_fold_min_d_bounds(s: Seq<BrickSummary>)
    requires
        s.len() > 0,
    ensures
        forall|i: int| 0 <= i < s.len() ==> fold_min_d(s) <= #[trigger] s[i].min_d,
        exists|i: int| 0 <= i < s.len() && fold_min_d(s) == #[trigger] s[i].min_d,
    decreases s.len(),
{
    if s.len() == 1 {
        assert(fold_min_d(s) == s[0].min_d);
    } else {
        lemma_fold_min_d_bounds(s.drop_last());
        let w = choose|i: int| 0 <= i < s.len() - 1 && fold_min_d(s.drop_last()) == #[trigger] s.drop_last()[i].min_d;
        assert(s.drop_last()[w] == s[w]);
        assert forall|i: int| 0 <= i < s.len() implies fold_min_d(s) <= #[trigger] s[i].min_d by {
            if i < s.len() - 1 {
                assert(s.drop_last()[i] == s[i]);
            }
        }
        if fold_min_d(s) == s.last().min_d {
            assert(s[s.len() - 1].min_d == fold_min_d(s));
        } else {
            assert(s[w].min_d == fold_min_d(s));
        }
    }
}

/// The folded maximum is an upper bound of every child and is reached by one.
pub proof fn lemma_fold_max_d_bounds(s: Seq<BrickSummary>)
    requires
        s.len() > 0,
    ensures
        forall|i: int| 0 <= i < s.len() ==> #[trigger] s[i].max_d <= fold_max_d(s),
        exists|i: int| 0 <= i < s.len() && fold_max_d(s) == #[trigger] s[i].max_d,
    decreases s.len(),
{
    if s.len() == 1 {
        assert(fold_max_d(s) == s[0].max_d);
    } else {
        lemma_fold_max_d_bounds(s.drop_last());
        let w = choose|i: int| 0 <= i < s.len() - 1 && fold_max_d(s.drop_last()) == #[trigger] s.drop_last()[i].max_d;
        assert(s.drop_last()[w] == s[w]);
        assert forall|i: int| 0 <= i < s.len() implies #[trigger] s[i].max_d <= fold_max_d(s) by {
            if i < s.len() - 1 {
                assert(s.drop_last()[i] == s[i]);
            }
        }
        if fold_max_d(s) == s.last().max_d {
            assert(s[s.len() - 1].max_d == fold_max_d(s));
        } else {
            assert(s[w].max_d == fold_max_d(s));
        }
    }
}

/// The folded maximum of densities bounds each of them and is one of them.
pub proof fn lemma_fold_max_bounds(s: Seq<i8>)
    requires
        s.len() > 0,
    ensures
        forall|i: int| 0 <= i < s.len() ==> #[trigger] s[i] <= fold_max(s),
        exists|i: int| 0 <= i < s.len() && fold_max(s) == #[trigger] s[i],
    decreases s.len(),
{
    if s.len() == 1 {
        assert(fold_max(s.drop_last()) == i8::MIN);
        assert(fold_max(s) == s[0]);
    } else {
        lemma_fold_max_bounds(s.drop_last());
        let w = choose|i: int| 0 <= i < s.len() - 1 && fold_max(s.drop_last()) == #[trigger] s.drop_last()[i];
        assert(s.drop_last()[w] == s[w]);
        assert forall|i: int| 0 <= i < s.len() implies #[trigger] s[i] <= fold_max(s) by {
            if i < s.len() - 1 {
                assert(s.drop_last()[i] == s[i]);
            }
        }
        if fold_max(s) == s.last() {
            assert(s[s.len() - 1] == fold_max(s));
        } else {
            assert(s[w] == fold_max(s));
        }
    }
}

/// A lower bound that some child reaches is the folded minimum.
proof fn lemma_min_unique(s: Seq<BrickSummary>, m: i8)
    requires
        s.len() > 0,
        forall|i: int| 0 <= i < s.len() ==> m <= #[trigger] s[i].min_d,
        exists|i: int| 0 <= i < s.len() && #[trigger] s[i].min_d == m,
    ensures
        fold_min_d(s) == m,
{
    lemma_fold_min_d_bounds(s);
    let j = choose|i: int| 0 <= i < s.len() && #[trigger] s[i].min_d == m;
    let k = choose|i: int| 0 <= i < s.len() && fold_min_d(s) == #[trigger] s[i].min_d;
    assert(fold_min_d(s) <= s[j].min_d);
    assert(m <= s[k].min_d);
}

/// An upper bound that some child reaches is the folded maximum.
proof fn lemma_max_unique(s: Seq<BrickSummary>, m: i8)
    requires
        s.len() > 0,
        forall|i: int| 0 <= i < s.len() ==> #[trigger] s[i].max_d <= m,
        exists|i: int| 0 <= i < s.len() && #[trigger] s[i].max_d == m,
    ensures
        fold_max_d(s) == m,
{
    lemma_fold_max_d_bounds(s);
    let j = choose|i: int| 0 <= i < s.len() && #[trigger] s[i].max_d == m;
    let k = choose|i: int| 0 <= i < s.len() && fold_max_d(s) == #[trigger] s[i].max_d;
    assert(s[j].max_d <= fold_max_d(s));
    assert(s[k].max_d <= m);
}

/// The summary of children depends only on which summaries occur among
/// them: not on their order, nor on how often each occurs.
pub proof fn lemma_summary_of_same_children(a: Seq<BrickSummary>, b: Seq<BrickSummary>)
    requires
        forall|x: BrickSummary| a.contains(x) <==> b.contains(x),
    ensures
        summary_of(a) == summary_of(b),
{
    if a.len() > 0 {
        assert(a.contains(a[0]));
        assert(b.len() > 0);
    }
    if b.len() > 0 {
        assert(b.contains(b[0]));
        assert(a.len() > 0);
    }
    if a.len() > 0 {
        lemma_fold_min_d_bounds(a);
        lemma_fold_max_d_bounds(a);
        let j = choose|i: int| 0 <= i < a.len() && fold_min_d(a) == #[trigger] a[i].min_d;
        let k = choose|i: int| 0 <= i < a.len() && fold_max_d(a) == #[trigger] a[i].max_d;
        assert(a.contains(a[j]) && a.contains(a[k]));
        assert forall|i: int| 0 <= i < b.len() implies fold_min_d(a) <= #[trigger] b[i].min_d by {
            assert(b.contains(b[i]));
            assert(a.contains(b[i]));
        }
        assert forall|i: int| 0 <= i < b.len() implies #[trigger] b[i].max_d <= fold_max_d(a) by {
            assert(b.contains(b[i]));
            assert(a.contains(b[i]));
        }
        assert(b.contains(a[j]) && b.contains(a[k]));
        lemma_min_unique(b, fold_min_d(a));
        lemma_max_unique(b, fold_max_d(a));
    }
}

/// Summarizing the concatenation of two groups of children is summarizing
/// the two groups' summaries.
pub proof fn lemma_summary_of_concat(a: Seq<BrickSummary>, b: Seq<BrickSummary>)
    requires
        a.len() > 0,
        b.len() > 0,
    ensures
        summary_of(a + b) == summary_of(seq![summary_of(a), summary_of(b)]),
{
    let u = a + b;
    let sa = summary_of(a);
    let sb = summary_of(b);
    let pair = seq![sa, sb];
    lemma_fold_min_d_bounds(a);
    lemma_fold_max_d_bounds(a);
    lemma_fold_min_d_bounds(b);
    lemma_fold_max_d_bounds(b);
    let lo = if sa.min_d <= sb.min_d { sa.min_d } else { sb.min_d };
    let hi = if sa.max_d >= sb.max_d { sa.max_d } else { sb.max_d };
    assert forall|i: int| 0 <= i < u.len() implies lo <= #[trigger] u[i].min_d && u[i].max_d <= hi by {
        if i < a.len() {
            assert(u[i] == a[i]);
        } else {
            assert(u[i] == b[i - a.len()]);
        }
    }
    let ja = choose|i: int| 0 <= i < a.len() && fold_min_d(a) == #[trigger] a[i].min_d;
    let jb = choose|i: int| 0 <= i < b.len() && fold_min_d(b) == #[trigger] b[i].min_d;
    let ka = choose|i: int| 0 <= i < a.len() && fold_max_d(a) == #[trigger] a[i].max_d;
    let kb = choose|i: int| 0 <= i < b.len() && fold_max_d(b) == #[trigger] b[i].max_d;
    assert(u[ja] == a[ja] && u[a.len() + jb] == b[jb]);
    assert(u[ka] == a[ka] && u[a.len() + kb] == b[kb]);
    if sa.min_d <= sb.min_d {
        assert(u[ja].min_d == lo);
    } else {
        assert(u[a.len() + jb].min_d == lo);
    }
    if sa.max_d >= sb.max_d {
        assert(u[ka].max_d == hi);
    } else {
        assert(u[a.len() + kb].max_d == hi);
    }
    lemma_min_unique(u, lo);
    lemma_max_unique(u, hi);
    assert(pair[0] == sa && pair[1] == sb);
    if sa.min_d <= sb.min_d {
        assert(pair[0].min_d == lo);
    } else {
        assert(pair[1].min_d == lo);
    }
    if sa.max_d >= sb.max_d {
        assert(pair[0].max_d == hi);
    } else {
        assert(pair[1].max_d == hi);
    }
    lemma_min_unique(pair, lo);
    lemma_max_unique(pair, hi);
}

/// Summarizing only empty summaries gives the empty summary.
pub proof fn lemma_summary_of_empties(s: Seq<BrickSummary>)
    requires
        forall|i: int| 0 <= i < s.len() ==> #[trigger] s[i] == empty_summary(),
    ensures
        summary_of(s) == empty_summary(),
{
    if s.len() > 0 {
        lemma_fold_min_d_bounds(s);
        lemma_fold_max_d_bounds(s);
    }
}

/// A summary of several children is Empty exactly when every child is, and
/// Full exactly when every child is: the state follows the children's states.
pub proof fn lemma_summary_state(children: Seq<BrickSummary>)
    requires
        children.len() > 0,
        forall|i: int| 0 <= i < children.len() ==> (#[trigger] children[i]).state == classify(
            children[i].min_d,
            children[i].max_d,
        ) && children[i].min_d <= children[i].max_d,
    ensures
        (summary_of(children).state == BrickState::Empty) <==> (forall|i: int|
            0 <= i < children.len() ==> (#[trigger] children[i]).state == BrickState::Empty),
        (summary_of(children).state == BrickState::Full) <==> (forall|i: int|
            0 <= i < children.len() ==> (#[trigger] children[i]).state == BrickState::Full),
{
    lemma_fold_min_d_bounds(children);
    lemma_fold_max_d_bounds(children);
    let wmin = choose|i: int| 0 <= i < children.len() && fold_min_d(children) == #[trigger] children[i].min_d;
    let wmax = choose|i: int| 0 <= i < children.len() && fold_max_d(children) == #[trigger] children[i].max_d;
    assert(children[wmin].min_d == fold_min_d(children));
    assert(children[wmax].max_d == fold_max_d(children));
}

impl BrickSummary {
    /// The summary of a brick that holds no voxel.
    pub fn empty() -> (s: Self)
        ensures
            s == empty_summary(),
    {
        Self { min_d: i8::MIN, max_d: i8::MIN, state: BrickState::Empty }
    }

    /// Combines the summaries of a group of bricks: the least minimum, the
    /// greatest maximum and the state they give; the empty summary for none.
    pub fn from_children(children: &[BrickSummary]) -> (s: Self)
        ensures
            s == summary_of(children@),
    {
        let mut min_d: i8 = i8::MAX;
        let mut max_d: i8 = i8::MIN;
        let mut any = false;
        let mut i: usize = 0;
        while i < children.len()
            invariant
                i <= children@.len(),
                any == (i > 0),
                min_d == fold_min_d(children@.subrange(0, i as int)),
                max_d == fold_max_d(children@.subrange(0, i as int)),
            decreases children@.len() - i,
        {
            let child = children[i];
            assert(children@.subrange(0, i as int + 1).drop_last() =~= children@.subrange(0, i as int));
            any = true;
            if child.min_d < min_d {
                min_d = child.min_d;
            }
            if child.max_d > max_d {
                max_d = child.max_d;
            }
            i = i + 1;
        }
        assert(children@.subrange(0, children@.len() as int) =~= children@);
        if !any {
            return Self::empty();
        }
        let state = if max_d < 0 {
            BrickState::Empty
        } else if min_d >= 0 {
            BrickState::Full
        } else {
            BrickState::Mixed
        };
        Self { min_d, max_d, state }
    }
}

/// An 8x8x8 block of voxels: a density and a material per voxel, and the
/// summary of the densities.
#[derive(Clone)]
pub struct Brick {
    pub density: [i8; 512],
    pub material: [u8; 512],
    pub summary: BrickSummary,
}

/// The index of voxel `(x, y, z)` in a brick's arrays: x runs fastest.
pub open spec fn voxel_index(x: int, y: int, z: int) -> int {
    x + 8 * (y + 8 * z)
}

/// The contents of a freshly made brick.
pub open spec fn is_empty_brick(b: Brick) -> bool {
    &&& forall|i: int| 0 <= i < 512 ==> b.density@[i] == i8::MIN
    &&& forall|i: int| 0 <= i < 512 ==> b.material@[i] == 0u8
    &&& b.summary == empty_summary()
}

impl Brick {
    /// Whether the stored summary is the summary of the stored densities.
    pub open spec fn summary_fresh(&self) -> bool {
        self.summary == density_summary(self.density@)
    }

    /// A brick whose voxels are all empty (density `i8::MIN`, material 0).
    pub fn new_empty() -> (b: Self)
        ensures
            is_empty_brick(b),
            b.summary_fresh(),
    {
        let b = Self {
            density: [i8::MIN; 512],
            material: [0; 512],
            summary: BrickSummary::empty(),
        };
        proof {
            lemma_fold_all_min(b.density@);
        }
        b
    }

    /// The array index of voxel `(x, y, z)` of a brick.
    pub fn index(x: i32, y: i32, z: i32) -> (idx: usize)
        requires
            0 <= x,
            0 <= y,
            0 <= z,
            voxel_index(x as int, y as int, z as int) <= usize::MAX,
        ensures
            idx == voxel_index(x as int, y as int, z as int),
            x < BRICK_SIZE && y < BRICK_SIZE && z < BRICK_SIZE ==> idx < BRICK_VOLUME,
    {
        let x = x as usize;
        let y = y as usize;
        let z = z as usize;
        x + (BRICK_SIZE as usize) * (y + (BRICK_SIZE as usize) * z)
    }

    /// Writes the density and material of voxel `(x, y, z)`; the summary is
    /// left as it was.
    pub fn set_voxel(&mut self, x: i32, y: i32, z: i32, density: i8, material: u8)
        requires
            0 <= x < BRICK_SIZE,
            0 <= y < BRICK_SIZE,
            0 <= z < BRICK_SIZE,
        ensures
            final(self).density@ == old(self).density@.update(voxel_index(x as int, y as int, z as int), density),
            final(self).material@ == old(self).material@.update(voxel_index(x as int, y as int, z as int), material),
            final(self).summary == old(self).summary,
    {
        let idx = Self::index(x, y, z);
        self.density[idx] = density;
        self.material[idx] = material;
    }

    /// Sets the summary to the range and state of the brick's densities.
    pub fn recompute_summary(&mut self)
        ensures
            final(self).density == old(self).density,
            final(self).material == old(self).material,
            final(self).summary == density_summary(old(self).density@),
    {
        let mut min_d: i8 = i8::MAX;
        let mut max_d: i8 = i8::MIN;
        let mut i: usize = 0;
        while i < BRICK_VOLUME
            invariant
                i <= 512,
                self.density@.len() == 512,
                self.density == old(self).density,
                self.material == old(self).material,
                self.summary == old(self).summary,
                min_d == fold_min(self.density@.subrange(0, i as int)),
                max_d == fold_max(self.density@.subrange(0, i as int)),
            decreases 512 - i,
        {
            let d = self.density[i];
            assert(self.density@.subrange(0, i as int + 1).drop_last() =~= self.density@.subrange(0, i as int));
            if d < min_d {
                min_d = d;
            }
            if d > max_d {
                max_d = d;
            }
            i = i + 1;
        }
        assert(self.density@.subrange(0, 512) =~= self.density@);
        let state = if max_d < 0 {
            BrickState::Empty
        } else if min_d >= 0 {
            BrickState::Full
        } else {
            BrickState::Mixed
        };
        self.summary = BrickSummary { min_d, max_d, state };
    }
}

/// A sequence of `i8::MIN` folds to `i8::MIN` both ways.
proof fn lemma_fold_all_min(s: Seq<i8>)
    requires
        s.len() > 0,
        forall|i: int| 0 <= i < s.len() ==> s[i] == i8::MIN,
    ensures
        fold_min(s) == i8::MIN,
        fold_max(s) == i8::MIN,
    decreases s.len(),
{
    assert(s.last() == s[s.len() - 1]);
    if s.len() > 1 {
        lemma_fold_all_min(s.drop_last());
    } else {
        assert(s.drop_last().len() == 0);
        assert(fold_max(s.drop_last()) == i8::MIN);
        assert(fold_min(s.drop_last()) == i8::MAX);
    }
}

} // verus!
