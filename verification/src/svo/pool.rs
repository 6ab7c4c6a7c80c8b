use vstd::prelude::*;
use crate::svo::brick::{Brick, BrickId, is_empty_brick};

verus! {

/// Storage for every brick of a world. Released bricks go on a free list and
/// are handed out again, last released first.
pub struct BrickPool {
    pub bricks: Vec<Brick>,
    pub free_list: Vec<BrickId>,
}

/// What `BrickPool::allocate` does: pops the last free id and resets that
/// brick, or, with no free id, appends a new brick; the id is returned and
/// every other brick is left as it was.
pub open spec fn allocated(old: BrickPool, new: BrickPool, id: BrickId) -> bool {
    &&& new.wf()
    &&& old.free_ids().len() > 0 ==> {
        &&& id == old.free_ids().last()
        &&& new.free_ids() == old.free_ids().drop_last()
        &&& new.bricks@.len() == old.bricks@.len()
    }
    &&& old.free_ids().len() == 0 ==> {
        &&& id == old.bricks@.len()
        &&& new.free_ids() == old.free_ids()
        &&& new.bricks@.len() == old.bricks@.len() + 1
    }
    &&& id < new.bricks@.len()
    &&& is_empty_brick(new.bricks@[id as int])
    &&& new.bricks@[id as int].summary_fresh()
    &&& forall|j: int| 0 <= j < old.bricks@.len() && j != id ==> new.bricks@[j] == old.bricks@[j]
}

impl BrickPool {
    /// The ids on the free list, oldest first.
    pub open spec fn free_ids(&self) -> Seq<BrickId> {
        self.free_list@
    }

    /// Every id on the free list names a brick of the pool.
    pub open spec fn wf(&self) -> bool {
        forall|i: int| 0 <= i < self.free_ids().len() ==> #[trigger] self.free_ids()[i] < self.bricks@.len()
    }

    /// Hands out a brick reset to empty: the most recently released one if
    /// there is any, else a new brick at the end of the pool.
    pub fn allocate(&mut self) -> (id: BrickId)
        requires
            old(self).wf(),
            old(self).free_ids().len() > 0 || old(self).bricks@.len() < usize::MAX,
        ensures
            allocated(*old(self), *final(self), id),
    {
        if let Some(id) = self.free_list.pop() {
            proof {
                assert(old(self).free_ids()[old(self).free_ids().len() - 1] < self.bricks@.len());
            }
            self.bricks.set(id, Brick::new_empty());
            proof {
                assert forall|i: int| 0 <= i < self.free_ids().len() implies #[trigger] self.free_ids()[i] < self.bricks@.len() by {
                    assert(self.free_ids()[i] == old(self).free_ids()[i]);
                }
            }
            id
        } else {
            let id = self.bricks.len();
            self.bricks.push(Brick::new_empty());
            id
        }
    }

    /// Puts brick `id` on the free list; ids outside the pool are ignored.
    pub fn release(&mut self, id: BrickId)
        requires
            old(self).wf(),
        ensures
            final(self).wf(),
            final(self).bricks == old(self).bricks,
            id < old(self).bricks@.len() ==> final(self).free_ids() == old(self).free_ids().push(id),
            id >= old(self).bricks@.len() ==> final(self).free_ids() == old(self).free_ids(),
    {
        if id < self.bricks.len() {
            self.free_list.push(id);
            proof {
                assert forall|i: int| 0 <= i < self.free_ids().len() implies #[trigger] self.free_ids()[i] < self.bricks@.len() by {
                    if i < old(self).free_ids().len() {
                        assert(self.free_ids()[i] == old(self).free_ids()[i]);
                    }
                }
            }
        }
    }
}

/// The brick released last is the next one handed out, reset to empty, and
/// the free list is then as it was before the release.
pub proof fn lemma_release_then_allocate(p0: BrickPool, p1: BrickPool, p2: BrickPool, id: BrickId, id2: BrickId)
    requires
        p0.wf(),
        id < p0.bricks@.len(),
        p1.bricks == p0.bricks,
        p1.free_ids() == p0.free_ids().push(id),
        allocated(p1, p2, id2),
    ensures
        id2 == id,
        p2.free_ids() == p0.free_ids(),
        p2.bricks@.len() == p0.bricks@.len(),
        is_empty_brick(p2.bricks@[id as int]),
        forall|j: int| 0 <= j < p0.bricks@.len() && j != id ==> p2.bricks@[j] == p0.bricks@[j],
{
    assert(p1.free_ids().last() == id);
    assert(p1.free_ids().drop_last() =~= p0.free_ids());
}

/// Whether `live` can be the ids handed out and not released since: each
/// names a brick of the pool and none is on the free list, which holds no
/// id twice.
pub open spec fn accounts_for(p: BrickPool, live: Set<BrickId>) -> bool {
    &&& p.wf()
    &&& p.free_ids().no_duplicates()
    &&& forall|id: BrickId| #[trigger] live.contains(id) ==> id < p.bricks@.len() && !p.free_ids().contains(id)
}

/// An empty pool accounts for no live id.
pub proof fn lemma_empty_pool_accounts(p: BrickPool)
    requires
        p.bricks@.len() == 0,
        p.free_ids().len() == 0,
    ensures
        accounts_for(p, Set::empty()),
{
}

/// `allocate` never hands out a live id: the id it returns is not live, and
/// the pool then accounts for it as live too.
pub proof fn lemma_allocate_not_live(p0: BrickPool, p1: BrickPool, id: BrickId, live: Set<BrickId>)
    requires
        accounts_for(p0, live),
        allocated(p0, p1, id),
    ensures
        !live.contains(id),
        accounts_for(p1, live.insert(id)),
{
    let f0 = p0.free_ids();
    let f1 = p1.free_ids();
    if f0.len() > 0 {
        assert(f0.contains(f0[f0.len() - 1]));
        assert forall|x: BrickId| #[trigger] live.insert(id).contains(x) implies x < p1.bricks@.len() && !f1.contains(x) by {
            if f1.contains(x) {
                let j = choose|j: int| 0 <= j < f1.len() && f1[j] == x;
                assert(f0[j] == x);
                assert(f0.contains(x));
                if x == id {
                    assert(f0[j] == f0[f0.len() - 1]);
                }
            }
        }
        assert(f1.no_duplicates()) by {
            assert forall|a: int, b: int| 0 <= a < f1.len() && 0 <= b < f1.len() && a != b implies f1[a] != f1[b] by {
                assert(f1[a] == f0[a] && f1[b] == f0[b]);
            }
        }
    }
}

/// Releasing a live id keeps the pool's account, with that id no longer live.
pub proof fn lemma_release_live(p0: BrickPool, p1: BrickPool, id: BrickId, live: Set<BrickId>)
    requires
        accounts_for(p0, live),
        live.contains(id),
        p1.bricks == p0.bricks,
        p1.free_ids() == p0.free_ids().push(id),
    ensures
        accounts_for(p1, live.remove(id)),
{
    let f0 = p0.free_ids();
    let f1 = p1.free_ids();
    assert(p1.wf()) by {
        assert forall|i: int| 0 <= i < f1.len() implies #[trigger] f1[i] < p1.bricks@.len() by {
            if i < f0.len() {
                assert(f1[i] == f0[i]);
            }
        }
    }
    assert(f1.no_duplicates()) by {
        assert forall|a: int, b: int| 0 <= a < f1.len() && 0 <= b < f1.len() && a != b implies f1[a] != f1[b] by {
            if a < f0.len() && b < f0.len() {
                assert(f1[a] == f0[a] && f1[b] == f0[b]);
            } else if a < f0.len() {
                assert(f1[a] == f0[a] && f0.contains(f0[a]));
            } else if b < f0.len() {
                assert(f1[b] == f0[b] && f0.contains(f0[b]));
            }
        }
    }
    assert forall|x: BrickId| #[trigger] live.remove(id).contains(x) implies x < p1.bricks@.len() && !f1.contains(x) by {
        if f1.contains(x) {
            let j = choose|j: int| 0 <= j < f1.len() && f1[j] == x;
            if j < f0.len() {
                assert(f0[j] == x);
                assert(f0.contains(x));
            }
        }
    }
}

impl Default for BrickPool {
    /// An empty pool.
    fn default() -> (p: Self)
        ensures
            p.bricks@.len() == 0,
            p.free_ids().len() == 0,
            p.wf(),
    {
        BrickPool { bricks: Vec::new(), free_list: Vec::new() }
    }
}

} // verus!
