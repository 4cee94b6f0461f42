//! Run bookkeeping shared between circuit runs: a slot allocator handing out
//! run indices, and per-run values keyed by those indices.

use vstd::prelude::*;

verus! {

/// Hands out run indices: every run gets a fresh `muid`; slots of finished
/// runs are reused.
pub struct RunAllocator {
    free_slots: Vec<usize>,
    total_spawned: usize,
    active: usize,
    allocated: usize,
}

/// Index of a run: `muid` is unique over the allocator's lifetime, `slot` is
/// the storage position the run occupies while it is active.
#[derive(Debug)]
pub struct RunIndex {
    pub muid: usize,
    pub slot: usize,
}

impl RunAllocator {
    /// Slots freed by finished runs, the last one is reused first.
    pub closed spec fn free_slots(&self) -> Seq<usize> {
        self.free_slots@
    }

    /// Number of runs handed out so far.
    pub closed spec fn total_spawned(&self) -> nat {
        self.total_spawned as nat
    }

    /// Number of runs currently active.
    pub closed spec fn active(&self) -> nat {
        self.active as nat
    }

    /// Number of distinct slots ever created.
    pub closed spec fn allocated(&self) -> nat {
        self.allocated as nat
    }

    /// The bookkeeping is consistent: every free slot was created, and each
    /// created slot is either free or held by an active run.
    pub open spec fn wf(&self) -> bool {
        &&& forall|i: int| 0 <= i < self.free_slots().len() ==> #[trigger] self.free_slots()[i] < self.allocated()
        &&& self.free_slots().no_duplicates()
        &&& self.active() + self.free_slots().len() == self.allocated()
    }

    pub fn new() -> (r: Self)
        ensures
            r.free_slots() == Seq::<usize>::empty(),
            r.total_spawned() == 0,
            r.active() == 0,
            r.allocated() == 0,
            r.wf(),
    {
        Self { free_slots: Vec::new(), total_spawned: 0, active: 0, allocated: 0 }
    }

    /// Starts a run: it gets `muid == total_spawned`, and the most recently
    /// freed slot, or a new slot when none is free.
    pub fn allocate(&mut self) -> (r: RunIndex)
        requires
            old(self).total_spawned() < usize::MAX,
            old(self).active() < usize::MAX,
            old(self).allocated() < usize::MAX,
        ensures
            r.muid == old(self).total_spawned(),
            final(self).total_spawned() == old(self).total_spawned() + 1,
            final(self).active() == old(self).active() + 1,
            old(self).free_slots().len() > 0 ==> {
                &&& r.slot == old(self).free_slots().last()
                &&& final(self).free_slots() == old(self).free_slots().drop_last()
                &&& final(self).allocated() == old(self).allocated()
            },
            old(self).free_slots().len() == 0 ==> {
                &&& r.slot == old(self).allocated()
                &&& final(self).free_slots() == old(self).free_slots()
                &&& final(self).allocated() == old(self).allocated() + 1
            },
            old(self).wf() ==> final(self).wf(),
            old(self).wf() ==> r.slot < final(self).allocated() && !final(self).free_slots().contains(r.slot),
    {
        let slot = match self.free_slots.pop() {
            Some(s) => s,
            None => {
                self.allocated = self.allocated + 1;
                self.allocated - 1
            },
        };
        self.active = self.active + 1;
        self.total_spawned = self.total_spawned + 1;
        proof {
            let old_free = old(self).free_slots();
            if old_free.len() > 0 {
                assert(self.free_slots() =~= old_free.drop_last());
            }
            if old_free.len() > 0 && old(self).wf() {
                assert forall|i: int| 0 <= i < self.free_slots().len() implies #[trigger] self.free_slots()[i] < self.allocated() by {
                    assert(self.free_slots()[i] == old_free[i]);
                }
                assert(slot == old_free[old_free.len() - 1]);
                if self.free_slots().contains(slot) {
                    let j = choose|j: int| 0 <= j < self.free_slots().len() && self.free_slots()[j] == slot;
                    assert(old_free[j] == old_free[old_free.len() - 1]);
                }
            }
            if old_free.len() == 0 && old(self).wf() {
                if self.free_slots().contains(slot) {
                    let j = choose|j: int| 0 <= j < self.free_slots().len() && self.free_slots()[j] == slot;
                    assert(old_free[j] < old(self).allocated());
                }
            }
        }
        RunIndex { muid: self.total_spawned - 1, slot }
    }

    /// Ends a run: its slot becomes free. Freeing a slot that a run holds,
    /// one created and not free, keeps the bookkeeping consistent.
    pub fn deallocate(&mut self, idx: RunIndex)
        requires
            old(self).active() > 0,
        ensures
            final(self).free_slots() == old(self).free_slots().push(idx.slot),
            final(self).active() == old(self).active() - 1,
            final(self).total_spawned() == old(self).total_spawned(),
            final(self).allocated() == old(self).allocated(),
            old(self).wf() && idx.slot < old(self).allocated() && !old(self).free_slots().contains(idx.slot)
                ==> final(self).wf(),
    {
        self.free_slots.push(idx.slot);
        self.active = self.active - 1;
        proof {
            let f0 = old(self).free_slots();
            if old(self).wf() && idx.slot < old(self).allocated() && !f0.contains(idx.slot) {
                assert forall|i: int| 0 <= i < self.free_slots().len() implies #[trigger] self.free_slots()[i] < self.allocated() by {
                    if i < f0.len() {
                        assert(self.free_slots()[i] == f0[i]);
                    }
                }
                assert forall|i: int, j: int| 0 <= i < j < self.free_slots().len() implies self.free_slots()[i] != self.free_slots()[j] by {
                    if j == f0.len() {
                        assert(self.free_slots()[i] == f0[i]);
                    } else {
                        assert(self.free_slots()[i] == f0[i] && self.free_slots()[j] == f0[j]);
                    }
                }
            }
        }
    }
}

/// Two runs allocated one after the other never share a `muid`, and a run
/// started after others gets a larger one.
pub proof fn law_muids_increase(a0: RunAllocator, a1: RunAllocator, a2: RunAllocator, r1: RunIndex, r2: RunIndex)
    requires
        r1.muid == a0.total_spawned(),
        a1.total_spawned() == a0.total_spawned() + 1,
        a2.total_spawned() >= a1.total_spawned(),
        r2.muid == a2.total_spawned(),
    ensures
        r1.muid < r2.muid,
{
}

/// A stored value, tagged with the `muid` of the run that wrote it.
pub struct CuratedSlot<T> {
    pub value: T,
    pub muid: usize,
}

/// Per-run values: slot `i` holds the value of the run currently occupying
/// slot `i`, tagged with that run's `muid`.
pub struct InnerValue<T: Clone> {
    data: Vec<Option<CuratedSlot<T>>>,
}

/// What a read by `idx` finds: the value when the slot holds one written by
/// the same run, nothing when the slot is empty or was written by an older run.
pub open spec fn slot_lookup<T>(data: Seq<Option<CuratedSlot<T>>>, idx: RunIndex) -> Option<T> {
    if idx.slot < data.len() {
        match data[idx.slot as int] {
            Some(cs) => if cs.muid == idx.muid {
                Some(cs.value)
            } else {
                None
            },
            None => None,
        }
    } else {
        None
    }
}

/// A read or write by `idx` is allowed: the slot does not hold a value of a
/// newer run.
pub open spec fn slot_accessible<T>(data: Seq<Option<CuratedSlot<T>>>, idx: RunIndex) -> bool {
    idx.slot < data.len() ==> match data[idx.slot as int] {
        Some(cs) => cs.muid <= idx.muid,
        None => true,
    }
}

impl<T: Clone> InnerValue<T> {
    /// The slots.
    pub closed spec fn data(&self) -> Seq<Option<CuratedSlot<T>>> {
        self.data@
    }

    /// The value that a read by `idx` returns.
    pub open spec fn lookup(&self, idx: RunIndex) -> Option<T> {
        slot_lookup(self.data(), idx)
    }

    pub fn new() -> (r: Self)
        ensures
            r.data() == Seq::<Option<CuratedSlot<T>>>::empty(),
    {
        Self { data: Vec::new() }
    }

    /// Reads the value written by the run `idx`; a slot that holds a newer
    /// run's value is an error, which `requires` excludes.
    pub fn get(&self, idx: &RunIndex) -> (r: Option<T>)
        requires
            slot_accessible(self.data(), *idx),
        ensures
            r is Some <==> self.lookup(*idx) is Some,
            r matches Some(v) ==> cloned(self.lookup(*idx)->0, v),
    {
        if idx.slot < self.data.len() {
            match &self.data[idx.slot] {
                Some(cs) => {
                    if cs.muid == idx.muid {
                        Some(cs.value.clone())
                    } else {
                        None
                    }
                },
                None => None,
            }
        } else {
            None
        }
    }

    /// Writes the value of run `idx`, returning the value it had for that
    /// same run (a value of an older run is dropped and not returned).
    pub fn replace(&mut self, idx: &RunIndex, value: T) -> (r: Option<T>)
        requires
            slot_accessible(old(self).data(), *idx),
        ensures
            r == old(self).lookup(*idx),
            final(self).data().len() == if idx.slot < old(self).data().len() {
                old(self).data().len()
            } else {
                (idx.slot + 1) as nat
            },
            final(self).data()[idx.slot as int] == Some(CuratedSlot { value, muid: idx.muid }),
            forall|j: int|
                0 <= j < final(self).data().len() && j != idx.slot ==> #[trigger] final(self).data()[j] == if j
                    < old(self).data().len() {
                    old(self).data()[j]
                } else {
                    None
                },
    {
        while self.data.len() <= idx.slot
            invariant
                old(self).data().len() <= self.data().len(),
                self.data().len() > old(self).data().len() ==> self.data().len() <= idx.slot + 1,
                forall|j: int| 0 <= j < old(self).data().len() ==> #[trigger] self.data()[j] == old(self).data()[j],
                forall|j: int| old(self).data().len() <= j < self.data().len() ==> #[trigger] self.data()[j] is None,
            decreases idx.slot + 1 - self.data.len(),
        {
            self.data.push(None);
        }
        // Put the new entry at the end, then move it into the slot, taking the old one out.
        self.data.push(Some(CuratedSlot { value, muid: idx.muid }));
        let prev = self.data.swap_remove(idx.slot);
        match prev {
            Some(cs) => if cs.muid == idx.muid {
                Some(cs.value)
            } else {
                None
            },
            None => None,
        }
    }

    /// Writes the value of run `idx`; a run that has already written one is
    /// an error, which `requires` excludes.
    pub fn set(&mut self, idx: &RunIndex, value: T)
        requires
            slot_accessible(old(self).data(), *idx),
            old(self).lookup(*idx) is None,
        ensures
            final(self).lookup(*idx) == Some(value),
            forall|j: int|
                0 <= j < final(self).data().len() && j != idx.slot ==> #[trigger] final(self).data()[j] == if j
                    < old(self).data().len() {
                    old(self).data()[j]
                } else {
                    None
                },
    {
        let r = self.replace(idx, value);
    }
}

/// A value written by a run is what that run reads back, and another run in
/// another slot does not see it change.
pub proof fn law_read_after_write<T>(
    before: Seq<Option<CuratedSlot<T>>>,
    after: Seq<Option<CuratedSlot<T>>>,
    idx: RunIndex,
    other: RunIndex,
    value: T,
)
    requires
        idx.slot < after.len(),
        after[idx.slot as int] == Some(CuratedSlot { value, muid: idx.muid }),
        before.len() <= after.len(),
        other.slot != idx.slot,
        forall|j: int|
            0 <= j < after.len() && j != idx.slot ==> #[trigger] after[j] == if j < before.len() {
                before[j]
            } else {
                None
            },
    ensures
        slot_lookup(after, idx) == Some(value),
        slot_lookup(after, other) == slot_lookup(before, other),
{
    if other.slot < after.len() {
        let _ = after[other.slot as int];
    }
}

} // verus!
