//! Stable slot allocation for modules and cable buffers across re-plans.
use vstd::prelude::*;

use crate::instance_id::{contains_id, InstanceId};
use crate::planner::PlanError;
use crate::seq_util::{freelist_after, hwm_after, lifo_slot, take_slot};

verus! {

// ── slot maps keyed by InstanceId ────────────────────────────────────────────

/// No identifier occurs twice among the keys of `entries`.
pub open spec fn ids_distinct(entries: Seq<(InstanceId, usize)>) -> bool {
    forall|i: int, j: int|
        0 <= i < entries.len() && 0 <= j < entries.len() && i != j ==> entries[i].0 != entries[j].0
}

/// `entries` has an entry for `id`.
pub open spec fn has_id(entries: Seq<(InstanceId, usize)>, id: InstanceId) -> bool {
    exists|i: int| 0 <= i < entries.len() && entries[i].0 == id
}

/// The slot recorded for `id` in `entries` (meaningful when `has_id`).
pub open spec fn slot_of(entries: Seq<(InstanceId, usize)>, id: InstanceId) -> usize {
    entries[choose|i: int| 0 <= i < entries.len() && entries[i].0 == id].1
}

/// Looks up the slot recorded for `id`.
pub fn find_slot(entries: &Vec<(InstanceId, usize)>, id: InstanceId) -> (r: Option<usize>)
    requires
        ids_distinct(entries@),
    ensures
        r is Some <==> has_id(entries@, id),
        r is Some ==> r->0 == slot_of(entries@, id),
{
    let mut i: usize = 0;
    while i < entries.len()
        invariant
            i <= entries@.len(),
            ids_distinct(entries@),
            forall|k: int| 0 <= k < i ==> entries@[k].0 != id,
        decreases entries@.len() - i,
    {
        if entries[i].0 == id {
            let ghost w = choose|k: int| 0 <= k < entries@.len() && entries@[k].0 == id;
            assert(w == i as int);
            return Some(entries[i].1);
        }
        i = i + 1;
    }
    None
}

// ── ModuleAllocState ─────────────────────────────────────────────────────────

/// Stable module slot allocation state threaded across successive plan
/// builds.
///
/// It tracks which pool slot each [`InstanceId`] occupies so that surviving
/// modules reuse their slots across re-plans. The default state starts the
/// high-water mark at `0`.
pub struct ModuleAllocState {
    /// The pool slot currently holding each module instance.
    pub pool_map: Vec<(InstanceId, usize)>,
    /// Recycled slot indices available for reuse (LIFO: taken from the end).
    pub freelist: Vec<usize>,
    /// The next index to allocate when the free list is empty.
    pub next_hwm: usize,
}

/// Result of [`ModuleAllocState::diff`]: the allocation for the next graph.
#[derive(Debug)]
pub struct ModuleAllocDiff {
    /// Slot index for each [`InstanceId`] of the new graph, in the order the
    /// identifiers were given.
    pub slot_map: Vec<(InstanceId, usize)>,
    /// Updated free list (old entries, then newly tombstoned slots, minus the
    /// recycled ones taken from the end).
    pub freelist: Vec<usize>,
    /// New high-water mark.
    pub next_hwm: usize,
    /// Slot indices freed by this diff, in pool-map order.
    pub tombstoned: Vec<usize>,
}

/// Slots of the first `n` entries of `pool` whose identifier is not among
/// `new_ids`, in pool order.
pub open spec fn removed_slots(pool: Seq<(InstanceId, usize)>, new_ids: Seq<InstanceId>, n: int) -> Seq<usize>
    decreases n,
{
    if n <= 0 {
        Seq::empty()
    } else {
        let prev = removed_slots(pool, new_ids, n - 1);
        if new_ids.contains(pool[n - 1].0) {
            prev
        } else {
            prev.push(pool[n - 1].1)
        }
    }
}

/// How many of the first `j` identifiers of `new_ids` have no slot in `pool`.
pub open spec fn fresh_before(pool: Seq<(InstanceId, usize)>, new_ids: Seq<InstanceId>, j: int) -> int
    decreases j,
{
    if j <= 0 {
        0
    } else {
        fresh_before(pool, new_ids, j - 1) + if has_id(pool, new_ids[j - 1]) { 0int } else { 1int }
    }
}

impl Default for ModuleAllocState {
    /// An empty allocation: no modules, empty free list, high-water mark `0`.
    fn default() -> (r: ModuleAllocState)
        ensures
            r.pool_map@.len() == 0,
            r.freelist@.len() == 0,
            r.next_hwm == 0,
    {
        ModuleAllocState::new()
    }
}

impl ModuleAllocState {
    /// An empty allocation: no modules, empty free list, high-water mark `0`.
    pub fn new() -> (r: ModuleAllocState)
        ensures
            r.pool_map@.len() == 0,
            r.freelist@.len() == 0,
            r.next_hwm == 0,
    {
        ModuleAllocState { pool_map: Vec::new(), freelist: Vec::new(), next_hwm: 0 }
    }

    /// The pool map is a map: no identifier has two slots.
    pub open spec fn wf(&self) -> bool {
        ids_distinct(self.pool_map@)
    }

    /// The free list seen by fresh allocations once the slots of removed
    /// modules have been pushed onto it.
    pub open spec fn recycled(&self, new_ids: Seq<InstanceId>) -> Seq<usize> {
        self.freelist@ + removed_slots(self.pool_map@, new_ids, self.pool_map@.len() as int)
    }

    /// The slot that `new_ids[j]` receives: its old slot if it survives,
    /// otherwise the next free slot.
    pub open spec fn assigned_slot(&self, new_ids: Seq<InstanceId>, j: int) -> int {
        if has_id(self.pool_map@, new_ids[j]) {
            slot_of(self.pool_map@, new_ids[j]) as int
        } else {
            lifo_slot(self.recycled(new_ids), self.next_hwm as int, fresh_before(self.pool_map@, new_ids, j))
        }
    }

    /// Some new module would be given a slot at or beyond `capacity`.
    pub open spec fn exhausts(&self, new_ids: Seq<InstanceId>, capacity: usize) -> bool {
        exists|j: int|
            0 <= j < new_ids.len() && !has_id(self.pool_map@, new_ids[j]) && self.assigned_slot(new_ids, j)
                >= capacity
    }

    /// The slot map produced for `new_ids`: each identifier with its
    /// assigned slot, in the order given.
    pub open spec fn diff_slot_map(&self, new_ids: Seq<InstanceId>) -> Seq<(InstanceId, usize)> {
        Seq::new(new_ids.len(), |j: int| (new_ids[j], self.assigned_slot(new_ids, j) as usize))
    }

    /// The slots tombstoned when re-planning for `new_ids`.
    pub open spec fn diff_tombstoned(&self, new_ids: Seq<InstanceId>) -> Seq<usize> {
        removed_slots(self.pool_map@, new_ids, self.pool_map@.len() as int)
    }

    /// The free list after re-planning for `new_ids`.
    pub open spec fn diff_freelist(&self, new_ids: Seq<InstanceId>) -> Seq<usize> {
        freelist_after(self.recycled(new_ids), fresh_before(self.pool_map@, new_ids, new_ids.len() as int))
    }

    /// The high-water mark after re-planning for `new_ids`.
    pub open spec fn diff_hwm(&self, new_ids: Seq<InstanceId>) -> int {
        hwm_after(
            self.recycled(new_ids).len() as int,
            self.next_hwm as int,
            fresh_before(self.pool_map@, new_ids, new_ids.len() as int),
        )
    }

    /// Compute the allocation for the set of identifiers `new_ids` of the
    /// incoming graph.
    ///
    /// - Surviving identifiers keep their slot.
    /// - Identifiers no longer present are tombstoned: their slot goes onto
    ///   the free list.
    /// - New identifiers take slots from the end of the free list, then from
    ///   the high-water mark; [`PlanError::ModulePoolExhausted`] is returned
    ///   if such a slot would reach `capacity`.
    pub fn diff(&self, new_ids: &Vec<InstanceId>, capacity: usize) -> (r: Result<ModuleAllocDiff, PlanError>)
        requires
            self.wf(),
            new_ids@.no_duplicates(),
        ensures
            r is Err <==> self.exhausts(new_ids@, capacity),
            r is Err ==> r->Err_0 is ModulePoolExhausted,
            r matches Ok(d) ==> {
                &&& d.slot_map@ == self.diff_slot_map(new_ids@)
                &&& d.tombstoned@ == self.diff_tombstoned(new_ids@)
                &&& d.freelist@ == self.diff_freelist(new_ids@)
                &&& d.next_hwm == self.diff_hwm(new_ids@)
            },
    {
        let mut freelist: Vec<usize> = self.freelist.clone();
        let mut tombstoned: Vec<usize> = Vec::new();
        proof {
            assert(freelist@ =~= self.freelist@);
        }
        let n = self.pool_map.len();
        let mut i: usize = 0;
        while i < n
            invariant
                n == self.pool_map@.len(),
                i <= n,
                tombstoned@ == removed_slots(self.pool_map@, new_ids@, i as int),
                freelist@ == self.freelist@ + removed_slots(self.pool_map@, new_ids@, i as int),
            decreases n - i,
        {
            let (id, slot) = self.pool_map[i];
            if !contains_id(new_ids, id) {
                freelist.push(slot);
                tombstoned.push(slot);
            }
            i = i + 1;
            proof {
                assert(self.freelist@ + removed_slots(self.pool_map@, new_ids@, i as int) =~= freelist@);
            }
        }
        let ghost rec = freelist@;
        let ghost hwm0 = self.next_hwm as int;
        assert(rec == self.recycled(new_ids@));
        let mut next_hwm: usize = self.next_hwm;
        let mut slot_map: Vec<(InstanceId, usize)> = Vec::new();
        let m = new_ids.len();
        let mut j: usize = 0;
        while j < m
            invariant
                m == new_ids@.len(),
                j <= m,
                self.wf(),
                rec == self.recycled(new_ids@),
                hwm0 == self.next_hwm,
                slot_map@.len() == j,
                forall|k: int|
                    0 <= k < j ==> #[trigger] slot_map@[k].0 == new_ids@[k] && slot_map@[k].1
                        == self.assigned_slot(new_ids@, k),
                forall|k: int|
                    0 <= k < j && !has_id(self.pool_map@, new_ids@[k]) ==> self.assigned_slot(new_ids@, k)
                        < capacity,
                freelist@ == freelist_after(rec, fresh_before(self.pool_map@, new_ids@, j as int)),
                next_hwm == hwm_after(rec.len() as int, hwm0, fresh_before(self.pool_map@, new_ids@, j as int)),
                0 <= fresh_before(self.pool_map@, new_ids@, j as int) <= j,
            decreases m - j,
        {
            let id = new_ids[j];
            let ghost f = fresh_before(self.pool_map@, new_ids@, j as int);
            match find_slot(&self.pool_map, id) {
                Some(existing) => {
                    slot_map.push((id, existing));
                },
                None => {
                    let ghost fl_before = freelist@;
                    let ghost hwm_before = next_hwm;
                    proof {
                        if f < rec.len() {
                            assert(fl_before.len() == rec.len() - f);
                            assert(fl_before.last() == rec[rec.len() - 1 - f]);
                        } else {
                            assert(fl_before.len() == 0);
                        }
                    }
                    match take_slot(&mut freelist, &mut next_hwm, capacity) {
                        Some(idx) => {
                            slot_map.push((id, idx));
                            proof {
                                if f < rec.len() {
                                    assert(freelist@ =~= freelist_after(rec, f + 1));
                                } else {
                                    assert(freelist@ =~= freelist_after(rec, f + 1));
                                }
                            }
                        },
                        None => {
                            assert(self.assigned_slot(new_ids@, j as int) >= capacity);
                            return Err(PlanError::ModulePoolExhausted);
                        },
                    }
                },
            }
            j = j + 1;
        }
        proof {
            assert(!self.exhausts(new_ids@, capacity));
            assert forall|k: int| 0 <= k < slot_map@.len() implies slot_map@[k] == self.diff_slot_map(new_ids@)[k] by {
                assert(slot_map@[k].0 == new_ids@[k]);
            }
            assert(slot_map@ =~= self.diff_slot_map(new_ids@));
        }
        Ok(ModuleAllocDiff { slot_map, freelist, next_hwm, tombstoned })
    }
}

} // verus!

verus! {

// ── laws of the module allocator ─────────────────────────────────────────────

/// No slot is used by two modules, no free slot is listed twice or in use,
/// and every slot lies below the high-water mark.
pub open spec fn slots_consistent(pool: Seq<(InstanceId, usize)>, free: Seq<usize>, hwm: int) -> bool {
    &&& ids_distinct(pool)
    &&& forall|i: int, j: int|
        0 <= i < pool.len() && 0 <= j < pool.len() && i != j ==> pool[i].1 != pool[j].1
    &&& free.no_duplicates()
    &&& forall|i: int, k: int| 0 <= i < pool.len() && 0 <= k < free.len() ==> pool[i].1 != free[k]
    &&& forall|i: int| 0 <= i < pool.len() ==> pool[i].1 < hwm
    &&& forall|k: int| 0 <= k < free.len() ==> free[k] < hwm
}

impl ModuleAllocState {
    /// The allocation state is consistent (see [`slots_consistent`]).
    pub open spec fn consistent(&self) -> bool {
        slots_consistent(self.pool_map@, self.freelist@, self.next_hwm as int)
    }
}

proof fn lemma_removed_slots(pool: Seq<(InstanceId, usize)>, new_ids: Seq<InstanceId>, n: int)
    requires
        0 <= n <= pool.len(),
    ensures
        removed_slots(pool, new_ids, n).len() <= n,
        forall|m: int|
            0 <= m < removed_slots(pool, new_ids, n).len() ==> exists|k: int|
                0 <= k < n && !new_ids.contains(pool[k].0) && pool[k].1 == #[trigger] removed_slots(
                    pool,
                    new_ids,
                    n,
                )[m],
        (forall|i: int, j: int| 0 <= i < pool.len() && 0 <= j < pool.len() && i != j ==> pool[i].1 != pool[j].1)
            ==> removed_slots(pool, new_ids, n).no_duplicates(),
    decreases n,
{
    if n > 0 {
        lemma_removed_slots(pool, new_ids, n - 1);
        let prev = removed_slots(pool, new_ids, n - 1);
        let cur = removed_slots(pool, new_ids, n);
        if !new_ids.contains(pool[n - 1].0) {
            assert(cur == prev.push(pool[n - 1].1));
            assert forall|m: int| 0 <= m < cur.len() implies exists|k: int|
                0 <= k < n && !new_ids.contains(pool[k].0) && pool[k].1 == #[trigger] cur[m] by {
                if m < prev.len() {
                    assert(cur[m] == prev[m]);
                } else {
                    assert(cur[m] == pool[n - 1].1);
                }
            }
            if forall|i: int, j: int|
                0 <= i < pool.len() && 0 <= j < pool.len() && i != j ==> pool[i].1 != pool[j].1 {
                assert forall|a: int, b: int| 0 <= a < cur.len() && 0 <= b < cur.len() && a != b implies cur[a]
                    != cur[b] by {
                    if a < prev.len() && b < prev.len() {
                        assert(cur[a] == prev[a] && cur[b] == prev[b]);
                    } else if a < prev.len() {
                        let k = choose|k: int| 0 <= k < n - 1 && !new_ids.contains(pool[k].0) && pool[k].1 == prev[a];
                        assert(cur[a] == prev[a]);
                    } else if b < prev.len() {
                        let k = choose|k: int| 0 <= k < n - 1 && !new_ids.contains(pool[k].0) && pool[k].1 == prev[b];
                        assert(cur[b] == prev[b]);
                    }
                }
            }
        }
    }
}

proof fn lemma_fresh_before_bounds(pool: Seq<(InstanceId, usize)>, new_ids: Seq<InstanceId>, j: int)
    requires
        0 <= j <= new_ids.len(),
    ensures
        0 <= fresh_before(pool, new_ids, j) <= j,
    decreases j,
{
    if j > 0 {
        lemma_fresh_before_bounds(pool, new_ids, j - 1);
    }
}

proof fn lemma_fresh_before_strict(pool: Seq<(InstanceId, usize)>, new_ids: Seq<InstanceId>, j1: int, j2: int)
    requires
        0 <= j1 < j2 <= new_ids.len(),
        !has_id(pool, new_ids[j1]),
    ensures
        fresh_before(pool, new_ids, j1) < fresh_before(pool, new_ids, j2),
    decreases j2,
{
    if j2 > j1 + 1 {
        lemma_fresh_before_strict(pool, new_ids, j1, j2 - 1);
    }
}

/// Re-planning keeps a consistent module allocation consistent, and frees no
/// slot that a surviving module still occupies.
///
/// If the old allocation is consistent and the new identifiers are
/// distinct, then whenever the pool does not run out of capacity the new slot
/// map, free list and high-water mark are again consistent (in particular no
/// two modules share a slot), and no tombstoned slot is the slot of a
/// surviving module.
pub proof fn lemma_diff_preserves_consistency(state: ModuleAllocState, new_ids: Seq<InstanceId>, capacity: usize)
    requires
        state.consistent(),
        new_ids.no_duplicates(),
        !state.exhausts(new_ids, capacity),
    ensures
        slots_consistent(state.diff_slot_map(new_ids), state.diff_freelist(new_ids), state.diff_hwm(new_ids)),
        forall|j: int, m: int|
            0 <= j < new_ids.len() && has_id(state.pool_map@, new_ids[j]) && 0 <= m
                < state.diff_tombstoned(new_ids).len() ==> #[trigger] state.diff_slot_map(new_ids)[j].1
                != #[trigger] state.diff_tombstoned(new_ids)[m],
{
    let pool = state.pool_map@;
    let n = pool.len() as int;
    let f = state.freelist@;
    let hwm = state.next_hwm as int;
    let rem = removed_slots(pool, new_ids, n);
    let rec = state.recycled(new_ids);
    let total = fresh_before(pool, new_ids, new_ids.len() as int);
    let p2 = state.diff_slot_map(new_ids);
    let f2 = state.diff_freelist(new_ids);
    let h2 = state.diff_hwm(new_ids);
    lemma_removed_slots(pool, new_ids, n);
    lemma_fresh_before_bounds(pool, new_ids, new_ids.len() as int);
    assert(rec == f + rem);
    // Every recycled slot is below the old high-water mark, and the recycled
    // list has no duplicates.
    assert forall|m: int| 0 <= m < rem.len() implies exists|k: int|
        0 <= k < n && !new_ids.contains(pool[k].0) && pool[k].1 == #[trigger] rem[m] by {}
    assert forall|a: int| 0 <= a < rec.len() implies rec[a] < hwm by {
        if a >= f.len() {
            assert(rec[a] == rem[a - f.len()]);
            let k = choose|k: int| 0 <= k < n && !new_ids.contains(pool[k].0) && pool[k].1 == rem[a - f.len()];
        }
    }
    assert(rec.no_duplicates()) by {
        assert forall|a: int, b: int| 0 <= a < rec.len() && 0 <= b < rec.len() && a != b implies rec[a]
            != rec[b] by {
            if a < f.len() && b < f.len() {
            } else if a >= f.len() && b >= f.len() {
                assert(rec[a] == rem[a - f.len()] && rec[b] == rem[b - f.len()]);
            } else if a < f.len() {
                let k = choose|k: int| 0 <= k < n && !new_ids.contains(pool[k].0) && pool[k].1 == rem[b - f.len()];
                assert(rec[b] == rem[b - f.len()]);
            } else {
                let k = choose|k: int| 0 <= k < n && !new_ids.contains(pool[k].0) && pool[k].1 == rem[a - f.len()];
                assert(rec[a] == rem[a - f.len()]);
            }
        }
    }
    // A survivor's slot is never a recycled slot.
    assert forall|j: int, a: int|
        0 <= j < new_ids.len() && has_id(pool, new_ids[j]) && 0 <= a < rec.len() implies slot_of(pool, new_ids[j])
        != rec[a] by {
        let i = choose|i: int| 0 <= i < n && pool[i].0 == new_ids[j];
        if a >= f.len() {
            assert(rec[a] == rem[a - f.len()]);
            let k = choose|k: int| 0 <= k < n && !new_ids.contains(pool[k].0) && pool[k].1 == rem[a - f.len()];
            assert(new_ids.contains(pool[i].0));
            assert(k != i);
        }
    }
    // Fresh identifiers receive slot numbers by their rank among fresh ones.
    assert forall|j: int| 0 <= j < new_ids.len() && !has_id(pool, new_ids[j]) implies fresh_before(pool, new_ids, j)
        < total by {
        lemma_fresh_before_strict(pool, new_ids, j, new_ids.len() as int);
    }
    assert forall|j: int| 0 <= j < new_ids.len() implies 0 <= #[trigger] fresh_before(pool, new_ids, j) <= j by {
        lemma_fresh_before_bounds(pool, new_ids, j);
    }
    // Slots in the new map are distinct.
    assert forall|i: int, j: int| 0 <= i < p2.len() && 0 <= j < p2.len() && i != j implies p2[i].1 != p2[j].1 by {
        let si = has_id(pool, new_ids[i]);
        let sj = has_id(pool, new_ids[j]);
        if si && sj {
            let a = choose|a: int| 0 <= a < n && pool[a].0 == new_ids[i];
            let b = choose|b: int| 0 <= b < n && pool[b].0 == new_ids[j];
            assert(a != b);
        } else if !si && !sj {
            let (lo, hi) = if i < j { (i, j) } else { (j, i) };
            lemma_fresh_before_strict(pool, new_ids, lo, hi);
        } else {
        }
    }
    // Slots in the new map are below the new high-water mark.
    assert forall|i: int| 0 <= i < p2.len() implies p2[i].1 < h2 by {
        if has_id(pool, new_ids[i]) {
            let a = choose|a: int| 0 <= a < n && pool[a].0 == new_ids[i];
        }
    }
    // The new free list is a prefix of the recycled list.
    assert forall|k: int| 0 <= k < f2.len() implies f2[k] == rec[k] && k < rec.len() - total by {}
    assert forall|i: int, k: int| 0 <= i < p2.len() && 0 <= k < f2.len() implies p2[i].1 != f2[k] by {
        assert(f2[k] == rec[k]);
        if !has_id(pool, new_ids[i]) {
            let r = fresh_before(pool, new_ids, i);
            if r < rec.len() {
                assert(p2[i].1 == rec[rec.len() - 1 - r]);
            }
        }
    }
    assert(f2.no_duplicates()) by {
        assert forall|a: int, b: int| 0 <= a < f2.len() && 0 <= b < f2.len() && a != b implies f2[a] != f2[b] by {
            assert(f2[a] == rec[a] && f2[b] == rec[b]);
        }
    }
    assert forall|i: int, j: int|
        0 <= i < p2.len() && 0 <= j < p2.len() && i != j implies p2[i].0 != p2[j].0 by {}
    assert forall|j: int, m: int|
        0 <= j < new_ids.len() && has_id(pool, new_ids[j]) && 0 <= m < rem.len() implies #[trigger] p2[j].1
        != #[trigger] rem[m] by {
        assert(rec[f.len() + m] == rem[m]);
    }
}

} // verus!

