//! Stable cable buffer allocation across re-plans.
use vstd::prelude::*;

use crate::graph::{ModuleGraph, NodeId};
use crate::graph_index::GraphIndex;
use crate::order::id_names;
use crate::planner::{missing_node_message, missing_node_text, PlanError};
use crate::seq_util::{freelist_after, hwm_after, lifo_slot, take_slot};

verus! {

// ── cable buffer allocation ──────────────────────────────────────────────────

/// A cable buffer key: a node and the position of one of its output ports.
pub type BufferKey = (NodeId, usize);

/// The content of a buffer key.
pub type KeyModel = (Seq<char>, usize);

/// The content of a buffer map: keys with their pool slots.
pub open spec fn buffer_entries(v: Seq<(BufferKey, usize)>) -> Seq<(KeyModel, usize)> {
    v.map_values(|e: (BufferKey, usize)| ((e.0.0@, e.0.1), e.1))
}

/// No key occurs twice.
pub open spec fn keys_distinct(m: Seq<(KeyModel, usize)>) -> bool {
    forall|i: int, j: int| 0 <= i < m.len() && 0 <= j < m.len() && i != j ==> m[i].0 != m[j].0
}

/// `m` has an entry for `key`.
pub open spec fn has_key(m: Seq<(KeyModel, usize)>, key: KeyModel) -> bool {
    exists|i: int| 0 <= i < m.len() && m[i].0 == key
}

/// The slot recorded for `key` (meaningful when `has_key`).
pub open spec fn slot_for(m: Seq<(KeyModel, usize)>, key: KeyModel) -> usize {
    m[choose|i: int| 0 <= i < m.len() && m[i].0 == key].1
}

/// How many of the first `t` keys have no slot in `prev`.
pub open spec fn keys_fresh_before(prev: Seq<(KeyModel, usize)>, keys: Seq<KeyModel>, t: int) -> int
    decreases t,
{
    if t <= 0 {
        0
    } else {
        keys_fresh_before(prev, keys, t - 1) + if has_key(prev, keys[t - 1]) { 0int } else { 1int }
    }
}

/// The slot that key `keys[t]` receives: its previous slot if it survives,
/// otherwise the next free slot.
pub open spec fn key_slot(prev: Seq<(KeyModel, usize)>, free: Seq<usize>, hwm: int, keys: Seq<KeyModel>, t: int) -> int {
    if has_key(prev, keys[t]) {
        slot_for(prev, keys[t]) as int
    } else {
        lifo_slot(free, hwm, keys_fresh_before(prev, keys, t))
    }
}

/// The slots newly taken by the first `t` keys, in order.
pub open spec fn fresh_slots(prev: Seq<(KeyModel, usize)>, free: Seq<usize>, hwm: int, keys: Seq<KeyModel>, t: int) -> Seq<
    usize,
>
    decreases t,
{
    if t <= 0 {
        Seq::empty()
    } else {
        let before = fresh_slots(prev, free, hwm, keys, t - 1);
        if has_key(prev, keys[t - 1]) {
            before
        } else {
            before.push(key_slot(prev, free, hwm, keys, t - 1) as usize)
        }
    }
}

/// Slots of the first `n` entries of `prev` whose key is not among `keys`.
pub open spec fn dropped_slots(prev: Seq<(KeyModel, usize)>, keys: Seq<KeyModel>, n: int) -> Seq<usize>
    decreases n,
{
    if n <= 0 {
        Seq::empty()
    } else {
        let before = dropped_slots(prev, keys, n - 1);
        if keys.contains(prev[n - 1].0) {
            before
        } else {
            before.push(prev[n - 1].1)
        }
    }
}

/// Output-port keys of the first `n` nodes of `order`, node by node and
/// port by port.
pub open spec fn output_keys(g: ModuleGraph, order: Seq<Seq<char>>, n: int) -> Seq<KeyModel>
    decreases n,
{
    if n <= 0 {
        Seq::empty()
    } else {
        output_keys(g, order, n - 1) + Seq::new(
            g.node_spec(order[n - 1]).module_descriptor.outputs@.len(),
            |p: int| (order[n - 1], p as usize),
        )
    }
}

/// The number of leading nodes of `order` that are present in `g`.
pub open spec fn present_prefix(g: ModuleGraph, order: Seq<Seq<char>>) -> int {
    if forall|i: int| 0 <= i < order.len() ==> g.has_node(#[trigger] order[i]) {
        order.len() as int
    } else {
        choose|m: int|
            0 <= m < order.len() && !g.has_node(order[m]) && forall|i: int|
                0 <= i < m ==> g.has_node(#[trigger] order[i])
    }
}

/// Stable buffer index allocation state threaded across successive plan
/// builds: cables that keep their `(node, output port)` key across re-plans
/// keep their pool slot. The default state starts the high-water mark at
/// `1`, reserving slot `0` as the permanent-zero slot.
pub struct BufferAllocState {
    /// The pool slot of each `(node, output port position)` key.
    pub output_buf: Vec<(BufferKey, usize)>,
    /// Recycled buffer indices available for reuse (LIFO: taken from the end).
    pub freelist: Vec<usize>,
    /// The next index to allocate when the free list is empty.
    pub next_hwm: usize,
}

impl Default for BufferAllocState {
    /// An empty allocation whose high-water mark is `1`, keeping slot `0` as
    /// the permanent-zero slot.
    fn default() -> (r: BufferAllocState)
        ensures
            r.output_buf@.len() == 0,
            r.freelist@.len() == 0,
            r.next_hwm == 1,
    {
        BufferAllocState::new()
    }
}

impl BufferAllocState {
    /// An empty allocation whose high-water mark is `1`.
    pub fn new() -> (r: BufferAllocState)
        ensures
            r.output_buf@.len() == 0,
            r.freelist@.len() == 0,
            r.next_hwm == 1,
    {
        BufferAllocState { output_buf: Vec::new(), freelist: Vec::new(), next_hwm: 1 }
    }
}

/// Result of the buffer allocation phase.
pub struct BufferAllocation {
    pub output_buf: Vec<(BufferKey, usize)>,
    /// Slots to zero when the plan is adopted: newly taken slots, then freed
    /// ones.
    pub to_zero: Vec<usize>,
    pub freelist: Vec<usize>,
    pub next_hwm: usize,
}

/// Looks up the slot of `key`.
pub fn find_buffer(entries: &Vec<(BufferKey, usize)>, id: &NodeId, port: usize) -> (r: Option<usize>)
    requires
        keys_distinct(buffer_entries(entries@)),
    ensures
        r is Some <==> has_key(buffer_entries(entries@), (id@, port)),
        r matches Some(s) ==> s == slot_for(buffer_entries(entries@), (id@, port)),
{
    let ghost m = buffer_entries(entries@);
    let mut i: usize = 0;
    while i < entries.len()
        invariant
            i <= entries@.len(),
            m == buffer_entries(entries@),
            keys_distinct(m),
            forall|k: int| 0 <= k < i ==> m[k].0 != (id@, port),
        decreases entries@.len() - i,
    {
        let e = &entries[i];
        assert(m[i as int] == ((e.0.0@, e.0.1), e.1));
        if e.0.1 == port && e.0.0.same(id) {
            proof {
                let c = choose|k: int| 0 <= k < m.len() && m[k].0 == (id@, port);
                assert(c == i);
            }
            return Some(e.1);
        }
        i = i + 1;
    }
    None
}

/// Copies a list of buffer keys.
fn copy_keys(keys: &Vec<BufferKey>) -> (r: Vec<BufferKey>)
    ensures
        key_models(r@) == key_models(keys@),
{
    let mut out: Vec<BufferKey> = Vec::new();
    let mut i: usize = 0;
    while i < keys.len()
        invariant
            i <= keys@.len(),
            out@.len() == i,
            forall|k: int| 0 <= k < i ==> out@[k].0@ == keys@[k].0@ && out@[k].1 == keys@[k].1,
        decreases keys@.len() - i,
    {
        out.push((keys[i].0.duplicate(), keys[i].1));
        i = i + 1;
    }
    assert(key_models(out@) =~= key_models(keys@));
    out
}

fn key_listed(keys: &Vec<BufferKey>, id: &NodeId, port: usize) -> (r: bool)
    ensures
        r == keys@.map_values(|k: BufferKey| (k.0@, k.1)).contains((id@, port)),
{
    let ghost km = keys@.map_values(|k: BufferKey| (k.0@, k.1));
    let mut i: usize = 0;
    while i < keys.len()
        invariant
            i <= keys@.len(),
            km == keys@.map_values(|k: BufferKey| (k.0@, k.1)),
            forall|k: int| 0 <= k < i ==> km[k] != (id@, port),
        decreases keys@.len() - i,
    {
        assert(km[i as int] == (keys@[i as int].0@, keys@[i as int].1));
        if keys[i].1 == port && keys[i].0.same(id) {
            return true;
        }
        i = i + 1;
    }
    false
}

/// Some new key among `keys` would be given a slot at or beyond `capacity`.
pub open spec fn keys_exhaust(
    prev: Seq<(KeyModel, usize)>,
    free: Seq<usize>,
    hwm: int,
    keys: Seq<KeyModel>,
    capacity: usize,
) -> bool {
    exists|t: int| 0 <= t < keys.len() && !has_key(prev, keys[t]) && key_slot(prev, free, hwm, keys, t) >= capacity
}

/// The buffer map that assigns each of `keys` its slot.
pub open spec fn key_map(prev: Seq<(KeyModel, usize)>, free: Seq<usize>, hwm: int, keys: Seq<KeyModel>) -> Seq<
    (KeyModel, usize),
> {
    Seq::new(keys.len(), |t: int| (keys[t], key_slot(prev, free, hwm, keys, t) as usize))
}

/// The keys that `allocate_buffers` assigns for `order` in graph `g`: those
/// of the leading nodes that are present.
pub open spec fn planned_keys(g: ModuleGraph, order: Seq<Seq<char>>) -> Seq<KeyModel> {
    output_keys(g, order, present_prefix(g, order))
}

/// The content of a list of buffer keys.
pub open spec fn key_models(v: Seq<BufferKey>) -> Seq<KeyModel> {
    v.map_values(|k: BufferKey| (k.0@, k.1))
}

/// The output-port keys of the leading nodes of `order` that are present in
/// the graph, and whether some node of `order` is missing.
fn collect_output_keys(index: &GraphIndex<'_>, order: &Vec<NodeId>) -> (r: (Vec<BufferKey>, bool, usize))
    ensures
        key_models(r.0@) == output_keys(index.graph_spec(), id_names(order@), present_prefix(index.graph_spec(), id_names(order@))),
        r.1 == (present_prefix(index.graph_spec(), id_names(order@)) < order@.len()),
        r.1 ==> r.2 == present_prefix(index.graph_spec(), id_names(order@)),
        0 <= present_prefix(index.graph_spec(), id_names(order@)) <= order@.len(),
{
    let ghost g = index.graph_spec();
    let ghost names = id_names(order@);
    let mut keys: Vec<BufferKey> = Vec::new();
    let mut missing = false;
    let mut n: usize = 0;
    while n < order.len() && !missing
        invariant
            n <= order@.len(),
            g == index.graph_spec(),
            names == id_names(order@),
            key_models(keys@) == output_keys(g, names, n as int),
            forall|i: int| 0 <= i < n ==> g.has_node(#[trigger] names[i]),
            missing ==> n < order@.len() && !g.has_node(names[n as int]),
        decreases order@.len() - n + if missing { 0int } else { 1int },
    {
        let node = index.get_node(&order[n]);
        assert(names[n as int] == order@[n as int]@);
        if node.is_none() {
            missing = true;
            continue;
        }
        let desc = &node.unwrap().module_descriptor;
        let ghost base = key_models(keys@);
        let mut p: usize = 0;
        while p < desc.outputs.len()
            invariant
                p <= desc.outputs@.len(),
                n < order@.len(),
                key_models(keys@) == base + Seq::new(p as nat, |q: int| (order@[n as int]@, q as usize)),
            decreases desc.outputs@.len() - p,
        {
            let ghost before = key_models(keys@);
            keys.push((order[n].duplicate(), p));
            proof {
                assert(key_models(keys@) =~= before.push((order@[n as int]@, p)));
                assert(base + Seq::new((p + 1) as nat, |q: int| (order@[n as int]@, q as usize)) =~= (base
                    + Seq::new(p as nat, |q: int| (order@[n as int]@, q as usize))).push((order@[n as int]@, p)));
            }
            p = p + 1;
        }
        proof {
            assert(key_models(keys@) == output_keys(g, names, n as int + 1));
        }
        n = n + 1;
    }
    proof {
        if missing {
            assert(present_prefix(g, names) == n) by {
                let m = present_prefix(g, names);
                assert(!g.has_node(names[n as int]));
                if m < n {
                    assert(g.has_node(names[m]));
                } else if m > n {
                    assert(g.has_node(names[n as int]));
                }
            }
        } else {
            assert(present_prefix(g, names) == order@.len());
        }
    }
    (keys, missing, n)
}

/// Assign a slot to each key in order: surviving keys keep their slot, new
/// ones take free slots; returns the map, the newly taken slots, the free
/// list and the high-water mark, or `None` when a slot would reach
/// `capacity`.
fn assign_slots(keys: Vec<BufferKey>, prev_alloc: &BufferAllocState, capacity: usize) -> (r: Option<
    (Vec<(BufferKey, usize)>, Vec<usize>, Vec<usize>, usize),
>)
    requires
        keys_distinct(buffer_entries(prev_alloc.output_buf@)),
    ensures
        ({
            let ks = key_models(keys@);
            let prev = buffer_entries(prev_alloc.output_buf@);
            let free = prev_alloc.freelist@;
            let hwm = prev_alloc.next_hwm as int;
            let total = keys_fresh_before(prev, ks, ks.len() as int);
            &&& r is None <==> keys_exhaust(prev, free, hwm, ks, capacity)
            &&& r matches Some((map, fresh, fl, h)) ==> {
                &&& buffer_entries(map@) == key_map(prev, free, hwm, ks)
                &&& fresh@ == fresh_slots(prev, free, hwm, ks, ks.len() as int)
                &&& fl@ == freelist_after(free, total)
                &&& h == hwm_after(free.len() as int, hwm, total)
            }
        }),
{
    let ghost ks = key_models(keys@);
    let ghost prev = buffer_entries(prev_alloc.output_buf@);
    let ghost free0 = prev_alloc.freelist@;
    let ghost hwm0 = prev_alloc.next_hwm as int;
    let mut freelist = prev_alloc.freelist.clone();
    proof {
        assert(freelist@ =~= free0);
    }
    let mut next_hwm = prev_alloc.next_hwm;
    let mut map: Vec<(BufferKey, usize)> = Vec::new();
    let mut fresh: Vec<usize> = Vec::new();
    let total_keys = keys.len();
    let mut t: usize = 0;
    while t < total_keys
        invariant
            total_keys == keys@.len(),
            ks == key_models(keys@),
            prev == buffer_entries(prev_alloc.output_buf@),
            free0 == prev_alloc.freelist@,
            hwm0 == prev_alloc.next_hwm,
            keys_distinct(prev),
            t <= total_keys,
            0 <= keys_fresh_before(prev, ks, t as int) <= t,
            buffer_entries(map@) == key_map(prev, free0, hwm0, ks).take(t as int),
            key_map(prev, free0, hwm0, ks).len() == total_keys,
            fresh@ == fresh_slots(prev, free0, hwm0, ks, t as int),
            freelist@ == freelist_after(free0, keys_fresh_before(prev, ks, t as int)),
            next_hwm == hwm_after(free0.len() as int, hwm0, keys_fresh_before(prev, ks, t as int)),
            forall|u: int| 0 <= u < t && !has_key(prev, ks[u]) ==> key_slot(prev, free0, hwm0, ks, u) < capacity,
        decreases total_keys - t,
    {
        let key = &keys[t];
        let ghost km = ks[t as int];
        assert(km == (key.0@, key.1));
        let ghost f = keys_fresh_before(prev, ks, t as int);
        let ghost before = buffer_entries(map@);
        let slot = match find_buffer(&prev_alloc.output_buf, &key.0, key.1) {
            Some(existing) => existing,
            None => {
                let ghost fl_before = freelist@;
                proof {
                    if f < free0.len() {
                        assert(fl_before.last() == free0[free0.len() - 1 - f]);
                    }
                }
                match take_slot(&mut freelist, &mut next_hwm, capacity) {
                    Some(idx) => {
                        fresh.push(idx);
                        proof {
                            assert(freelist@ =~= freelist_after(free0, f + 1));
                        }
                        idx
                    },
                    None => {
                        assert(key_slot(prev, free0, hwm0, ks, t as int) >= capacity);
                        return None;
                    },
                }
            },
        };
        map.push(((key.0.duplicate(), key.1), slot));
        proof {
            assert(buffer_entries(map@) =~= before.push((km, slot)));
            assert(key_map(prev, free0, hwm0, ks).take(t as int + 1) =~= key_map(prev, free0, hwm0, ks).take(
                t as int,
            ).push((km, slot)));
        }
        t = t + 1;
    }
    proof {
        assert(key_map(prev, free0, hwm0, ks).take(total_keys as int) =~= key_map(prev, free0, hwm0, ks));
    }
    Some((map, fresh, freelist, next_hwm))
}

/// Marks the slots of old keys that `keys` no longer lists for zeroing and
/// returns them to the free list.
fn release_dropped(keys: &Vec<BufferKey>, prev_alloc: &BufferAllocState, to_zero: &mut Vec<usize>, freelist: &mut Vec<usize>)
    ensures
        final(to_zero)@ == old(to_zero)@ + dropped_slots(
            buffer_entries(prev_alloc.output_buf@),
            key_models(keys@),
            prev_alloc.output_buf@.len() as int,
        ),
        final(freelist)@ == old(freelist)@ + dropped_slots(
            buffer_entries(prev_alloc.output_buf@),
            key_models(keys@),
            prev_alloc.output_buf@.len() as int,
        ),
{
    let ghost prev = buffer_entries(prev_alloc.output_buf@);
    let ghost ks = key_models(keys@);
    let ghost fresh0 = to_zero@;
    let ghost fl0 = freelist@;
    let mut i: usize = 0;
    while i < prev_alloc.output_buf.len()
        invariant
            i <= prev_alloc.output_buf@.len(),
            prev == buffer_entries(prev_alloc.output_buf@),
            ks == key_models(keys@),
            to_zero@ == fresh0 + dropped_slots(prev, ks, i as int),
            freelist@ == fl0 + dropped_slots(prev, ks, i as int),
        decreases prev_alloc.output_buf@.len() - i,
    {
        let e = &prev_alloc.output_buf[i];
        assert(prev[i as int] == ((e.0.0@, e.0.1), e.1));
        if !key_listed(keys, &e.0.0, e.0.1) {
            to_zero.push(e.1);
            freelist.push(e.1);
        }
        proof {
            assert(to_zero@ =~= fresh0 + dropped_slots(prev, ks, i as int + 1));
            assert(freelist@ =~= fl0 + dropped_slots(prev, ks, i as int + 1));
        }
        i = i + 1;
    }
    proof {
        assert(prev.len() == prev_alloc.output_buf@.len());
    }
}

/// Assign stable cable buffer pool indices for the output ports of the nodes
/// in `order`.
///
/// Keys `(node, output port position)` already present in `prev_alloc` keep
/// their slot; new keys take slots from the end of the free list, then from
/// the high-water mark, and are marked for zeroing. Keys of the old
/// allocation absent from the new graph are marked for zeroing and returned
/// to the free list.
///
/// Returns [`PlanError::BufferPoolExhausted`] if a new slot would reach
/// `pool_capacity`, and [`PlanError::Internal`] if a node of `order` is
/// missing from the graph (the keys of the nodes before it are allocated
/// first, so exhaustion among them takes precedence).
#[verifier::spinoff_prover]
#[verifier::rlimit(40)]
pub fn allocate_buffers(
    index: &GraphIndex<'_>,
    order: &Vec<NodeId>,
    prev_alloc: &BufferAllocState,
    pool_capacity: usize,
) -> (r: Result<BufferAllocation, PlanError>)
    requires
        keys_distinct(buffer_entries(prev_alloc.output_buf@)),
    ensures
        keys_exhaust(
            buffer_entries(prev_alloc.output_buf@),
            prev_alloc.freelist@,
            prev_alloc.next_hwm as int,
            planned_keys(index.graph_spec(), id_names(order@)),
            pool_capacity,
        ) ==> (r matches Err(e) && e is BufferPoolExhausted),
        !keys_exhaust(
            buffer_entries(prev_alloc.output_buf@),
            prev_alloc.freelist@,
            prev_alloc.next_hwm as int,
            planned_keys(index.graph_spec(), id_names(order@)),
            pool_capacity,
        ) ==> (r is Ok <==> present_prefix(index.graph_spec(), id_names(order@)) == order@.len()),
        r matches Err(e) ==> e is BufferPoolExhausted || e is Internal,
        r matches Err(PlanError::Internal(msg)) ==> msg@ == missing_node_text(
            id_names(order@)[present_prefix(index.graph_spec(), id_names(order@))],
        ),
        r matches Ok(a) ==> {
            let keys = planned_keys(index.graph_spec(), id_names(order@));
            let prev = buffer_entries(prev_alloc.output_buf@);
            let free = prev_alloc.freelist@;
            let hwm = prev_alloc.next_hwm as int;
            let total = keys_fresh_before(prev, keys, keys.len() as int);
            let dropped = dropped_slots(prev, keys, prev.len() as int);
            &&& present_prefix(index.graph_spec(), id_names(order@)) == order@.len()
            &&& buffer_entries(a.output_buf@) == key_map(prev, free, hwm, keys)
            &&& a.to_zero@ == fresh_slots(prev, free, hwm, keys, keys.len() as int) + dropped
            &&& a.freelist@ == freelist_after(free, total) + dropped
            &&& a.next_hwm == hwm_after(free.len() as int, hwm, total)
        },
{
    let ghost g = index.graph_spec();
    let ghost prev = buffer_entries(prev_alloc.output_buf@);
    let (keys, missing, first_missing) = collect_output_keys(index, order);
    let ghost ks = key_models(keys@);
    assert(ks == planned_keys(g, id_names(order@)));
    let (output_buf, mut to_zero, mut freelist, next_hwm) = match assign_slots(copy_keys(&keys), prev_alloc, pool_capacity) {
        Some(x) => x,
        None => {
            return Err(PlanError::BufferPoolExhausted);
        },
    };
    if missing {
        proof {
            assert(id_names(order@)[first_missing as int] == order@[first_missing as int]@);
        }
        return Err(PlanError::Internal(missing_node_message(&order[first_missing])));
    }
    release_dropped(&keys, prev_alloc, &mut to_zero, &mut freelist);
    Ok(BufferAllocation { output_buf, to_zero, freelist, next_hwm })
}

// ── laws of the buffer allocator ─────────────────────────────────────────────

/// No key has two slots and no slot two keys, no free slot is listed twice
/// or in use, and every slot lies above the permanent-zero slot `0` and
/// below the high-water mark.
pub open spec fn buffers_consistent(m: Seq<(KeyModel, usize)>, free: Seq<usize>, hwm: int) -> bool {
    &&& keys_distinct(m)
    &&& forall|i: int, j: int| 0 <= i < m.len() && 0 <= j < m.len() && i != j ==> m[i].1 != m[j].1
    &&& free.no_duplicates()
    &&& forall|i: int, k: int| 0 <= i < m.len() && 0 <= k < free.len() ==> m[i].1 != free[k]
    &&& forall|i: int| 0 <= i < m.len() ==> 1 <= #[trigger] m[i].1 < hwm
    &&& forall|k: int| 0 <= k < free.len() ==> 1 <= #[trigger] free[k] < hwm
    &&& 1 <= hwm
}

/// Slots handed out by rank: from the top of the free list, then from the
/// high-water mark up; distinct ranks give distinct slots.
proof fn lemma_lifo_slots(free: Seq<usize>, hwm: int, r1: int, r2: int)
    requires
        free.no_duplicates(),
        forall|k: int| 0 <= k < free.len() ==> 1 <= #[trigger] free[k] < hwm,
        0 <= r1,
        0 <= r2,
    ensures
        r1 != r2 ==> lifo_slot(free, hwm, r1) != lifo_slot(free, hwm, r2),
        r1 < free.len() ==> lifo_slot(free, hwm, r1) == free[free.len() - 1 - r1],
        r1 >= free.len() ==> lifo_slot(free, hwm, r1) >= hwm,
        r1 < free.len() ==> 1 <= lifo_slot(free, hwm, r1) < hwm,
{
    if r1 < free.len() {
        assert(1 <= free[free.len() - 1 - r1] < hwm);
    }
    if r2 < free.len() {
        assert(1 <= free[free.len() - 1 - r2] < hwm);
    }
}

proof fn lemma_fresh_count_bounds(prev: Seq<(KeyModel, usize)>, keys: Seq<KeyModel>, t: int)
    requires
        0 <= t <= keys.len(),
    ensures
        0 <= keys_fresh_before(prev, keys, t) <= t,
    decreases t,
{
    if t > 0 {
        lemma_fresh_count_bounds(prev, keys, t - 1);
    }
}

proof fn lemma_fresh_count_strict(prev: Seq<(KeyModel, usize)>, keys: Seq<KeyModel>, t1: int, t2: int)
    requires
        0 <= t1 < t2 <= keys.len(),
        !has_key(prev, keys[t1]),
    ensures
        keys_fresh_before(prev, keys, t1) < keys_fresh_before(prev, keys, t2),
    decreases t2,
{
    if t2 > t1 + 1 {
        lemma_fresh_count_strict(prev, keys, t1, t2 - 1);
    }
}

/// The slots newly taken are the first ones the free list and the
/// high-water mark hand out, in order.
proof fn lemma_fresh_slots_ranked(prev: Seq<(KeyModel, usize)>, free: Seq<usize>, hwm: int, keys: Seq<KeyModel>, t: int)
    requires
        0 <= t <= keys.len(),
    ensures
        fresh_slots(prev, free, hwm, keys, t) == Seq::new(
            keys_fresh_before(prev, keys, t) as nat,
            |r: int| lifo_slot(free, hwm, r) as usize,
        ),
    decreases t,
{
    lemma_fresh_count_bounds(prev, keys, t);
    if t > 0 {
        lemma_fresh_slots_ranked(prev, free, hwm, keys, t - 1);
        lemma_fresh_count_bounds(prev, keys, t - 1);
        assert(fresh_slots(prev, free, hwm, keys, t) =~= Seq::new(
            keys_fresh_before(prev, keys, t) as nat,
            |r: int| lifo_slot(free, hwm, r) as usize,
        ));
    } else {
        assert(fresh_slots(prev, free, hwm, keys, t) =~= Seq::new(
            keys_fresh_before(prev, keys, t) as nat,
            |r: int| lifo_slot(free, hwm, r) as usize,
        ));
    }
}

/// The dropped slots are those of the entries whose key is no longer
/// planned, each once.
#[verifier::spinoff_prover]
proof fn lemma_dropped_slots(prev: Seq<(KeyModel, usize)>, keys: Seq<KeyModel>, n: int)
    requires
        0 <= n <= prev.len(),
    ensures
        forall|m: int|
            0 <= m < dropped_slots(prev, keys, n).len() ==> exists|k: int|
                0 <= k < n && !keys.contains(prev[k].0) && prev[k].1 == #[trigger] dropped_slots(prev, keys, n)[m],
        forall|k: int| 0 <= k < n && !keys.contains(prev[k].0) ==> dropped_slots(prev, keys, n).contains(#[trigger] prev[k].1),
        (forall|i: int, j: int| 0 <= i < prev.len() && 0 <= j < prev.len() && i != j ==> prev[i].1 != prev[j].1)
            ==> dropped_slots(prev, keys, n).no_duplicates(),
    decreases n,
{
    if n > 0 {
        lemma_dropped_slots(prev, keys, n - 1);
        let before = dropped_slots(prev, keys, n - 1);
        let cur = dropped_slots(prev, keys, n);
        if !keys.contains(prev[n - 1].0) {
            assert(cur == before.push(prev[n - 1].1));
            assert forall|m: int| 0 <= m < cur.len() implies exists|k: int|
                0 <= k < n && !keys.contains(prev[k].0) && prev[k].1 == #[trigger] cur[m] by {
                if m < before.len() {
                    assert(cur[m] == before[m]);
                } else {
                    assert(cur[m] == prev[n - 1].1);
                }
            }
            assert forall|k: int| 0 <= k < n && !keys.contains(prev[k].0) implies cur.contains(#[trigger] prev[k].1) by {
                if k < n - 1 {
                    assert(before.contains(prev[k].1));
                    let m = choose|m: int| 0 <= m < before.len() && before[m] == prev[k].1;
                    assert(cur[m] == before[m]);
                } else {
                    assert(cur[before.len() as int] == prev[k].1);
                }
            }
            if forall|i: int, j: int| 0 <= i < prev.len() && 0 <= j < prev.len() && i != j ==> prev[i].1 != prev[j].1 {
                assert forall|a: int, b: int| 0 <= a < cur.len() && 0 <= b < cur.len() && a != b implies cur[a]
                    != cur[b] by {
                    if a < before.len() && b < before.len() {
                        assert(cur[a] == before[a] && cur[b] == before[b]);
                    } else if a < before.len() {
                        let k = choose|k: int| 0 <= k < n - 1 && !keys.contains(prev[k].0) && prev[k].1 == before[a];
                        assert(cur[a] == before[a]);
                    } else if b < before.len() {
                        let k = choose|k: int| 0 <= k < n - 1 && !keys.contains(prev[k].0) && prev[k].1 == before[b];
                        assert(cur[b] == before[b]);
                    }
                }
            }
        } else {
            assert(cur == before);
            assert forall|m: int| 0 <= m < cur.len() implies exists|k: int|
                0 <= k < n && !keys.contains(prev[k].0) && prev[k].1 == #[trigger] cur[m] by {
                assert(cur[m] == before[m]);
                let k = choose|k: int| 0 <= k < n - 1 && !keys.contains(prev[k].0) && prev[k].1 == before[m];
                assert(0 <= k < n && !keys.contains(prev[k].0) && prev[k].1 == cur[m]);
            }
            assert forall|k: int| 0 <= k < n && !keys.contains(prev[k].0) implies cur.contains(#[trigger] prev[k].1) by {
                assert(k < n - 1);
                assert(before.contains(prev[k].1));
            }
        }
    }
}

/// Every rank below the number of new keys is the rank of some new key.
proof fn lemma_rank_witness(prev: Seq<(KeyModel, usize)>, keys: Seq<KeyModel>, n: int, z: int)
    requires
        0 <= n <= keys.len(),
        0 <= z < keys_fresh_before(prev, keys, n),
    ensures
        exists|t: int| 0 <= t < n && !has_key(prev, keys[t]) && keys_fresh_before(prev, keys, t) == z,
    decreases n,
{
    if z < keys_fresh_before(prev, keys, n - 1) {
        lemma_rank_witness(prev, keys, n - 1, z);
        let t = choose|t: int| 0 <= t < n - 1 && !has_key(prev, keys[t]) && keys_fresh_before(prev, keys, t) == z;
    } else {
        assert(!has_key(prev, keys[n - 1]));
    }
}

/// The slot key `keys[t]` receives: the slot of its previous entry if it
/// had one, otherwise the slot of its rank among the new keys.
proof fn lemma_key_slot_cases(
    prev: Seq<(KeyModel, usize)>,
    free: Seq<usize>,
    hwm: int,
    keys: Seq<KeyModel>,
    capacity: usize,
    t: int,
)
    requires
        buffers_consistent(prev, free, hwm),
        !keys_exhaust(prev, free, hwm, keys, capacity),
        0 <= t < keys.len(),
    ensures
        has_key(prev, keys[t]) ==> exists|i: int|
            0 <= i < prev.len() && prev[i].0 == keys[t] && key_map(prev, free, hwm, keys)[t].1 == prev[i].1,
        !has_key(prev, keys[t]) ==> {
            &&& key_map(prev, free, hwm, keys)[t].1 == lifo_slot(free, hwm, keys_fresh_before(prev, keys, t))
            &&& 0 <= keys_fresh_before(prev, keys, t) < keys_fresh_before(prev, keys, keys.len() as int)
        },
{
    let km = key_map(prev, free, hwm, keys);
    if has_key(prev, keys[t]) {
        let i = choose|i: int| 0 <= i < prev.len() && prev[i].0 == keys[t];
        assert(km[t].1 == prev[i].1);
    } else {
        lemma_fresh_count_bounds(prev, keys, t);
        lemma_fresh_count_strict(prev, keys, t, keys.len() as int);
        assert(key_slot(prev, free, hwm, keys, t) < capacity);
        lemma_lifo_slots(free, hwm, keys_fresh_before(prev, keys, t), 0);
    }
}

/// Where the slot `s` of new key `keys[t]` comes from.
spec fn slot_origin(prev: Seq<(KeyModel, usize)>, free: Seq<usize>, hwm: int, keys: Seq<KeyModel>, t: int, s: usize) -> bool {
    &&& has_key(prev, keys[t]) ==> exists|i: int| 0 <= i < prev.len() && prev[i].0 == keys[t] && s == prev[i].1
    &&& !has_key(prev, keys[t]) ==> {
        &&& s == lifo_slot(free, hwm, keys_fresh_before(prev, keys, t))
        &&& 0 <= keys_fresh_before(prev, keys, t) < keys_fresh_before(prev, keys, keys.len() as int)
    }
}

/// The slots of the new map: where each comes from, their bounds, and that
/// no two keys share one.
proof fn lemma_new_map_slots(prev: Seq<(KeyModel, usize)>, free: Seq<usize>, hwm: int, keys: Seq<KeyModel>, capacity: usize)
    requires
        buffers_consistent(prev, free, hwm),
        keys.no_duplicates(),
        !keys_exhaust(prev, free, hwm, keys, capacity),
    ensures
        ({
            let km = key_map(prev, free, hwm, keys);
            let total = keys_fresh_before(prev, keys, keys.len() as int);
            let nh = hwm_after(free.len() as int, hwm, total);
            &&& forall|t: int|
                0 <= t < keys.len() ==> 1 <= #[trigger] km[t].1 < nh && slot_origin(prev, free, hwm, keys, t, km[t].1)
            &&& forall|t1: int, t2: int| 0 <= t1 < keys.len() && 0 <= t2 < keys.len() && t1 != t2 ==> km[t1].1 != km[t2].1
        }),
{
    let n = keys.len() as int;
    let total = keys_fresh_before(prev, keys, n);
    let km = key_map(prev, free, hwm, keys);
    let f = free.len() as int;
    let nh = hwm_after(f, hwm, total);
    lemma_fresh_count_bounds(prev, keys, n);
    assert forall|t: int| 0 <= t < n implies 1 <= #[trigger] km[t].1 < nh && slot_origin(prev, free, hwm, keys, t, km[t].1) by {
        lemma_key_slot_cases(prev, free, hwm, keys, capacity, t);
        if !has_key(prev, keys[t]) {
            lemma_lifo_slots(free, hwm, keys_fresh_before(prev, keys, t), 0);
        } else {
            let i = choose|i: int| 0 <= i < prev.len() && prev[i].0 == keys[t] && km[t].1 == prev[i].1;
            assert(1 <= prev[i].1 < hwm);
        }
    }
    assert forall|t1: int, t2: int| 0 <= t1 < n && 0 <= t2 < n && t1 != t2 implies km[t1].1 != km[t2].1 by {
        assert(slot_origin(prev, free, hwm, keys, t1, km[t1].1));
        assert(slot_origin(prev, free, hwm, keys, t2, km[t2].1));
        let s1 = has_key(prev, keys[t1]);
        let s2 = has_key(prev, keys[t2]);
        if s1 && s2 {
            let i = choose|i: int| 0 <= i < prev.len() && prev[i].0 == keys[t1] && km[t1].1 == prev[i].1;
            let j = choose|j: int| 0 <= j < prev.len() && prev[j].0 == keys[t2] && km[t2].1 == prev[j].1;
            assert(keys[t1] != keys[t2]);
        } else if !s1 && !s2 {
            let (lo, hi) = if t1 < t2 { (t1, t2) } else { (t2, t1) };
            lemma_fresh_count_strict(prev, keys, lo, hi);
            lemma_lifo_slots(free, hwm, keys_fresh_before(prev, keys, t1), keys_fresh_before(prev, keys, t2));
        } else {
            let (s, r) = if s1 { (t1, t2) } else { (t2, t1) };
            let i = choose|i: int| 0 <= i < prev.len() && prev[i].0 == keys[s] && km[s].1 == prev[i].1;
            lemma_lifo_slots(free, hwm, keys_fresh_before(prev, keys, r), 0);
            if keys_fresh_before(prev, keys, r) < f {
                assert(prev[i].1 != free[f - 1 - keys_fresh_before(prev, keys, r)]);
            }
        }
    }
}

/// The new free list: each slot once, none in use, all in bounds.
proof fn lemma_new_free_list(prev: Seq<(KeyModel, usize)>, free: Seq<usize>, hwm: int, keys: Seq<KeyModel>, capacity: usize)
    requires
        buffers_consistent(prev, free, hwm),
        keys.no_duplicates(),
        !keys_exhaust(prev, free, hwm, keys, capacity),
    ensures
        ({
            let km = key_map(prev, free, hwm, keys);
            let total = keys_fresh_before(prev, keys, keys.len() as int);
            let nf = freelist_after(free, total) + dropped_slots(prev, keys, prev.len() as int);
            let nh = hwm_after(free.len() as int, hwm, total);
            &&& nf.no_duplicates()
            &&& forall|t: int, k: int| 0 <= t < km.len() && 0 <= k < nf.len() ==> km[t].1 != nf[k]
            &&& forall|k: int| 0 <= k < nf.len() ==> 1 <= #[trigger] nf[k] < nh
        }),
{
    let n = keys.len() as int;
    let total = keys_fresh_before(prev, keys, n);
    let dropped = dropped_slots(prev, keys, prev.len() as int);
    let km = key_map(prev, free, hwm, keys);
    let f = free.len() as int;
    let a = freelist_after(free, total);
    let nf = a + dropped;
    let nh = hwm_after(f, hwm, total);
    lemma_fresh_count_bounds(prev, keys, n);
    lemma_dropped_slots(prev, keys, prev.len() as int);
    lemma_new_map_slots(prev, free, hwm, keys, capacity);
    assert forall|k: int| 0 <= k < a.len() implies a[k] == free[k] && k < f - total by {}
    assert forall|t: int, k: int| 0 <= t < n && 0 <= k < nf.len() implies km[t].1 != nf[k] by {
        assert(slot_origin(prev, free, hwm, keys, t, km[t].1));
        if k < a.len() {
            assert(a[k] == free[k]);
            if has_key(prev, keys[t]) {
                let i = choose|i: int| 0 <= i < prev.len() && prev[i].0 == keys[t] && km[t].1 == prev[i].1;
            } else {
                let r = keys_fresh_before(prev, keys, t);
                lemma_lifo_slots(free, hwm, r, 0);
                if r < f {
                    assert(f - 1 - r != k);
                }
            }
        } else {
            let m = k - a.len();
            assert(nf[k] == dropped[m]);
            let d = choose|d: int| 0 <= d < prev.len() && !keys.contains(prev[d].0) && prev[d].1 == dropped[m];
            if has_key(prev, keys[t]) {
                let i = choose|i: int| 0 <= i < prev.len() && prev[i].0 == keys[t] && km[t].1 == prev[i].1;
                assert(keys.contains(keys[t]));
                assert(i != d);
            } else {
                let r = keys_fresh_before(prev, keys, t);
                lemma_lifo_slots(free, hwm, r, 0);
                if r < f {
                    assert(prev[d].1 != free[f - 1 - r]);
                }
            }
        }
    }
    assert(nf.no_duplicates()) by {
        assert forall|x: int, y: int| 0 <= x < nf.len() && 0 <= y < nf.len() && x != y implies nf[x] != nf[y] by {
            if x < a.len() && y < a.len() {
                assert(nf[x] == free[x] && nf[y] == free[y]);
            } else if x >= a.len() && y >= a.len() {
                assert(nf[x] == dropped[x - a.len()] && nf[y] == dropped[y - a.len()]);
            } else {
                let (p, q) = if x < a.len() { (x, y) } else { (y, x) };
                assert(nf[p] == free[p]);
                assert(nf[q] == dropped[q - a.len()]);
                let d = choose|d: int| 0 <= d < prev.len() && !keys.contains(prev[d].0) && prev[d].1 == dropped[q - a.len()];
                assert(prev[d].1 != free[p]);
            }
        }
    }
    assert forall|k: int| 0 <= k < nf.len() implies 1 <= #[trigger] nf[k] < nh by {
        if k < a.len() {
            assert(nf[k] == free[k]);
        } else {
            let m = k - a.len();
            assert(nf[k] == dropped[m]);
            let d = choose|d: int| 0 <= d < prev.len() && !keys.contains(prev[d].0) && prev[d].1 == dropped[m];
            assert(1 <= prev[d].1 < hwm);
        }
    }
}

/// Re-planning keeps a consistent buffer allocation consistent, and zeroes
/// exactly what changed.
///
/// From a consistent allocation, planning distinct keys that do not exhaust
/// the pool gives a consistent allocation again (no two cables share a slot,
/// slot `0` stays reserved); a key that keeps its slot is not zeroed on
/// adoption, a new key's slot is, and so is the slot of every key that is
/// no longer planned.
pub proof fn lemma_buffer_replan(
    prev: Seq<(KeyModel, usize)>,
    free: Seq<usize>,
    hwm: int,
    keys: Seq<KeyModel>,
    capacity: usize,
)
    requires
        buffers_consistent(prev, free, hwm),
        keys.no_duplicates(),
        !keys_exhaust(prev, free, hwm, keys, capacity),
    ensures
        ({
            let total = keys_fresh_before(prev, keys, keys.len() as int);
            let dropped = dropped_slots(prev, keys, prev.len() as int);
            let km = key_map(prev, free, hwm, keys);
            let zero = fresh_slots(prev, free, hwm, keys, keys.len() as int) + dropped;
            &&& buffers_consistent(km, freelist_after(free, total) + dropped, hwm_after(free.len() as int, hwm, total))
            &&& forall|t: int| 0 <= t < keys.len() && has_key(prev, keys[t]) ==> !zero.contains(#[trigger] km[t].1)
            &&& forall|t: int| 0 <= t < keys.len() && !has_key(prev, keys[t]) ==> zero.contains(#[trigger] km[t].1)
            &&& forall|k: int| 0 <= k < prev.len() && !keys.contains(prev[k].0) ==> zero.contains(#[trigger] prev[k].1)
        }),
{
    let n = keys.len() as int;
    let total = keys_fresh_before(prev, keys, n);
    let dropped = dropped_slots(prev, keys, prev.len() as int);
    let km = key_map(prev, free, hwm, keys);
    let fs = fresh_slots(prev, free, hwm, keys, n);
    let zero = fs + dropped;
    lemma_fresh_count_bounds(prev, keys, n);
    lemma_fresh_slots_ranked(prev, free, hwm, keys, n);
    lemma_dropped_slots(prev, keys, prev.len() as int);
    lemma_new_map_slots(prev, free, hwm, keys, capacity);
    lemma_new_free_list(prev, free, hwm, keys, capacity);
    assert(keys_distinct(km)) by {
        assert forall|i: int, j: int| 0 <= i < km.len() && 0 <= j < km.len() && i != j implies km[i].0 != km[j].0 by {}
    }
    assert forall|t: int| 0 <= t < n && has_key(prev, keys[t]) implies !zero.contains(#[trigger] km[t].1) by {
        assert(slot_origin(prev, free, hwm, keys, t, km[t].1));
        let i = choose|i: int| 0 <= i < prev.len() && prev[i].0 == keys[t] && km[t].1 == prev[i].1;
        if zero.contains(km[t].1) {
            let z = choose|z: int| 0 <= z < zero.len() && zero[z] == km[t].1;
            if z < fs.len() {
                lemma_rank_witness(prev, keys, n, z);
                let t2 = choose|t2: int| 0 <= t2 < n && !has_key(prev, keys[t2]) && keys_fresh_before(prev, keys, t2) == z;
                assert(slot_origin(prev, free, hwm, keys, t2, km[t2].1));
                assert(fs[z] == km[t2].1);
                assert(km[t].1 != km[t2].1);
            } else {
                let m = z - fs.len();
                assert(zero[z] == dropped[m]);
                let d = choose|d: int| 0 <= d < prev.len() && !keys.contains(prev[d].0) && prev[d].1 == dropped[m];
                assert(keys.contains(keys[t]));
                assert(i != d);
            }
        }
    }
    assert forall|t: int| 0 <= t < n && !has_key(prev, keys[t]) implies zero.contains(#[trigger] km[t].1) by {
        assert(slot_origin(prev, free, hwm, keys, t, km[t].1));
        let r = keys_fresh_before(prev, keys, t);
        assert(fs[r] == lifo_slot(free, hwm, r) as usize);
        assert(zero[r] == fs[r]);
    }
    assert forall|k: int| 0 <= k < prev.len() && !keys.contains(prev[k].0) implies zero.contains(#[trigger] prev[k].1) by {
        assert(dropped.contains(prev[k].1));
        let m = choose|m: int| 0 <= m < dropped.len() && dropped[m] == prev[k].1;
        assert(zero[fs.len() + m] == dropped[m]);
    }
}

} // verus!
