//! What re-planning keeps: surviving modules keep their instance and pool
//! slot, and cables that keep their source port keep their buffer.
use vstd::prelude::*;

use crate::allocation::{has_id, removed_slots, slot_of, ModuleAllocState};
use crate::buffers::{
    buffer_entries, buffers_consistent, dropped_slots, fresh_slots, has_key, key_map, keys_distinct, keys_exhaust,
    lemma_buffer_replan, planned_keys, slot_for, KeyModel,
};
use crate::builder::{built, PlanLayout};
use crate::instance_id::{raw_after, InstanceId};
use crate::keys::{lemma_key_map_keys, lemma_output_keys_cover, lemma_output_keys_distinct};
use crate::layout::{
    buffers_of, conn_changed_at, conn_update_list, dedup_ids, desc_at, fresh_before_node, install_list, installs_at, instance_at,
    instance_set, instances, param_diff_at, param_update_list, pool_at, state_at,
};
use crate::graph::ModuleGraph;
use crate::modules::{value_equal, ValueModel};
use crate::parameter_map::{differs_from, names_distinct, position_of};
use crate::planner::{execution_order, graph_names, survives, NodeState, PlannerState};

verus! {

/// The deduplicated identifiers hold each identifier of the prefix once.
pub proof fn lemma_dedup_ids(s: Seq<InstanceId>, n: int)
    requires
        0 <= n <= s.len(),
    ensures
        dedup_ids(s, n).no_duplicates(),
        forall|x: InstanceId| dedup_ids(s, n).contains(x) <==> s.take(n).contains(x),
    decreases n,
{
    if n > 0 {
        lemma_dedup_ids(s, n - 1);
        let d = dedup_ids(s, n - 1);
        let t0 = s.take(n - 1);
        let t1 = s.take(n);
        assert(t1 =~= t0.push(s[n - 1]));
        if !d.contains(s[n - 1]) {
            let e = d.push(s[n - 1]);
            assert forall|a: int, b: int| 0 <= a < e.len() && 0 <= b < e.len() && a != b implies e[a] != e[b] by {
                if a < d.len() && b < d.len() {
                } else if a < d.len() {
                    assert(d.contains(e[a]));
                } else {
                    assert(d.contains(e[b]));
                }
            }
            assert forall|x: InstanceId| e.contains(x) <==> s.take(n).contains(x) by {
                if e.contains(x) {
                    let w = choose|w: int| 0 <= w < e.len() && e[w] == x;
                    if w < d.len() {
                        assert(d.contains(x));
                        let v = choose|v: int| 0 <= v < t0.len() && t0[v] == x;
                        assert(t1[v] == x);
                    } else {
                        assert(t1[n - 1] == x);
                    }
                }
                if s.take(n).contains(x) {
                    let w = choose|w: int| 0 <= w < t1.len() && t1[w] == x;
                    if w < n - 1 {
                        assert(t0[w] == x);
                        assert(d.contains(x));
                        let v = choose|v: int| 0 <= v < d.len() && d[v] == x;
                        assert(e[v] == x);
                    } else {
                        assert(e[d.len() as int] == x);
                    }
                }
            }
        } else {
            assert forall|x: InstanceId| d.contains(x) <==> s.take(n).contains(x) by {
                if d.contains(x) {
                    let v = choose|v: int| 0 <= v < t0.len() && t0[v] == x;
                    assert(t1[v] == x);
                }
                if s.take(n).contains(x) {
                    let w = choose|w: int| 0 <= w < t1.len() && t1[w] == x;
                    if w < n - 1 {
                        assert(t0[w] == x);
                    }
                }
            }
        }
    }
}

/// Every node recorded in `st` has a pool slot for its instance.
pub open spec fn placed(st: PlannerState) -> bool {
    forall|i: int|
        0 <= i < st.nodes@.len() ==> has_id(st.module_alloc.pool_map@, #[trigger] st.nodes@[i].1.instance_id)
}

/// The slot a slot map gives the `j`-th identifier it was made from.
proof fn lemma_slot_map_lookup(alloc: ModuleAllocState, u: Seq<InstanceId>, j: int)
    requires
        u.no_duplicates(),
        0 <= j < u.len(),
    ensures
        has_id(alloc.diff_slot_map(u), u[j]),
        slot_of(alloc.diff_slot_map(u), u[j]) == alloc.assigned_slot(u, j) as usize,
{
    let m = alloc.diff_slot_map(u);
    assert(m[j].0 == u[j]);
    let c = choose|c: int| 0 <= c < m.len() && m[c].0 == u[j];
    assert(m[c].0 == u[c]);
    assert(c == j);
}

/// A build's planning state records, for every node, an instance that has
/// a pool slot; so the next build can recognise its survivors.
pub proof fn lemma_built_state_is_placed(l: PlanLayout, st: PlannerState, g: ModuleGraph, prev: PlannerState, first: u64)
    requires
        built(l, st, g, prev, first),
    ensures
        placed(st),
{
    let n = execution_order(g).len() as int;
    let s = instances(g, prev, first);
    lemma_dedup_ids(s, n);
    assert(s.take(n) =~= s);
    let u = instance_set(g, prev, first);
    assert forall|i: int| 0 <= i < st.nodes@.len() implies has_id(st.module_alloc.pool_map@, #[trigger] st.nodes@[i].1.instance_id) by {
        let inst = st.nodes@[i].1.instance_id;
        assert(inst == instance_at(g, prev, first, i));
        assert(s[i] == inst);
        assert(u.contains(inst));
        let j = choose|j: int| 0 <= j < u.len() && u[j] == inst;
        lemma_slot_map_lookup(prev.module_alloc, u, j);
    }
}

/// A surviving module keeps its instance and its pool slot: when the
/// `i`-th node is neither new nor changed in type or shape, and the
/// previous state placed it, the build gives it the instance and the pool
/// slot it had.
pub proof fn lemma_survivor_keeps_instance_and_slot(g: ModuleGraph, prev: PlannerState, first: u64, i: int)
    requires
        prev.wf(),
        placed(prev),
        0 <= i < execution_order(g).len(),
        !installs_at(g, prev, i),
    ensures
        instance_at(g, prev, first, i) == prev.state_of(execution_order(g)[i]).instance_id,
        pool_at(g, prev, first, i) == slot_of(prev.module_alloc.pool_map@, instance_at(g, prev, first, i)),
{
    let n = execution_order(g).len() as int;
    let s = instances(g, prev, first);
    let inst = instance_at(g, prev, first, i);
    let id = execution_order(g)[i];
    lemma_dedup_ids(s, n);
    assert(s.take(n) =~= s);
    let u = instance_set(g, prev, first);
    assert(s[i] == inst);
    assert(u.contains(inst));
    let j = choose|j: int| 0 <= j < u.len() && u[j] == inst;
    lemma_slot_map_lookup(prev.module_alloc, u, j);
    // the survivor's recorded instance has a slot in the previous pool map
    let k = choose|k: int| 0 <= k < prev.nodes@.len() && prev.nodes@[k].0@ == id;
    assert(prev.state_of(id) == prev.nodes@[k].1);
    assert(has_id(prev.module_alloc.pool_map@, prev.nodes@[k].1.instance_id));
}

/// A cable source port that had a buffer keeps it: when output port `p` of
/// the `i`-th node had a buffer in the previous state, the built state
/// gives it the same buffer.
pub proof fn lemma_buffer_kept(
    l: PlanLayout,
    st: PlannerState,
    g: ModuleGraph,
    prev: PlannerState,
    first: u64,
    i: int,
    p: int,
)
    requires
        built(l, st, g, prev, first),
        0 <= i < execution_order(g).len(),
        0 <= p < g.node_spec(execution_order(g)[i]).module_descriptor.outputs@.len(),
        has_key(crate::buffers::buffer_entries(prev.buffer_alloc.output_buf@), (execution_order(g)[i], p as usize)),
    ensures
        has_key(crate::buffers::buffer_entries(st.buffer_alloc.output_buf@), (execution_order(g)[i], p as usize)),
        slot_for(crate::buffers::buffer_entries(st.buffer_alloc.output_buf@), (execution_order(g)[i], p as usize))
            == slot_for(crate::buffers::buffer_entries(prev.buffer_alloc.output_buf@), (execution_order(g)[i], p as usize)),
{
    let ord = execution_order(g);
    let n = ord.len() as int;
    let keys = planned_keys(g, ord);
    let pe = crate::buffers::buffer_entries(prev.buffer_alloc.output_buf@);
    let key: KeyModel = (ord[i], p as usize);
    assert(crate::planner::names_sorted_ord(g));
    crate::planner::lemma_ord_distinct(g);
    lemma_output_keys_distinct(g, ord, n);
    lemma_output_keys_cover(g, ord, n);
    lemma_key_map_keys(pe, prev.buffer_alloc.freelist@, prev.buffer_alloc.next_hwm as int, keys);
    let m = buffers_of(g, prev);
    assert(crate::buffers::buffer_entries(st.buffer_alloc.output_buf@) == m);
    assert(keys.contains(key));
    let t = choose|t: int| 0 <= t < keys.len() && keys[t] == key;
    assert(m[t].0 == key);
    let c = choose|c: int| 0 <= c < m.len() && m[c].0 == key;
    assert(m[c].0 == keys[c]);
    assert(c == t);
}

// ── rebuilding an unchanged graph ────────────────────────────────────────────

/// Every node's parameter map names each parameter once, and every value
/// equals itself (no float parameter is NaN).
pub open spec fn params_self_equal(g: ModuleGraph) -> bool {
    forall|i: int|
        0 <= i < g.node_entries().len() ==> {
            let m = (#[trigger] g.node_entries()[i]).1.parameter_map@;
            &&& names_distinct(m)
            &&& forall|k: int| 0 <= k < m.len() ==> value_equal(#[trigger] m[k].1, m[k].1)
        }
}

/// The state recorded for the `i`-th node of a build is its entry `i`.
proof fn lemma_recorded_state(l: PlanLayout, st: PlannerState, g: ModuleGraph, prev: PlannerState, first: u64, i: int)
    requires
        built(l, st, g, prev, first),
        0 <= i < execution_order(g).len(),
    ensures
        st.has_state(execution_order(g)[i]),
        st.state_of(execution_order(g)[i]) == st.nodes@[i].1,
        state_at(st.nodes@[i].1, g, prev, first, i),
{
    let id = execution_order(g)[i];
    assert(st.nodes@[i].0@ == id);
    let j = choose|j: int| 0 <= j < st.nodes@.len() && st.nodes@[j].0@ == id;
    assert(j == i);
}

/// A value-equal parameter list filtered by what differs from itself is empty.
proof fn lemma_no_param_diff(m: Seq<(Seq<char>, ValueModel)>)
    requires
        names_distinct(m),
        forall|k: int| 0 <= k < m.len() ==> value_equal(#[trigger] m[k].1, m[k].1),
    ensures
        m.filter(differs_from(m)).len() == 0,
{
    let f = m.filter(differs_from(m));
    if f.len() > 0 {
        m.filter_lemma(differs_from(m));
        assert(f.contains(f[0]));
        m.lemma_filter_contains_rev(differs_from(m), f[0]);
        let k = choose|k: int| 0 <= k < m.len() && m[k] == f[0];
        assert(differs_from(m)(f[0]));
        assert(position_of(m, m[k].0) is Some);
        let p = position_of(m, m[k].0)->Some_0;
        assert(m[p].0 == m[k].0);
        assert(p == k);
    }
}

/// No slot is removed when every identifier of the pool is kept.
proof fn lemma_nothing_removed(pool: Seq<(InstanceId, usize)>, ids: Seq<InstanceId>, n: int)
    requires
        0 <= n <= pool.len(),
        forall|k: int| 0 <= k < n ==> ids.contains(#[trigger] pool[k].0),
    ensures
        removed_slots(pool, ids, n) == Seq::<usize>::empty(),
    decreases n,
{
    if n > 0 {
        lemma_nothing_removed(pool, ids, n - 1);
    }
}

/// Per node, rebuilding an unchanged graph from the state its build recorded
/// keeps everything: the node survives with its instance and pool slot, and
/// neither its parameters nor its connectivity are reported changed.
proof fn lemma_rebuild_node(
    l: PlanLayout,
    st: PlannerState,
    g: ModuleGraph,
    prev: PlannerState,
    first: u64,
    first2: u64,
    i: int,
)
    requires
        built(l, st, g, prev, first),
        params_self_equal(g),
        0 <= i < execution_order(g).len(),
    ensures
        !installs_at(g, st, i),
        instance_at(g, st, first2, i) == instance_at(g, prev, first, i),
        param_diff_at(g, st, i).len() == 0,
        !conn_changed_at(g, st, i),
{
    lemma_recorded_state(l, st, g, prev, first, i);
    let ns = st.nodes@[i].1;
    lemma_rebuild_survives(st, g, prev, first, first2, i, ns);
    lemma_rebuild_params(st, g, prev, first, i, ns);
    lemma_rebuild_connectivity(st, g, prev, first, i, ns);
}

proof fn lemma_rebuild_survives(
    st: PlannerState,
    g: ModuleGraph,
    prev: PlannerState,
    first: u64,
    first2: u64,
    i: int,
    ns: NodeState,
)
    requires
        0 <= i < execution_order(g).len(),
        st.has_state(execution_order(g)[i]),
        st.state_of(execution_order(g)[i]) == ns,
        state_at(ns, g, prev, first, i),
    ensures
        !installs_at(g, st, i),
        instance_at(g, st, first2, i) == instance_at(g, prev, first, i),
{
    assert(survives(st, execution_order(g)[i], desc_at(g, i)));
}

proof fn lemma_rebuild_params(st: PlannerState, g: ModuleGraph, prev: PlannerState, first: u64, i: int, ns: NodeState)
    requires
        params_self_equal(g),
        0 <= i < execution_order(g).len(),
        g.has_node(execution_order(g)[i]),
        st.state_of(execution_order(g)[i]) == ns,
        state_at(ns, g, prev, first, i),
    ensures
        param_diff_at(g, st, i).len() == 0,
{
    let id = execution_order(g)[i];
    let t = g.node_index(id);
    assert(g.node_entries()[t].1 == g.node_spec(id));
    let m = g.node_spec(id).parameter_map@;
    assert(ns.parameter_map@ == m);
    lemma_no_param_diff(m);
}

proof fn lemma_rebuild_connectivity(st: PlannerState, g: ModuleGraph, prev: PlannerState, first: u64, i: int, ns: NodeState)
    requires
        0 <= i < execution_order(g).len(),
        st.state_of(execution_order(g)[i]) == ns,
        state_at(ns, g, prev, first, i),
    ensures
        !conn_changed_at(g, st, i),
{
}

/// Rebuilding an unchanged graph from the state its build recorded changes
/// nothing.
///
/// No node gets a fresh module; every node keeps its instance and its pool
/// slot; no module is tombstoned; no parameter or connectivity update is
/// reported; and the cable buffers stay where they are, none to be zeroed.
/// This holds when no float parameter is NaN (a NaN never equals itself, so
/// it is reported changed on every build).
pub proof fn lemma_identical_rebuild(
    l: PlanLayout,
    st: PlannerState,
    g: ModuleGraph,
    prev: PlannerState,
    first: u64,
    first2: u64,
)
    requires
        built(l, st, g, prev, first),
        params_self_equal(g),
    ensures
        ({
            let n = execution_order(g).len() as int;
            let keys = planned_keys(g, execution_order(g));
            let pe = buffer_entries(st.buffer_alloc.output_buf@);
            let free = st.buffer_alloc.freelist@;
            let hwm = st.buffer_alloc.next_hwm as int;
            &&& forall|i: int| 0 <= i < n ==> !installs_at(g, st, i)
            &&& forall|i: int|
                0 <= i < n ==> #[trigger] instance_at(g, st, first2, i) == instance_at(g, prev, first, i) && pool_at(
                    g,
                    st,
                    first2,
                    i,
                ) == pool_at(g, prev, first, i)
            &&& install_list(g, st, first2, n).len() == 0
            &&& st.module_alloc.diff_tombstoned(instance_set(g, st, first2)).len() == 0
            &&& param_update_list(g, st, first2, n).len() == 0
            &&& conn_update_list(g, st, first2, n).len() == 0
            &&& buffers_of(g, st) == pe
            &&& fresh_slots(pe, free, hwm, keys, keys.len() as int).len() == 0
            &&& dropped_slots(pe, keys, pe.len() as int).len() == 0
        }),
{
    let ord = execution_order(g);
    let n = ord.len() as int;
    assert forall|i: int| 0 <= i < n implies !installs_at(g, st, i) && instance_at(g, st, first2, i) == instance_at(
        g,
        prev,
        first,
        i,
    ) && param_diff_at(g, st, i).len() == 0 && !conn_changed_at(g, st, i) by {
        lemma_rebuild_node(l, st, g, prev, first, first2, i);
    }
    // The same instances, hence the same instance set and pool slots.
    assert(instances(g, st, first2) =~= instances(g, prev, first));
    let u = instance_set(g, prev, first);
    assert(instance_set(g, st, first2) == u);
    lemma_built_state_is_placed(l, st, g, prev, first);
    let s = instances(g, prev, first);
    lemma_dedup_ids(s, n);
    assert(s.take(n) =~= s);
    assert forall|i: int| 0 <= i < n implies #[trigger] instance_at(g, st, first2, i) == instance_at(g, prev, first, i)
        && pool_at(g, st, first2, i) == pool_at(g, prev, first, i) by {
        lemma_rebuild_node(l, st, g, prev, first, first2, i);
        lemma_survivor_keeps_instance_and_slot(g, st, first2, i);
        let inst = instance_at(g, prev, first, i);
        assert(s[i] == inst);
        assert(u.contains(inst));
        let j = choose|j: int| 0 <= j < u.len() && u[j] == inst;
        lemma_slot_map_lookup(st.module_alloc, u, j);
        lemma_slot_map_lookup(prev.module_alloc, u, j);
        assert(st.module_alloc.pool_map@ == prev.module_alloc.diff_slot_map(u));
        assert(has_id(st.module_alloc.pool_map@, u[j]));
        assert(st.module_alloc.assigned_slot(u, j) == slot_of(st.module_alloc.pool_map@, u[j]) as int);
    }
    // Nothing is tombstoned.
    let pool = st.module_alloc.pool_map@;
    assert forall|k: int| 0 <= k < pool.len() implies u.contains(#[trigger] pool[k].0) by {
        assert(pool[k].0 == u[k]);
    }
    lemma_nothing_removed(pool, u, pool.len() as int);
    // The reported lists are empty.
    lemma_lists_empty(g, st, first2, n);
    // Cable buffers.
    let keys = planned_keys(g, ord);
    let pe = buffer_entries(st.buffer_alloc.output_buf@);
    lemma_rebuild_buffers(l, st, g, prev, first);
    assert(pe == key_map(
        buffer_entries(prev.buffer_alloc.output_buf@),
        prev.buffer_alloc.freelist@,
        prev.buffer_alloc.next_hwm as int,
        keys,
    ));
}

/// With no node installed, changed in parameters or in connectivity, the
/// install, parameter and connectivity lists are empty.
proof fn lemma_lists_empty(g: ModuleGraph, st: PlannerState, first2: u64, n: int)
    requires
        0 <= n <= execution_order(g).len(),
        forall|i: int|
            0 <= i < execution_order(g).len() ==> !installs_at(g, st, i) && instance_at(g, st, first2, i) == instance_at(
                g,
                st,
                first2,
                i,
            ) && param_diff_at(g, st, i).len() == 0 && !conn_changed_at(g, st, i),
    ensures
        install_list(g, st, first2, n).len() == 0,
        param_update_list(g, st, first2, n).len() == 0,
        conn_update_list(g, st, first2, n).len() == 0,
    decreases n,
{
    if n > 0 {
        lemma_lists_empty(g, st, first2, n - 1);
        assert(!installs_at(g, st, n - 1) && param_diff_at(g, st, n - 1).len() == 0 && !conn_changed_at(g, st, n - 1));
    }
}

/// The cable buffers of a rebuild: the recorded map is what a rebuild
/// plans, with no key new and none dropped.
proof fn lemma_rebuild_buffers(l: PlanLayout, st: PlannerState, g: ModuleGraph, prev: PlannerState, first: u64)
    requires
        built(l, st, g, prev, first),
    ensures
        ({
            let keys = planned_keys(g, execution_order(g));
            let pe = buffer_entries(st.buffer_alloc.output_buf@);
            let free = st.buffer_alloc.freelist@;
            let hwm = st.buffer_alloc.next_hwm as int;
            &&& buffers_of(g, st) == pe
            &&& fresh_slots(pe, free, hwm, keys, keys.len() as int).len() == 0
            &&& dropped_slots(pe, keys, pe.len() as int).len() == 0
        }),
{
    let ord = execution_order(g);
    let n = ord.len() as int;
    let keys = planned_keys(g, ord);
    let pe = buffer_entries(st.buffer_alloc.output_buf@);
    let free = st.buffer_alloc.freelist@;
    let hwm = st.buffer_alloc.next_hwm as int;
    assert(crate::planner::names_sorted_ord(g));
    crate::planner::lemma_ord_distinct(g);
    lemma_output_keys_distinct(g, ord, n);
    assert(pe == buffers_of(g, prev));
    assert(pe.len() == keys.len());
    assert forall|t: int| 0 <= t < keys.len() implies pe[t].0 == keys[t] by {}
    assert forall|t: int| 0 <= t < keys.len() implies has_key(pe, #[trigger] keys[t]) by {
        assert(pe[t].0 == keys[t]);
    }
    lemma_all_kept(pe, free, hwm, keys, keys.len() as int);
    assert forall|k: int| 0 <= k < pe.len() implies keys.contains(#[trigger] pe[k].0) by {
        assert(pe[k].0 == keys[k]);
    }
    lemma_none_dropped(pe, keys, pe.len() as int);
    assert(key_map(pe, free, hwm, keys) =~= pe) by {
        assert forall|t: int| 0 <= t < keys.len() implies key_map(pe, free, hwm, keys)[t] == pe[t] by {
            assert(has_key(pe, keys[t]));
            let c = choose|c: int| 0 <= c < pe.len() && pe[c].0 == keys[t];
            assert(pe[c].0 == keys[c]);
            assert(c == t);
        }
    }
}

/// No slot is newly taken when every key already has one.
proof fn lemma_all_kept(pe: Seq<(KeyModel, usize)>, free: Seq<usize>, hwm: int, keys: Seq<KeyModel>, t: int)
    requires
        0 <= t <= keys.len(),
        forall|k: int| 0 <= k < keys.len() ==> has_key(pe, #[trigger] keys[k]),
    ensures
        fresh_slots(pe, free, hwm, keys, t).len() == 0,
    decreases t,
{
    if t > 0 {
        lemma_all_kept(pe, free, hwm, keys, t - 1);
        assert(has_key(pe, keys[t - 1]));
    }
}

/// No slot is dropped when every entry's key is still planned.
proof fn lemma_none_dropped(pe: Seq<(KeyModel, usize)>, keys: Seq<KeyModel>, n: int)
    requires
        0 <= n <= pe.len(),
        forall|k: int| 0 <= k < pe.len() ==> keys.contains(#[trigger] pe[k].0),
    ensures
        dropped_slots(pe, keys, n).len() == 0,
    decreases n,
{
    if n > 0 {
        lemma_none_dropped(pe, keys, n - 1);
        assert(keys.contains(pe[n - 1].0));
    }
}

/// A build keeps a consistent cable buffer allocation consistent, and its
/// list of slots to zero holds exactly what changed: a source port that
/// keeps its buffer is not zeroed on adoption, a new source port's buffer
/// is, and so is the buffer of every source port that is gone.
pub proof fn lemma_build_buffers(
    l: PlanLayout,
    st: PlannerState,
    g: ModuleGraph,
    prev: PlannerState,
    first: u64,
    capacity: usize,
)
    requires
        built(l, st, g, prev, first),
        buffers_consistent(
            buffer_entries(prev.buffer_alloc.output_buf@),
            prev.buffer_alloc.freelist@,
            prev.buffer_alloc.next_hwm as int,
        ),
        !keys_exhaust(
            buffer_entries(prev.buffer_alloc.output_buf@),
            prev.buffer_alloc.freelist@,
            prev.buffer_alloc.next_hwm as int,
            planned_keys(g, execution_order(g)),
            capacity,
        ),
    ensures
        ({
            let pe = buffer_entries(prev.buffer_alloc.output_buf@);
            let keys = planned_keys(g, execution_order(g));
            let m = buffer_entries(st.buffer_alloc.output_buf@);
            &&& buffers_consistent(m, st.buffer_alloc.freelist@, st.buffer_alloc.next_hwm as int)
            &&& forall|t: int| 0 <= t < keys.len() && has_key(pe, keys[t]) ==> !l.to_zero@.contains(#[trigger] m[t].1)
            &&& forall|t: int| 0 <= t < keys.len() && !has_key(pe, keys[t]) ==> l.to_zero@.contains(#[trigger] m[t].1)
            &&& forall|k: int| 0 <= k < pe.len() && !keys.contains(pe[k].0) ==> l.to_zero@.contains(#[trigger] pe[k].1)
        }),
{
    let ord = execution_order(g);
    let n = ord.len() as int;
    assert(crate::planner::names_sorted_ord(g));
    crate::planner::lemma_ord_distinct(g);
    lemma_output_keys_distinct(g, ord, n);
    lemma_buffer_replan(
        buffer_entries(prev.buffer_alloc.output_buf@),
        prev.buffer_alloc.freelist@,
        prev.buffer_alloc.next_hwm as int,
        planned_keys(g, ord),
        capacity,
    );
}

// ── fresh instances ──────────────────────────────────────────────────────────

/// Between positions `a` and `b`, at most `b - a` nodes get a fresh module.
proof fn lemma_fresh_between(g: ModuleGraph, prev: PlannerState, a: int, b: int)
    requires
        0 <= a <= b,
    ensures
        fresh_before_node(g, prev, a) <= fresh_before_node(g, prev, b) <= fresh_before_node(g, prev, a) + (b - a),
    decreases b - a,
{
    if b > a {
        lemma_fresh_between(g, prev, a, b - 1);
    }
}

/// The counter value `k` draws after `raw`, when that does not wrap.
proof fn lemma_raw_after_no_wrap(raw: u64, k: nat)
    requires
        raw + k <= u64::MAX,
    ensures
        raw_after(raw, k) == raw + k,
{
    vstd::arithmetic::div_mod::lemma_small_mod((raw + k) as nat, 0x1_0000_0000_0000_0000nat);
}

/// The instance of the `i`-th node has a raw value below the counter after
/// the build, and a fresh one is at least `first`: a survivor keeps an
/// instance recorded in `prev`, and the fresh ones are drawn in order from
/// `first` on.
proof fn lemma_instance_raw(g: ModuleGraph, prev: PlannerState, first: u64, i: int)
    requires
        forall|k: int| 0 <= k < prev.nodes@.len() ==> (#[trigger] prev.nodes@[k]).1.instance_id.raw_spec() < first,
        first + execution_order(g).len() <= u64::MAX,
        0 <= i < execution_order(g).len(),
    ensures
        installs_at(g, prev, i) ==> first <= instance_at(g, prev, first, i).raw_spec(),
        instance_at(g, prev, first, i).raw_spec() < raw_after(
            first,
            fresh_before_node(g, prev, execution_order(g).len() as int),
        ),
{
    let n = execution_order(g).len() as int;
    lemma_fresh_between(g, prev, 0, i);
    lemma_fresh_between(g, prev, i + 1, n);
    lemma_fresh_between(g, prev, 0, n);
    lemma_raw_after_no_wrap(first, fresh_before_node(g, prev, n));
    if installs_at(g, prev, i) {
        lemma_raw_after_no_wrap(first, fresh_before_node(g, prev, i));
        assert(fresh_before_node(g, prev, i + 1) == fresh_before_node(g, prev, i) + 1);
        crate::instance_id::lemma_raw_identifies(
            instance_at(g, prev, first, i),
            instance_at(g, prev, first, i),
            raw_after(first, fresh_before_node(g, prev, i)),
            0,
        );
    } else {
        let id = execution_order(g)[i];
        assert(survives(prev, id, desc_at(g, i)));
        let k = choose|k: int| 0 <= k < prev.nodes@.len() && prev.nodes@[k].0@ == id;
        assert(prev.nodes@[k].1.instance_id.raw_spec() < first);
    }
}

/// A fresh instance is new: when every instance recorded in `prev` was
/// drawn before the counter reached `first`, and drawing one per node does
/// not wrap the counter, every node that gets a fresh module gets an
/// instance different from every recorded one (a type change of node `n`
/// replaces its instance). The built state again records only instances
/// drawn before the counter's value after the build, so the same holds for
/// the next build.
pub proof fn lemma_fresh_instances_are_new(l: PlanLayout, st: PlannerState, g: ModuleGraph, prev: PlannerState, first: u64)
    requires
        built(l, st, g, prev, first),
        forall|k: int| 0 <= k < prev.nodes@.len() ==> (#[trigger] prev.nodes@[k]).1.instance_id.raw_spec() < first,
        first + execution_order(g).len() <= u64::MAX,
    ensures
        forall|i: int, k: int|
            0 <= i < st.nodes@.len() && installs_at(g, prev, i) && 0 <= k < prev.nodes@.len()
                ==> (#[trigger] st.nodes@[i]).1.instance_id != (#[trigger] prev.nodes@[k]).1.instance_id,
        forall|i: int|
            0 <= i < st.nodes@.len() ==> (#[trigger] st.nodes@[i]).1.instance_id.raw_spec() < raw_after(
                first,
                fresh_before_node(g, prev, execution_order(g).len() as int),
            ),
{
    let n = execution_order(g).len() as int;
    assert forall|i: int, k: int|
        0 <= i < st.nodes@.len() && installs_at(g, prev, i) && 0 <= k < prev.nodes@.len()
            implies (#[trigger] st.nodes@[i]).1.instance_id != (#[trigger] prev.nodes@[k]).1.instance_id by {
        assert(state_at(st.nodes@[i].1, g, prev, first, i));
        lemma_instance_raw(g, prev, first, i);
    }
    assert forall|i: int| 0 <= i < st.nodes@.len() implies (#[trigger] st.nodes@[i]).1.instance_id.raw_spec() < raw_after(
        first,
        fresh_before_node(g, prev, n),
    ) by {
        assert(state_at(st.nodes@[i].1, g, prev, first, i));
        lemma_instance_raw(g, prev, first, i);
    }
}

// ── removing a node ──────────────────────────────────────────────────────────

/// `x` is the instance of a node recorded in `st`.
pub open spec fn is_recorded(st: PlannerState, x: InstanceId) -> bool {
    exists|k: int| 0 <= k < st.nodes@.len() && st.nodes@[k].1.instance_id == x
}

/// Every pool entry of `st` holds the instance of a recorded node, and no
/// two recorded nodes share an instance.
pub open spec fn pool_of_recorded(st: PlannerState) -> bool {
    &&& forall|j: int|
        0 <= j < st.module_alloc.pool_map@.len() ==> is_recorded(st, #[trigger] st.module_alloc.pool_map@[j].0)
    &&& forall|a: int, b: int|
        0 <= a < st.nodes@.len() && 0 <= b < st.nodes@.len() && a != b ==> (#[trigger] st.nodes@[a]).1.instance_id
            != (#[trigger] st.nodes@[b]).1.instance_id
}

/// When only entry `j0` of `pool` has an identifier outside `u`, its slot
/// is the only one removed.
proof fn lemma_removed_only(pool: Seq<(InstanceId, usize)>, u: Seq<InstanceId>, j0: int, n: int)
    requires
        0 <= j0 < pool.len(),
        0 <= n <= pool.len(),
        !u.contains(pool[j0].0),
        forall|j: int| 0 <= j < pool.len() && j != j0 ==> u.contains(#[trigger] pool[j].0),
    ensures
        removed_slots(pool, u, n) == (if n > j0 { seq![pool[j0].1] } else { Seq::<usize>::empty() }),
    decreases n,
{
    if n > 0 {
        lemma_removed_only(pool, u, j0, n - 1);
        if n - 1 != j0 {
            assert(u.contains(pool[n - 1].0));
        }
    }
}

/// With no fresh module among the first `n` nodes, nothing is installed.
proof fn lemma_no_installs(g: ModuleGraph, prev: PlannerState, first: u64, n: int)
    requires
        forall|i: int| 0 <= i < n ==> !installs_at(g, prev, i),
    ensures
        install_list(g, prev, first, n).len() == 0,
    decreases n,
{
    if n > 0 {
        lemma_no_installs(g, prev, first, n - 1);
    }
}

/// The recorded node with name `id` is entry `k`, when names are distinct.
proof fn lemma_state_of_entry(prev: PlannerState, k: int)
    requires
        prev.wf(),
        0 <= k < prev.nodes@.len(),
    ensures
        prev.has_state(prev.nodes@[k].0@),
        prev.state_of(prev.nodes@[k].0@) == prev.nodes@[k].1,
{
    let id = prev.nodes@[k].0@;
    let c = choose|c: int| 0 <= c < prev.nodes@.len() && prev.nodes@[c].0@ == id;
    assert(c == k);
}

/// Removing a node tombstones exactly its slot: when graph `g` holds every
/// node recorded in `prev` but node `k0`, each with its recorded type and
/// shape, and `prev`'s pool holds exactly the recorded nodes' distinct
/// instances, the build tombstones only the slot of `k0`'s instance,
/// installs nothing, gives every other node its instance and pool slot,
/// and no longer records `k0`.
pub proof fn lemma_removed_node_tombstoned(
    l: PlanLayout,
    st: PlannerState,
    g: ModuleGraph,
    prev: PlannerState,
    first: u64,
    k0: int,
)
    requires
        built(l, st, g, prev, first),
        prev.wf(),
        placed(prev),
        pool_of_recorded(prev),
        0 <= k0 < prev.nodes@.len(),
        !g.has_node(prev.nodes@[k0].0@),
        forall|k: int| 0 <= k < prev.nodes@.len() && k != k0 ==> g.has_node(#[trigger] prev.nodes@[k].0@),
        forall|i: int| 0 <= i < execution_order(g).len() ==> !installs_at(g, prev, i),
    ensures
        l.tombstones@ == seq![slot_of(prev.module_alloc.pool_map@, prev.nodes@[k0].1.instance_id)],
        l.installs@.len() == 0,
        forall|i: int|
            0 <= i < execution_order(g).len() ==> instance_at(g, prev, first, i) == prev.state_of(
                execution_order(g)[i],
            ).instance_id && #[trigger] pool_at(g, prev, first, i) == slot_of(
                prev.module_alloc.pool_map@,
                instance_at(g, prev, first, i),
            ),
        !st.has_state(prev.nodes@[k0].0@),
{
    let ord = execution_order(g);
    let n = ord.len() as int;
    let pool = prev.module_alloc.pool_map@;
    let s = instances(g, prev, first);
    let u = instance_set(g, prev, first);
    let x0 = prev.nodes@[k0].1.instance_id;
    lemma_dedup_ids(s, n);
    assert(s.take(n) =~= s);
    // the removed node's instance has exactly one pool entry
    assert(placed(prev));
    assert(has_id(pool, prev.nodes@[k0].1.instance_id));
    let j0 = choose|j: int| 0 <= j < pool.len() && pool[j].0 == x0;
    // it is no node's instance any more
    assert(!u.contains(x0)) by {
        if u.contains(x0) {
            assert(s.contains(x0));
            let i = choose|i: int| 0 <= i < s.len() && s[i] == x0;
            assert(s[i] == instance_at(g, prev, first, i));
            let id = ord[i];
            assert(prev.has_state(id));
            let c = choose|c: int| 0 <= c < prev.nodes@.len() && prev.nodes@[c].0@ == id;
            assert(prev.state_of(id) == prev.nodes@[c].1);
            assert(g.has_node(ord[i]));
            assert(c != k0);
        }
    }
    // every other pool entry belongs to a node of `g`
    assert forall|j: int| 0 <= j < pool.len() && j != j0 implies u.contains(#[trigger] pool[j].0) by {
        assert(is_recorded(prev, pool[j].0));
        let k = choose|k: int| 0 <= k < prev.nodes@.len() && prev.nodes@[k].1.instance_id == pool[j].0;
        if k == k0 {
            assert(pool[j].0 == pool[j0].0);
        }
        let id = prev.nodes@[k].0@;
        assert(g.has_node(id));
        let e = choose|e: int| 0 <= e < g.node_entries().len() && g.node_entries()[e].0@ == id;
        assert(graph_names(g)[e] == id);
        assert(graph_names(g).to_set().contains(id));
        assert(ord.to_set().contains(id));
        let i = choose|i: int| 0 <= i < ord.len() && ord[i] == id;
        lemma_state_of_entry(prev, k);
        assert(!installs_at(g, prev, i));
        assert(s[i] == instance_at(g, prev, first, i));
        assert(s.contains(pool[j].0));
    }
    lemma_removed_only(pool, u, j0, pool.len() as int);
    assert(prev.module_alloc.diff_tombstoned(u) == removed_slots(pool, u, pool.len() as int));
    let j1 = choose|j: int| 0 <= j < pool.len() && pool[j].0 == x0;
    assert(j1 == j0);
    assert(slot_of(pool, x0) == pool[j0].1);
    assert(l.tombstones@ =~= seq![pool[j0].1]);
    lemma_no_installs(g, prev, first, n);
    assert(l.installs@.map_values(|e: (usize, InstanceId, crate::modules::PortConnectivity)| (e.0, e.1, crate::layout::conn_model(e.2))).len()
        == l.installs@.len());
    assert forall|i: int| 0 <= i < n implies instance_at(g, prev, first, i) == prev.state_of(ord[i]).instance_id
        && #[trigger] pool_at(g, prev, first, i) == slot_of(pool, instance_at(g, prev, first, i)) by {
        lemma_survivor_keeps_instance_and_slot(g, prev, first, i);
    }
    if st.has_state(prev.nodes@[k0].0@) {
        let c = choose|c: int| 0 <= c < st.nodes@.len() && st.nodes@[c].0@ == prev.nodes@[k0].0@;
        assert(st.nodes@[c].0@ == ord[c]);
        assert(g.has_node(ord[c]));
    }
}

/// A build keeps the pool made of the recorded nodes' distinct instances:
/// when `prev` had that property, recorded only instances drawn before the
/// counter reached `first`, and drawing one per node does not wrap the
/// counter, the built state has it too.
pub proof fn lemma_built_pool_of_recorded(l: PlanLayout, st: PlannerState, g: ModuleGraph, prev: PlannerState, first: u64)
    requires
        built(l, st, g, prev, first),
        prev.wf(),
        pool_of_recorded(prev),
        forall|k: int| 0 <= k < prev.nodes@.len() ==> (#[trigger] prev.nodes@[k]).1.instance_id.raw_spec() < first,
        first + execution_order(g).len() <= u64::MAX,
    ensures
        pool_of_recorded(st),
{
    let ord = execution_order(g);
    let n = ord.len() as int;
    let s = instances(g, prev, first);
    let u = instance_set(g, prev, first);
    lemma_dedup_ids(s, n);
    assert(s.take(n) =~= s);
    crate::planner::lemma_ord_distinct(g);
    let pool = st.module_alloc.pool_map@;
    assert forall|j: int| 0 <= j < pool.len() implies is_recorded(st, #[trigger] pool[j].0) by {
        assert(pool[j].0 == u[j]);
        assert(u.contains(u[j]));
        let i = choose|i: int| 0 <= i < s.len() && s[i] == u[j];
        assert(state_at(st.nodes@[i].1, g, prev, first, i));
    }
    assert forall|a: int, b: int|
        0 <= a < st.nodes@.len() && 0 <= b < st.nodes@.len() && a != b implies (#[trigger] st.nodes@[a]).1.instance_id
            != (#[trigger] st.nodes@[b]).1.instance_id by {
        assert(state_at(st.nodes@[a].1, g, prev, first, a));
        assert(state_at(st.nodes@[b].1, g, prev, first, b));
        lemma_instance_raw(g, prev, first, a);
        lemma_instance_raw(g, prev, first, b);
        let ia = instance_at(g, prev, first, a);
        let ib = instance_at(g, prev, first, b);
        if installs_at(g, prev, a) && installs_at(g, prev, b) {
            let (lo, hi) = if a < b { (a, b) } else { (b, a) };
            lemma_fresh_between(g, prev, lo + 1, hi);
            lemma_fresh_between(g, prev, 0, hi);
            lemma_fresh_between(g, prev, 0, lo);
            assert(fresh_before_node(g, prev, lo + 1) == fresh_before_node(g, prev, lo) + 1);
            lemma_raw_after_no_wrap(first, fresh_before_node(g, prev, lo));
            lemma_raw_after_no_wrap(first, fresh_before_node(g, prev, hi));
            crate::instance_id::lemma_raw_identifies(
                ia,
                ib,
                raw_after(first, fresh_before_node(g, prev, a)),
                raw_after(first, fresh_before_node(g, prev, b)),
            );
        } else if !installs_at(g, prev, a) && !installs_at(g, prev, b) {
            let ca = choose|c: int| 0 <= c < prev.nodes@.len() && prev.nodes@[c].0@ == ord[a];
            let cb = choose|c: int| 0 <= c < prev.nodes@.len() && prev.nodes@[c].0@ == ord[b];
            assert(survives(prev, ord[a], desc_at(g, a)));
            assert(survives(prev, ord[b], desc_at(g, b)));
            assert(ia == prev.nodes@[ca].1.instance_id);
            assert(ib == prev.nodes@[cb].1.instance_id);
            assert(ord[a] != ord[b]);
            assert(ca != cb);
        } else {
            crate::instance_id::lemma_raw_identifies(ia, ib, 0, 0);
            if !installs_at(g, prev, a) {
                let ca = choose|c: int| 0 <= c < prev.nodes@.len() && prev.nodes@[c].0@ == ord[a];
                assert(survives(prev, ord[a], desc_at(g, a)));
                assert(ia.raw_spec() < first);
            } else {
                let cb = choose|c: int| 0 <= c < prev.nodes@.len() && prev.nodes@[c].0@ == ord[b];
                assert(survives(prev, ord[b], desc_at(g, b)));
                assert(ib.raw_spec() < first);
            }
        }
    }
}

// ── a parameter-only change ──────────────────────────────────────────────────

/// With only node `i0` among the first `n` reporting changed parameters,
/// the update list is that node's entry alone (once `n` passes it).
proof fn lemma_one_param_update(g: ModuleGraph, prev: PlannerState, first: u64, i0: int, n: int)
    requires
        0 <= i0,
        forall|i: int| 0 <= i < n ==> !installs_at(g, prev, i),
        forall|i: int| 0 <= i < n && i != i0 ==> param_diff_at(g, prev, i).len() == 0,
        i0 < n ==> param_diff_at(g, prev, i0).len() > 0,
    ensures
        param_update_list(g, prev, first, n) == (if n > i0 {
            seq![(pool_at(g, prev, first, i0), param_diff_at(g, prev, i0))]
        } else {
            Seq::empty()
        }),
    decreases n,
{
    if n > 0 {
        lemma_one_param_update(g, prev, first, i0, n - 1);
    }
}

/// With no connectivity change among the first `n` nodes, none is reported.
proof fn lemma_no_conn_updates(g: ModuleGraph, prev: PlannerState, first: u64, n: int)
    requires
        forall|i: int| 0 <= i < n ==> !conn_changed_at(g, prev, i),
    ensures
        conn_update_list(g, prev, first, n).len() == 0,
    decreases n,
{
    if n > 0 {
        lemma_no_conn_updates(g, prev, first, n - 1);
    }
}

/// A parameter-only change gives one parameter update and nothing else:
/// when graph `g` holds exactly the nodes recorded in `prev`, each with its
/// recorded type, shape and port connectivity, and the parameters of every
/// node but the `i0`-th equal the recorded ones (none NaN) while those of
/// the `i0`-th differ in some entry, and `prev`'s pool holds exactly the
/// recorded nodes' distinct instances, the build installs and tombstones
/// nothing, reports no connectivity change, and reports one parameter
/// update: the changed entries of node `i0`, for the pool slot its
/// instance keeps.
pub proof fn lemma_parameter_only_change(
    l: PlanLayout,
    st: PlannerState,
    g: ModuleGraph,
    prev: PlannerState,
    first: u64,
    i0: int,
)
    requires
        built(l, st, g, prev, first),
        prev.wf(),
        placed(prev),
        pool_of_recorded(prev),
        params_self_equal(g),
        0 <= i0 < execution_order(g).len(),
        forall|k: int| 0 <= k < prev.nodes@.len() ==> g.has_node(#[trigger] prev.nodes@[k].0@),
        forall|i: int| 0 <= i < execution_order(g).len() ==> !installs_at(g, prev, i),
        forall|i: int| 0 <= i < execution_order(g).len() ==> !conn_changed_at(g, prev, i),
        forall|i: int|
            0 <= i < execution_order(g).len() && i != i0 ==> g.node_spec(#[trigger] execution_order(g)[i]).parameter_map@
                == prev.state_of(execution_order(g)[i]).parameter_map@,
        param_diff_at(g, prev, i0).len() > 0,
    ensures
        l.installs@.len() == 0,
        l.tombstones@.len() == 0,
        l.connectivity_updates@.len() == 0,
        l.parameter_updates@.len() == 1,
        l.parameter_updates@[0].0 == slot_of(
            prev.module_alloc.pool_map@,
            prev.state_of(execution_order(g)[i0]).instance_id,
        ),
        l.parameter_updates@[0].1@ == param_diff_at(g, prev, i0),
        instance_at(g, prev, first, i0) == prev.state_of(execution_order(g)[i0]).instance_id,
{
    let ord = execution_order(g);
    let n = ord.len() as int;
    let pool = prev.module_alloc.pool_map@;
    let s = instances(g, prev, first);
    let u = instance_set(g, prev, first);
    lemma_dedup_ids(s, n);
    assert(s.take(n) =~= s);
    // parameters of the other nodes are unchanged
    assert forall|i: int| 0 <= i < n && i != i0 implies param_diff_at(g, prev, i).len() == 0 by {
        let id = ord[i];
        assert(g.has_node(id));
        let t = g.node_index(id);
        assert(g.node_entries()[t].1 == g.node_spec(id));
        let m = g.node_spec(id).parameter_map@;
        lemma_no_param_diff(m);
    }
    lemma_one_param_update(g, prev, first, i0, n);
    lemma_no_conn_updates(g, prev, first, n);
    lemma_no_installs(g, prev, first, n);
    // every pool entry is the instance of a node still in the graph
    assert forall|j: int| 0 <= j < pool.len() implies u.contains(#[trigger] pool[j].0) by {
        assert(is_recorded(prev, pool[j].0));
        let k = choose|k: int| 0 <= k < prev.nodes@.len() && prev.nodes@[k].1.instance_id == pool[j].0;
        let id = prev.nodes@[k].0@;
        assert(g.has_node(id));
        let e = choose|e: int| 0 <= e < g.node_entries().len() && g.node_entries()[e].0@ == id;
        assert(graph_names(g)[e] == id);
        assert(graph_names(g).to_set().contains(id));
        assert(ord.to_set().contains(id));
        let i = choose|i: int| 0 <= i < ord.len() && ord[i] == id;
        lemma_state_of_entry(prev, k);
        assert(!installs_at(g, prev, i));
        assert(s[i] == instance_at(g, prev, first, i));
        assert(s.contains(pool[j].0));
    }
    lemma_nothing_removed(pool, u, pool.len() as int);
    lemma_survivor_keeps_instance_and_slot(g, prev, first, i0);
    let pu = l.parameter_updates@.map_values(|e: (usize, crate::parameter_map::ParameterMap)| (e.0, e.1@));
    assert(pu.len() == l.parameter_updates@.len());
    assert(pu[0] == (l.parameter_updates@[0].0, l.parameter_updates@[0].1@));
    assert(l.installs@.map_values(
        |e: (usize, InstanceId, crate::modules::PortConnectivity)| (e.0, e.1, crate::layout::conn_model(e.2)),
    ).len() == l.installs@.len());
    assert(l.connectivity_updates@.map_values(
        |e: (usize, crate::modules::PortConnectivity)| (e.0, crate::layout::conn_model(e.1)),
    ).len() == l.connectivity_updates@.len());
}

} // verus!
