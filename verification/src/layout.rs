//! What a plan build produces, stated over the graph and the previous
//! planning state: for every node in execution order its instance, its pool
//! slot, its buffers and the connectivity it ends up with.
use vstd::prelude::*;

use crate::allocation::{ids_distinct, slot_of};
use crate::buffers::{buffer_entries, key_map, planned_keys, slot_for, KeyModel};
use crate::builder::{scaled_part, unscaled_part, ModuleSlot};
use crate::float_bits::FloatBits;
use crate::buffers::present_prefix;
use crate::graph::{has_port, lemma_edges_anchored, EdgeModel, ModuleGraph};
use crate::graph::port_position;
use crate::keys::{lemma_key_map_keys, lemma_output_keys_cover};
use crate::modules::PortDescriptor;
use crate::planner::graph_names;
use crate::graph_index::{edge_buffer, edge_resolves, resolved_input};
use crate::instance_id::{raw_after, InstanceId};
use crate::modules::{ModuleDescriptor, PortConnectivity, ValueModel};
use crate::parameter_map::{differs_from, ParameterMap};
use crate::planner::{execution_order, inputs_connectivity, outputs_connectivity, survives, NodeState, PlannerState};

verus! {

/// The descriptor of the `i`-th node in execution order.
pub open spec fn desc_at(g: ModuleGraph, i: int) -> ModuleDescriptor {
    g.node_spec(execution_order(g)[i]).module_descriptor
}

/// The `i`-th node in execution order gets a fresh module: it is new, or its
/// module type or shape changed.
pub open spec fn installs_at(g: ModuleGraph, prev: PlannerState, i: int) -> bool {
    !survives(prev, execution_order(g)[i], desc_at(g, i))
}

/// How many of the first `i` nodes in execution order get a fresh module.
pub open spec fn fresh_before_node(g: ModuleGraph, prev: PlannerState, i: int) -> nat
    decreases i,
{
    if i <= 0 {
        0
    } else {
        fresh_before_node(g, prev, i - 1) + if installs_at(g, prev, i - 1) { 1nat } else { 0nat }
    }
}

/// The instance of the `i`-th node: drawn afresh, in execution order, from a
/// source whose next raw value was `first`, or kept from the previous build.
pub open spec fn instance_at(g: ModuleGraph, prev: PlannerState, first: u64, i: int) -> InstanceId {
    if installs_at(g, prev, i) {
        InstanceId::from_raw_spec(raw_after(first, fresh_before_node(g, prev, i)))
    } else {
        prev.state_of(execution_order(g)[i]).instance_id
    }
}

/// The instances of all nodes, in execution order.
pub open spec fn instances(g: ModuleGraph, prev: PlannerState, first: u64) -> Seq<InstanceId> {
    Seq::new(execution_order(g).len(), |i: int| instance_at(g, prev, first, i))
}

/// The first `n` identifiers of `s`, each once, in order of first occurrence.
pub open spec fn dedup_ids(s: Seq<InstanceId>, n: int) -> Seq<InstanceId>
    decreases n,
{
    if n <= 0 {
        Seq::empty()
    } else if dedup_ids(s, n - 1).contains(s[n - 1]) {
        dedup_ids(s, n - 1)
    } else {
        dedup_ids(s, n - 1).push(s[n - 1])
    }
}

/// The distinct instances of the graph, in execution order.
pub open spec fn instance_set(g: ModuleGraph, prev: PlannerState, first: u64) -> Seq<InstanceId> {
    dedup_ids(instances(g, prev, first), execution_order(g).len() as int)
}

/// The module pool slot of the `i`-th node.
pub open spec fn pool_at(g: ModuleGraph, prev: PlannerState, first: u64, i: int) -> usize {
    slot_of(prev.module_alloc.diff_slot_map(instance_set(g, prev, first)), instance_at(g, prev, first, i))
}

/// The cable buffer map of the build.
pub open spec fn buffers_of(g: ModuleGraph, prev: PlannerState) -> Seq<(KeyModel, usize)> {
    key_map(
        buffer_entries(prev.buffer_alloc.output_buf@),
        prev.buffer_alloc.freelist@,
        prev.buffer_alloc.next_hwm as int,
        planned_keys(g, execution_order(g)),
    )
}

/// Every edge's source port has a buffer in `ob`.
pub open spec fn edges_resolve(g: ModuleGraph, ob: Seq<(KeyModel, usize)>) -> bool {
    forall|k: int| 0 <= k < g.edge_models().len() ==> edge_resolves(g, ob, #[trigger] g.edge_models()[k])
}

/// For each edge, its input port with the buffer and scale that feed it.
pub open spec fn input_map(g: ModuleGraph, ob: Seq<(KeyModel, usize)>) -> Seq<
    ((Seq<char>, Seq<char>, u32), (usize, FloatBits)),
> {
    Seq::new(
        g.edge_models().len(),
        |k: int|
            {
                let e = g.edge_models()[k];
                ((e.to, e.input_name, e.input_index), (edge_buffer(g, ob, e), e.scale))
            },
    )
}

/// The `(buffer, scale)` feeding each input port of node `id`.
pub open spec fn resolved_inputs(g: ModuleGraph, ob: Seq<(KeyModel, usize)>, id: Seq<char>) -> Seq<(usize, FloatBits)> {
    let desc = g.node_spec(id).module_descriptor;
    Seq::new(
        desc.inputs@.len(),
        |p: int| resolved_input(input_map(g, ob), (id, desc.inputs@[p].name@, desc.inputs@[p].index)),
    )
}

/// The buffer of each output port of node `id`.
pub open spec fn output_buffers_of(g: ModuleGraph, ob: Seq<(KeyModel, usize)>, id: Seq<char>) -> Seq<usize> {
    Seq::new(g.node_spec(id).module_descriptor.outputs@.len(), |p: int| slot_for(ob, (id, p as usize)))
}

/// The connectivity of node `id` computed from the graph's edges.
pub open spec fn fresh_connectivity(g: ModuleGraph, id: Seq<char>) -> (Seq<bool>, Seq<bool>) {
    let desc = g.node_spec(id).module_descriptor;
    (inputs_connectivity(g.edge_models(), id, desc), outputs_connectivity(g.edge_models(), id, desc))
}

/// The content of a connectivity record.
pub open spec fn conn_model(c: PortConnectivity) -> (Seq<bool>, Seq<bool>) {
    (c.inputs@, c.outputs@)
}

/// The parameters of the `i`-th node whose value changed since the previous
/// build.
pub open spec fn param_diff_at(g: ModuleGraph, prev: PlannerState, i: int) -> Seq<(Seq<char>, ValueModel)> {
    let id = execution_order(g)[i];
    g.node_spec(id).parameter_map@.filter(differs_from(prev.state_of(id).parameter_map@))
}

/// The connectivity of the surviving `i`-th node changed.
pub open spec fn conn_changed_at(g: ModuleGraph, prev: PlannerState, i: int) -> bool {
    let id = execution_order(g)[i];
    fresh_connectivity(g, id) != conn_model(prev.state_of(id).connectivity)
}

/// The connectivity the `i`-th node has after the build: computed afresh for
/// a fresh module or a changed one, kept otherwise.
pub open spec fn conn_after(g: ModuleGraph, prev: PlannerState, i: int) -> (Seq<bool>, Seq<bool>) {
    let id = execution_order(g)[i];
    if installs_at(g, prev, i) || conn_changed_at(g, prev, i) {
        fresh_connectivity(g, id)
    } else {
        conn_model(prev.state_of(id).connectivity)
    }
}

/// `s` is the module slot of the `i`-th node.
pub open spec fn slot_at(s: ModuleSlot, g: ModuleGraph, prev: PlannerState, first: u64, i: int) -> bool {
    let id = execution_order(g)[i];
    let ob = buffers_of(g, prev);
    let r = resolved_inputs(g, ob, id);
    &&& s.pool_index == pool_at(g, prev, first, i)
    &&& s.unscaled_inputs@ == unscaled_part(r, r.len() as int)
    &&& s.scaled_inputs@ == scaled_part(r, r.len() as int)
    &&& s.output_buffers@ == output_buffers_of(g, ob, id)
}

/// `st` is the state recorded for the `i`-th node.
pub open spec fn state_at(st: NodeState, g: ModuleGraph, prev: PlannerState, first: u64, i: int) -> bool {
    let id = execution_order(g)[i];
    &&& st.module_name == desc_at(g, i).module_name
    &&& st.instance_id == instance_at(g, prev, first, i)
    &&& st.parameter_map@ == g.node_spec(id).parameter_map@
    &&& st.shape == desc_at(g, i).shape
    &&& conn_model(st.connectivity) == conn_after(g, prev, i)
}

/// The fresh modules among the first `n` nodes: pool slot, instance and
/// the connectivity to give the module.
pub open spec fn install_list(g: ModuleGraph, prev: PlannerState, first: u64, n: int) -> Seq<
    (usize, InstanceId, (Seq<bool>, Seq<bool>)),
>
    decreases n,
{
    if n <= 0 {
        Seq::empty()
    } else if installs_at(g, prev, n - 1) {
        install_list(g, prev, first, n - 1).push(
            (pool_at(g, prev, first, n - 1), instance_at(g, prev, first, n - 1), conn_after(g, prev, n - 1)),
        )
    } else {
        install_list(g, prev, first, n - 1)
    }
}

/// The parameter changes of surviving modules among the first `n` nodes.
pub open spec fn param_update_list(g: ModuleGraph, prev: PlannerState, first: u64, n: int) -> Seq<
    (usize, Seq<(Seq<char>, ValueModel)>),
>
    decreases n,
{
    if n <= 0 {
        Seq::empty()
    } else if !installs_at(g, prev, n - 1) && param_diff_at(g, prev, n - 1).len() > 0 {
        param_update_list(g, prev, first, n - 1).push((pool_at(g, prev, first, n - 1), param_diff_at(g, prev, n - 1)))
    } else {
        param_update_list(g, prev, first, n - 1)
    }
}

/// The connectivity changes of surviving modules among the first `n` nodes.
pub open spec fn conn_update_list(g: ModuleGraph, prev: PlannerState, first: u64, n: int) -> Seq<
    (usize, (Seq<bool>, Seq<bool>)),
>
    decreases n,
{
    if n <= 0 {
        Seq::empty()
    } else if !installs_at(g, prev, n - 1) && conn_changed_at(g, prev, n - 1) {
        conn_update_list(g, prev, first, n - 1).push((pool_at(g, prev, first, n - 1), conn_after(g, prev, n - 1)))
    } else {
        conn_update_list(g, prev, first, n - 1)
    }
}

/// In a graph planned in an order over all its nodes, every edge's source
/// port has a buffer.
pub proof fn lemma_edges_resolve(g: ModuleGraph, prev: PlannerState)
    requires
        g.wf(),
        execution_order(g).to_set() == graph_names(g).to_set(),
        present_prefix(g, execution_order(g)) == execution_order(g).len(),
    ensures
        edges_resolve(g, buffers_of(g, prev)),
{
    lemma_edges_anchored(g);
    assert forall|k: int| 0 <= k < g.edge_models().len() implies edge_resolves(
        g,
        buffers_of(g, prev),
        #[trigger] g.edge_models()[k],
    ) by {
        lemma_edge_resolves(g, prev, g.edge_models()[k]);
    }
}

/// An edge from an existing output port has a buffer, when the graph is
/// planned in an order over all its nodes.
proof fn lemma_edge_resolves(g: ModuleGraph, prev: PlannerState, e: EdgeModel)
    requires
        g.has_node(e.from),
        has_port(g.node_spec(e.from).module_descriptor.outputs@, e.output_name, e.output_index),
        execution_order(g).to_set() == graph_names(g).to_set(),
        present_prefix(g, execution_order(g)) == execution_order(g).len(),
    ensures
        edge_resolves(g, buffers_of(g, prev), e),
{
    let ord = execution_order(g);
    let n = ord.len() as int;
    let keys = planned_keys(g, ord);
    let outs = g.node_spec(e.from).module_descriptor.outputs@;
    let i = g.node_index(e.from);
    assert(graph_names(g)[i] == e.from);
    assert(graph_names(g).to_set().contains(e.from));
    assert(ord.to_set().contains(e.from));
    let t = choose|t: int| 0 <= t < ord.len() && ord[t] == e.from;
    let w = choose|w: int| 0 <= w < outs.len() && outs[w].name@ == e.output_name && outs[w].index == e.output_index;
    lemma_first_port(outs, e.output_name, e.output_index, w);
    let pp = port_position(outs, e.output_name, e.output_index);
    assert(0 <= pp < outs.len());
    lemma_output_keys_cover(g, ord, n);
    assert(keys.contains((ord[t], pp as usize)));
    lemma_key_map_keys(
        buffer_entries(prev.buffer_alloc.output_buf@),
        prev.buffer_alloc.freelist@,
        prev.buffer_alloc.next_hwm as int,
        keys,
    );
}

/// A port list that holds `name/index` at `w` holds it at a first position.
proof fn lemma_first_port(ports: Seq<PortDescriptor>, name: Seq<char>, index: u32, w: int)
    requires
        0 <= w < ports.len(),
        ports[w].name@ == name && ports[w].index == index,
    ensures
        exists|p: int|
            0 <= p < ports.len() && ports[p].name@ == name && ports[p].index == index && forall|q: int|
                0 <= q < p ==> !(ports[q].name@ == name && ports[q].index == index),
    decreases w,
{
    if exists|q: int| 0 <= q < w && ports[q].name@ == name && ports[q].index == index {
        let q = choose|q: int| 0 <= q < w && ports[q].name@ == name && ports[q].index == index;
        lemma_first_port(ports, name, index, q);
    } else {
        assert(forall|q: int| 0 <= q < w ==> !(ports[q].name@ == name && ports[q].index == index));
    }
}

} // verus!
