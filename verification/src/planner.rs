//! The pure decision phase of plan building: which nodes are new, which
//! survive, in what order they run and which buffers they use.
use vstd::prelude::*;

use crate::allocation::ModuleAllocState;
use crate::buffers::{
    allocate_buffers, buffer_entries, dropped_slots, fresh_slots, key_map, keys_distinct, keys_exhaust,
    keys_fresh_before, planned_keys, present_prefix, BufferAllocState, BufferAllocation,
};
use crate::seq_util::{freelist_after, hwm_after};
use crate::graph::{EdgeModel, ModuleGraph, NodeId};
use crate::graph_index::{input_connected, output_connected, GraphIndex};
use crate::instance_id::InstanceId;
use crate::modules::{str_equal, ModuleDescriptor, ModuleShape, PortConnectivity};
use crate::order::{id_names, ids_sorted, lemma_names_sorted_unique, names_sorted, sort_node_ids, text_lt};
use crate::parameter_map::{differs_from, ParameterMap};
use crate::text::{debug_str, debug_str_text};

verus! {

/// Errors that can occur during the decision phase of plan building.
#[derive(Debug)]
pub enum PlanError {
    /// The graph contains no sink node.
    NoSink,
    /// The graph contains more than one sink node.
    MultipleSinks,
    /// The number of output ports would exceed the buffer pool capacity.
    BufferPoolExhausted,
    /// The number of modules would exceed the module pool capacity.
    ModulePoolExhausted,
    /// An internal consistency invariant was violated.
    Internal(String),
}

/// The text `Debug` writes for node id `id`: `NodeId("..")`.
pub open spec fn node_id_debug(id: Seq<char>) -> Seq<char> {
    "NodeId("@ + debug_str_text(id) + ")"@
}

/// The message of an internal error for node `id` missing from the graph.
pub open spec fn missing_node_text(id: Seq<char>) -> Seq<char> {
    "node "@ + node_id_debug(id) + " missing from graph"@
}

/// Writes `id` as `Debug` does: `NodeId("..")`.
pub fn node_id_debug_text(id: &NodeId) -> (r: String)
    ensures
        r@ == node_id_debug(id@),
{
    let mut r = String::from_str("NodeId(");
    let q = debug_str(id.as_str());
    r.append(q.as_str());
    r.append(")");
    r
}

/// The message of an internal error for node `id` missing from the graph.
pub fn missing_node_message(id: &NodeId) -> (r: String)
    ensures
        r@ == missing_node_text(id@),
{
    let mut r = String::from_str("node ");
    let d = node_id_debug_text(id);
    r.append(d.as_str());
    r.append(" missing from graph");
    r
}

/// The text of a planning error.
pub open spec fn plan_error_text(e: PlanError) -> Seq<char> {
    match e {
        PlanError::NoSink => "patch graph has no sink node"@,
        PlanError::MultipleSinks => "patch graph has more than one sink node"@,
        PlanError::BufferPoolExhausted => "buffer pool exhausted: too many output ports"@,
        PlanError::ModulePoolExhausted => "module pool exhausted: too many modules"@,
        PlanError::Internal(msg) => "internal error: "@ + msg@,
    }
}

impl PlanError {
    /// The error's text.
    pub fn message(&self) -> (r: String)
        ensures
            r@ == plan_error_text(*self),
    {
        match self {
            PlanError::NoSink => String::from_str("patch graph has no sink node"),
            PlanError::MultipleSinks => String::from_str("patch graph has more than one sink node"),
            PlanError::BufferPoolExhausted => String::from_str("buffer pool exhausted: too many output ports"),
            PlanError::ModulePoolExhausted => String::from_str("module pool exhausted: too many modules"),
            PlanError::Internal(msg) => {
                let mut s = String::from_str("internal error: ");
                s.append(msg.as_str());
                s
            },
        }
    }
}

/// Per-node identity and parameter state carried across successive builds.
pub struct NodeState {
    /// The module type name.
    pub module_name: &'static str,
    /// Stable identity assigned when this node first appeared.
    pub instance_id: InstanceId,
    /// The parameter map applied during the last build.
    pub parameter_map: ParameterMap,
    /// The shape the module instance was created with; a change of shape
    /// re-creates the instance.
    pub shape: ModuleShape,
    /// The port connectivity computed during the last build.
    pub connectivity: PortConnectivity,
}

/// Planning state threaded across successive plan builds: node identity,
/// buffer allocation and module slot allocation.
pub struct PlannerState {
    /// Each node's last-known identity and parameters.
    pub nodes: Vec<(NodeId, NodeState)>,
    /// Stable buffer index allocation carried across builds.
    pub buffer_alloc: BufferAllocState,
    /// Stable module slot allocation carried across builds.
    pub module_alloc: ModuleAllocState,
}

impl PlannerState {
    /// An empty state for the first build: every node will be treated as new.
    pub fn empty() -> (r: PlannerState)
        ensures
            r.nodes@.len() == 0,
            r.buffer_alloc.output_buf@.len() == 0,
            r.buffer_alloc.freelist@.len() == 0,
            r.buffer_alloc.next_hwm == 1,
            r.module_alloc.pool_map@.len() == 0,
            r.module_alloc.freelist@.len() == 0,
            r.module_alloc.next_hwm == 0,
            r.wf(),
    {
        let r = PlannerState { nodes: Vec::new(), buffer_alloc: BufferAllocState::new(), module_alloc: ModuleAllocState::new() };
        proof {
            assert(buffer_entries(r.buffer_alloc.output_buf@).len() == 0);
        }
        r
    }

    /// Node ids, buffer keys and module identifiers each occur once.
    pub open spec fn wf(&self) -> bool {
        &&& forall|i: int, j: int|
            0 <= i < self.nodes@.len() && 0 <= j < self.nodes@.len() && i != j ==> self.nodes@[i].0@ != self.nodes@[j].0@
        &&& keys_distinct(buffer_entries(self.buffer_alloc.output_buf@))
        &&& self.module_alloc.wf()
    }

    /// The state records node `id`.
    pub open spec fn has_state(&self, id: Seq<char>) -> bool {
        exists|i: int| 0 <= i < self.nodes@.len() && self.nodes@[i].0@ == id
    }

    /// The recorded state of node `id` (meaningful when `has_state`).
    pub open spec fn state_of(&self, id: Seq<char>) -> NodeState {
        self.nodes@[choose|i: int| 0 <= i < self.nodes@.len() && self.nodes@[i].0@ == id].1
    }

    /// Finds the recorded state of `id`.
    pub fn find_state(&self, id: &NodeId) -> (r: Option<&NodeState>)
        requires
            self.wf(),
        ensures
            r is Some <==> self.has_state(id@),
            r matches Some(s) ==> *s == self.state_of(id@),
    {
        let mut i: usize = 0;
        while i < self.nodes.len()
            invariant
                i <= self.nodes@.len(),
                self.wf(),
                forall|k: int| 0 <= k < i ==> self.nodes@[k].0@ != id@,
            decreases self.nodes@.len() - i,
        {
            if self.nodes[i].0.same(id) {
                proof {
                    let c = choose|k: int| 0 <= k < self.nodes@.len() && self.nodes@[k].0@ == id@;
                    assert(c == i);
                }
                return Some(&self.nodes[i].1);
            }
            i = i + 1;
        }
        None
    }

    /// The [`InstanceId`] recorded for `node` in the last build, if any.
    pub fn instance_id(&self, node: &NodeId) -> (r: Option<InstanceId>)
        requires
            self.wf(),
        ensures
            r is Some <==> self.has_state(node@),
            r matches Some(id) ==> id == self.state_of(node@).instance_id,
    {
        match self.find_state(node) {
            Some(s) => Some(s.instance_id),
            None => None,
        }
    }
}

/// Per-node decision of the decision phase.
pub enum NodeDecision {
    /// The node is new, or its module type or shape changed: a fresh module
    /// must be created.
    Install { module_name: &'static str, shape: ModuleShape, params: ParameterMap },
    /// The node survives; its module stays in the pool. A non-empty
    /// `param_diff` or `connectivity_changed` must be applied on adoption.
    Update { instance_id: InstanceId, param_diff: ParameterMap, connectivity_changed: bool },
}

/// Connectivity of the inputs of `desc` on `node` over `edges`.
pub open spec fn inputs_connectivity(edges: Seq<EdgeModel>, node: Seq<char>, desc: ModuleDescriptor) -> Seq<bool> {
    Seq::new(desc.inputs@.len(), |i: int| input_connected(edges, node, desc.inputs@[i]))
}

/// Connectivity of the outputs of `desc` on `node` over `edges`.
pub open spec fn outputs_connectivity(edges: Seq<EdgeModel>, node: Seq<char>, desc: ModuleDescriptor) -> Seq<bool> {
    Seq::new(desc.outputs@.len(), |i: int| output_connected(edges, node, desc.outputs@[i]))
}

/// Node `id` with descriptor `desc` survives from `prev`: same module type
/// and same shape as recorded.
pub open spec fn survives(prev: PlannerState, id: Seq<char>, desc: ModuleDescriptor) -> bool {
    &&& prev.has_state(id)
    &&& prev.state_of(id).module_name@ == desc.module_name@
    &&& prev.state_of(id).shape == desc.shape
}

/// `d` is the decision for node `id` of `g` against `prev`, with `edges` the
/// indexed edges.
pub open spec fn decision_for(d: NodeDecision, g: ModuleGraph, edges: Seq<EdgeModel>, prev: PlannerState, id: Seq<char>) -> bool {
    let node = g.node_spec(id);
    let desc = node.module_descriptor;
    if survives(prev, id, desc) {
        let old = prev.state_of(id);
        d matches NodeDecision::Update { instance_id, param_diff, connectivity_changed } && instance_id
            == old.instance_id && param_diff@ == node.parameter_map@.filter(differs_from(old.parameter_map@))
            && connectivity_changed == !(inputs_connectivity(edges, id, desc) == old.connectivity.inputs@
            && outputs_connectivity(edges, id, desc) == old.connectivity.outputs@)
    } else {
        d matches NodeDecision::Install { module_name, shape, params } && module_name == desc.module_name && shape
            == desc.shape && params@ == node.parameter_map@
    }
}

/// `ds` holds, for each node of `order` in turn, its id and its decision
/// against `prev`.
pub open spec fn classified(
    ds: Seq<(NodeId, NodeDecision)>,
    g: ModuleGraph,
    edges: Seq<EdgeModel>,
    prev: PlannerState,
    order: Seq<NodeId>,
) -> bool {
    &&& ds.len() == order.len()
    &&& forall|i: int|
        0 <= i < ds.len() ==> (#[trigger] ds[i]).0@ == order[i]@ && decision_for(ds[i].1, g, edges, prev, order[i]@)
}

/// A module is only kept when nothing about how it was built changed: a
/// node is updated in place only when `prev` records it with the same
/// module type and the same shape (channels and length) as its descriptor
/// now declares, and it then keeps its recorded instance; a node that
/// `prev` does not record, or whose module type, channel count or length
/// changed, is installed afresh with its descriptor's type and shape; and
/// a recorded node whose type and shape are unchanged is always updated in
/// place, keeping its instance.
pub proof fn lemma_update_only_when_unchanged(
    ds: Seq<(NodeId, NodeDecision)>,
    g: ModuleGraph,
    edges: Seq<EdgeModel>,
    prev: PlannerState,
    order: Seq<NodeId>,
)
    requires
        classified(ds, g, edges, prev, order),
    ensures
        forall|i: int|
            0 <= i < ds.len() ==> {
                let id = order[i]@;
                let desc = g.node_spec(id).module_descriptor;
                let old = prev.state_of(id);
                &&& (#[trigger] ds[i]).1 matches NodeDecision::Update { instance_id, .. } ==> {
                    &&& prev.has_state(id)
                    &&& old.module_name@ == desc.module_name@
                    &&& old.shape.channels == desc.shape.channels
                    &&& old.shape.length == desc.shape.length
                    &&& instance_id == old.instance_id
                }
                &&& (!prev.has_state(id) || old.module_name@ != desc.module_name@ || old.shape.channels
                    != desc.shape.channels || old.shape.length != desc.shape.length) ==> (ds[i].1 matches NodeDecision::Install {
                    module_name,
                    shape,
                    ..
                } && module_name == desc.module_name && shape.channels == desc.shape.channels && shape.length
                    == desc.shape.length)
                &&& (prev.has_state(id) && old.module_name@ == desc.module_name@ && old.shape.channels
                    == desc.shape.channels && old.shape.length == desc.shape.length) ==> (ds[i].1 matches NodeDecision::Update {
                    instance_id,
                    ..
                } && instance_id == old.instance_id)
            },
{
    assert forall|i: int| 0 <= i < ds.len() implies {
        let id = order[i]@;
        let desc = g.node_spec(id).module_descriptor;
        let old = prev.state_of(id);
        &&& (#[trigger] ds[i]).1 matches NodeDecision::Update { instance_id, .. } ==> {
            &&& prev.has_state(id)
            &&& old.module_name@ == desc.module_name@
            &&& old.shape.channels == desc.shape.channels
            &&& old.shape.length == desc.shape.length
            &&& instance_id == old.instance_id
        }
        &&& (!prev.has_state(id) || old.module_name@ != desc.module_name@ || old.shape.channels != desc.shape.channels
            || old.shape.length != desc.shape.length) ==> (ds[i].1 matches NodeDecision::Install {
            module_name,
            shape,
            ..
        } && module_name == desc.module_name && shape.channels == desc.shape.channels && shape.length
            == desc.shape.length)
        &&& (prev.has_state(id) && old.module_name@ == desc.module_name@ && old.shape.channels == desc.shape.channels
            && old.shape.length == desc.shape.length) ==> (ds[i].1 matches NodeDecision::Update { instance_id, .. }
            && instance_id == old.instance_id)
    } by {
        assert(decision_for(ds[i].1, g, edges, prev, order[i]@));
    }
}

/// Classify every node of `order` as [`NodeDecision::Install`] or
/// [`NodeDecision::Update`] by diffing against `prev_state`:
///
/// - a node absent from `prev_state`, or whose module name or shape changed,
///   is installed afresh;
/// - otherwise it is updated, with the parameters whose value changed and
///   whether its port connectivity changed.
///
/// Returns [`PlanError::Internal`] if a node of `order` is missing from the
/// graph.
pub fn classify_nodes(index: &GraphIndex<'_>, order: &Vec<NodeId>, prev_state: &PlannerState) -> (r: Result<
    Vec<(NodeId, NodeDecision)>,
    PlanError,
>)
    requires
        prev_state.wf(),
    ensures
        r is Ok <==> forall|i: int| 0 <= i < order@.len() ==> index.graph_spec().has_node(#[trigger] order@[i]@),
        r matches Err(e) ==> e is Internal,
        r matches Err(PlanError::Internal(msg)) ==> exists|i: int|
            0 <= i < order@.len() && !index.graph_spec().has_node(#[trigger] order@[i]@) && (forall|k: int|
                0 <= k < i ==> index.graph_spec().has_node(#[trigger] order@[k]@)) && msg@ == missing_node_text(
                order@[i]@,
            ),
        r matches Ok(ds) ==> classified(ds@, index.graph_spec(), index.edge_models(), *prev_state, order@),
{
    let mut decisions: Vec<(NodeId, NodeDecision)> = Vec::new();
    let mut i: usize = 0;
    while i < order.len()
        invariant
            i <= order@.len(),
            prev_state.wf(),
            decisions@.len() == i,
            forall|k: int| 0 <= k < i ==> index.graph_spec().has_node(#[trigger] order@[k]@),
            forall|k: int|
                0 <= k < i ==> (#[trigger] decisions@[k]).0@ == order@[k]@ && decision_for(
                    decisions@[k].1,
                    index.graph_spec(),
                    index.edge_models(),
                    *prev_state,
                    order@[k]@,
                ),
        decreases order@.len() - i,
    {
        let id = &order[i];
        let node = match index.get_node(id) {
            Some(n) => n,
            None => {
                return Err(PlanError::Internal(missing_node_message(id)));
            },
        };
        let desc = &node.module_descriptor;
        let decision = match prev_state.find_state(id) {
            Some(prev) if str_equal(prev.module_name, desc.module_name) && prev.shape == desc.shape => {
                let param_diff = node.parameter_map.diff_from(&prev.parameter_map);
                let c = index.compute_connectivity(desc, id);
                proof {
                    assert(c.inputs@ =~= inputs_connectivity(index.edge_models(), id@, *desc));
                    assert(c.outputs@ =~= outputs_connectivity(index.edge_models(), id@, *desc));
                }
                let connectivity_changed = !c.same_as(&prev.connectivity);
                NodeDecision::Update { instance_id: prev.instance_id, param_diff, connectivity_changed }
            },
            _ => NodeDecision::Install {
                module_name: desc.module_name,
                shape: desc.shape,
                params: node.parameter_map.duplicate(),
            },
        };
        decisions.push((id.duplicate(), decision));
        i = i + 1;
    }
    Ok(decisions)
}

/// Whether `name` names a sink node of `g`.
pub open spec fn names_sink(g: ModuleGraph) -> spec_fn(Seq<char>) -> bool {
    |name: Seq<char>| g.has_node(name) && g.node_spec(name).module_descriptor.is_sink
}

/// The sink nodes among `names`, in order.
pub open spec fn sinks_among(g: ModuleGraph, names: Seq<Seq<char>>) -> Seq<Seq<char>> {
    names.filter(names_sink(g))
}

/// Finds the single sink node among `node_ids`.
///
/// Returns [`PlanError::NoSink`] when none of them is a sink of `graph` and
/// [`PlanError::MultipleSinks`] when more than one is.
pub fn find_sink(graph: &ModuleGraph, node_ids: &Vec<NodeId>) -> (r: Result<NodeId, PlanError>)
    ensures
        sinks_among(*graph, id_names(node_ids@)).len() == 0 <==> r matches Err(PlanError::NoSink),
        sinks_among(*graph, id_names(node_ids@)).len() == 1 <==> r is Ok,
        sinks_among(*graph, id_names(node_ids@)).len() > 1 <==> r matches Err(PlanError::MultipleSinks),
        r matches Ok(id) ==> id@ == sinks_among(*graph, id_names(node_ids@))[0],
{
    let ghost names = id_names(node_ids@);
    let ghost g = *graph;
    let mut found: Option<NodeId> = None;
    let mut count: usize = 0;
    let mut i: usize = 0;
    while i < node_ids.len()
        invariant
            i <= node_ids@.len(),
            names == id_names(node_ids@),
            g == *graph,
            count == sinks_among(g, names.take(i as int)).len(),
            found is Some <==> count > 0,
            found matches Some(f) ==> f@ == sinks_among(g, names.take(i as int))[0],
        decreases node_ids@.len() - i,
    {
        let is_sink = match graph.get_node(&node_ids[i]) {
            Some(n) => n.module_descriptor.is_sink,
            None => false,
        };
        proof {
            assert(names.take(i as int + 1) =~= names.take(i as int).push(names[i as int]));
            names.take(i as int).lemma_filter_push(names[i as int], names_sink(g));
            assert(names[i as int] == node_ids@[i as int]@);
            assert(is_sink == names_sink(g)(names[i as int]));
            names.take(i as int).lemma_filter_len(names_sink(g));
        }
        if is_sink {
            if found.is_none() {
                found = Some(node_ids[i].duplicate());
            }
            count = count + 1;
        }
        i = i + 1;
    }
    proof {
        assert(names.take(node_ids@.len() as int) =~= names);
    }
    if count == 0 {
        Err(PlanError::NoSink)
    } else if count == 1 {
        match found {
            Some(f) => Ok(f),
            None => Err(PlanError::NoSink),
        }
    } else {
        Err(PlanError::MultipleSinks)
    }
}

/// Sorts `node_ids` into execution order (by name) and finds the position
/// of `sink` in it.
///
/// Returns [`PlanError::Internal`] when `sink` is not among `node_ids`.
pub fn compute_order(node_ids: &Vec<NodeId>, sink: &NodeId) -> (r: Result<(Vec<NodeId>, usize), PlanError>)
    requires
        id_names(node_ids@).no_duplicates(),
    ensures
        r is Ok <==> id_names(node_ids@).contains(sink@),
        r matches Err(e) ==> e is Internal,
        r matches Ok((order, idx)) ==> {
            &&& order@.len() == node_ids@.len()
            &&& ids_sorted(order@)
            &&& id_names(order@).to_set() == id_names(node_ids@).to_set()
            &&& idx < order@.len()
            &&& order@[idx as int]@ == sink@
        },
{
    let order = sort_node_ids(node_ids);
    let mut i: usize = 0;
    while i < order.len()
        invariant
            i <= order@.len(),
            order@.len() == node_ids@.len(),
            ids_sorted(order@),
            id_names(order@).to_set() == id_names(node_ids@).to_set(),
            forall|k: int| 0 <= k < i ==> order@[k]@ != sink@,
        decreases order@.len() - i,
    {
        if order[i].same(sink) {
            proof {
                assert(id_names(order@)[i as int] == sink@);
                assert(id_names(order@).to_set().contains(sink@));
                assert(id_names(node_ids@).to_set().contains(sink@));
                assert(id_names(node_ids@).contains(sink@));
            }
            return Ok((order, i));
        }
        i = i + 1;
    }
    proof {
        if id_names(node_ids@).contains(sink@) {
            assert(id_names(node_ids@).to_set().contains(sink@));
            assert(id_names(order@).to_set().contains(sink@));
            let w = choose|w: int| 0 <= w < id_names(order@).len() && id_names(order@)[w] == sink@;
            assert(order@[w]@ == sink@);
        }
    }
    Err(PlanError::Internal(String::from_str("sink node missing from order")))
}

/// The names of `g`'s nodes, in insertion order.
pub open spec fn graph_names(g: ModuleGraph) -> Seq<Seq<char>> {
    Seq::new(g.node_entries().len(), |i: int| g.node_entries()[i].0@)
}

/// The names of `g`'s nodes in execution order: strictly increasing.
pub open spec fn execution_order(g: ModuleGraph) -> Seq<Seq<char>> {
    choose|s: Seq<Seq<char>>| names_sorted(s) && s.to_set() == graph_names(g).to_set()
}

/// Everything the decision phase produces: the graph index, the execution
/// order, the position of the sink in it, the buffer allocation and the
/// per-node decisions.
pub struct PlanDecisions<'a> {
    pub index: GraphIndex<'a>,
    pub order: Vec<NodeId>,
    pub audio_out_index: usize,
    pub buf_alloc: BufferAllocation,
    pub decisions: Vec<(NodeId, NodeDecision)>,
}

/// `d` is the outcome of the decision phase for `g` against `prev`: nodes
/// in execution order, the sink's position, buffers allocated as
/// [`allocate_buffers`] does and each node classified as
/// [`classify_nodes`] does.
pub open spec fn decided(d: PlanDecisions, g: ModuleGraph, prev: PlannerState) -> bool {
    let ord = execution_order(g);
    let keys = planned_keys(g, ord);
    let pe = buffer_entries(prev.buffer_alloc.output_buf@);
    let free = prev.buffer_alloc.freelist@;
    let hwm = prev.buffer_alloc.next_hwm as int;
    &&& d.index.graph_spec() == g
    &&& d.index.edge_models() == g.edge_models()
    &&& names_sorted(ord)
    &&& ord.to_set() == graph_names(g).to_set()
    &&& forall|i: int| 0 <= i < ord.len() ==> g.has_node(#[trigger] ord[i])
    &&& present_prefix(g, ord) == ord.len()
    &&& id_names(d.order@) == ord
    &&& d.audio_out_index < d.order@.len()
    &&& d.order@[d.audio_out_index as int]@ == sinks_among(g, graph_names(g))[0]
    &&& buffer_entries(d.buf_alloc.output_buf@) == key_map(pe, free, hwm, keys)
    &&& d.buf_alloc.to_zero@ == fresh_slots(pe, free, hwm, keys, keys.len() as int) + dropped_slots(pe, keys, pe.len() as int)
    &&& d.buf_alloc.freelist@ == freelist_after(free, keys_fresh_before(pe, keys, keys.len() as int)) + dropped_slots(pe, keys, pe.len() as int)
    &&& d.buf_alloc.next_hwm == hwm_after(free.len() as int, hwm, keys_fresh_before(pe, keys, keys.len() as int))
    &&& d.decisions@.len() == ord.len()
    &&& forall|i: int|
        0 <= i < d.decisions@.len() ==> (#[trigger] d.decisions@[i]).0@ == ord[i] && decision_for(
            d.decisions@[i].1,
            g,
            g.edge_models(),
            prev,
            ord[i],
        )
}

/// The graph's names in sorted order are [`execution_order`].
proof fn lemma_execution_order(g: ModuleGraph, order: Seq<NodeId>)
    requires
        ids_sorted(order),
        id_names(order).to_set() == graph_names(g).to_set(),
    ensures
        id_names(order) == execution_order(g),
        names_sorted(execution_order(g)),
        execution_order(g).to_set() == graph_names(g).to_set(),
{
    assert(names_sorted(id_names(order))) by {
        assert forall|i: int, j: int| 0 <= i < j < id_names(order).len() implies text_lt(id_names(order)[i], id_names(order)[j]) by {
            assert(text_lt(order[i]@, order[j]@));
        }
    }
    let e = execution_order(g);
    lemma_names_sorted_unique(id_names(order), e);
}

/// Index the graph, sort its nodes into execution order, allocate cable
/// buffers and classify every node, against the previous build's state.
///
/// Returns [`PlanError::NoSink`] or [`PlanError::MultipleSinks`] unless the
/// graph has exactly one sink node, and [`PlanError::BufferPoolExhausted`]
/// when a new cable buffer would reach `pool_capacity`.
pub fn make_decisions<'a>(graph: &'a ModuleGraph, prev_state: &PlannerState, pool_capacity: usize) -> (r: Result<
    PlanDecisions<'a>,
    PlanError,
>)
    requires
        prev_state.wf(),
    ensures
        sinks_among(*graph, graph_names(*graph)).len() == 0 ==> r matches Err(PlanError::NoSink),
        sinks_among(*graph, graph_names(*graph)).len() > 1 ==> r matches Err(PlanError::MultipleSinks),
        sinks_among(*graph, graph_names(*graph)).len() == 1 ==> {
            let ord = execution_order(*graph);
            let keys = planned_keys(*graph, ord);
            let pe = buffer_entries(prev_state.buffer_alloc.output_buf@);
            let free = prev_state.buffer_alloc.freelist@;
            let hwm = prev_state.buffer_alloc.next_hwm as int;
            &&& keys_exhaust(pe, free, hwm, keys, pool_capacity) ==> (r matches Err(PlanError::BufferPoolExhausted))
            &&& !keys_exhaust(pe, free, hwm, keys, pool_capacity) ==> r is Ok
        },
        r matches Ok(d) ==> decided(d, *graph, *prev_state),
{
    proof {
        use_type_invariant(graph);
    }
    let index = GraphIndex::build(graph);
    let node_ids = graph.node_ids();
    let ghost g = *graph;
    assert(id_names(node_ids@) =~= graph_names(g));
    let sink = find_sink(graph, &node_ids)?;
    proof {
        let sinks = sinks_among(g, graph_names(g));
        assert(sinks.contains(sinks[0]));
        graph_names(g).lemma_filter_contains_rev(names_sink(g), sinks[0]);
        assert(graph_names(g).no_duplicates()) by {
            assert forall|i: int, j: int| 0 <= i < graph_names(g).len() && 0 <= j < graph_names(g).len() && i != j
                implies graph_names(g)[i] != graph_names(g)[j] by {
                assert(g.node_entries()[i].0@ != g.node_entries()[j].0@);
            }
        }
    }
    let (order, audio_out_index) = match compute_order(&node_ids, &sink) {
        Ok(x) => x,
        Err(e) => {
            return Err(e);
        },
    };
    proof {
        lemma_execution_order(g, order@);
        let ord = id_names(order@);
        assert forall|i: int| 0 <= i < order@.len() implies g.has_node(#[trigger] order@[i]@) by {
            assert(ord[i] == order@[i]@);
            assert(ord.to_set().contains(ord[i]));
            assert(graph_names(g).to_set().contains(ord[i]));
            let w = choose|w: int| 0 <= w < graph_names(g).len() && graph_names(g)[w] == ord[i];
            assert(g.node_entries()[w].0@ == ord[i]);
        }
        assert forall|i: int| 0 <= i < ord.len() implies g.has_node(#[trigger] ord[i]) by {
            assert(ord[i] == order@[i]@);
        }
        assert(present_prefix(g, ord) == ord.len());
    }
    let buf_alloc = allocate_buffers(&index, &order, &prev_state.buffer_alloc, pool_capacity)?;
    let decisions = match classify_nodes(&index, &order, prev_state) {
        Ok(d) => d,
        Err(e) => {
            return Err(e);
        },
    };
    Ok(PlanDecisions { index, order, audio_out_index, buf_alloc, decisions })
}

/// The execution order of `g` is strictly increasing.
pub open spec fn names_sorted_ord(g: ModuleGraph) -> bool {
    names_sorted(execution_order(g))
}

/// A strictly increasing execution order lists each name once.
pub proof fn lemma_ord_distinct(g: ModuleGraph)
    requires
        names_sorted_ord(g),
    ensures
        execution_order(g).no_duplicates(),
{
    let ord = execution_order(g);
    assert forall|i: int, j: int| 0 <= i < ord.len() && 0 <= j < ord.len() && i != j implies ord[i] != ord[j] by {
        crate::order::lemma_text_lt_asym(ord[i], ord[j]);
        crate::order::lemma_text_lt_asym(ord[j], ord[i]);
    }
}

} // verus!
