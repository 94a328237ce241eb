//! Building execution plans: the decisions of the planner turned into the
//! module slots, buffer indices and pool updates that the audio thread
//! adopts.
use vstd::prelude::*;

use crate::allocation::{find_slot, has_id, ids_distinct, slot_of};
use crate::allocation::ModuleAllocState;
use crate::buffers::{buffer_entries, find_buffer, has_key, keys_distinct, BufferAllocState, BufferKey, KeyModel};
use crate::float_bits::{FloatBits, ONE_BITS};
use crate::graph::{ModuleGraph, NodeId};
use crate::graph_index::{GraphIndex, ResolvedGraph};
use crate::instance_id::{lemma_raw_after_step, raw_after, IdSource, InstanceId};
use crate::buffers::{dropped_slots, fresh_slots, keys_exhaust, keys_fresh_before, planned_keys, present_prefix};
use crate::instance_id::contains_id;
use crate::keys::{lemma_key_map_keys, lemma_output_keys_cover, lemma_output_keys_distinct};
use crate::layout::{
    buffers_of, conn_after, conn_changed_at, conn_model, dedup_ids, desc_at, edges_resolve, fresh_before_node,
    lemma_edges_resolve,
    fresh_connectivity, input_map, install_list, installs_at, instance_at, instance_set, instances,
    output_buffers_of, param_diff_at, param_update_list, conn_update_list, pool_at, resolved_inputs, slot_at,
    state_at,
};
use crate::order::{id_names, names_sorted};
use crate::planner::{
    decided, decision_for, execution_order, graph_names, make_decisions, sinks_among, PlanDecisions,
};
use crate::seq_util::{freelist_after, hwm_after};
use crate::modules::{ModuleShape, PortConnectivity};
use crate::parameter_map::ParameterMap;
use crate::planner::{NodeDecision, NodeState, PlanError, PlannerState};

verus! {

/// Errors that can occur when building an execution plan.
#[derive(Debug)]
pub enum BuildError {
    /// The graph contains no audio output (sink) node.
    NoAudioOut,
    /// The graph contains more than one audio output (sink) node.
    MultipleAudioOut,
    /// An internal consistency invariant was violated.
    InternalError(String),
    /// The number of output ports would exceed the buffer pool capacity.
    PoolExhausted,
    /// The number of modules would exceed the module pool capacity.
    ModulePoolExhausted,
    /// Module creation failed (unknown module name or invalid parameters).
    ModuleCreationError(String),
}

/// The text of a build error.
pub open spec fn build_error_text(e: BuildError) -> Seq<char> {
    match e {
        BuildError::NoAudioOut => "patch graph has no AudioOut node"@,
        BuildError::MultipleAudioOut => "patch graph has more than one AudioOut node"@,
        BuildError::InternalError(msg) => "internal builder error: "@ + msg@,
        BuildError::PoolExhausted => "buffer pool exhausted: too many output ports"@,
        BuildError::ModulePoolExhausted => "module pool exhausted: too many modules"@,
        BuildError::ModuleCreationError(msg) => "module creation failed: "@ + msg@,
    }
}

impl BuildError {
    /// The error's text.
    pub fn message(&self) -> (r: String)
        ensures
            r@ == build_error_text(*self),
    {
        match self {
            BuildError::NoAudioOut => String::from_str("patch graph has no AudioOut node"),
            BuildError::MultipleAudioOut => String::from_str("patch graph has more than one AudioOut node"),
            BuildError::InternalError(msg) => {
                let mut s = String::from_str("internal builder error: ");
                s.append(msg.as_str());
                s
            },
            BuildError::PoolExhausted => String::from_str("buffer pool exhausted: too many output ports"),
            BuildError::ModulePoolExhausted => String::from_str("module pool exhausted: too many modules"),
            BuildError::ModuleCreationError(msg) => {
                let mut s = String::from_str("module creation failed: ");
                s.append(msg.as_str());
                s
            },
        }
    }
}

/// The build error that a planning error becomes.
pub open spec fn build_error_of(e: PlanError) -> BuildError {
    match e {
        PlanError::NoSink => BuildError::NoAudioOut,
        PlanError::MultipleSinks => BuildError::MultipleAudioOut,
        PlanError::BufferPoolExhausted => BuildError::PoolExhausted,
        PlanError::ModulePoolExhausted => BuildError::ModulePoolExhausted,
        PlanError::Internal(msg) => BuildError::InternalError(msg),
    }
}

impl From<PlanError> for BuildError {
    fn from(e: PlanError) -> (r: BuildError) {
        match e {
            PlanError::NoSink => BuildError::NoAudioOut,
            PlanError::MultipleSinks => BuildError::MultipleAudioOut,
            PlanError::BufferPoolExhausted => BuildError::PoolExhausted,
            PlanError::ModulePoolExhausted => BuildError::ModulePoolExhausted,
            PlanError::Internal(msg) => BuildError::InternalError(msg),
        }
    }
}

impl vstd::std_specs::convert::FromSpecImpl<PlanError> for BuildError {
    open spec fn obeys_from_spec() -> bool {
        true
    }

    open spec fn from_spec(e: PlanError) -> BuildError {
        build_error_of(e)
    }
}

/// One entry of an execution plan: a module pool slot together with its
/// pre-resolved input and output buffer indices.
pub struct ModuleSlot {
    /// Index into the module pool.
    pub pool_index: usize,
    /// Inputs whose cable scale is exactly `1.0`: `(input position, buffer index)`.
    /// Unconnected ports, which read the permanent-zero slot `0`, are here.
    pub unscaled_inputs: Vec<(usize, usize)>,
    /// Inputs whose cable scale differs from `1.0`:
    /// `(input position, buffer index, scale)`.
    pub scaled_inputs: Vec<(usize, usize, FloatBits)>,
    /// The buffer index of each output port.
    pub output_buffers: Vec<usize>,
}

/// The `(position, buffer)` pairs of the first `n` resolved inputs whose
/// scale is exactly `1.0`.
pub open spec fn unscaled_part(r: Seq<(usize, FloatBits)>, n: int) -> Seq<(usize, usize)>
    decreases n,
{
    if n <= 0 {
        Seq::empty()
    } else if r[n - 1].1.0 == ONE_BITS {
        unscaled_part(r, n - 1).push(((n - 1) as usize, r[n - 1].0))
    } else {
        unscaled_part(r, n - 1)
    }
}

/// The `(position, buffer, scale)` triples of the first `n` resolved inputs
/// whose scale is not `1.0`.
pub open spec fn scaled_part(r: Seq<(usize, FloatBits)>, n: int) -> Seq<(usize, usize, FloatBits)>
    decreases n,
{
    if n <= 0 {
        Seq::empty()
    } else if r[n - 1].1.0 != ONE_BITS {
        scaled_part(r, n - 1).push(((n - 1) as usize, r[n - 1].0, r[n - 1].1))
    } else {
        scaled_part(r, n - 1)
    }
}

/// Partition resolved `(buffer index, scale)` pairs into those with scale
/// exactly `1.0`, as `(position, buffer index)`, and the others, as
/// `(position, buffer index, scale)`, each list in input order.
pub fn partition_inputs(resolved: Vec<(usize, FloatBits)>) -> (r: (Vec<(usize, usize)>, Vec<(usize, usize, FloatBits)>))
    ensures
        r.0@ == unscaled_part(resolved@, resolved@.len() as int),
        r.1@ == scaled_part(resolved@, resolved@.len() as int),
{
    let mut unscaled: Vec<(usize, usize)> = Vec::new();
    let mut scaled: Vec<(usize, usize, FloatBits)> = Vec::new();
    let mut j: usize = 0;
    while j < resolved.len()
        invariant
            j <= resolved@.len(),
            unscaled@ == unscaled_part(resolved@, j as int),
            scaled@ == scaled_part(resolved@, j as int),
        decreases resolved@.len() - j,
    {
        let (buf_idx, scale) = resolved[j];
        if scale.is_one() {
            unscaled.push((j, buf_idx));
        } else {
            scaled.push((j, buf_idx, scale));
        }
        j = j + 1;
    }
    (unscaled, scaled)
}

/// How many of the first `i` decisions install a fresh module.
pub open spec fn installs_before(ds: Seq<(NodeId, NodeDecision)>, i: int) -> nat
    decreases i,
{
    if i <= 0 {
        0
    } else {
        installs_before(ds, i - 1) + if ds[i - 1].1 is Install { 1nat } else { 0nat }
    }
}

/// The instance identifier of node `i`: drawn afresh for an installed node,
/// from a source whose next raw value was `first`; kept for a surviving one.
pub open spec fn node_instance(ds: Seq<(NodeId, NodeDecision)>, first: u64, i: int) -> InstanceId {
    match ds[i].1 {
        NodeDecision::Install { .. } => InstanceId::from_raw_spec(raw_after(first, installs_before(ds, i))),
        NodeDecision::Update { instance_id, .. } => instance_id,
    }
}

/// The instance identifiers of all nodes.
pub open spec fn node_instances(ds: Seq<(NodeId, NodeDecision)>, first: u64) -> Seq<InstanceId> {
    Seq::new(ds.len(), |i: int| node_instance(ds, first, i))
}

/// `create` may answer `res` when asked for the module of the `i`-th node
/// of `g` in execution order, under instance `id`: its descriptor's module
/// name and shape, and its parameters.
pub open spec fn node_creation<F: Fn(&'static str, ModuleShape, &ParameterMap, InstanceId) -> Result<(), String>>(
    create: F,
    g: ModuleGraph,
    i: int,
    id: InstanceId,
    res: Result<(), String>,
) -> bool {
    let desc = desc_at(g, i);
    exists|p: ParameterMap|
        p@ == g.node_spec(execution_order(g)[i]).parameter_map@ && #[trigger] create.ensures(
            (desc.module_name, desc.shape, &p, id),
            res,
        )
}

/// `create` may answer `Ok` for every node among the first `n` in execution
/// order that gets a fresh module.
pub open spec fn nodes_created<F: Fn(&'static str, ModuleShape, &ParameterMap, InstanceId) -> Result<(), String>>(
    create: F,
    g: ModuleGraph,
    prev: PlannerState,
    first: u64,
    n: int,
) -> bool {
    forall|k: int|
        0 <= k < n && installs_at(g, prev, k) ==> #[trigger] node_creation(
            create,
            g,
            k,
            instance_at(g, prev, first, k),
            Ok(()),
        )
}

/// Some node that gets a fresh module, after such nodes whose creation may
/// all succeed, may fail with `msg`.
pub open spec fn node_creation_failed<F: Fn(&'static str, ModuleShape, &ParameterMap, InstanceId) -> Result<(), String>>(
    create: F,
    g: ModuleGraph,
    prev: PlannerState,
    first: u64,
    msg: String,
) -> bool {
    exists|k: int|
        0 <= k < execution_order(g).len() && installs_at(g, prev, k) && nodes_created(create, g, prev, first, k)
            && #[trigger] node_creation(create, g, k, instance_at(g, prev, first, k), Err(msg))
}

/// What was asked of `create` per decision is what was asked per node.
proof fn lemma_asked_per_node<F: Fn(&'static str, ModuleShape, &ParameterMap, InstanceId) -> Result<(), String>>(
    create: F,
    d: PlanDecisions,
    g: ModuleGraph,
    prev: PlannerState,
    first: u64,
)
    requires
        decided(d, g, prev),
    ensures
        forall|n: int|
            0 <= n <= d.decisions@.len() && #[trigger] all_created(create, d.decisions@, first, n) ==> nodes_created(
                create,
                g,
                prev,
                first,
                n,
            ),
        forall|msg: String|
            #[trigger] creation_failed(create, d.decisions@, first, msg) ==> node_creation_failed(
                create,
                g,
                prev,
                first,
                msg,
            ),
{
    let ds = d.decisions@;
    let ord = execution_order(g);
    lemma_instances_match(d, g, prev, first);
    assert forall|k: int, res: Result<(), String>|
        0 <= k < ds.len() && #[trigger] asked(create, ds, first, k, res) implies node_creation(
        create,
        g,
        k,
        instance_at(g, prev, first, k),
        res,
    ) by {
        assert(decision_for(ds[k].1, g, g.edge_models(), prev, ord[k]));
        assert(node_instances(ds, first)[k] == instances(g, prev, first)[k]);
        let p = ds[k].1->params;
        assert(create.ensures((desc_at(g, k).module_name, desc_at(g, k).shape, &p, instance_at(g, prev, first, k)), res));
    }
    assert forall|n: int| 0 <= n <= ds.len() && #[trigger] all_created(create, ds, first, n) implies nodes_created(
        create,
        g,
        prev,
        first,
        n,
    ) by {
        assert forall|k: int| 0 <= k < n && installs_at(g, prev, k) implies #[trigger] node_creation(
            create,
            g,
            k,
            instance_at(g, prev, first, k),
            Ok(()),
        ) by {
            assert(ds[k].1 is Install);
            assert(asked(create, ds, first, k, Ok(())));
        }
    }
    assert forall|msg: String| #[trigger] creation_failed(create, ds, first, msg) implies node_creation_failed(
        create,
        g,
        prev,
        first,
        msg,
    ) by {
        let k = choose|k: int|
            0 <= k < ds.len() && all_created(create, ds, first, k) && #[trigger] asked(create, ds, first, k, Err(msg));
        assert(asked(create, ds, first, k, Err(msg)));
        assert(all_created(create, ds, first, k));
        assert(ds[k].1 is Install);
        assert(node_creation(create, g, k, instance_at(g, prev, first, k), Err(msg)));
    }
}

/// `create` may answer `res` when asked for the module of decision `i` of
/// `ds`, an installation, with its instance drawn from `first` on.
pub open spec fn asked<F: Fn(&'static str, ModuleShape, &ParameterMap, InstanceId) -> Result<(), String>>(
    create: F,
    ds: Seq<(NodeId, NodeDecision)>,
    first: u64,
    i: int,
    res: Result<(), String>,
) -> bool {
    ds[i].1 matches NodeDecision::Install { module_name, shape, params } && create.ensures(
        (module_name, shape, &params, node_instance(ds, first, i)),
        res,
    )
}

/// `create` may answer `Ok` for every installation among the first `n`
/// decisions of `ds`.
pub open spec fn all_created<F: Fn(&'static str, ModuleShape, &ParameterMap, InstanceId) -> Result<(), String>>(
    create: F,
    ds: Seq<(NodeId, NodeDecision)>,
    first: u64,
    n: int,
) -> bool {
    forall|k: int| 0 <= k < n && ds[k].1 is Install ==> #[trigger] asked(create, ds, first, k, Ok(()))
}

/// Some installation of `ds`, after installations that may all succeed, may
/// fail with `msg`.
pub open spec fn creation_failed<F: Fn(&'static str, ModuleShape, &ParameterMap, InstanceId) -> Result<(), String>>(
    create: F,
    ds: Seq<(NodeId, NodeDecision)>,
    first: u64,
    msg: String,
) -> bool {
    exists|k: int| 0 <= k < ds.len() && all_created(create, ds, first, k) && #[trigger] asked(create, ds, first, k, Err(msg))
}

/// Draws an identifier for each installed node and asks `create` to build
/// its module; surviving nodes keep their identifier. Stops at the first
/// creation that fails, with its message.
fn mint_and_create<F>(decisions: &Vec<(NodeId, NodeDecision)>, ids: &mut IdSource, create: &F) -> (r: Result<
    Vec<InstanceId>,
    String,
>) where F: Fn(&'static str, ModuleShape, &ParameterMap, InstanceId) -> Result<(), String>
    requires
        forall|n: &'static str, s: ModuleShape, p: &ParameterMap, i: InstanceId| #[trigger] create.requires((n, s, p, i)),
    ensures
        r matches Ok(v) ==> v@ == node_instances(decisions@, old(ids).next_raw()) && final(ids).next_raw() == raw_after(
            old(ids).next_raw(),
            installs_before(decisions@, decisions@.len() as int),
        ),
        r is Ok ==> all_created(*create, decisions@, old(ids).next_raw(), decisions@.len() as int),
        r matches Err(msg) ==> creation_failed(*create, decisions@, old(ids).next_raw(), msg),
        r is Err ==> exists|k: nat|
            k <= installs_before(decisions@, decisions@.len() as int) && final(ids).next_raw() == #[trigger] raw_after(
                old(ids).next_raw(),
                k,
            ),
{
    let ghost first = ids.next_raw();
    let ghost ds = decisions@;
    let mut out: Vec<InstanceId> = Vec::new();
    let mut failure: Option<String> = None;
    let mut i: usize = 0;
    proof {
        lemma_raw_after_step(first, 0);
    }
    while i < decisions.len() && failure.is_none()
        invariant
            i <= ds.len(),
            ds == decisions@,
            forall|n: &'static str, s: ModuleShape, p: &ParameterMap, k: InstanceId| #[trigger] create.requires((n, s, p, k)),
            failure is None ==> out@.len() == i,
            failure is None ==> forall|k: int| 0 <= k < i ==> out@[k] == node_instance(ds, first, k),
            failure is None ==> ids.next_raw() == raw_after(first, installs_before(ds, i as int)),
            failure is Some ==> exists|kk: nat|
                kk <= installs_before(ds, ds.len() as int) && ids.next_raw() == #[trigger] raw_after(first, kk),
            failure is None ==> all_created(*create, ds, first, i as int),
            failure matches Some(msg) ==> creation_failed(*create, ds, first, msg),
        decreases ds.len() - i,
    {
        proof {
            lemma_installs_monotone(ds, i as int + 1, ds.len() as int);
            lemma_installs_monotone(ds, i as int, ds.len() as int);
        }
        match &decisions[i].1 {
            NodeDecision::Install { module_name, shape, params } => {
                let id = InstanceId::next(ids);
                proof {
                    lemma_raw_after_step(first, installs_before(ds, i as int));
                    let k = installs_before(ds, i as int + 1);
                    assert(k == installs_before(ds, i as int) + 1);
                    assert(ids.next_raw() == raw_after(first, k));
                }
                let res = create(*module_name, *shape, params, id);
                let ghost res0 = res;
                proof {
                    assert(id == node_instance(ds, first, i as int));
                    assert(asked(*create, ds, first, i as int, res0));
                }
                match res {
                    Ok(unit) => {
                        proof {
                            assert(res0 == Ok::<(), String>(unit));
                            assert(unit == ());
                            assert(res0 == Ok::<(), String>(()));
                            assert forall|k: int| 0 <= k < i + 1 && ds[k].1 is Install implies #[trigger] asked(
                                *create,
                                ds,
                                first,
                                k,
                                Ok(()),
                            ) by {
                                if k < i {
                                    assert(all_created(*create, ds, first, i as int));
                                } else {
                                    assert(asked(*create, ds, first, i as int, res0));
                                }
                            }
                        }
                    },
                    Err(msg) => {
                        proof {
                            assert(creation_failed(*create, ds, first, msg)) by {
                                assert(all_created(*create, ds, first, i as int));
                                assert(asked(*create, ds, first, i as int, Err(msg)));
                            }
                        }
                        failure = Some(msg);
                    },
                }
                out.push(id);
            },
            NodeDecision::Update { instance_id, .. } => {
                proof {
                    if failure is None {
                        assert forall|k: int| 0 <= k < i + 1 && ds[k].1 is Install implies #[trigger] asked(
                            *create,
                            ds,
                            first,
                            k,
                            Ok(()),
                        ) by {
                            if k < i {
                                assert(all_created(*create, ds, first, i as int));
                            }
                        }
                    }
                }
                out.push(*instance_id);
            },
        }
        i = i + 1;
    }
    match failure {
        Some(msg) => Err(msg),
        None => {
            proof {
                assert(out@ =~= node_instances(ds, first));
            }
            Ok(out)
        },
    }
}

/// Installs counted over a longer prefix are at least as many.
proof fn lemma_installs_monotone(ds: Seq<(NodeId, NodeDecision)>, i: int, j: int)
    requires
        i <= j,
    ensures
        installs_before(ds, i) <= installs_before(ds, j),
    decreases j - i,
{
    if i < j {
        lemma_installs_monotone(ds, i, j - 1);
    }
}

/// The slot, recorded state and pool updates of one node.
struct NodeLayout {
    slot: ModuleSlot,
    state: NodeState,
    install: Option<(usize, InstanceId, PortConnectivity)>,
    param_update: Option<(usize, ParameterMap)>,
    conn_update: Option<(usize, PortConnectivity)>,
}

/// The connectivity a node ends up with under `decision`.
spec fn decided_connectivity(decision: NodeDecision, g: ModuleGraph, prev: PlannerState, id: Seq<char>) -> (
    Seq<bool>,
    Seq<bool>,
) {
    match decision {
        NodeDecision::Update { connectivity_changed, .. } => if connectivity_changed {
            fresh_connectivity(g, id)
        } else {
            conn_model(prev.state_of(id).connectivity)
        },
        NodeDecision::Install { .. } => fresh_connectivity(g, id),
    }
}

/// Lays out node `id` under `decision`, with instance `inst` whose pool
/// slot is recorded in `slot_map`.
fn lay_out_node(
    index: &GraphIndex<'_>,
    resolved: &ResolvedGraph<'_>,
    output_buf: &Vec<(BufferKey, usize)>,
    slot_map: &Vec<(InstanceId, usize)>,
    decision: &NodeDecision,
    id: &NodeId,
    inst: InstanceId,
    prev_state: &PlannerState,
) -> (r: Result<NodeLayout, BuildError>)
    requires
        index.graph_spec().has_node(id@),
        index.edge_models() == index.graph_spec().edge_models(),
        resolved.map_spec() == input_map(index.graph_spec(), buffer_entries(output_buf@)),
        keys_distinct(buffer_entries(output_buf@)),
        forall|p: int|
            0 <= p < index.graph_spec().node_spec(id@).module_descriptor.outputs@.len() ==> #[trigger] has_key(
                buffer_entries(output_buf@),
                (id@, p as usize),
            ),
        ids_distinct(slot_map@),
        has_id(slot_map@, inst),
        prev_state.wf(),
        decision is Update ==> prev_state.has_state(id@),
    ensures
        r matches Ok(l) && {
            let g = index.graph_spec();
            let ob = buffer_entries(output_buf@);
            let node = g.node_spec(id@);
            let desc = node.module_descriptor;
            let rs = resolved_inputs(g, ob, id@);
            let pool = slot_of(slot_map@, inst);
            let conn = decided_connectivity(*decision, g, *prev_state, id@);
            &&& l.slot.pool_index == pool
            &&& l.slot.unscaled_inputs@ == unscaled_part(rs, rs.len() as int)
            &&& l.slot.scaled_inputs@ == scaled_part(rs, rs.len() as int)
            &&& l.slot.output_buffers@ == output_buffers_of(g, ob, id@)
            &&& l.state.module_name == desc.module_name
            &&& l.state.instance_id == inst
            &&& l.state.parameter_map@ == node.parameter_map@
            &&& l.state.shape == desc.shape
            &&& conn_model(l.state.connectivity) == conn
            &&& match *decision {
                NodeDecision::Install { .. } => {
                    &&& l.install matches Some(x) && x.0 == pool && x.1 == inst && conn_model(x.2) == conn
                    &&& l.param_update is None
                    &&& l.conn_update is None
                },
                NodeDecision::Update { param_diff, connectivity_changed, .. } => {
                    &&& l.install is None
                    &&& param_diff@.len() > 0 ==> (l.param_update matches Some(x) && x.0 == pool && x.1@ == param_diff@)
                    &&& param_diff@.len() == 0 ==> l.param_update is None
                    &&& connectivity_changed ==> (l.conn_update matches Some(x) && x.0 == pool && conn_model(x.1) == conn)
                    &&& !connectivity_changed ==> l.conn_update is None
                },
            }
        },
{
    let ghost g = index.graph_spec();
    let ghost ob = buffer_entries(output_buf@);
    let node = match index.get_node(id) {
        Some(n) => n,
        None => {
            return Err(BuildError::InternalError(String::from_str("node missing from graph")));
        },
    };
    let desc = &node.module_descriptor;
    let pool_index = match find_slot(slot_map, inst) {
        Some(s) => s,
        None => {
            return Err(BuildError::InternalError(String::from_str("instance missing from module slot map")));
        },
    };
    let resolved_inputs_v = resolved.resolve_input_buffers(desc, id);
    proof {
        assert(resolved_inputs_v@ =~= resolved_inputs(g, ob, id@));
    }
    let (unscaled_inputs, scaled_inputs) = partition_inputs(resolved_inputs_v);
    let mut output_buffers: Vec<usize> = Vec::new();
    let mut p: usize = 0;
    while p < desc.outputs.len()
        invariant
            p <= desc.outputs@.len(),
            *desc == g.node_spec(id@).module_descriptor,
            ob == buffer_entries(output_buf@),
            keys_distinct(ob),
            forall|q: int| 0 <= q < desc.outputs@.len() ==> #[trigger] has_key(ob, (id@, q as usize)),
            output_buffers@.len() == p,
            forall|q: int| 0 <= q < p ==> output_buffers@[q] == slot_for_key(ob, id@, q),
        decreases desc.outputs@.len() - p,
    {
        assert(has_key(ob, (id@, p as usize)));
        match find_buffer(output_buf, id, p) {
            Some(b) => {
                output_buffers.push(b);
            },
            None => {
                return Err(BuildError::InternalError(String::from_str("output buffer not allocated")));
            },
        }
        p = p + 1;
    }
    proof {
        assert(output_buffers@ =~= output_buffers_of(g, ob, id@));
    }
    let slot = ModuleSlot { pool_index, unscaled_inputs, scaled_inputs, output_buffers };
    let (connectivity, install, param_update, conn_update) = match decision {
        NodeDecision::Install { .. } => {
            let c = index.compute_connectivity(desc, id);
            proof {
                assert(conn_model(c) =~= fresh_connectivity(g, id@));
            }
            let c2 = c.duplicate();
            (c, Some((pool_index, inst, c2)), None, None)
        },
        NodeDecision::Update { param_diff, connectivity_changed, .. } => {
            let pu = if param_diff.is_empty() {
                None
            } else {
                Some((pool_index, param_diff.duplicate()))
            };
            if *connectivity_changed {
                let c = index.compute_connectivity(desc, id);
                proof {
                    assert(conn_model(c) =~= fresh_connectivity(g, id@));
                }
                let c2 = c.duplicate();
                (c, None, pu, Some((pool_index, c2)))
            } else {
                let prev = match prev_state.find_state(id) {
                    Some(s) => s,
                    None => {
                        return Err(BuildError::InternalError(String::from_str("surviving node has no recorded state")));
                    },
                };
                (prev.connectivity.duplicate(), None, pu, None)
            }
        },
    };
    let state = NodeState {
        module_name: desc.module_name,
        instance_id: inst,
        parameter_map: node.parameter_map.duplicate(),
        shape: desc.shape,
        connectivity,
    };
    Ok(NodeLayout { slot, state, install, param_update, conn_update })
}

/// The slot of key `(id, q)` in `ob`.
spec fn slot_for_key(ob: Seq<(KeyModel, usize)>, id: Seq<char>, q: int) -> usize {
    crate::buffers::slot_for(ob, (id, q as usize))
}

/// The distinct identifiers of `v`, in order of first occurrence.
fn dedup(v: &Vec<InstanceId>) -> (r: Vec<InstanceId>)
    ensures
        r@ == dedup_ids(v@, v@.len() as int),
        r@.no_duplicates(),
        forall|x: InstanceId| r@.contains(x) <==> v@.contains(x),
{
    let mut out: Vec<InstanceId> = Vec::new();
    let mut i: usize = 0;
    while i < v.len()
        invariant
            i <= v@.len(),
            out@ == dedup_ids(v@, i as int),
            out@.no_duplicates(),
            forall|x: InstanceId| out@.contains(x) <==> v@.take(i as int).contains(x),
        decreases v@.len() - i,
    {
        let x = v[i];
        let ghost before = out@;
        if !contains_id(&out, x) {
            out.push(x);
        }
        proof {
            assert(v@.take(i as int + 1) =~= v@.take(i as int).push(x));
            assert forall|y: InstanceId| out@.contains(y) <==> v@.take(i as int + 1).contains(y) by {
                if out@.contains(y) && y != x {
                    let k = choose|k: int| 0 <= k < out@.len() && out@[k] == y;
                    assert(before[k] == y);
                    assert(before.contains(y));
                    let t0 = v@.take(i as int);
                    assert(t0.contains(y));
                    let j = choose|j: int| 0 <= j < t0.len() && t0[j] == y;
                    assert(v@.take(i as int + 1)[j] == y);
                }
                if v@.take(i as int + 1).contains(y) && y != x {
                    let t = v@.take(i as int + 1);
                    let k = choose|k: int| 0 <= k < t.len() && t[k] == y;
                    assert(v@.take(i as int)[k] == y);
                    assert(before.contains(y));
                    let j = choose|j: int| 0 <= j < before.len() && before[j] == y;
                    assert(out@[j] == y);
                }
                if y == x {
                    if !before.contains(x) {
                        assert(out@[before.len() as int] == x);
                    }
                    assert(v@.take(i as int + 1)[i as int] == x);
                }
            }
        }
        i = i + 1;
    }
    proof {
        assert(v@.take(v@.len() as int) =~= v@);
    }
    out
}

/// The decisions of the planner agree with the per-node view of the build:
/// a node is installed exactly when it does not survive, and instances are
/// drawn in execution order.
proof fn lemma_instances_match(d: PlanDecisions, g: ModuleGraph, prev: PlannerState, first: u64)
    requires
        decided(d, g, prev),
    ensures
        forall|i: int|
            0 <= i < d.decisions@.len() ==> (#[trigger] d.decisions@[i].1 is Install <==> installs_at(g, prev, i)),
        forall|k: int| 0 <= k <= d.decisions@.len() ==> #[trigger] installs_before(d.decisions@, k) == fresh_before_node(g, prev, k),
        node_instances(d.decisions@, first) == instances(g, prev, first),
{
    let ds = d.decisions@;
    let ord = execution_order(g);
    assert forall|i: int| 0 <= i < ds.len() implies (#[trigger] ds[i].1 is Install <==> installs_at(g, prev, i)) by {
        assert(decision_for(ds[i].1, g, g.edge_models(), prev, ord[i]));
    }
    assert forall|k: int| 0 <= k <= ds.len() implies #[trigger] installs_before(ds, k) == fresh_before_node(g, prev, k) by {
        lemma_installs_prefix(d, g, prev, k);
    }
    assert forall|i: int| 0 <= i < ds.len() implies node_instances(ds, first)[i] == instances(g, prev, first)[i] by {
        assert(decision_for(ds[i].1, g, g.edge_models(), prev, ord[i]));
        assert(ds[i].1 is Install <==> installs_at(g, prev, i));
        assert(installs_before(ds, i) == fresh_before_node(g, prev, i));
    }
    assert(node_instances(ds, first) =~= instances(g, prev, first));
}

proof fn lemma_installs_prefix(d: PlanDecisions, g: ModuleGraph, prev: PlannerState, k: int)
    requires
        decided(d, g, prev),
        0 <= k <= d.decisions@.len(),
    ensures
        installs_before(d.decisions@, k) == fresh_before_node(g, prev, k),
    decreases k,
{
    if k > 0 {
        lemma_installs_prefix(d, g, prev, k - 1);
        let ord = execution_order(g);
        assert(decision_for(d.decisions@[k - 1].1, g, g.edge_models(), prev, ord[k - 1]));
    }
}

/// A built execution plan, without the module instances themselves: module
/// slots in execution order, buffers to zero, and the module pool updates to
/// apply when the plan is adopted.
pub struct PlanLayout {
    /// One slot per node, in execution order.
    pub slots: Vec<ModuleSlot>,
    /// Buffer pool indices to zero on adoption: newly allocated and freed ones.
    pub to_zero: Vec<usize>,
    /// Position of the audio output node in `slots`.
    pub audio_out_index: usize,
    /// Fresh modules to install: `(pool index, instance, connectivity)`.
    pub installs: Vec<(usize, InstanceId, PortConnectivity)>,
    /// Pool indices of modules removed from the graph.
    pub tombstones: Vec<usize>,
    /// Parameter changes of surviving modules: `(pool index, changed parameters)`.
    pub parameter_updates: Vec<(usize, ParameterMap)>,
    /// Connectivity changes of surviving modules: `(pool index, new connectivity)`.
    pub connectivity_updates: Vec<(usize, PortConnectivity)>,
    /// Pool indices of modules that receive MIDI events; filled in by the
    /// caller, which knows which module types take MIDI.
    pub midi_receiver_indices: Vec<usize>,
}

/// `l` and `st` are the plan and the planning state built for `g` against
/// `prev`, with fresh instances drawn from raw value `first` on.
pub open spec fn built(l: PlanLayout, st: PlannerState, g: ModuleGraph, prev: PlannerState, first: u64) -> bool {
    let ord = execution_order(g);
    let n = ord.len() as int;
    let keys = planned_keys(g, ord);
    let pe = buffer_entries(prev.buffer_alloc.output_buf@);
    let free = prev.buffer_alloc.freelist@;
    let hwm = prev.buffer_alloc.next_hwm as int;
    let total = keys_fresh_before(pe, keys, keys.len() as int);
    let dropped = dropped_slots(pe, keys, pe.len() as int);
    let u = instance_set(g, prev, first);
    &&& names_sorted(ord)
    &&& ord.to_set() == graph_names(g).to_set()
    &&& present_prefix(g, ord) == n
    &&& forall|i: int| 0 <= i < n ==> g.has_node(#[trigger] ord[i])
    &&& l.slots@.len() == n
    &&& forall|i: int| 0 <= i < n ==> slot_at(#[trigger] l.slots@[i], g, prev, first, i)
    &&& l.to_zero@ == fresh_slots(pe, free, hwm, keys, keys.len() as int) + dropped
    &&& l.audio_out_index < n
    &&& ord[l.audio_out_index as int] == sinks_among(g, graph_names(g))[0]
    &&& l.installs@.map_values(|e: (usize, InstanceId, PortConnectivity)| (e.0, e.1, conn_model(e.2)))
        == install_list(g, prev, first, n)
    &&& l.tombstones@ == prev.module_alloc.diff_tombstoned(u)
    &&& l.parameter_updates@.map_values(|e: (usize, ParameterMap)| (e.0, e.1@)) == param_update_list(g, prev, first, n)
    &&& l.connectivity_updates@.map_values(|e: (usize, PortConnectivity)| (e.0, conn_model(e.1)))
        == conn_update_list(g, prev, first, n)
    &&& l.midi_receiver_indices@.len() == 0
    &&& st.nodes@.len() == n
    &&& forall|i: int|
        0 <= i < n ==> (#[trigger] st.nodes@[i]).0@ == ord[i] && state_at(st.nodes@[i].1, g, prev, first, i)
    &&& buffer_entries(st.buffer_alloc.output_buf@) == buffers_of(g, prev)
    &&& st.buffer_alloc.freelist@ == freelist_after(free, total) + dropped
    &&& st.buffer_alloc.next_hwm == hwm_after(free.len() as int, hwm, total)
    &&& st.module_alloc.pool_map@ == prev.module_alloc.diff_slot_map(u)
    &&& st.module_alloc.freelist@ == prev.module_alloc.diff_freelist(u)
    &&& st.module_alloc.next_hwm == prev.module_alloc.diff_hwm(u)
    &&& st.wf()
}

/// What the planner decided for the `i`-th node, per node.
proof fn lemma_node_decision(d: PlanDecisions, g: ModuleGraph, prev: PlannerState, i: int)
    requires
        decided(d, g, prev),
        0 <= i < d.decisions@.len(),
    ensures
        d.decisions@[i].1 is Install <==> installs_at(g, prev, i),
        d.decisions@[i].1 is Update ==> prev.has_state(execution_order(g)[i]),
        d.decisions@[i].1 matches NodeDecision::Update { instance_id, param_diff, connectivity_changed } ==> {
            &&& param_diff@ == param_diff_at(g, prev, i)
            &&& connectivity_changed == conn_changed_at(g, prev, i)
        },
        decided_connectivity(d.decisions@[i].1, g, prev, execution_order(g)[i]) == conn_after(g, prev, i),
{
    let ord = execution_order(g);
    assert(decision_for(d.decisions@[i].1, g, g.edge_models(), prev, ord[i]));
    let id = ord[i];
    if d.decisions@[i].1 is Update {
        let old = prev.state_of(id);
        let fc = fresh_connectivity(g, id);
        assert(fc.0 == old.connectivity.inputs@ && fc.1 == old.connectivity.outputs@ <==> fc == conn_model(old.connectivity));
    }
}

/// Execution order lists each name once.
proof fn lemma_sorted_distinct(ord: Seq<Seq<char>>)
    requires
        names_sorted(ord),
    ensures
        ord.no_duplicates(),
{
    assert forall|i: int, j: int| 0 <= i < ord.len() && 0 <= j < ord.len() && i != j implies ord[i] != ord[j] by {
        crate::order::lemma_text_lt_asym(ord[i], ord[j]);
        crate::order::lemma_text_lt_asym(ord[j], ord[i]);
    }
}

/// Builds execution plans with stable buffer and module pool allocation
/// across successive builds, within fixed pool capacities.
pub struct PatchBuilder {
    /// Buffer pool slot capacity.
    pub pool_capacity: usize,
    /// Module pool slot capacity.
    pub module_pool_capacity: usize,
}

impl PatchBuilder {
    /// A builder for pools of the given capacities.
    pub fn new(pool_capacity: usize, module_pool_capacity: usize) -> (r: PatchBuilder)
        ensures
            r.pool_capacity == pool_capacity,
            r.module_pool_capacity == module_pool_capacity,
    {
        PatchBuilder { pool_capacity, module_pool_capacity }
    }

    /// Build the plan for `graph`, diffing against `prev_state`, and the
    /// planning state to pass into the next build.
    ///
    /// Each node that is new, or whose module type or shape changed, gets a
    /// fresh instance drawn from `ids` (in execution order) and `create` is
    /// asked to build its module; the first failure ends the build with
    /// [`BuildError::ModuleCreationError`]. Surviving nodes keep their
    /// instance and pool slot, and only their parameter and connectivity
    /// changes are reported.
    pub fn build_patch<F>(&self, graph: &ModuleGraph, prev_state: &PlannerState, ids: &mut IdSource, create: &F) -> (r:
        Result<(PlanLayout, PlannerState), BuildError>) where
        F: Fn(&'static str, ModuleShape, &ParameterMap, InstanceId) -> Result<(), String>,
        requires
            prev_state.wf(),
            forall|n: &'static str, s: ModuleShape, p: &ParameterMap, i: InstanceId| #[trigger] create.requires((n, s, p, i)),
        ensures
            ({
                let g = *graph;
                let prev = *prev_state;
                let first = old(ids).next_raw();
                let sinks = sinks_among(g, graph_names(g));
                let ord = execution_order(g);
                let exhausted = keys_exhaust(
                    buffer_entries(prev.buffer_alloc.output_buf@),
                    prev.buffer_alloc.freelist@,
                    prev.buffer_alloc.next_hwm as int,
                    planned_keys(g, ord),
                    self.pool_capacity,
                );
                let decided_ok = sinks.len() == 1 && !exhausted;
                let u = instance_set(g, prev, first);
                let pool_full = prev.module_alloc.exhausts(u, self.module_pool_capacity);
                &&& sinks.len() == 0 ==> (r matches Err(BuildError::NoAudioOut))
                &&& sinks.len() > 1 ==> (r matches Err(BuildError::MultipleAudioOut))
                &&& sinks.len() == 1 && exhausted ==> (r matches Err(BuildError::PoolExhausted))
                &&& r matches Err(BuildError::ModuleCreationError(msg)) ==> decided_ok && node_creation_failed(
                    *create,
                    g,
                    prev,
                    first,
                    msg,
                )
                &&& decided_ok && !(r matches Err(BuildError::ModuleCreationError(_))) ==> {
                    &&& pool_full ==> (r matches Err(BuildError::ModulePoolExhausted))
                    &&& !pool_full ==> r is Ok
                }
                &&& r matches Ok((l, st)) ==> {
                    &&& built(l, st, g, prev, first)
                    &&& nodes_created(*create, g, prev, first, ord.len() as int)
                    &&& final(ids).next_raw() == raw_after(first, fresh_before_node(g, prev, ord.len() as int))
                }
            }),
    {
        let ghost g = *graph;
        let ghost prev = *prev_state;
        let ghost first = ids.next_raw();
        proof {
            use_type_invariant(graph);
        }
        let d = match make_decisions(graph, prev_state, self.pool_capacity) {
            Ok(d) => d,
            Err(e) => {
                return Err(BuildError::from(e));
            },
        };
        let ghost ord = execution_order(g);
        let ghost n = ord.len() as int;
        let ghost ds = d.decisions@;
        proof {
            lemma_instances_match(d, g, prev, first);
            lemma_asked_per_node(*create, d, g, prev, first);
        }
        let insts = match mint_and_create(&d.decisions, ids, create) {
            Ok(v) => v,
            Err(msg) => {
                proof {
                    assert(creation_failed(*create, ds, first, msg));
                }
                return Err(BuildError::ModuleCreationError(msg));
            },
        };
        proof {
            assert(all_created(*create, ds, first, n));
            assert(nodes_created(*create, g, prev, first, n));
        }
        let ghost after_ids = ids.next_raw();
        let u = dedup(&insts);
        assert(u@ == instance_set(g, prev, first));
        let module_diff = match prev_state.module_alloc.diff(&u, self.module_pool_capacity) {
            Ok(m) => m,
            Err(e) => {
                return Err(BuildError::from(e));
            },
        };
        let ghost ob = buffer_entries(d.buf_alloc.output_buf@);
        proof {
            lemma_sorted_distinct(ord);
            lemma_output_keys_distinct(g, ord, n);
            lemma_output_keys_cover(g, ord, n);
            lemma_key_map_keys(
                buffer_entries(prev.buffer_alloc.output_buf@),
                prev.buffer_alloc.freelist@,
                prev.buffer_alloc.next_hwm as int,
                planned_keys(g, ord),
            );
            assert(ob == buffers_of(g, prev));
        }
        proof {
            lemma_edges_resolve(g, prev);
        }
        let resolved = match ResolvedGraph::build(&d.index, &d.buf_alloc.output_buf) {
            Ok(rg) => rg,
            Err(e) => {
                return Err(BuildError::from(e));
            },
        };
        proof {
            assert(resolved.map_spec() =~= input_map(g, ob));
            assert forall|k: int| 0 <= k < n && 0 <= k < insts@.len() implies has_id(module_diff.slot_map@, #[trigger] insts@[k]) by {
                assert(insts@.contains(insts@[k]));
                assert(u@.contains(insts@[k]));
                let j = choose|j: int| 0 <= j < u@.len() && u@[j] == insts@[k];
                assert(module_diff.slot_map@[j].0 == u@[j]);
            }
            assert forall|a: int, b: int|
                0 <= a < module_diff.slot_map@.len() && 0 <= b < module_diff.slot_map@.len() && a != b
                implies module_diff.slot_map@[a].0 != module_diff.slot_map@[b].0 by {
                assert(module_diff.slot_map@[a].0 == u@[a] && module_diff.slot_map@[b].0 == u@[b]);
            }
        }
        let mut slots: Vec<ModuleSlot> = Vec::new();
        let mut installs: Vec<(usize, InstanceId, PortConnectivity)> = Vec::new();
        let mut parameter_updates: Vec<(usize, ParameterMap)> = Vec::new();
        let mut connectivity_updates: Vec<(usize, PortConnectivity)> = Vec::new();
        let mut node_states: Vec<(NodeId, NodeState)> = Vec::new();
        let mut failure: Option<BuildError> = None;
        let mut i: usize = 0;
        while i < d.decisions.len() && failure.is_none()
            invariant
                0 <= i <= n,
                n == ds.len(),
                ds == d.decisions@,
                ord == execution_order(g),
                g == *graph,
                prev == *prev_state,
                prev_state.wf(),
                decided(d, g, prev),
                d.index.graph_spec() == g,
                d.index.edge_models() == g.edge_models(),
                ob == buffer_entries(d.buf_alloc.output_buf@),
                ob == buffers_of(g, prev),
                keys_distinct(ob),
                resolved.map_spec() == input_map(g, ob),
                forall|k: int, p: int|
                    0 <= k < n && 0 <= p < g.node_spec(ord[k]).module_descriptor.outputs@.len() ==> #[trigger] has_key(
                        ob,
                        (ord[k], p as usize),
                    ),
                insts@ == instances(g, prev, first),
                u@ == instance_set(g, prev, first),
                module_diff.slot_map@ == prev.module_alloc.diff_slot_map(u@),
                ids_distinct(module_diff.slot_map@),
                forall|k: int| 0 <= k < n && 0 <= k < insts@.len() ==> has_id(module_diff.slot_map@, #[trigger] insts@[k]),
                failure is None,
                slots@.len() == i,
                forall|k: int| 0 <= k < i ==> slot_at(#[trigger] slots@[k], g, prev, first, k),
                node_states@.len() == i,
                forall|k: int|
                    0 <= k < i ==> (#[trigger] node_states@[k]).0@ == ord[k] && state_at(node_states@[k].1, g, prev, first, k),
                installs@.map_values(|e: (usize, InstanceId, PortConnectivity)| (e.0, e.1, conn_model(e.2)))
                    == install_list(g, prev, first, i as int),
                parameter_updates@.map_values(|e: (usize, ParameterMap)| (e.0, e.1@)) == param_update_list(g, prev, first, i as int),
                connectivity_updates@.map_values(|e: (usize, PortConnectivity)| (e.0, conn_model(e.1)))
                    == conn_update_list(g, prev, first, i as int),
            decreases n - i,
        {
            let id = &d.decisions[i].0;
            let decision = &d.decisions[i].1;
            let inst = insts[i];
            proof {
                lemma_node_decision(d, g, prev, i as int);
                assert(id@ == ord[i as int]);
                assert(g.has_node(ord[i as int]));
                assert(inst == instance_at(g, prev, first, i as int));
                assert(has_id(module_diff.slot_map@, insts@[i as int]));
                assert forall|p: int| 0 <= p < g.node_spec(id@).module_descriptor.outputs@.len() implies #[trigger] has_key(
                    ob,
                    (id@, p as usize),
                ) by {
                    assert(has_key(ob, (ord[i as int], p as usize)));
                }
            }
            match lay_out_node(&d.index, &resolved, &d.buf_alloc.output_buf, &module_diff.slot_map, decision, id, inst, prev_state) {
                Ok(nl) => {
                    let ghost pool = pool_at(g, prev, first, i as int);
                    let ghost ins0 = installs@;
                    let ghost pu0 = parameter_updates@;
                    let ghost cu0 = connectivity_updates@;
                    let NodeLayout { slot, state, install, param_update, conn_update } = nl;
                    slots.push(slot);
                    node_states.push((id.duplicate(), state));
                    match install {
                        Some(x) => {
                            installs.push(x);
                        },
                        None => {},
                    }
                    match param_update {
                        Some(x) => {
                            parameter_updates.push(x);
                        },
                        None => {},
                    }
                    match conn_update {
                        Some(x) => {
                            connectivity_updates.push(x);
                        },
                        None => {},
                    }
                    proof {
                        let k = i as int;
                        assert(slot_of(module_diff.slot_map@, inst) == pool);
                        assert(slot_at(slots@[k], g, prev, first, k));
                        assert(state_at(node_states@[k].1, g, prev, first, k));
                        assert(installs@.map_values(|e: (usize, InstanceId, PortConnectivity)| (e.0, e.1, conn_model(e.2)))
                            =~= install_list(g, prev, first, k + 1));
                        assert(parameter_updates@.map_values(|e: (usize, ParameterMap)| (e.0, e.1@))
                            =~= param_update_list(g, prev, first, k + 1));
                        assert(connectivity_updates@.map_values(|e: (usize, PortConnectivity)| (e.0, conn_model(e.1)))
                            =~= conn_update_list(g, prev, first, k + 1));
                    }
                },
                Err(e) => {
                    failure = Some(e);
                },
            }
            i = i + 1;
        }
        let PlanDecisions { index: _, order: _, audio_out_index, buf_alloc, decisions: _ } = d;
        let layout = PlanLayout {
            slots,
            to_zero: buf_alloc.to_zero,
            audio_out_index,
            installs,
            tombstones: module_diff.tombstoned,
            parameter_updates,
            connectivity_updates,
            midi_receiver_indices: Vec::new(),
        };
        let state = PlannerState {
            nodes: node_states,
            buffer_alloc: BufferAllocState {
                output_buf: buf_alloc.output_buf,
                freelist: buf_alloc.freelist,
                next_hwm: buf_alloc.next_hwm,
            },
            module_alloc: ModuleAllocState {
                pool_map: module_diff.slot_map,
                freelist: module_diff.freelist,
                next_hwm: module_diff.next_hwm,
            },
        };
        proof {
            assert forall|a: int, b: int| 0 <= a < state.nodes@.len() && 0 <= b < state.nodes@.len() && a != b
                implies state.nodes@[a].0@ != state.nodes@[b].0@ by {
                assert(state.nodes@[a].0@ == ord[a] && state.nodes@[b].0@ == ord[b]);
            }
        }
        Ok((layout, state))
    }
}

} // verus!
