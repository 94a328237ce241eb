//! Connectivity index and input-buffer resolution over a module graph.
use vstd::prelude::*;

use crate::float_bits::{FloatBits, ONE_BITS};
use crate::graph::{find_port, has_port, port_position, EdgeModel, ModuleGraph, Node, NodeId};
use crate::modules::{ModuleDescriptor, PortConnectivity, PortDescriptor};
use crate::buffers::{buffer_entries, find_buffer, has_key, keys_distinct, slot_for, BufferKey, KeyModel};
use crate::planner::{missing_node_message, missing_node_text, node_id_debug, node_id_debug_text, PlanError};
use crate::text::{debug_str, debug_str_text, decimal, decimal_text};

verus! {

/// An edge as returned by [`ModuleGraph::edge_list`].
pub type EdgeTuple = (NodeId, String, u32, NodeId, String, u32, FloatBits);

/// The content of an edge tuple.
pub open spec fn tuple_model(t: EdgeTuple) -> EdgeModel {
    EdgeModel {
        from: t.0@,
        output_name: t.1@,
        output_index: t.2,
        to: t.3@,
        input_name: t.4@,
        input_index: t.5,
        scale: t.6,
    }
}

/// The content of a list of edge tuples.
pub open spec fn tuple_models(v: Seq<EdgeTuple>) -> Seq<EdgeModel> {
    v.map_values(|t: EdgeTuple| tuple_model(t))
}

/// Some edge ends at input `port` of `node`.
pub open spec fn input_connected(edges: Seq<EdgeModel>, node: Seq<char>, port: PortDescriptor) -> bool {
    exists|k: int|
        0 <= k < edges.len() && edges[k].to == node && edges[k].input_name == port.name@ && edges[k].input_index
            == port.index
}

/// Some edge starts at output `port` of `node`.
pub open spec fn output_connected(edges: Seq<EdgeModel>, node: Seq<char>, port: PortDescriptor) -> bool {
    exists|k: int|
        0 <= k < edges.len() && edges[k].from == node && edges[k].output_name == port.name@
            && edges[k].output_index == port.index
}

/// Pre-built connectivity index over a [`ModuleGraph`]: the graph and a
/// snapshot of its edge list.
pub struct GraphIndex<'a> {
    graph: &'a ModuleGraph,
    edges: Vec<EdgeTuple>,
}

impl<'a> GraphIndex<'a> {
    /// The indexed graph.
    pub closed spec fn graph_spec(&self) -> ModuleGraph {
        *self.graph
    }

    /// The indexed edges.
    pub closed spec fn edge_models(&self) -> Seq<EdgeModel> {
        tuple_models(self.edges@)
    }

    /// Index `graph` over its own edges.
    pub fn build(graph: &'a ModuleGraph) -> (r: GraphIndex<'a>)
        ensures
            r.graph_spec() == *graph,
            r.edge_models() == graph.edge_models(),
    {
        let edges = graph.edge_list();
        proof {
            assert forall|k: int| 0 <= k < edges@.len() implies tuple_models(edges@)[k] == graph.edge_models()[k] by {
                let m = graph.edge_models()[k];
            }
            assert(tuple_models(edges@) =~= graph.edge_models());
        }
        GraphIndex { graph, edges }
    }

    /// Index `graph` over a given edge list.
    pub fn with_edges(graph: &'a ModuleGraph, edges: Vec<EdgeTuple>) -> (r: GraphIndex<'a>)
        ensures
            r.graph_spec() == *graph,
            r.edge_models() == tuple_models(edges@),
    {
        GraphIndex { graph, edges }
    }

    /// The indexed edges.
    pub fn edges(&self) -> (r: &Vec<EdgeTuple>)
        ensures
            tuple_models(r@) == self.edge_models(),
    {
        &self.edges
    }

    /// The indexed graph.
    pub fn graph(&self) -> (r: &'a ModuleGraph)
        ensures
            *r == self.graph_spec(),
    {
        self.graph
    }

    /// Borrow a node of the indexed graph.
    pub fn get_node(&self, id: &NodeId) -> (r: Option<&'a Node>)
        ensures
            r is Some <==> self.graph_spec().has_node(id@),
            r matches Some(n) ==> *n == self.graph_spec().node_spec(id@),
    {
        self.graph.get_node(id)
    }

    /// Returns `true` when some indexed edge ends at `port` of `node`.
    fn input_is_connected(&self, node: &NodeId, port: &PortDescriptor) -> (r: bool)
        ensures
            r == input_connected(self.edge_models(), node@, *port),
    {
        let mut k: usize = 0;
        while k < self.edges.len()
            invariant
                k <= self.edges@.len(),
                self.edge_models() == tuple_models(self.edges@),
                forall|j: int|
                    0 <= j < k ==> !(self.edge_models()[j].to == node@ && self.edge_models()[j].input_name
                        == port.name@ && self.edge_models()[j].input_index == port.index),
            decreases self.edges@.len() - k,
        {
            let e = &self.edges[k];
            assert(self.edge_models()[k as int] == tuple_model(*e));
            if e.5 == port.index && e.3.same(node) && crate::modules::str_equal(e.4.as_str(), port.name) {
                return true;
            }
            k = k + 1;
        }
        false
    }

    /// Returns `true` when some indexed edge starts at `port` of `node`.
    fn output_is_connected(&self, node: &NodeId, port: &PortDescriptor) -> (r: bool)
        ensures
            r == output_connected(self.edge_models(), node@, *port),
    {
        let mut k: usize = 0;
        while k < self.edges.len()
            invariant
                k <= self.edges@.len(),
                self.edge_models() == tuple_models(self.edges@),
                forall|j: int|
                    0 <= j < k ==> !(self.edge_models()[j].from == node@ && self.edge_models()[j].output_name
                        == port.name@ && self.edge_models()[j].output_index == port.index),
            decreases self.edges@.len() - k,
        {
            let e = &self.edges[k];
            assert(self.edge_models()[k as int] == tuple_model(*e));
            if e.2 == port.index && e.0.same(node) && crate::modules::str_equal(e.1.as_str(), port.name) {
                return true;
            }
            k = k + 1;
        }
        false
    }

    /// Compute the [`PortConnectivity`] of `node_id` with ports `desc`: an
    /// input (output) port is connected when an indexed edge ends (starts)
    /// at that node and port, matched by port name and index.
    pub fn compute_connectivity(&self, desc: &ModuleDescriptor, node_id: &NodeId) -> (r: PortConnectivity)
        ensures
            r.inputs@.len() == desc.inputs@.len(),
            r.outputs@.len() == desc.outputs@.len(),
            forall|i: int|
                0 <= i < desc.inputs@.len() ==> #[trigger] r.inputs@[i] == input_connected(
                    self.edge_models(),
                    node_id@,
                    desc.inputs@[i],
                ),
            forall|i: int|
                0 <= i < desc.outputs@.len() ==> #[trigger] r.outputs@[i] == output_connected(
                    self.edge_models(),
                    node_id@,
                    desc.outputs@[i],
                ),
    {
        let mut inputs: Vec<bool> = Vec::new();
        let mut i: usize = 0;
        while i < desc.inputs.len()
            invariant
                i <= desc.inputs@.len(),
                inputs@.len() == i,
                forall|k: int|
                    0 <= k < i ==> #[trigger] inputs@[k] == input_connected(
                        self.edge_models(),
                        node_id@,
                        desc.inputs@[k],
                    ),
            decreases desc.inputs@.len() - i,
        {
            let c = self.input_is_connected(node_id, &desc.inputs[i]);
            inputs.push(c);
            i = i + 1;
        }
        let mut outputs: Vec<bool> = Vec::new();
        let mut j: usize = 0;
        while j < desc.outputs.len()
            invariant
                j <= desc.outputs@.len(),
                outputs@.len() == j,
                forall|k: int|
                    0 <= k < j ==> #[trigger] outputs@[k] == output_connected(
                        self.edge_models(),
                        node_id@,
                        desc.outputs@[k],
                    ),
            decreases desc.outputs@.len() - j,
        {
            let c = self.output_is_connected(node_id, &desc.outputs[j]);
            outputs.push(c);
            j = j + 1;
        }
        PortConnectivity { inputs, outputs }
    }
}

} // verus!

verus! {

// ── input buffer resolution ──────────────────────────────────────────────────

/// Key of an input port: `(node, port name, port index)`.
pub type InputKey = (NodeId, String, u32);

/// Map from input ports to the `(buffer slot, scale)` that feeds them.
pub type InputBufferMap = Vec<(InputKey, (usize, FloatBits))>;

/// The content of an input buffer map.
pub open spec fn input_entries(m: Seq<(InputKey, (usize, FloatBits))>) -> Seq<
    ((Seq<char>, Seq<char>, u32), (usize, FloatBits)),
> {
    m.map_values(|e: (InputKey, (usize, FloatBits))| ((e.0.0@, e.0.1@, e.0.2), e.1))
}

/// The source port of edge `e` exists in `g` and its output buffer is
/// allocated in `ob`.
pub open spec fn edge_resolves(g: ModuleGraph, ob: Seq<(KeyModel, usize)>, e: EdgeModel) -> bool {
    &&& g.has_node(e.from)
    &&& has_port(g.node_spec(e.from).module_descriptor.outputs@, e.output_name, e.output_index)
    &&& has_key(
        ob,
        (e.from, port_position(g.node_spec(e.from).module_descriptor.outputs@, e.output_name, e.output_index) as usize),
    )
}

/// The buffer slot that carries edge `e` (meaningful when `edge_resolves`).
pub open spec fn edge_buffer(g: ModuleGraph, ob: Seq<(KeyModel, usize)>, e: EdgeModel) -> usize {
    slot_for(
        ob,
        (e.from, port_position(g.node_spec(e.from).module_descriptor.outputs@, e.output_name, e.output_index) as usize),
    )
}

/// The message of the internal error for edge `e`, which does not resolve:
/// its source node is missing, or the source has no such output port, or
/// that port has no buffer.
pub open spec fn unresolved_edge_text(g: ModuleGraph, ob: Seq<(KeyModel, usize)>, e: EdgeModel) -> Seq<char> {
    if !g.has_node(e.from) {
        missing_node_text(e.from)
    } else if !has_port(g.node_spec(e.from).module_descriptor.outputs@, e.output_name, e.output_index) {
        "output port "@ + debug_str_text(e.output_name) + "/"@ + decimal(e.output_index as nat) + " not found on node "@
            + node_id_debug(e.from)
    } else {
        "buffer for ("@ + node_id_debug(e.from) + ", "@ + decimal(
            port_position(g.node_spec(e.from).module_descriptor.outputs@, e.output_name, e.output_index) as nat,
        ) + ") not found"@
    }
}

/// The message for an output port `name/index` missing from node `from`.
fn missing_port_message(name: &str, index: u32, from: &NodeId) -> (r: String)
    ensures
        r@ == "output port "@ + debug_str_text(name@) + "/"@ + decimal(index as nat) + " not found on node "@
            + node_id_debug(from@),
{
    let mut r = String::from_str("output port ");
    let q = debug_str(name);
    r.append(q.as_str());
    r.append("/");
    let d = decimal_text(index as usize);
    r.append(d.as_str());
    r.append(" not found on node ");
    let f = node_id_debug_text(from);
    r.append(f.as_str());
    r
}

/// The message for output port position `pos` of node `from` having no
/// buffer.
fn missing_buffer_message(from: &NodeId, pos: usize) -> (r: String)
    ensures
        r@ == "buffer for ("@ + node_id_debug(from@) + ", "@ + decimal(pos as nat) + ") not found"@,
{
    let mut r = String::from_str("buffer for (");
    let f = node_id_debug_text(from);
    r.append(f.as_str());
    r.append(", ");
    let d = decimal_text(pos);
    r.append(d.as_str());
    r.append(") not found");
    r
}

/// Build a map from `(to, input name, input index)` to `(buffer slot,
/// scale)`, one entry per edge in order: each edge's source node and output
/// port are looked up in `graph` and the port's allocated buffer in
/// `output_buf`.
///
/// Returns [`PlanError::Internal`] if some edge's source node, output port
/// or buffer allocation is missing.
pub fn build_input_buffer_map(edges: &Vec<EdgeTuple>, output_buf: &Vec<(BufferKey, usize)>, graph: &ModuleGraph) -> (r:
    Result<InputBufferMap, PlanError>)
    requires
        keys_distinct(buffer_entries(output_buf@)),
    ensures
        r is Ok <==> forall|k: int|
            0 <= k < edges@.len() ==> edge_resolves(*graph, buffer_entries(output_buf@), #[trigger] tuple_models(edges@)[k]),
        r matches Err(e) ==> e is Internal,
        r matches Err(PlanError::Internal(msg)) ==> exists|k: int|
            0 <= k < edges@.len() && !edge_resolves(*graph, buffer_entries(output_buf@), #[trigger] tuple_models(edges@)[k])
                && (forall|j: int|
                0 <= j < k ==> edge_resolves(*graph, buffer_entries(output_buf@), #[trigger] tuple_models(edges@)[j]))
                && msg@ == unresolved_edge_text(*graph, buffer_entries(output_buf@), tuple_models(edges@)[k]),
        r matches Ok(m) ==> input_entries(m@) == Seq::new(
            edges@.len(),
            |k: int|
                {
                    let e = tuple_models(edges@)[k];
                    ((e.to, e.input_name, e.input_index), (edge_buffer(*graph, buffer_entries(output_buf@), e), e.scale))
                },
        ),
{
    let ghost ob = buffer_entries(output_buf@);
    let ghost em = tuple_models(edges@);
    let ghost want = Seq::new(
        edges@.len(),
        |k: int|
            {
                let e = em[k];
                ((e.to, e.input_name, e.input_index), (edge_buffer(*graph, ob, e), e.scale))
            },
    );
    let mut map: InputBufferMap = Vec::new();
    let mut k: usize = 0;
    while k < edges.len()
        invariant
            k <= edges@.len(),
            ob == buffer_entries(output_buf@),
            keys_distinct(ob),
            em == tuple_models(edges@),
            want.len() == edges@.len(),
            want == Seq::new(
                edges@.len(),
                |k: int|
                    {
                        let e = em[k];
                        ((e.to, e.input_name, e.input_index), (edge_buffer(*graph, ob, e), e.scale))
                    },
            ),
            forall|j: int| 0 <= j < k ==> edge_resolves(*graph, ob, #[trigger] em[j]),
            input_entries(map@) == want.take(k as int),
        decreases edges@.len() - k,
    {
        let e = &edges[k];
        let ghost m = em[k as int];
        assert(m == tuple_model(*e));
        let node = match graph.get_node(&e.0) {
            Some(n) => n,
            None => {
                return Err(PlanError::Internal(missing_node_message(&e.0)));
            },
        };
        let pos = match find_port(&node.module_descriptor.outputs, e.1.as_str(), e.2) {
            Some(p) => p,
            None => {
                return Err(PlanError::Internal(missing_port_message(e.1.as_str(), e.2, &e.0)));
            },
        };
        proof {
            let ports = graph.node_spec(m.from).module_descriptor.outputs@;
            let c = port_position(ports, m.output_name, m.output_index);
            assert(ports[pos as int].name@ == m.output_name && ports[pos as int].index == m.output_index);
            if c < pos {
                assert(!(ports[c].name@ == m.output_name && ports[c].index == m.output_index));
            } else if c > pos {
            }
            assert(c == pos);
        }
        let buf = match find_buffer(output_buf, &e.0, pos) {
            Some(b) => b,
            None => {
                return Err(PlanError::Internal(missing_buffer_message(&e.0, pos)));
            },
        };
        let ghost before = input_entries(map@);
        map.push(((e.3.duplicate(), e.4.clone(), e.5), (buf, e.6)));
        proof {
            assert(input_entries(map@) =~= before.push(want[k as int]));
            assert(want.take(k as int + 1) =~= want.take(k as int).push(want[k as int]));
        }
        k = k + 1;
    }
    proof {
        assert(want.take(edges@.len() as int) =~= want);
    }
    Ok(map)
}

/// The last entry of `m` keyed `key`, if any.
pub open spec fn last_entry(m: Seq<((Seq<char>, Seq<char>, u32), (usize, FloatBits))>, key: (Seq<char>, Seq<char>, u32)) -> Option<
    int,
> {
    if exists|i: int| 0 <= i < m.len() && m[i].0 == key {
        Some(
            choose|i: int|
                0 <= i < m.len() && m[i].0 == key && forall|j: int| i < j < m.len() ==> m[j].0 != key,
        )
    } else {
        None
    }
}

/// The `(buffer slot, scale)` that feeds input `key`: the last entry keyed
/// `key`, or the permanent-zero slot `0` with scale `1.0`.
pub open spec fn resolved_input(m: Seq<((Seq<char>, Seq<char>, u32), (usize, FloatBits))>, key: (Seq<char>, Seq<char>, u32)) -> (
    usize,
    FloatBits,
) {
    match last_entry(m, key) {
        Some(i) => m[i].1,
        None => (0usize, FloatBits(ONE_BITS)),
    }
}

/// A [`GraphIndex`] extended with its resolved input-buffer map.
pub struct ResolvedGraph<'a> {
    index: &'a GraphIndex<'a>,
    input_buffer_map: InputBufferMap,
}

impl<'a> ResolvedGraph<'a> {
    /// The resolved input-buffer map.
    pub closed spec fn map_spec(&self) -> Seq<((Seq<char>, Seq<char>, u32), (usize, FloatBits))> {
        input_entries(self.input_buffer_map@)
    }

    /// Resolve the input buffers of all edges of `index` against the
    /// allocated output buffers `output_buf` (see
    /// [`build_input_buffer_map`]).
    pub fn build(index: &'a GraphIndex<'a>, output_buf: &Vec<(BufferKey, usize)>) -> (r: Result<ResolvedGraph<'a>, PlanError>)
        requires
            keys_distinct(buffer_entries(output_buf@)),
        ensures
            r is Ok <==> forall|k: int|
                0 <= k < index.edge_models().len() ==> edge_resolves(
                    index.graph_spec(),
                    buffer_entries(output_buf@),
                    #[trigger] index.edge_models()[k],
                ),
            r matches Err(e) ==> e is Internal,
            r matches Ok(rg) ==> rg.map_spec() == Seq::new(
                index.edge_models().len(),
                |k: int|
                    {
                        let e = index.edge_models()[k];
                        (
                            (e.to, e.input_name, e.input_index),
                            (edge_buffer(index.graph_spec(), buffer_entries(output_buf@), e), e.scale),
                        )
                    },
            ),
    {
        let map = build_input_buffer_map(index.edges(), output_buf, index.graph())?;
        Ok(ResolvedGraph { index, input_buffer_map: map })
    }

    /// A resolved graph over `index` with a given input-buffer map.
    pub fn from_map(index: &'a GraphIndex<'a>, input_buffer_map: InputBufferMap) -> (r: ResolvedGraph<'a>)
        ensures
            r.map_spec() == input_entries(input_buffer_map@),
    {
        ResolvedGraph { index, input_buffer_map }
    }

    /// The `(buffer slot, scale)` feeding `port` of `node_id`.
    fn resolve_port(&self, node_id: &NodeId, port: &PortDescriptor) -> (r: (usize, FloatBits))
        ensures
            r == resolved_input(self.map_spec(), (node_id@, port.name@, port.index)),
    {
        let ghost m = self.map_spec();
        let ghost key = (node_id@, port.name@, port.index);
        let mut i: usize = self.input_buffer_map.len();
        while i > 0
            invariant
                i <= self.input_buffer_map@.len(),
                m == input_entries(self.input_buffer_map@),
                key == (node_id@, port.name@, port.index),
                forall|j: int| i <= j < m.len() ==> m[j].0 != key,
            decreases i,
        {
            i = i - 1;
            let e = &self.input_buffer_map[i];
            assert(m[i as int] == ((e.0.0@, e.0.1@, e.0.2), e.1));
            let nm = e.0.1.as_str();
            let hit = e.0.2 == port.index && e.0.0.same(node_id) && crate::modules::str_equal(nm, port.name);
            proof {
                assert(nm@ == e.0.1@);
                let t = m[i as int].0;
                assert(hit == (t == key));
            }
            if hit {
                proof {
                    assert(nm@ == e.0.1@);
                    assert(e.0.0@ == node_id@ && e.0.1@ == port.name@);
                    assert(m[i as int].0 == key);
                    assert(forall|j: int| i < j < m.len() ==> m[j].0 != key);
                    let c = last_entry(m, key)->0;
                    assert(m[c].0 == key);
                    if c < i {
                        assert(m[i as int].0 == key);
                    } else if c > i {
                    }
                }
                return e.1;
            }
        }
        (0, FloatBits(ONE_BITS))
    }

    /// Resolve each input port of `desc` on `node_id` to a `(buffer slot,
    /// scale)` pair; unconnected ports read the permanent-zero slot `0` with
    /// scale `1.0`.
    pub fn resolve_input_buffers(&self, desc: &ModuleDescriptor, node_id: &NodeId) -> (r: Vec<(usize, FloatBits)>)
        ensures
            r@.len() == desc.inputs@.len(),
            forall|i: int|
                0 <= i < r@.len() ==> #[trigger] r@[i] == resolved_input(
                    self.map_spec(),
                    (node_id@, desc.inputs@[i].name@, desc.inputs@[i].index),
                ),
    {
        let mut out: Vec<(usize, FloatBits)> = Vec::new();
        let mut i: usize = 0;
        while i < desc.inputs.len()
            invariant
                i <= desc.inputs@.len(),
                out@.len() == i,
                forall|k: int|
                    0 <= k < i ==> #[trigger] out@[k] == resolved_input(
                        self.map_spec(),
                        (node_id@, desc.inputs@[k].name@, desc.inputs@[k].index),
                    ),
            decreases desc.inputs@.len() - i,
        {
            out.push(self.resolve_port(node_id, &desc.inputs[i]));
            i = i + 1;
        }
        out
    }
}

} // verus!
