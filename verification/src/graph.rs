//! An editable directed graph of modules connected by patch cables.
use vstd::prelude::*;
use vstd::std_specs::cmp::PartialEqSpecImpl;

use crate::float_bits::FloatBits;
use crate::modules::{str_equal, CableKind, ModuleDescriptor, PortDescriptor, PortRef};
use crate::parameter_map::ParameterMap;
use crate::text::{port_label, port_label_spec};

verus! {

// ── NodeId ───────────────────────────────────────────────────────────────────

/// Stable identifier for a module node in the graph: a caller-chosen name
/// that survives across re-plans.
#[derive(Debug, Eq, Hash, PartialOrd, Ord)]
pub struct NodeId(String);

impl View for NodeId {
    type V = Seq<char>;

    closed spec fn view(&self) -> Seq<char> {
        self.0@
    }
}

impl PartialEq for NodeId {
    fn eq(&self, other: &NodeId) -> (r: bool) {
        self.0 == other.0
    }
}

impl PartialEqSpecImpl for NodeId {
    open spec fn obeys_eq_spec() -> bool {
        true
    }

    open spec fn eq_spec(&self, other: &NodeId) -> bool {
        self@ == other@
    }
}

impl Clone for NodeId {
    fn clone(&self) -> (r: NodeId)
        ensures
            r@ == self@,
    {
        NodeId(self.0.clone())
    }
}

impl NodeId {
    /// The identifier named `name`.
    pub fn new(name: &str) -> (r: NodeId)
        ensures
            r@ == name@,
    {
        NodeId(name.to_owned())
    }

    /// The identifier named `name`.
    pub fn from_string(name: String) -> (r: NodeId)
        ensures
            r@ == name@,
    {
        NodeId(name)
    }

    /// Returns the string identifier.
    pub fn as_str(&self) -> (r: &str)
        ensures
            r@ == self@,
    {
        self.0.as_str()
    }

    /// A copy of this identifier.
    pub fn duplicate(&self) -> (r: NodeId)
        ensures
            r@ == self@,
    {
        NodeId(self.0.clone())
    }

    /// Equality by name.
    pub fn same(&self, other: &NodeId) -> (r: bool)
        ensures
            r == (self@ == other@),
    {
        self.0 == other.0
    }
}

// ── errors ───────────────────────────────────────────────────────────────────

/// Errors returned by [`ModuleGraph`] operations.
#[derive(Debug)]
pub enum GraphError {
    /// A node with this id already exists in the graph.
    DuplicateNodeId(NodeId),
    NodeNotFound(NodeId),
    /// `port` is formatted as `"name/index"` (e.g. `"out/0"`).
    OutputPortNotFound { node: NodeId, port: String },
    /// `port` is formatted as `"name/index"` (e.g. `"in/2"`).
    InputPortNotFound { node: NodeId, port: String },
    InputAlreadyConnected { node: NodeId, port: String },
    /// The output and the input carry cables of different kinds (mono and
    /// poly). Ports are formatted as `"name/index"`.
    CableKindMismatch { from: NodeId, output: String, to: NodeId, input: String },
    /// `scale` must be finite and in `[-1.0, 1.0]`.
    ScaleOutOfRange(FloatBits),
}

// ── edges and nodes ──────────────────────────────────────────────────────────

/// A directed connection from one module's output to another's input.
#[derive(Debug)]
pub struct Edge {
    pub from: NodeId,
    pub output_name: String,
    pub output_index: u32,
    pub to: NodeId,
    pub input_name: String,
    pub input_index: u32,
    /// Scaling factor applied to the signal at read time; in `[-1.0, 1.0]`.
    pub scale: FloatBits,
}

/// The content of an [`Edge`].
pub ghost struct EdgeModel {
    pub from: Seq<char>,
    pub output_name: Seq<char>,
    pub output_index: u32,
    pub to: Seq<char>,
    pub input_name: Seq<char>,
    pub input_index: u32,
    pub scale: FloatBits,
}

impl View for Edge {
    type V = EdgeModel;

    open spec fn view(&self) -> EdgeModel {
        EdgeModel {
            from: self.from@,
            output_name: self.output_name@,
            output_index: self.output_index,
            to: self.to@,
            input_name: self.input_name@,
            input_index: self.input_index,
            scale: self.scale,
        }
    }
}

impl Edge {
    /// A copy of this edge.
    pub fn copy(&self) -> (r: Edge)
        ensures
            r@ == self@,
    {
        Edge {
            from: self.from.duplicate(),
            output_name: self.output_name.clone(),
            output_index: self.output_index,
            to: self.to.duplicate(),
            input_name: self.input_name.clone(),
            input_index: self.input_index,
            scale: self.scale,
        }
    }
}

/// A node in the module graph: a descriptor and its current parameter values.
pub struct Node {
    pub module_descriptor: ModuleDescriptor,
    pub parameter_map: ParameterMap,
}

/// `ports` holds a port named `name` with index `index`.
pub open spec fn has_port(ports: Seq<PortDescriptor>, name: Seq<char>, index: u32) -> bool {
    exists|i: int| 0 <= i < ports.len() && ports[i].name@ == name && ports[i].index == index
}

/// The first position in `ports` of the port named `name` with index
/// `index` (meaningful when `has_port`).
pub open spec fn port_position(ports: Seq<PortDescriptor>, name: Seq<char>, index: u32) -> int {
    choose|p: int|
        0 <= p < ports.len() && ports[p].name@ == name && ports[p].index == index && forall|q: int|
            0 <= q < p ==> !(ports[q].name@ == name && ports[q].index == index)
}

/// The kind of the port named `name` with index `index` (meaningful when
/// `has_port`).
pub open spec fn port_kind(ports: Seq<PortDescriptor>, name: Seq<char>, index: u32) -> CableKind {
    ports[port_position(ports, name, index)].kind
}

/// Finds the position of the port named `name` with index `index`.
pub fn find_port(ports: &Vec<PortDescriptor>, name: &str, index: u32) -> (r: Option<usize>)
    ensures
        r is Some <==> has_port(ports@, name@, index),
        r matches Some(i) ==> i < ports@.len() && ports@[i as int].name@ == name@ && ports@[i as int].index
            == index,
        r matches Some(i) ==> forall|k: int|
            0 <= k < i ==> !(ports@[k].name@ == name@ && ports@[k].index == index),
        r matches Some(i) ==> i == port_position(ports@, name@, index),
{
    let mut i: usize = 0;
    while i < ports.len()
        invariant
            i <= ports@.len(),
            forall|k: int| 0 <= k < i ==> !(ports@[k].name@ == name@ && ports@[k].index == index),
        decreases ports@.len() - i,
    {
        if ports[i].index == index && str_equal(ports[i].name, name) {
            proof {
                let c = port_position(ports@, name@, index);
                assert(ports@[i as int].name@ == name@ && ports@[i as int].index == index);
                if c < i {
                } else if c > i {
                }
            }
            return Some(i);
        }
        i = i + 1;
    }
    None
}

/// Edge `e` fits a source node with descriptor `src` and a destination
/// node with descriptor `dst`: it leaves an output port of the one, enters
/// an input port of the other, both ports carry the same kind of cable, and
/// its scale is finite and in `[-1.0, 1.0]`.
pub open spec fn edge_fits(src: ModuleDescriptor, dst: ModuleDescriptor, e: EdgeModel) -> bool {
    &&& has_port(src.outputs@, e.output_name, e.output_index)
    &&& has_port(dst.inputs@, e.input_name, e.input_index)
    &&& port_kind(src.outputs@, e.output_name, e.output_index) == port_kind(dst.inputs@, e.input_name, e.input_index)
    &&& e.scale.is_unit_scale()
}

/// Edge `e` joins two nodes of `nodes` and fits their descriptors.
#[verifier::opaque]
pub open spec fn edge_anchored(nodes: Seq<(NodeId, Node)>, e: EdgeModel) -> bool {
    exists|i: int, j: int|
        0 <= i < nodes.len() && 0 <= j < nodes.len() && #[trigger] nodes[i].0@ == e.from && #[trigger] nodes[j].0@
            == e.to && edge_fits(nodes[i].1.module_descriptor, nodes[j].1.module_descriptor, e)
}

/// Some edge of `edges` drives input `name/index` of node `to`.
pub open spec fn input_taken(edges: Seq<EdgeModel>, to: Seq<char>, name: Seq<char>, index: u32) -> bool {
    exists|k: int|
        0 <= k < edges.len() && edges[k].to == to && edges[k].input_name == name && edges[k].input_index == index
}

/// No two edges drive the same input of the same node.
pub open spec fn inputs_driven_once(edges: Seq<EdgeModel>) -> bool {
    forall|a: int, b: int|
        0 <= a < edges.len() && 0 <= b < edges.len() && a != b ==> !(edges[a].to == edges[b].to
            && edges[a].input_name == edges[b].input_name && edges[a].input_index == edges[b].input_index)
}

/// Edges that neither start nor end at node `id`.
pub open spec fn avoids_node(id: Seq<char>) -> spec_fn(EdgeModel) -> bool {
    |e: EdgeModel| e.from != id && e.to != id
}

/// Edges other than the link from `from`'s `output` to `to`'s `input`.
pub open spec fn other_than_link(from: Seq<char>, output: PortRef, to: Seq<char>, input: PortRef) -> spec_fn(
    EdgeModel,
) -> bool {
    |e: EdgeModel|
        !(e.from == from && e.output_name == output.name@ && e.output_index == output.index && e.to == to
            && e.input_name == input.name@ && e.input_index == input.index)
}

/// The outcome of a `connect` call, in the order the checks are made.
pub ghost enum ConnectOutcome {
    ScaleOutOfRange,
    SourceMissing,
    OutputMissing,
    DestinationMissing,
    InputMissing,
    KindMismatch,
    InputTaken,
    Connected,
}

// ── ModuleGraph ──────────────────────────────────────────────────────────────

/// An in-memory, editable directed graph of audio modules connected by patch
/// cables.
///
/// Nodes hold a [`ModuleDescriptor`] and a [`ParameterMap`] under stable
/// [`NodeId`]s; edges connect a named, indexed output port of one node to a
/// named, indexed input port of another, and each input has at most one
/// driver. Cycles are permitted. Nodes and edges keep their insertion order.
pub struct ModuleGraph {
    nodes: Vec<(NodeId, Node)>,
    edges: Vec<Edge>,
}

impl Default for ModuleGraph {
    /// An empty graph.
    fn default() -> (r: ModuleGraph)
        ensures
            r.node_entries().len() == 0,
            r.edge_models().len() == 0,
    {
        ModuleGraph::new()
    }
}

impl ModuleGraph {
    /// The nodes, in insertion order.
    pub closed spec fn node_entries(&self) -> Seq<(NodeId, Node)> {
        self.nodes@
    }

    /// The edges, in insertion order.
    pub closed spec fn edge_models(&self) -> Seq<EdgeModel> {
        self.edges@.map_values(|e: Edge| e@)
    }

    /// Node ids are distinct, every edge joins existing ports with a scale
    /// in range, and every input has at most one driver.
    #[verifier::type_invariant]
    pub open spec fn wf(self) -> bool {
        &&& forall|i: int, j: int|
            0 <= i < self.node_entries().len() && 0 <= j < self.node_entries().len() && i != j
                ==> self.node_entries()[i].0@ != self.node_entries()[j].0@
        &&& inputs_driven_once(self.edge_models())
        &&& forall|k: int|
            0 <= k < self.edge_models().len() ==> edge_anchored(self.node_entries(), #[trigger] self.edge_models()[k])
    }

    /// The graph has a node named `id`.
    pub open spec fn has_node(&self, id: Seq<char>) -> bool {
        exists|i: int| 0 <= i < self.node_entries().len() && self.node_entries()[i].0@ == id
    }

    /// The position of the node named `id` (meaningful when `has_node`).
    pub open spec fn node_index(&self, id: Seq<char>) -> int {
        choose|i: int| 0 <= i < self.node_entries().len() && self.node_entries()[i].0@ == id
    }

    /// The node named `id` (meaningful when `has_node`).
    pub open spec fn node_spec(&self, id: Seq<char>) -> Node {
        self.node_entries()[self.node_index(id)].1
    }

    /// The outcome of connecting `from`'s output to `to`'s input.
    pub open spec fn connect_outcome(
        &self,
        from: Seq<char>,
        output: PortRef,
        to: Seq<char>,
        input: PortRef,
        scale: FloatBits,
    ) -> ConnectOutcome {
        if !scale.is_unit_scale() {
            ConnectOutcome::ScaleOutOfRange
        } else if !self.has_node(from) {
            ConnectOutcome::SourceMissing
        } else if !has_port(self.node_spec(from).module_descriptor.outputs@, output.name@, output.index) {
            ConnectOutcome::OutputMissing
        } else if !self.has_node(to) {
            ConnectOutcome::DestinationMissing
        } else if !has_port(self.node_spec(to).module_descriptor.inputs@, input.name@, input.index) {
            ConnectOutcome::InputMissing
        } else if port_kind(self.node_spec(from).module_descriptor.outputs@, output.name@, output.index) != port_kind(
            self.node_spec(to).module_descriptor.inputs@,
            input.name@,
            input.index,
        ) {
            ConnectOutcome::KindMismatch
        } else if input_taken(self.edge_models(), to, input.name@, input.index) {
            ConnectOutcome::InputTaken
        } else {
            ConnectOutcome::Connected
        }
    }

    /// Create an empty graph.
    pub fn new() -> (r: ModuleGraph)
        ensures
            r.node_entries().len() == 0,
            r.edge_models().len() == 0,
    {
        let g = ModuleGraph { nodes: Vec::new(), edges: Vec::new() };
        proof {
            assert(g.edge_models() =~= Seq::<EdgeModel>::empty());
        }
        g
    }

    /// Position of the node named `id`.
    fn find_node(&self, id: &NodeId) -> (r: Option<usize>)
        ensures
            r is Some <==> self.has_node(id@),
            r matches Some(i) ==> i < self.node_entries().len() && i == self.node_index(id@)
                && self.node_entries()[i as int].0@ == id@,
    {
        proof {
            use_type_invariant(self);
        }
        let mut i: usize = 0;
        while i < self.nodes.len()
            invariant
                i <= self.node_entries().len(),
                self.nodes@ == self.node_entries(),
                self.wf(),
                forall|k: int| 0 <= k < i ==> self.node_entries()[k].0@ != id@,
            decreases self.node_entries().len() - i,
        {
            if self.nodes[i].0.same(id) {
                proof {
                    let c = self.node_index(id@);
                    assert(self.node_entries()[c].0@ == id@);
                    assert(c == i);
                }
                return Some(i);
            }
            i = i + 1;
        }
        None
    }

    /// Returns `true` when some edge drives input `name/index` of `to`.
    fn input_is_taken(&self, to: &NodeId, name: &str, index: u32) -> (r: bool)
        ensures
            r == input_taken(self.edge_models(), to@, name@, index),
    {
        let input_name = name.to_owned();
        let mut k: usize = 0;
        while k < self.edges.len()
            invariant
                k <= self.edge_models().len(),
                self.edges@.len() == self.edge_models().len(),
                input_name@ == name@,
                forall|j: int|
                    0 <= j < k ==> !(self.edge_models()[j].to == to@ && self.edge_models()[j].input_name == name@
                        && self.edge_models()[j].input_index == index),
            decreases self.edge_models().len() - k,
        {
            let e = &self.edges[k];
            assert(self.edge_models()[k as int] == e@);
            if e.input_index == index && e.to.same(to) && e.input_name == input_name {
                return true;
            }
            k = k + 1;
        }
        false
    }

    /// Add a module under `id`.
    ///
    /// Returns [`GraphError::DuplicateNodeId`] if a module with the same id
    /// already exists; otherwise the node is appended and the edges are
    /// unchanged.
    pub fn add_module(&mut self, id: NodeId, module_descriptor: ModuleDescriptor, parameter_map: &ParameterMap) -> (r:
        Result<(), GraphError>)
        ensures
            r is Err <==> old(self).has_node(id@),
            r matches Err(e) ==> e matches GraphError::DuplicateNodeId(d) && d@ == id@,
            r is Err ==> final(self).node_entries() == old(self).node_entries(),
            r is Ok ==> {
                &&& final(self).node_entries().len() == old(self).node_entries().len() + 1
                &&& forall|i: int|
                    0 <= i < old(self).node_entries().len() ==> final(self).node_entries()[i] == old(
                        self,
                    ).node_entries()[i]
                &&& final(self).node_entries().last().0@ == id@
                &&& final(self).node_entries().last().1.module_descriptor == module_descriptor
                &&& final(self).node_entries().last().1.parameter_map@ == parameter_map@
            },
            final(self).edge_models() == old(self).edge_models(),
    {
        proof {
            use_type_invariant(&*self);
        }
        if self.find_node(&id).is_some() {
            return Err(GraphError::DuplicateNodeId(id));
        }
        let ghost old_nodes = self.nodes@;
        let params = parameter_map.duplicate();
        let entry = (id, Node { module_descriptor, parameter_map: params });
        proof {
            let nodes = old_nodes.push(entry);
            assert forall|i: int, j: int| 0 <= i < nodes.len() && 0 <= j < nodes.len() && i != j implies nodes[i].0@
                != nodes[j].0@ by {
                if i < old_nodes.len() && j < old_nodes.len() {
                    assert(nodes[i] == old_nodes[i] && nodes[j] == old_nodes[j]);
                } else if i < old_nodes.len() {
                    assert(nodes[i] == old_nodes[i]);
                } else {
                    assert(nodes[j] == old_nodes[j]);
                }
            }
            let em = self.edge_models();
            reveal(edge_anchored);
            assert forall|k: int| 0 <= k < em.len() implies edge_anchored(nodes, #[trigger] em[k]) by {
                assert(edge_anchored(old_nodes, em[k]));
                let (i, j) = choose|i: int, j: int|
                    0 <= i < old_nodes.len() && 0 <= j < old_nodes.len() && #[trigger] old_nodes[i].0@ == em[k].from
                        && #[trigger] old_nodes[j].0@ == em[k].to && edge_fits(
                        old_nodes[i].1.module_descriptor,
                        old_nodes[j].1.module_descriptor,
                        em[k],
                    );
                assert(nodes[i] == old_nodes[i]);
                assert(nodes[j] == old_nodes[j]);
            }
        }
        let mut taken = ModuleGraph::new();
        std::mem::swap(&mut taken, self);
        let ModuleGraph { nodes, edges } = taken;
        let mut nodes = nodes;
        nodes.push(entry);
        *self = ModuleGraph { nodes, edges };
        Ok(())
    }

    /// Connect an output port on one node to an input port on another,
    /// with `scale` applied to the signal at read time.
    ///
    /// Checks, in order: `scale` is finite and in `[-1.0, 1.0]`, the source
    /// node exists and has the output port, the destination node exists and
    /// has the input port, the two ports carry the same kind of cable (mono
    /// or poly), and the input has no driver yet. The first failing
    /// check determines the error; on success the edge is appended.
    pub fn connect(&mut self, from: &NodeId, output: PortRef, to: &NodeId, input: PortRef, scale: FloatBits) -> (r:
        Result<(), GraphError>)
        ensures
            final(self).node_entries() == old(self).node_entries(),
            r is Ok <==> old(self).connect_outcome(from@, output, to@, input, scale) == ConnectOutcome::Connected,
            r is Ok ==> final(self).edge_models() == old(self).edge_models().push(
                EdgeModel {
                    from: from@,
                    output_name: output.name@,
                    output_index: output.index,
                    to: to@,
                    input_name: input.name@,
                    input_index: input.index,
                    scale,
                },
            ),
            r is Err ==> final(self).edge_models() == old(self).edge_models(),
            r matches Err(e) ==> match old(self).connect_outcome(from@, output, to@, input, scale) {
                ConnectOutcome::ScaleOutOfRange => e matches GraphError::ScaleOutOfRange(s) && s == scale,
                ConnectOutcome::SourceMissing => e matches GraphError::NodeNotFound(n) && n@ == from@,
                ConnectOutcome::OutputMissing => e matches GraphError::OutputPortNotFound { node, port } && node@
                    == from@ && port@ == port_label_spec(output.name@, output.index),
                ConnectOutcome::DestinationMissing => e matches GraphError::NodeNotFound(n) && n@ == to@,
                ConnectOutcome::InputMissing => e matches GraphError::InputPortNotFound { node, port } && node@
                    == to@ && port@ == port_label_spec(input.name@, input.index),
                ConnectOutcome::KindMismatch => e matches GraphError::CableKindMismatch { from: f, output: o, to: t, input: i }
                    && f@ == from@ && o@ == port_label_spec(output.name@, output.index) && t@ == to@ && i@
                    == port_label_spec(input.name@, input.index),
                ConnectOutcome::InputTaken => e matches GraphError::InputAlreadyConnected { node, port } && node@
                    == to@ && port@ == port_label_spec(input.name@, input.index),
                ConnectOutcome::Connected => false,
            },
    {
        proof {
            use_type_invariant(&*self);
        }
        if !scale.unit_scale() {
            return Err(GraphError::ScaleOutOfRange(scale));
        }
        let fi = match self.find_node(from) {
            Some(i) => i,
            None => {
                return Err(GraphError::NodeNotFound(from.clone()));
            },
        };
        let op = match find_port(&self.nodes[fi].1.module_descriptor.outputs, output.name, output.index) {
            Some(p) => p,
            None => {
                return Err(
                    GraphError::OutputPortNotFound { node: from.clone(), port: port_label(output.name, output.index) },
                );
            },
        };
        let ti = match self.find_node(to) {
            Some(i) => i,
            None => {
                return Err(GraphError::NodeNotFound(to.clone()));
            },
        };
        let ip = match find_port(&self.nodes[ti].1.module_descriptor.inputs, input.name, input.index) {
            Some(p) => p,
            None => {
                return Err(
                    GraphError::InputPortNotFound { node: to.clone(), port: port_label(input.name, input.index) },
                );
            },
        };
        if self.nodes[fi].1.module_descriptor.outputs[op].kind != self.nodes[ti].1.module_descriptor.inputs[ip].kind {
            return Err(
                GraphError::CableKindMismatch {
                    from: from.clone(),
                    output: port_label(output.name, output.index),
                    to: to.clone(),
                    input: port_label(input.name, input.index),
                },
            );
        }
        if self.input_is_taken(to, input.name, input.index) {
            return Err(
                GraphError::InputAlreadyConnected { node: to.clone(), port: port_label(input.name, input.index) },
            );
        }
        let input_name = input.name.to_owned();
        let edge = Edge {
            from: from.clone(),
            output_name: output.name.to_owned(),
            output_index: output.index,
            to: to.clone(),
            input_name,
            input_index: input.index,
            scale,
        };
        let ghost old_models = self.edge_models();
        let ghost em = edge@;
        let mut edges: Vec<Edge> = Vec::new();
        std::mem::swap(&mut edges, &mut self.edges);
        assert(edges@.map_values(|e: Edge| e@) == old_models);
        edges.push(edge);
        proof {
            assert(edges@.map_values(|e: Edge| e@) =~= old_models.push(em));
            let m = old_models.push(em);
            assert forall|a: int, b: int|
                0 <= a < m.len() && 0 <= b < m.len() && a != b implies !(m[a].to == m[b].to && m[a].input_name
                == m[b].input_name && m[a].input_index == m[b].input_index) by {
                if a < old_models.len() && b < old_models.len() {
                } else if a < old_models.len() {
                    assert(m[a] == old_models[a]);
                } else {
                    assert(m[b] == old_models[b]);
                }
            }
            let nodes = self.node_entries();
            assert(nodes[fi as int].0@ == from@);
            assert(nodes[ti as int].0@ == to@);
            assert(edge_fits(nodes[fi as int].1.module_descriptor, nodes[ti as int].1.module_descriptor, em));
            reveal(edge_anchored);
            assert(edge_anchored(nodes, em));
            assert forall|k: int| 0 <= k < m.len() implies edge_anchored(nodes, #[trigger] m[k]) by {
                if k < old_models.len() {
                    assert(m[k] == old_models[k]);
                }
            }
        }
        self.edges = edges;
        Ok(())
    }

    /// Remove a module and all edges that start or end at it. No-op if the
    /// id is not present.
    pub fn remove_module(&mut self, id: &NodeId)
        ensures
            old(self).has_node(id@) ==> final(self).node_entries() == old(self).node_entries().remove(
                old(self).node_index(id@),
            ),
            !old(self).has_node(id@) ==> final(self).node_entries() == old(self).node_entries(),
            final(self).edge_models() == old(self).edge_models().filter(avoids_node(id@)),
    {
        proof {
            use_type_invariant(&*self);
        }
        let ghost old_nodes = self.nodes@;
        let ghost old_models = self.edge_models();
        let pos = self.find_node(id);
        let kept = keep_edges(&self.edges, id, None);
        let mut taken = ModuleGraph::new();
        std::mem::swap(&mut taken, self);
        let ModuleGraph { nodes, edges: _ } = taken;
        let mut nodes = nodes;
        if let Some(i) = pos {
            nodes.remove(i);
            proof {
                let r = old_nodes.remove(i as int);
                assert forall|a: int, b: int| 0 <= a < r.len() && 0 <= b < r.len() && a != b implies r[a].0@
                    != r[b].0@ by {
                    let oa = if a < i { a } else { a + 1 };
                    let ob = if b < i { b } else { b + 1 };
                    assert(r[a] == old_nodes[oa] && r[b] == old_nodes[ob]);
                }
            }
        }
        proof {
            lemma_filter_keeps_driven_once(old_models, avoids_node(id@));
            lemma_removal_keeps_anchored(old_nodes, nodes@, pos, old_models, id@);
        }
        *self = ModuleGraph { nodes, edges: kept };
    }

    /// Remove the connection from `from`'s `output` to `to`'s `input`. No-op
    /// if there is no such edge.
    pub fn disconnect(&mut self, from: &NodeId, output: PortRef, to: &NodeId, input: PortRef)
        ensures
            final(self).node_entries() == old(self).node_entries(),
            final(self).edge_models() == old(self).edge_models().filter(other_than_link(from@, output, to@, input)),
    {
        proof {
            use_type_invariant(&*self);
        }
        let ghost old_models = self.edge_models();
        let ghost nodes0 = self.node_entries();
        assert(forall|i: int, j: int|
            0 <= i < nodes0.len() && 0 <= j < nodes0.len() && i != j ==> nodes0[i].0@ != nodes0[j].0@);
        let link = Some((output, to, input));
        let kept = keep_edges(&self.edges, from, link);
        proof {
            assert(link matches Some((o, t, i)) && o == output && t == to && i == input);
            assert(kept@.map_values(|e: Edge| e@) == old_models.filter(other_than_link(from@, output, to@, input)));
            lemma_filter_keeps_driven_once(old_models, other_than_link(from@, output, to@, input));
            assert(inputs_driven_once(kept@.map_values(|e: Edge| e@)));
            assert(self.node_entries() == nodes0);
            lemma_filter_keeps_anchored(nodes0, old_models, other_than_link(from@, output, to@, input));
        }
        let mut taken = ModuleGraph::new();
        std::mem::swap(&mut taken, self);
        let ModuleGraph { nodes, edges: _ } = taken;
        *self = ModuleGraph { nodes, edges: kept };
    }

    /// All node ids, in insertion order.
    pub fn node_ids(&self) -> (r: Vec<NodeId>)
        ensures
            r@.len() == self.node_entries().len(),
            forall|i: int| 0 <= i < r@.len() ==> r@[i]@ == self.node_entries()[i].0@,
    {
        let mut out: Vec<NodeId> = Vec::new();
        let mut i: usize = 0;
        while i < self.nodes.len()
            invariant
                i <= self.node_entries().len(),
                self.nodes@ == self.node_entries(),
                out@.len() == i,
                forall|k: int| 0 <= k < i ==> out@[k]@ == self.node_entries()[k].0@,
            decreases self.node_entries().len() - i,
        {
            out.push(self.nodes[i].0.duplicate());
            i = i + 1;
        }
        out
    }

    /// A snapshot of all edges as `(from, output_name, output_index, to,
    /// input_name, input_index, scale)` tuples, in insertion order.
    pub fn edge_list(&self) -> (r: Vec<(NodeId, String, u32, NodeId, String, u32, FloatBits)>)
        ensures
            r@.len() == self.edge_models().len(),
            forall|i: int|
                0 <= i < r@.len() ==> {
                    let m = #[trigger] self.edge_models()[i];
                    &&& r@[i].0@ == m.from
                    &&& r@[i].1@ == m.output_name
                    &&& r@[i].2 == m.output_index
                    &&& r@[i].3@ == m.to
                    &&& r@[i].4@ == m.input_name
                    &&& r@[i].5 == m.input_index
                    &&& r@[i].6 == m.scale
                },
    {
        let mut out: Vec<(NodeId, String, u32, NodeId, String, u32, FloatBits)> = Vec::new();
        let mut i: usize = 0;
        while i < self.edges.len()
            invariant
                i <= self.edge_models().len(),
                self.edges@.len() == self.edge_models().len(),
                out@.len() == i,
                forall|k: int|
                    0 <= k < i ==> {
                        let m = #[trigger] self.edge_models()[k];
                        &&& out@[k].0@ == m.from
                        &&& out@[k].1@ == m.output_name
                        &&& out@[k].2 == m.output_index
                        &&& out@[k].3@ == m.to
                        &&& out@[k].4@ == m.input_name
                        &&& out@[k].5 == m.input_index
                        &&& out@[k].6 == m.scale
                    },
            decreases self.edge_models().len() - i,
        {
            let e = &self.edges[i];
            assert(self.edge_models()[i as int] == e@);
            out.push(
                (
                    e.from.duplicate(),
                    e.output_name.clone(),
                    e.output_index,
                    e.to.duplicate(),
                    e.input_name.clone(),
                    e.input_index,
                    e.scale,
                ),
            );
            i = i + 1;
        }
        out
    }

    /// Borrow a node by id.
    pub fn get_node(&self, id: &NodeId) -> (r: Option<&Node>)
        ensures
            r is Some <==> self.has_node(id@),
            r matches Some(n) ==> *n == self.node_spec(id@),
    {
        match self.find_node(id) {
            Some(i) => Some(&self.nodes[i].1),
            None => None,
        }
    }

    /// Consume the graph and return its nodes, in insertion order.
    pub fn into_nodes(self) -> (r: Vec<(NodeId, Node)>)
        ensures
            r@ == self.node_entries(),
    {
        self.nodes
    }
}

/// Keeps the edges that do not touch `id` (when `link` is `None`), or that
/// are not exactly the link `id.output -> to.input` (when it is given).
fn keep_edges(edges: &Vec<Edge>, id: &NodeId, link: Option<(PortRef, &NodeId, PortRef)>) -> (r: Vec<Edge>)
    ensures
        link is None ==> r@.map_values(|e: Edge| e@) == edges@.map_values(|e: Edge| e@).filter(avoids_node(id@)),
        link matches Some((output, to, input)) ==> r@.map_values(|e: Edge| e@) == edges@.map_values(
            |e: Edge| e@,
        ).filter(other_than_link(id@, output, to@, input)),
{
    let ghost models = edges@.map_values(|e: Edge| e@);
    let ghost pred = match link {
        None => avoids_node(id@),
        Some((output, to, input)) => other_than_link(id@, output, to@, input),
    };
    let mut out: Vec<Edge> = Vec::new();
    let mut i: usize = 0;
    while i < edges.len()
        invariant
            models == edges@.map_values(|e: Edge| e@),
            i <= edges@.len(),
            out@.map_values(|e: Edge| e@) == models.take(i as int).filter(pred),
            pred == (match link {
                None => avoids_node(id@),
                Some((output, to, input)) => other_than_link(id@, output, to@, input),
            }),
        decreases edges@.len() - i,
    {
        let ghost before = out@.map_values(|e: Edge| e@);
        let e = &edges[i];
        let ghost em = e@;
        assert(em == models[i as int]);
        let keep = match link {
            None => !e.from.same(id) && !e.to.same(id),
            Some((output, to, input)) => {
                let hit = e.from.same(id) && e.output_index == output.index && str_equal(
                    e.output_name.as_str(),
                    output.name,
                ) && e.to.same(to) && e.input_index == input.index && str_equal(e.input_name.as_str(), input.name);
                !hit
            },
        };
        assert(keep == pred(em));
        if keep {
            out.push(e.copy());
        }
        proof {
            assert(models.take(i as int + 1) =~= models.take(i as int).push(em));
            models.take(i as int).lemma_filter_push(em, pred);
            if keep {
                assert(out@.map_values(|e: Edge| e@) =~= before.push(em));
            } else {
                assert(out@.map_values(|e: Edge| e@) =~= before);
            }
        }
        i = i + 1;
    }
    proof {
        assert(models.take(edges@.len() as int) =~= models);
    }
    out
}

/// Every edge of a graph leaves an output port of one of its nodes and
/// enters an input port of one, with a finite scale in `[-1.0, 1.0]`.
pub proof fn lemma_edges_anchored(g: ModuleGraph)
    requires
        g.wf(),
    ensures
        forall|k: int|
            0 <= k < g.edge_models().len() ==> {
                let e = #[trigger] g.edge_models()[k];
                &&& g.has_node(e.from)
                &&& has_port(g.node_spec(e.from).module_descriptor.outputs@, e.output_name, e.output_index)
                &&& g.has_node(e.to)
                &&& has_port(g.node_spec(e.to).module_descriptor.inputs@, e.input_name, e.input_index)
                &&& port_kind(g.node_spec(e.from).module_descriptor.outputs@, e.output_name, e.output_index)
                    == port_kind(g.node_spec(e.to).module_descriptor.inputs@, e.input_name, e.input_index)
                &&& e.scale.is_unit_scale()
            },
{
    let nodes = g.node_entries();
    reveal(edge_anchored);
    assert forall|k: int| 0 <= k < g.edge_models().len() implies {
        let e = #[trigger] g.edge_models()[k];
        &&& g.has_node(e.from)
        &&& has_port(g.node_spec(e.from).module_descriptor.outputs@, e.output_name, e.output_index)
        &&& g.has_node(e.to)
        &&& has_port(g.node_spec(e.to).module_descriptor.inputs@, e.input_name, e.input_index)
        &&& port_kind(g.node_spec(e.from).module_descriptor.outputs@, e.output_name, e.output_index)
            == port_kind(g.node_spec(e.to).module_descriptor.inputs@, e.input_name, e.input_index)
        &&& e.scale.is_unit_scale()
    } by {
        let e = g.edge_models()[k];
        assert(edge_anchored(nodes, e));
        let (i, j) = choose|i: int, j: int|
            0 <= i < nodes.len() && 0 <= j < nodes.len() && #[trigger] nodes[i].0@ == e.from && #[trigger] nodes[j].0@
                == e.to && edge_fits(nodes[i].1.module_descriptor, nodes[j].1.module_descriptor, e);
        assert(g.has_node(e.from));
        assert(g.node_index(e.from) == i);
        assert(g.has_node(e.to));
        assert(g.node_index(e.to) == j);
    }
}

/// Filtering edges keeps them anchored.
proof fn lemma_filter_keeps_anchored(nodes: Seq<(NodeId, Node)>, edges: Seq<EdgeModel>, pred: spec_fn(EdgeModel) -> bool)
    requires
        forall|k: int| 0 <= k < edges.len() ==> edge_anchored(nodes, #[trigger] edges[k]),
    ensures
        forall|k: int| 0 <= k < edges.filter(pred).len() ==> edge_anchored(nodes, #[trigger] edges.filter(pred)[k]),
{
    let f = edges.filter(pred);
    assert forall|k: int| 0 <= k < f.len() implies edge_anchored(nodes, #[trigger] f[k]) by {
        assert(f.contains(f[k]));
        edges.lemma_filter_contains_rev(pred, f[k]);
        let t = choose|t: int| 0 <= t < edges.len() && edges[t] == f[k];
        assert(edge_anchored(nodes, edges[t]));
    }
}

/// Removing node `id` and the edges that touch it keeps the other edges
/// anchored.
proof fn lemma_removal_keeps_anchored(
    old_nodes: Seq<(NodeId, Node)>,
    nodes: Seq<(NodeId, Node)>,
    pos: Option<usize>,
    edges: Seq<EdgeModel>,
    id: Seq<char>,
)
    requires
        forall|k: int| 0 <= k < edges.len() ==> edge_anchored(old_nodes, #[trigger] edges[k]),
        pos is None ==> nodes == old_nodes,
        pos matches Some(p) ==> p < old_nodes.len() && old_nodes[p as int].0@ == id && nodes == old_nodes.remove(
            p as int,
        ),
    ensures
        forall|k: int|
            0 <= k < edges.filter(avoids_node(id)).len() ==> edge_anchored(
                nodes,
                #[trigger] edges.filter(avoids_node(id))[k],
            ),
{
    let f = edges.filter(avoids_node(id));
    assert forall|k: int| 0 <= k < f.len() implies edge_anchored(nodes, #[trigger] f[k]) by {
        let e = f[k];
        assert(f.contains(e));
        edges.lemma_filter_contains_rev(avoids_node(id), e);
        edges.filter_lemma(avoids_node(id));
        assert(avoids_node(id)(e));
        let t = choose|t: int| 0 <= t < edges.len() && edges[t] == e;
        assert(edge_anchored(old_nodes, edges[t]));
        if let Some(p) = pos {
            lemma_edge_survives_removal(old_nodes, p as int, e);
        }
    }
}

/// An edge that avoids the removed node stays anchored.
#[verifier::spinoff_prover]
#[verifier::rlimit(40)]
proof fn lemma_edge_survives_removal(old_nodes: Seq<(NodeId, Node)>, p: int, e: EdgeModel)
    requires
        0 <= p < old_nodes.len(),
        edge_anchored(old_nodes, e),
        e.from != old_nodes[p].0@,
        e.to != old_nodes[p].0@,
    ensures
        edge_anchored(old_nodes.remove(p), e),
{
    reveal(edge_anchored);
    let nodes = old_nodes.remove(p);
    let (i, j) = choose|i: int, j: int|
        0 <= i < old_nodes.len() && 0 <= j < old_nodes.len() && #[trigger] old_nodes[i].0@ == e.from
            && #[trigger] old_nodes[j].0@ == e.to && edge_fits(
            old_nodes[i].1.module_descriptor,
            old_nodes[j].1.module_descriptor,
            e,
        );
    assert(i != p);
    assert(j != p);
    let ni = if i < p { i } else { i - 1 };
    let nj = if j < p { j } else { j - 1 };
    assert(nodes[ni] == old_nodes[i]);
    assert(nodes[nj] == old_nodes[j]);
    assert(nodes[ni].0@ == e.from);
    assert(nodes[nj].0@ == e.to);
    assert(edge_fits(nodes[ni].1.module_descriptor, nodes[nj].1.module_descriptor, e));
}

proof fn lemma_filter_keeps_driven_once(edges: Seq<EdgeModel>, pred: spec_fn(EdgeModel) -> bool)
    requires
        inputs_driven_once(edges),
    ensures
        inputs_driven_once(edges.filter(pred)),
    decreases edges.len(),
{
    reveal(Seq::filter);
    if edges.len() > 0 {
        let init = edges.drop_last();
        assert(inputs_driven_once(init)) by {
            assert forall|a: int, b: int|
                0 <= a < init.len() && 0 <= b < init.len() && a != b implies !(init[a].to == init[b].to
                && init[a].input_name == init[b].input_name && init[a].input_index == init[b].input_index) by {
                assert(init[a] == edges[a] && init[b] == edges[b]);
            }
        }
        lemma_filter_keeps_driven_once(init, pred);
        let f = init.filter(pred);
        if pred(edges.last()) {
            let g = f.push(edges.last());
            assert forall|a: int, b: int|
                0 <= a < g.len() && 0 <= b < g.len() && a != b implies !(g[a].to == g[b].to && g[a].input_name
                == g[b].input_name && g[a].input_index == g[b].input_index) by {
                if a < f.len() && b < f.len() {
                } else {
                    let other = if a < f.len() { a } else { b };
                    assert(f.contains(f[other]));
                    init.lemma_filter_contains_rev(pred, f[other]);
                    let k = choose|k: int| 0 <= k < init.len() && init[k] == f[other];
                    assert(init[k] == edges[k]);
                    assert(g[a] == f[other] || g[b] == f[other]);
                }
            }
        }
    }
}


/// Filtering a sequence whose items all pass leaves it as it is.
proof fn lemma_filter_keeps_all<A>(s: Seq<A>, p: spec_fn(A) -> bool)
    requires
        forall|i: int| 0 <= i < s.len() ==> p(#[trigger] s[i]),
    ensures
        s.filter(p) == s,
    decreases s.len(),
{
    reveal(Seq::filter);
    if s.len() > 0 {
        lemma_filter_keeps_all(s.drop_last(), p);
        assert(s.drop_last().push(s.last()) =~= s);
    }
}

/// Some edge of `edges` is the cable from `from`'s `output` to `to`'s `input`.
pub open spec fn has_link(edges: Seq<EdgeModel>, from: Seq<char>, output: PortRef, to: Seq<char>, input: PortRef) -> bool {
    exists|k: int| 0 <= k < edges.len() && !(other_than_link(from, output, to, input))(#[trigger] edges[k])
}

/// Disconnecting is idempotent and frees the input: once `disconnect` has
/// taken graph `g0` to `g1`, the same `disconnect` takes `g1` to a graph
/// `g2` with the same nodes and edges; and when `g0` had that cable,
/// connecting the same two ports of `g1` again with a scale in range
/// succeeds.
pub proof fn lemma_disconnect_idempotent(
    g0: ModuleGraph,
    g1: ModuleGraph,
    g2: ModuleGraph,
    from: Seq<char>,
    output: PortRef,
    to: Seq<char>,
    input: PortRef,
    scale: FloatBits,
)
    requires
        g0.wf(),
        g1.node_entries() == g0.node_entries(),
        g1.edge_models() == g0.edge_models().filter(other_than_link(from, output, to, input)),
        g2.node_entries() == g1.node_entries(),
        g2.edge_models() == g1.edge_models().filter(other_than_link(from, output, to, input)),
    ensures
        g2.node_entries() == g1.node_entries(),
        g2.edge_models() == g1.edge_models(),
        has_link(g0.edge_models(), from, output, to, input) && scale.is_unit_scale() ==> g1.connect_outcome(
            from,
            output,
            to,
            input,
            scale,
        ) == ConnectOutcome::Connected,
{
    let p = other_than_link(from, output, to, input);
    let e0 = g0.edge_models();
    let e1 = g1.edge_models();
    assert forall|i: int| 0 <= i < e1.len() implies p(#[trigger] e1[i]) by {
        e0.lemma_filter_pred(p, i);
    }
    lemma_filter_keeps_all(e1, p);
    if has_link(e0, from, output, to, input) && scale.is_unit_scale() {
        let k = choose|k: int| 0 <= k < e0.len() && !p(#[trigger] e0[k]);
        lemma_edges_anchored(g0);
        let e = e0[k];
        assert(e.from == from && e.output_name == output.name@ && e.output_index == output.index && e.to == to
            && e.input_name == input.name@ && e.input_index == input.index);
        assert(g1.has_node(from) == g0.has_node(from));
        assert(g1.node_spec(from) == g0.node_spec(from));
        assert(g1.node_spec(to) == g0.node_spec(to));
        if input_taken(e1, to, input.name@, input.index) {
            let a = choose|a: int|
                0 <= a < e1.len() && e1[a].to == to && e1[a].input_name == input.name@ && e1[a].input_index
                    == input.index;
            assert(e1.contains(e1[a]));
            e0.lemma_filter_contains_rev(p, e1[a]);
            let b = choose|b: int| 0 <= b < e0.len() && e0[b] == e1[a];
            e0.lemma_filter_pred(p, a);
            assert(b != k);
            assert(false);
        }
    }
}

} // verus!
