use patches::float_bits::FloatBits;
use patches::graph::{ModuleGraph, NodeId};
use patches::graph_index::{build_input_buffer_map, EdgeTuple, GraphIndex, ResolvedGraph};
use patches::modules::{CableKind, ModuleDescriptor, ModuleShape, PortDescriptor};
use patches::parameter_map::ParameterMap;
use patches::planner::PlanError;

fn f(x: f64) -> FloatBits {
    FloatBits(x.to_bits())
}

fn two_node_graph() -> (ModuleGraph, NodeId, NodeId) {
    let src_desc = ModuleDescriptor {
        module_name: "Src",
        shape: ModuleShape { channels: 0, length: 0 },
        inputs: vec![],
        outputs: vec![PortDescriptor { name: "out", index: 0, kind: CableKind::Mono }],
        parameters: vec![],
        is_sink: false,
    };
    let dst_desc = ModuleDescriptor {
        module_name: "Dst",
        shape: ModuleShape { channels: 0, length: 0 },
        inputs: vec![PortDescriptor { name: "in", index: 0, kind: CableKind::Mono }],
        outputs: vec![],
        parameters: vec![],
        is_sink: true,
    };
    let mut graph = ModuleGraph::new();
    graph.add_module(NodeId::new("src"), src_desc, &ParameterMap::new()).unwrap();
    graph.add_module(NodeId::new("dst"), dst_desc, &ParameterMap::new()).unwrap();
    (graph, NodeId::new("src"), NodeId::new("dst"))
}

fn two_port_desc() -> ModuleDescriptor {
    ModuleDescriptor {
        module_name: "Test",
        shape: ModuleShape { channels: 0, length: 0 },
        inputs: vec![
            PortDescriptor { name: "in", index: 0, kind: CableKind::Mono },
            PortDescriptor { name: "in", index: 1, kind: CableKind::Mono },
        ],
        outputs: vec![
            PortDescriptor { name: "out", index: 0, kind: CableKind::Mono },
            PortDescriptor { name: "out", index: 1, kind: CableKind::Mono },
        ],
        parameters: vec![],
        is_sink: false,
    }
}

fn edge(from: &NodeId, out: &str, oi: u32, to: &NodeId, inp: &str, ii: u32, scale: f64) -> EdgeTuple {
    (from.clone(), out.to_string(), oi, to.clone(), inp.to_string(), ii, f(scale))
}

#[test]
fn graph_index_resolve_unconnected_port_returns_zero_buffer_scale_one() {
    let (graph, _, dst_id) = two_node_graph();
    let dst_desc = graph.get_node(&dst_id).unwrap().module_descriptor.clone();
    let empty_graph = ModuleGraph::new();
    let index = GraphIndex::with_edges(&empty_graph, Vec::new());
    let resolved = ResolvedGraph::from_map(&index, Vec::new());

    let result = resolved.resolve_input_buffers(&dst_desc, &dst_id);
    assert_eq!(result, vec![(0, f(1.0))], "unconnected port must map to (0, 1.0)");
}

#[test]
fn graph_index_resolve_connected_port_returns_correct_buffer_and_scale() {
    let (graph, _src_id, dst_id) = two_node_graph();
    let dst_desc = graph.get_node(&dst_id).unwrap().module_descriptor.clone();

    let map = vec![((dst_id.clone(), "in".to_string(), 0u32), (7usize, f(0.5)))];
    let empty_graph = ModuleGraph::new();
    let index = GraphIndex::with_edges(&empty_graph, Vec::new());
    let resolved = ResolvedGraph::from_map(&index, map);

    let result = resolved.resolve_input_buffers(&dst_desc, &dst_id);
    assert_eq!(result, vec![(7, f(0.5))], "connected port must resolve to buffer 7 scale 0.5");
}

#[test]
fn graph_index_resolve_multiple_ports_independently() {
    let dst_desc_data = ModuleDescriptor {
        module_name: "Dst2",
        shape: ModuleShape { channels: 0, length: 0 },
        inputs: vec![
            PortDescriptor { name: "x", index: 0, kind: CableKind::Mono },
            PortDescriptor { name: "y", index: 0, kind: CableKind::Mono },
        ],
        outputs: vec![],
        parameters: vec![],
        is_sink: true,
    };
    let mut graph = ModuleGraph::new();
    graph.add_module(NodeId::new("dst2"), dst_desc_data, &ParameterMap::new()).unwrap();
    let dst_id = NodeId::new("dst2");
    let dst_desc = graph.get_node(&dst_id).unwrap().module_descriptor.clone();

    let map = vec![
        ((dst_id.clone(), "x".to_string(), 0u32), (3usize, f(1.0))),
        ((dst_id.clone(), "y".to_string(), 0u32), (4usize, f(2.0))),
    ];
    let empty_graph = ModuleGraph::new();
    let index = GraphIndex::with_edges(&empty_graph, Vec::new());
    let resolved = ResolvedGraph::from_map(&index, map);

    let result = resolved.resolve_input_buffers(&dst_desc, &dst_id);
    assert_eq!(result, vec![(3, f(1.0)), (4, f(2.0))]);
}

#[test]
fn graph_index_build_input_buffer_map_missing_source_node_returns_internal_error() {
    let (graph, _src_id, dst_id) = two_node_graph();
    let ghost_id = NodeId::new("ghost");
    let edges = vec![edge(&ghost_id, "out", 0, &dst_id, "in", 0, 1.0)];
    let output_buf = Vec::new();

    let result = build_input_buffer_map(&edges, &output_buf, &graph);
    assert!(matches!(result, Err(PlanError::Internal(_))), "missing source node must return InternalError");
}

#[test]
fn graph_index_build_input_buffer_map_missing_buffer_returns_internal_error() {
    let (graph, src_id, dst_id) = two_node_graph();
    let edges = vec![edge(&src_id, "out", 0, &dst_id, "in", 0, 1.0)];
    let output_buf = Vec::new();

    let result = build_input_buffer_map(&edges, &output_buf, &graph);
    assert!(matches!(result, Err(PlanError::Internal(_))), "missing buffer allocation must return InternalError");
}

#[test]
fn graph_index_connectivity_no_edges_all_false() {
    let desc = two_port_desc();
    let node = NodeId::new("n");
    let graph = ModuleGraph::new();
    let index = GraphIndex::with_edges(&graph, Vec::new());
    let c = index.compute_connectivity(&desc, &node);
    assert!(!c.inputs[0] && !c.inputs[1] && !c.outputs[0] && !c.outputs[1]);
}

#[test]
fn graph_index_connectivity_single_input_connected() {
    let desc = two_port_desc();
    let node = NodeId::new("n");
    let other = NodeId::new("src");
    let edges = vec![edge(&other, "out", 0, &node, "in", 0, 1.0)];
    let graph = ModuleGraph::new();
    let index = GraphIndex::with_edges(&graph, edges);
    let c = index.compute_connectivity(&desc, &node);
    assert!(c.inputs[0]);
    assert!(!c.inputs[1] && !c.outputs[0] && !c.outputs[1]);
}

#[test]
fn graph_index_connectivity_single_output_connected() {
    let desc = two_port_desc();
    let node = NodeId::new("n");
    let other = NodeId::new("dst");
    let edges = vec![edge(&node, "out", 1, &other, "in", 0, 1.0)];
    let graph = ModuleGraph::new();
    let index = GraphIndex::with_edges(&graph, edges);
    let c = index.compute_connectivity(&desc, &node);
    assert!(c.outputs[1]);
    assert!(!c.inputs[0] && !c.inputs[1] && !c.outputs[0]);
}

#[test]
fn graph_index_connectivity_multiple_ports_correct_subset() {
    let desc = two_port_desc();
    let node = NodeId::new("n");
    let src = NodeId::new("src");
    let dst = NodeId::new("dst");
    let edges = vec![edge(&src, "out", 0, &node, "in", 1, 1.0), edge(&node, "out", 0, &dst, "in", 0, 1.0)];
    let graph = ModuleGraph::new();
    let index = GraphIndex::with_edges(&graph, edges);
    let c = index.compute_connectivity(&desc, &node);
    assert!(!c.inputs[0] && c.inputs[1]);
    assert!(c.outputs[0] && !c.outputs[1]);
}

#[test]
fn graph_index_connectivity_edges_for_other_nodes_ignored() {
    let desc = two_port_desc();
    let node = NodeId::new("n");
    let a = NodeId::new("a");
    let b = NodeId::new("b");
    let edges = vec![edge(&a, "out", 0, &b, "in", 0, 1.0)];
    let graph = ModuleGraph::new();
    let index = GraphIndex::with_edges(&graph, edges);
    let c = index.compute_connectivity(&desc, &node);
    assert!(!c.inputs[0] && !c.inputs[1] && !c.outputs[0] && !c.outputs[1]);
}

#[test]
fn graph_index_connectivity_no_false_positive_same_name_different_index() {
    let desc = two_port_desc();
    let node = NodeId::new("n");
    let src = NodeId::new("src");
    let edges = vec![edge(&src, "out", 0, &node, "in", 1, 1.0)];
    let graph = ModuleGraph::new();
    let index = GraphIndex::with_edges(&graph, edges);
    let c = index.compute_connectivity(&desc, &node);
    assert!(!c.inputs[0], "in/0 must not be marked");
    assert!(c.inputs[1], "in/1 must be marked");
}

#[test]
fn resolved_graph_build_maps_each_edge_to_its_source_buffer() {
    let (graph, src_id, dst_id) = two_node_graph();
    let mut g = graph;
    g.connect(&src_id, patches::modules::PortRef { name: "out", index: 0 }, &dst_id, patches::modules::PortRef { name: "in", index: 0 }, f(0.25)).unwrap();
    let index = GraphIndex::build(&g);
    let output_buf = vec![((src_id.clone(), 0usize), 9usize)];
    let resolved = ResolvedGraph::build(&index, &output_buf).unwrap();
    let dst_desc = g.get_node(&dst_id).unwrap().module_descriptor.clone();
    assert_eq!(resolved.resolve_input_buffers(&dst_desc, &dst_id), vec![(9, f(0.25))]);
}
