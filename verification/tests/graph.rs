use patches::float_bits::FloatBits;
use patches::graph::{GraphError, ModuleGraph, NodeId};
use patches::modules::{CableKind, ModuleDescriptor, ModuleShape, PortDescriptor, PortRef};
use patches::parameter_map::ParameterMap;

fn f(x: f64) -> FloatBits {
    FloatBits(x.to_bits())
}

fn stub_desc(inputs: &[&'static str], outputs: &[&'static str]) -> ModuleDescriptor {
    ModuleDescriptor {
        module_name: "stub",
        shape: ModuleShape { channels: 0, length: 0 },
        inputs: inputs.iter().map(|&n| PortDescriptor { name: n, index: 0, kind: CableKind::Mono }).collect(),
        outputs: outputs.iter().map(|&n| PortDescriptor { name: n, index: 0, kind: CableKind::Mono }).collect(),
        parameters: vec![],
        is_sink: false,
    }
}

fn pref(name: &'static str) -> PortRef {
    PortRef { name, index: 0 }
}

fn no_params() -> ParameterMap {
    ParameterMap::new()
}

#[test]
fn add_module_succeeds() {
    let mut g = ModuleGraph::new();
    g.add_module(NodeId::new("a"), stub_desc(&[], &[]), &no_params()).unwrap();
    g.add_module(NodeId::new("b"), stub_desc(&[], &[]), &no_params()).unwrap();
    assert_eq!(g.node_ids().len(), 2);
}

#[test]
fn add_module_duplicate_id_errors() {
    let mut g = ModuleGraph::new();
    g.add_module(NodeId::new("a"), stub_desc(&[], &[]), &no_params()).unwrap();
    assert!(matches!(
        g.add_module(NodeId::new("a"), stub_desc(&[], &[]), &no_params()),
        Err(GraphError::DuplicateNodeId(_))
    ));
}

#[test]
fn connect_valid_ports_succeeds() {
    let mut g = ModuleGraph::new();
    let src = NodeId::new("src");
    let dst = NodeId::new("dst");
    g.add_module(src.clone(), stub_desc(&[], &["out"]), &no_params()).unwrap();
    g.add_module(dst.clone(), stub_desc(&["in"], &[]), &no_params()).unwrap();
    assert!(g.connect(&src, pref("out"), &dst, pref("in"), f(1.0)).is_ok());
}

#[test]
fn connect_unknown_source_node_errors() {
    let mut g = ModuleGraph::new();
    let dst = NodeId::new("dst");
    let ghost = NodeId::new("ghost");
    g.add_module(dst.clone(), stub_desc(&["in"], &[]), &no_params()).unwrap();
    g.add_module(ghost.clone(), stub_desc(&[], &["out"]), &no_params()).unwrap();
    g.remove_module(&ghost);
    assert!(matches!(
        g.connect(&ghost, pref("out"), &dst, pref("in"), f(1.0)),
        Err(GraphError::NodeNotFound(_))
    ));
}

#[test]
fn connect_unknown_dest_node_errors() {
    let mut g = ModuleGraph::new();
    let src = NodeId::new("src");
    let ghost = NodeId::new("ghost");
    g.add_module(src.clone(), stub_desc(&[], &["out"]), &no_params()).unwrap();
    g.add_module(ghost.clone(), stub_desc(&["in"], &[]), &no_params()).unwrap();
    g.remove_module(&ghost);
    assert!(matches!(
        g.connect(&src, pref("out"), &ghost, pref("in"), f(1.0)),
        Err(GraphError::NodeNotFound(_))
    ));
}

#[test]
fn connect_bad_output_port_errors() {
    let mut g = ModuleGraph::new();
    let src = NodeId::new("src");
    let dst = NodeId::new("dst");
    g.add_module(src.clone(), stub_desc(&[], &["out"]), &no_params()).unwrap();
    g.add_module(dst.clone(), stub_desc(&["in"], &[]), &no_params()).unwrap();
    assert!(matches!(
        g.connect(&src, pref("nope"), &dst, pref("in"), f(1.0)),
        Err(GraphError::OutputPortNotFound { .. })
    ));
}

#[test]
fn connect_bad_input_port_errors() {
    let mut g = ModuleGraph::new();
    let src = NodeId::new("src");
    let dst = NodeId::new("dst");
    g.add_module(src.clone(), stub_desc(&[], &["out"]), &no_params()).unwrap();
    g.add_module(dst.clone(), stub_desc(&["in"], &[]), &no_params()).unwrap();
    assert!(matches!(
        g.connect(&src, pref("out"), &dst, pref("nope"), f(1.0)),
        Err(GraphError::InputPortNotFound { .. })
    ));
}

#[test]
fn connect_input_already_connected_errors() {
    let mut g = ModuleGraph::new();
    let src1 = NodeId::new("src1");
    let src2 = NodeId::new("src2");
    let dst = NodeId::new("dst");
    g.add_module(src1.clone(), stub_desc(&[], &["out"]), &no_params()).unwrap();
    g.add_module(src2.clone(), stub_desc(&[], &["out"]), &no_params()).unwrap();
    g.add_module(dst.clone(), stub_desc(&["in"], &[]), &no_params()).unwrap();
    g.connect(&src1, pref("out"), &dst, pref("in"), f(1.0)).unwrap();
    assert!(matches!(
        g.connect(&src2, pref("out"), &dst, pref("in"), f(1.0)),
        Err(GraphError::InputAlreadyConnected { .. })
    ));
}

#[test]
fn fanout_one_output_to_multiple_inputs_succeeds() {
    let mut g = ModuleGraph::new();
    let src = NodeId::new("src");
    let dst1 = NodeId::new("dst1");
    let dst2 = NodeId::new("dst2");
    g.add_module(src.clone(), stub_desc(&[], &["out"]), &no_params()).unwrap();
    g.add_module(dst1.clone(), stub_desc(&["in"], &[]), &no_params()).unwrap();
    g.add_module(dst2.clone(), stub_desc(&["in"], &[]), &no_params()).unwrap();
    assert!(g.connect(&src, pref("out"), &dst1, pref("in"), f(1.0)).is_ok());
    assert!(g.connect(&src, pref("out"), &dst2, pref("in"), f(1.0)).is_ok());
}

#[test]
fn cycles_are_permitted() {
    let mut g = ModuleGraph::new();
    let a = NodeId::new("a");
    let b = NodeId::new("b");
    g.add_module(a.clone(), stub_desc(&["in"], &["out"]), &no_params()).unwrap();
    g.add_module(b.clone(), stub_desc(&["in"], &["out"]), &no_params()).unwrap();
    assert!(g.connect(&a, pref("out"), &b, pref("in"), f(1.0)).is_ok());
    assert!(g.connect(&b, pref("out"), &a, pref("in"), f(1.0)).is_ok());
}

#[test]
fn remove_module_clears_node_and_its_edges() {
    let mut g = ModuleGraph::new();
    let a = NodeId::new("a");
    let b = NodeId::new("b");
    let c = NodeId::new("c");
    g.add_module(a.clone(), stub_desc(&[], &["out"]), &no_params()).unwrap();
    g.add_module(b.clone(), stub_desc(&["in"], &["out"]), &no_params()).unwrap();
    g.add_module(c.clone(), stub_desc(&["in"], &[]), &no_params()).unwrap();
    g.connect(&a, pref("out"), &b, pref("in"), f(1.0)).unwrap();
    g.connect(&b, pref("out"), &c, pref("in"), f(1.0)).unwrap();

    g.remove_module(&b);

    assert!(g.connect(&a, pref("out"), &c, pref("in"), f(1.0)).is_ok());
}

#[test]
fn disconnect_removes_edge_and_is_idempotent() {
    let mut g = ModuleGraph::new();
    let src = NodeId::new("src");
    let dst = NodeId::new("dst");
    g.add_module(src.clone(), stub_desc(&[], &["out"]), &no_params()).unwrap();
    g.add_module(dst.clone(), stub_desc(&["in"], &[]), &no_params()).unwrap();
    g.connect(&src, pref("out"), &dst, pref("in"), f(1.0)).unwrap();

    g.disconnect(&src, pref("out"), &dst, pref("in"));
    assert!(g.connect(&src, pref("out"), &dst, pref("in"), f(1.0)).is_ok());

    g.disconnect(&src, pref("out"), &dst, pref("in"));
    g.disconnect(&src, pref("out"), &dst, pref("in"));
}

#[test]
fn connect_scale_out_of_range_errors() {
    let mut g = ModuleGraph::new();
    let src = NodeId::new("src");
    let dst = NodeId::new("dst");
    g.add_module(src.clone(), stub_desc(&[], &["out"]), &no_params()).unwrap();
    g.add_module(dst.clone(), stub_desc(&["in"], &[]), &no_params()).unwrap();

    assert!(matches!(
        g.connect(&src, pref("out"), &dst, pref("in"), f(1.5)),
        Err(GraphError::ScaleOutOfRange(_))
    ));
    assert!(matches!(
        g.connect(&src, pref("out"), &dst, pref("in"), f(-2.0)),
        Err(GraphError::ScaleOutOfRange(_))
    ));
    assert!(matches!(
        g.connect(&src, pref("out"), &dst, pref("in"), f(f64::NAN)),
        Err(GraphError::ScaleOutOfRange(_))
    ));
    assert!(matches!(
        g.connect(&src, pref("out"), &dst, pref("in"), f(f64::INFINITY)),
        Err(GraphError::ScaleOutOfRange(_))
    ));
    assert!(g.connect(&src, pref("out"), &dst, pref("in"), f(-1.0)).is_ok());
}

#[test]
fn connect_scale_boundary_values_are_valid() {
    let mut g = ModuleGraph::new();
    let src = NodeId::new("src");
    let dst1 = NodeId::new("dst1");
    let dst2 = NodeId::new("dst2");
    g.add_module(src.clone(), stub_desc(&[], &["out"]), &no_params()).unwrap();
    g.add_module(dst1.clone(), stub_desc(&["in"], &[]), &no_params()).unwrap();
    g.add_module(dst2.clone(), stub_desc(&["in"], &[]), &no_params()).unwrap();
    assert!(g.connect(&src, pref("out"), &dst1, pref("in"), f(1.0)).is_ok());
    assert!(g.connect(&src, pref("out"), &dst2, pref("in"), f(-1.0)).is_ok());
}

#[test]
fn port_ref_index_distinguishes_same_named_ports() {
    let desc = ModuleDescriptor {
        module_name: "stub",
        shape: ModuleShape { channels: 0, length: 0 },
        inputs: vec![
            PortDescriptor { name: "in", index: 0, kind: CableKind::Mono },
            PortDescriptor { name: "in", index: 1, kind: CableKind::Mono },
        ],
        outputs: vec![],
        parameters: vec![],
        is_sink: false,
    };
    let src = NodeId::new("src");
    let dst = NodeId::new("dst");
    let mut g = ModuleGraph::new();
    g.add_module(src.clone(), stub_desc(&[], &["out"]), &no_params()).unwrap();
    g.add_module(dst.clone(), desc, &no_params()).unwrap();

    assert!(g.connect(&src, pref("out"), &dst, PortRef { name: "in", index: 0 }, f(1.0)).is_ok());
    let src2 = NodeId::new("src2");
    g.add_module(src2.clone(), stub_desc(&[], &["out"]), &no_params()).unwrap();
    assert!(g.connect(&src2, pref("out"), &dst, PortRef { name: "in", index: 1 }, f(1.0)).is_ok());
}

// Laws, on concrete values.

#[test]
fn connect_then_disconnect_restores_edges() {
    let mut g = ModuleGraph::new();
    let src = NodeId::new("src");
    let dst = NodeId::new("dst");
    g.add_module(src.clone(), stub_desc(&[], &["out"]), &no_params()).unwrap();
    g.add_module(dst.clone(), stub_desc(&["in"], &[]), &no_params()).unwrap();
    assert_eq!(g.edge_list().len(), 0);
    g.connect(&src, pref("out"), &dst, pref("in"), f(0.5)).unwrap();
    assert_eq!(g.edge_list().len(), 1);
    g.disconnect(&src, pref("out"), &dst, pref("in"));
    assert_eq!(g.edge_list().len(), 0);
}

#[test]
fn failed_connect_leaves_graph_unchanged() {
    let mut g = ModuleGraph::new();
    let src = NodeId::new("src");
    let dst = NodeId::new("dst");
    g.add_module(src.clone(), stub_desc(&[], &["out"]), &no_params()).unwrap();
    g.add_module(dst.clone(), stub_desc(&["in"], &[]), &no_params()).unwrap();
    let err = g.connect(&src, pref("out"), &dst, PortRef { name: "in", index: 3 }, f(1.0)).unwrap_err();
    match err {
        GraphError::InputPortNotFound { node, port } => {
            assert_eq!(node.as_str(), "dst");
            assert_eq!(port, "in/3");
        }
        other => panic!("unexpected error {other:?}"),
    }
    assert_eq!(g.edge_list().len(), 0);
    assert_eq!(g.node_ids().len(), 2);
}

#[test]
fn edge_list_reports_ports_and_scale() {
    let mut g = ModuleGraph::new();
    let src = NodeId::new("src");
    let dst = NodeId::new("dst");
    g.add_module(src.clone(), stub_desc(&[], &["out"]), &no_params()).unwrap();
    g.add_module(dst.clone(), stub_desc(&["in"], &[]), &no_params()).unwrap();
    g.connect(&src, pref("out"), &dst, pref("in"), f(-0.25)).unwrap();
    let edges = g.edge_list();
    assert_eq!(edges[0].0.as_str(), "src");
    assert_eq!(edges[0].1, "out");
    assert_eq!(edges[0].2, 0);
    assert_eq!(edges[0].3.as_str(), "dst");
    assert_eq!(edges[0].4, "in");
    assert_eq!(edges[0].5, 0);
    assert_eq!(edges[0].6, f(-0.25));
}

#[test]
fn node_ids_keep_insertion_order() {
    let mut g = ModuleGraph::default();
    g.add_module(NodeId::new("z"), stub_desc(&[], &[]), &no_params()).unwrap();
    g.add_module(NodeId::new("a"), stub_desc(&[], &[]), &no_params()).unwrap();
    let ids: Vec<String> = g.node_ids().iter().map(|i| i.as_str().to_string()).collect();
    assert_eq!(ids, vec!["z".to_string(), "a".to_string()]);
}

#[test]
fn kind_mismatch_at_connect() {
    let mut graph = ModuleGraph::new();
    let osc = ModuleDescriptor {
        module_name: "Osc",
        shape: ModuleShape { channels: 0, length: 0 },
        inputs: vec![],
        outputs: vec![PortDescriptor { name: "sine", index: 0, kind: CableKind::Mono }],
        parameters: vec![],
        is_sink: false,
    };
    let probe = ModuleDescriptor {
        module_name: "PolyProbe",
        shape: ModuleShape { channels: 0, length: 0 },
        inputs: vec![PortDescriptor { name: "poly_in", index: 0, kind: CableKind::Poly }],
        outputs: vec![PortDescriptor { name: "poly_out", index: 0, kind: CableKind::Poly }],
        parameters: vec![],
        is_sink: false,
    };
    graph.add_module(NodeId::new("osc"), osc, &no_params()).unwrap();
    graph.add_module(NodeId::new("probe"), probe, &no_params()).unwrap();
    let result = graph.connect(&NodeId::new("osc"), pref("sine"), &NodeId::new("probe"), pref("poly_in"), f(1.0));
    match result {
        Err(GraphError::CableKindMismatch { from, output, to, input }) => {
            assert_eq!(from.as_str(), "osc");
            assert_eq!(output, "sine/0");
            assert_eq!(to.as_str(), "probe");
            assert_eq!(input, "poly_in/0");
        }
        other => panic!("expected CableKindMismatch, got {other:?}"),
    }
    assert!(graph.edge_list().is_empty());
}
