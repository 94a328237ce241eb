use patches::float_bits::FloatBits;
use patches::graph::{ModuleGraph, NodeId};
use patches::graph_index::GraphIndex;
use patches::instance_id::{IdSource, InstanceId};
use patches::modules::{CableKind, ModuleDescriptor, ModuleShape, ParameterValue, PortConnectivity, PortDescriptor, PortRef};
use patches::parameter_map::ParameterMap;
use patches::planner::{classify_nodes, compute_order, find_sink, make_decisions, NodeDecision, NodeState, PlanError, PlannerState};

fn f(x: f64) -> FloatBits {
    FloatBits(x.to_bits())
}

fn p(name: &'static str) -> PortRef {
    PortRef { name, index: 0 }
}

fn osc_desc() -> ModuleDescriptor {
    ModuleDescriptor {
        module_name: "Oscillator",
        shape: ModuleShape { channels: 0, length: 0 },
        inputs: vec![],
        outputs: vec![PortDescriptor { name: "sine", index: 0, kind: CableKind::Mono }],
        parameters: vec![],
        is_sink: false,
    }
}

fn sink_desc() -> ModuleDescriptor {
    ModuleDescriptor {
        module_name: "AudioOut",
        shape: ModuleShape { channels: 0, length: 0 },
        inputs: vec![
            PortDescriptor { name: "left", index: 0, kind: CableKind::Mono },
            PortDescriptor { name: "right", index: 0, kind: CableKind::Mono },
        ],
        outputs: vec![],
        parameters: vec![],
        is_sink: true,
    }
}

fn multi_in_desc(module_name: &'static str, in_count: usize, shape: ModuleShape) -> ModuleDescriptor {
    ModuleDescriptor {
        module_name,
        shape,
        inputs: (0..in_count as u32).map(|i| PortDescriptor { name: "in", index: i, kind: CableKind::Mono }).collect(),
        outputs: vec![PortDescriptor { name: "out", index: 0, kind: CableKind::Mono }],
        parameters: vec![],
        is_sink: false,
    }
}

fn prev_with_node(
    node_id: &NodeId,
    module_name: &'static str,
    shape: ModuleShape,
    params: ParameterMap,
    connectivity: PortConnectivity,
) -> PlannerState {
    let mut source = IdSource::new();
    let instance_id = InstanceId::next(&mut source);
    let mut state = PlannerState::empty();
    state.nodes.push((
        node_id.clone(),
        NodeState { module_name, instance_id, parameter_map: params, shape, connectivity },
    ));
    state
}

fn freq(hz: f64) -> ParameterMap {
    let mut params = ParameterMap::new();
    params.insert("frequency".to_string(), ParameterValue::Float(f(hz)));
    params
}

fn decision_for<'a>(decisions: &'a [(NodeId, NodeDecision)], id: &str) -> &'a NodeDecision {
    &decisions.iter().find(|(n, _)| n.as_str() == id).unwrap().1
}

#[test]
fn classify_new_node_is_install() {
    let mut graph = ModuleGraph::new();
    graph.add_module(NodeId::new("osc"), osc_desc(), &freq(440.0)).unwrap();

    let order = vec![NodeId::new("osc")];
    let index = GraphIndex::build(&graph);
    let decisions = classify_nodes(&index, &order, &PlannerState::empty()).unwrap();

    assert_eq!(decisions.len(), 1);
    match &decisions[0].1 {
        NodeDecision::Install { module_name, .. } => assert_eq!(*module_name, "Oscillator"),
        NodeDecision::Update { .. } => panic!("expected Install"),
    }
}

#[test]
fn classify_type_changed_node_is_install() {
    let mut graph = ModuleGraph::new();
    graph.add_module(NodeId::new("x"), sink_desc(), &ParameterMap::new()).unwrap();

    let od = osc_desc();
    let prev = prev_with_node(&NodeId::new("x"), od.module_name, od.shape, ParameterMap::new(), PortConnectivity::new(od.inputs.len(), od.outputs.len()));

    let order = vec![NodeId::new("x")];
    let index = GraphIndex::build(&graph);
    let decisions = classify_nodes(&index, &order, &prev).unwrap();
    assert!(matches!(decisions[0].1, NodeDecision::Install { .. }));
}

#[test]
fn classify_shape_changed_node_is_install() {
    let new_shape = ModuleShape { channels: 2, length: 0 };
    let old_shape = ModuleShape { channels: 1, length: 0 };
    let new_desc = multi_in_desc("Sum", 2, new_shape);
    let old_desc = multi_in_desc("Sum", 1, old_shape);

    let mut graph = ModuleGraph::new();
    graph.add_module(NodeId::new("s"), new_desc, &ParameterMap::new()).unwrap();

    let prev = prev_with_node(&NodeId::new("s"), "Sum", old_shape, ParameterMap::new(), PortConnectivity::new(old_desc.inputs.len(), old_desc.outputs.len()));

    let order = vec![NodeId::new("s")];
    let index = GraphIndex::build(&graph);
    let decisions = classify_nodes(&index, &order, &prev).unwrap();
    assert!(matches!(decisions[0].1, NodeDecision::Install { .. }));
}

#[test]
fn classify_surviving_no_changes_is_update_with_empty_diff() {
    let desc = sink_desc();
    let mut graph = ModuleGraph::new();
    graph.add_module(NodeId::new("out"), desc.clone(), &ParameterMap::new()).unwrap();

    let prev = prev_with_node(&NodeId::new("out"), desc.module_name, desc.shape, ParameterMap::new(), PortConnectivity::new(desc.inputs.len(), desc.outputs.len()));

    let order = vec![NodeId::new("out")];
    let index = GraphIndex::build(&graph);
    let decisions = classify_nodes(&index, &order, &prev).unwrap();

    match &decisions[0].1 {
        NodeDecision::Update { param_diff, connectivity_changed, .. } => {
            assert!(param_diff.is_empty());
            assert!(!connectivity_changed);
        }
        NodeDecision::Install { .. } => panic!("expected Update"),
    }
}

#[test]
fn classify_surviving_param_changed_produces_diff() {
    let desc = osc_desc();
    let mut graph = ModuleGraph::new();
    graph.add_module(NodeId::new("osc"), desc.clone(), &freq(880.0)).unwrap();

    let prev = prev_with_node(&NodeId::new("osc"), desc.module_name, desc.shape, freq(440.0), PortConnectivity::new(desc.inputs.len(), desc.outputs.len()));

    let order = vec![NodeId::new("osc")];
    let index = GraphIndex::build(&graph);
    let decisions = classify_nodes(&index, &order, &prev).unwrap();

    match &decisions[0].1 {
        NodeDecision::Update { param_diff, .. } => {
            assert!(!param_diff.is_empty());
            assert_eq!(param_diff.get("frequency"), Some(&ParameterValue::Float(f(880.0))));
        }
        _ => panic!("expected Update"),
    }
}

#[test]
fn classify_surviving_edge_added_connectivity_changed() {
    let od = osc_desc();
    let mut graph = ModuleGraph::new();
    graph.add_module(NodeId::new("osc"), od.clone(), &freq(440.0)).unwrap();
    graph.add_module(NodeId::new("out"), sink_desc(), &ParameterMap::new()).unwrap();
    graph.connect(&NodeId::new("osc"), p("sine"), &NodeId::new("out"), p("left"), f(1.0)).unwrap();

    let prev = prev_with_node(&NodeId::new("osc"), od.module_name, od.shape, freq(440.0), PortConnectivity::new(od.inputs.len(), od.outputs.len()));

    let order = vec![NodeId::new("osc"), NodeId::new("out")];
    let index = GraphIndex::build(&graph);
    let decisions = classify_nodes(&index, &order, &prev).unwrap();

    match decision_for(&decisions, "osc") {
        NodeDecision::Update { connectivity_changed, .. } => assert!(*connectivity_changed, "osc output newly connected"),
        _ => panic!("expected Update"),
    }
}

#[test]
fn classify_surviving_edge_removed_connectivity_changed() {
    let od = osc_desc();
    let mut graph = ModuleGraph::new();
    graph.add_module(NodeId::new("osc"), od.clone(), &freq(440.0)).unwrap();
    graph.add_module(NodeId::new("out"), sink_desc(), &ParameterMap::new()).unwrap();

    let mut prev_conn = PortConnectivity::new(od.inputs.len(), od.outputs.len());
    prev_conn.outputs[0] = true;
    let prev = prev_with_node(&NodeId::new("osc"), od.module_name, od.shape, freq(440.0), prev_conn);

    let order = vec![NodeId::new("osc"), NodeId::new("out")];
    let index = GraphIndex::build(&graph);
    let decisions = classify_nodes(&index, &order, &prev).unwrap();

    match decision_for(&decisions, "osc") {
        NodeDecision::Update { connectivity_changed, .. } => assert!(*connectivity_changed, "osc output no longer connected"),
        _ => panic!("expected Update"),
    }
}

#[test]
fn classify_multiple_nodes_each_classified_independently() {
    let od = osc_desc();
    let mut graph = ModuleGraph::new();
    graph.add_module(NodeId::new("osc"), od.clone(), &freq(440.0)).unwrap();
    graph.add_module(NodeId::new("out"), sink_desc(), &ParameterMap::new()).unwrap();

    let prev = prev_with_node(&NodeId::new("osc"), od.module_name, od.shape, freq(440.0), PortConnectivity::new(od.inputs.len(), od.outputs.len()));

    let order = vec![NodeId::new("osc"), NodeId::new("out")];
    let index = GraphIndex::build(&graph);
    let decisions = classify_nodes(&index, &order, &prev).unwrap();

    assert_eq!(decisions.len(), 2);
    assert!(matches!(decision_for(&decisions, "osc"), NodeDecision::Update { .. }), "osc should survive");
    assert!(matches!(decision_for(&decisions, "out"), NodeDecision::Install { .. }), "out is new");
}

#[test]
fn classify_missing_node_is_internal_error() {
    let graph = ModuleGraph::new();
    let index = GraphIndex::build(&graph);
    let order = vec![NodeId::new("ghost")];
    assert!(matches!(classify_nodes(&index, &order, &PlannerState::empty()), Err(PlanError::Internal(_))));
}

#[test]
fn find_sink_counts_sinks() {
    let mut graph = ModuleGraph::new();
    graph.add_module(NodeId::new("osc"), osc_desc(), &ParameterMap::new()).unwrap();
    assert!(matches!(find_sink(&graph, &graph.node_ids()), Err(PlanError::NoSink)));
    graph.add_module(NodeId::new("out"), sink_desc(), &ParameterMap::new()).unwrap();
    assert_eq!(find_sink(&graph, &graph.node_ids()).unwrap().as_str(), "out");
    graph.add_module(NodeId::new("out2"), sink_desc(), &ParameterMap::new()).unwrap();
    assert!(matches!(find_sink(&graph, &graph.node_ids()), Err(PlanError::MultipleSinks)));
}

#[test]
fn compute_order_sorts_by_name_and_finds_sink() {
    let ids = vec![NodeId::new("mix"), NodeId::new("b"), NodeId::new("a")];
    let (order, idx) = compute_order(&ids, &NodeId::new("b")).unwrap();
    let names: Vec<&str> = order.iter().map(|i| i.as_str()).collect();
    assert_eq!(names, vec!["a", "b", "mix"]);
    assert_eq!(idx, 1);
    assert!(matches!(compute_order(&ids, &NodeId::new("zzz")), Err(PlanError::Internal(_))));
}

#[test]
fn execution_order_does_not_depend_on_insertion_order() {
    let mut g1 = ModuleGraph::new();
    g1.add_module(NodeId::new("osc"), osc_desc(), &ParameterMap::new()).unwrap();
    g1.add_module(NodeId::new("out"), sink_desc(), &ParameterMap::new()).unwrap();
    let mut g2 = ModuleGraph::new();
    g2.add_module(NodeId::new("out"), sink_desc(), &ParameterMap::new()).unwrap();
    g2.add_module(NodeId::new("osc"), osc_desc(), &ParameterMap::new()).unwrap();
    let d1 = make_decisions(&g1, &PlannerState::empty(), 16).unwrap();
    let d2 = make_decisions(&g2, &PlannerState::empty(), 16).unwrap();
    let n1: Vec<&str> = d1.order.iter().map(|i| i.as_str()).collect();
    let n2: Vec<&str> = d2.order.iter().map(|i| i.as_str()).collect();
    assert_eq!(n1, n2);
    assert_eq!(d1.audio_out_index, 1);
    assert_eq!(d2.audio_out_index, 1);
}

#[test]
fn make_decisions_reports_buffer_exhaustion() {
    let mut g = ModuleGraph::new();
    g.add_module(NodeId::new("osc"), osc_desc(), &ParameterMap::new()).unwrap();
    g.add_module(NodeId::new("out"), sink_desc(), &ParameterMap::new()).unwrap();
    assert!(matches!(make_decisions(&g, &PlannerState::empty(), 1), Err(PlanError::BufferPoolExhausted)));
    assert!(make_decisions(&g, &PlannerState::empty(), 2).is_ok());
}

#[test]
fn missing_node_message_names_the_node_as_debug_does() {
    let graph = ModuleGraph::new();
    let index = GraphIndex::build(&graph);
    let order = vec![NodeId::new("ghost")];
    match classify_nodes(&index, &order, &PlannerState::empty()) {
        Err(PlanError::Internal(msg)) => {
            assert_eq!(msg, format!("node {:?} missing from graph", NodeId::new("ghost")));
            assert_eq!(msg, "node NodeId(\"ghost\") missing from graph");
        }
        _ => panic!("expected an internal error"),
    }
}
