use patches::allocation::{find_slot, ModuleAllocState};
use patches::buffers::find_buffer;
use patches::builder::{partition_inputs, BuildError, PatchBuilder, PlanLayout};
use patches::float_bits::FloatBits;
use patches::graph::{ModuleGraph, NodeId};
use patches::instance_id::{IdSource, InstanceId};
use patches::modules::{CableKind, ModuleDescriptor, ModuleShape, ParameterDescriptor, ParameterKind, ParameterValue, PortDescriptor, PortRef};
use patches::parameter_map::ParameterMap;
use patches::planner::{PlanError, PlannerState};

fn f(x: f64) -> FloatBits {
    FloatBits(x.to_bits())
}

fn p(name: &'static str) -> PortRef {
    PortRef { name, index: 0 }
}

fn port(name: &'static str, index: u32) -> PortDescriptor {
    PortDescriptor { name, index, kind: CableKind::Mono }
}

fn oscillator() -> ModuleDescriptor {
    ModuleDescriptor {
        module_name: "Oscillator",
        shape: ModuleShape { channels: 0, length: 0 },
        inputs: vec![port("frequency", 0)],
        outputs: vec![port("sine", 0)],
        parameters: vec![ParameterDescriptor {
            name: "frequency",
            index: 0,
            parameter_type: ParameterKind::Float { min: f(0.0), max: f(20000.0), default: f(440.0) },
        }],
        is_sink: false,
    }
}

fn audio_out() -> ModuleDescriptor {
    ModuleDescriptor {
        module_name: "AudioOut",
        shape: ModuleShape { channels: 0, length: 0 },
        inputs: vec![port("left", 0), port("right", 0)],
        outputs: vec![],
        parameters: vec![],
        is_sink: true,
    }
}

fn sum(channels: usize) -> ModuleDescriptor {
    ModuleDescriptor {
        module_name: "Sum",
        shape: ModuleShape { channels, length: 0 },
        inputs: (0..channels as u32).map(|i| port("in", i)).collect(),
        outputs: vec![port("out", 0)],
        parameters: vec![],
        is_sink: false,
    }
}

fn freq(hz: f64) -> ParameterMap {
    let mut m = ParameterMap::new();
    m.insert("frequency".to_string(), ParameterValue::Float(f(hz)));
    m
}

fn sine_to_audio_out_graph() -> ModuleGraph {
    let mut graph = ModuleGraph::new();
    graph.add_module(NodeId::new("a_sine"), oscillator(), &freq(440.0)).unwrap();
    graph.add_module(NodeId::new("b_out"), audio_out(), &ParameterMap::new()).unwrap();
    graph.connect(&NodeId::new("a_sine"), p("sine"), &NodeId::new("b_out"), p("left"), f(1.0)).unwrap();
    graph.connect(&NodeId::new("a_sine"), p("sine"), &NodeId::new("b_out"), p("right"), f(1.0)).unwrap();
    graph
}

fn accept_all(_: &'static str, _: ModuleShape, _: &ParameterMap, _: InstanceId) -> Result<(), String> {
    Ok(())
}

fn build(
    builder: &PatchBuilder,
    graph: &ModuleGraph,
    state: &PlannerState,
    ids: &mut IdSource,
) -> Result<(PlanLayout, PlannerState), BuildError> {
    builder.build_patch(graph, state, ids, &accept_all)
}

fn default_builder() -> PatchBuilder {
    PatchBuilder::new(256, 256)
}

fn default_build(graph: &ModuleGraph) -> (PlanLayout, PlannerState) {
    let mut ids = IdSource::new();
    build(&default_builder(), graph, &PlannerState::empty(), &mut ids).expect("build should succeed")
}

fn instance_of(state: &PlannerState, node: &str) -> InstanceId {
    state.instance_id(&NodeId::new(node)).expect("node has no recorded state")
}

fn pool_index_for(state: &PlannerState, node: &str) -> usize {
    find_slot(&state.module_alloc.pool_map, instance_of(state, node)).unwrap()
}

fn output_buffer(state: &PlannerState, node: &str, port: usize) -> usize {
    find_buffer(&state.buffer_alloc.output_buf, &NodeId::new(node), port).unwrap()
}

#[test]
fn builds_minimal_plan_with_correct_order() {
    let graph = sine_to_audio_out_graph();
    let (plan, _) = default_build(&graph);

    let audio_out_idx = plan.audio_out_index;
    let sine_idx = plan
        .slots
        .iter()
        .position(|s| s.pool_index != plan.slots[audio_out_idx].pool_index)
        .expect("sine slot not found");
    assert!(sine_idx < audio_out_idx, "sine must execute before AudioOut");
}

#[test]
fn fanout_buffer_shared_between_both_inputs() {
    let graph = sine_to_audio_out_graph();
    let (plan, _) = default_build(&graph);

    let audio_out_idx = plan.audio_out_index;
    let sine_idx = plan.slots.iter().position(|s| s.pool_index != plan.slots[audio_out_idx].pool_index).unwrap();

    let sine_out_buf = plan.slots[sine_idx].output_buffers[0];
    let ao = &plan.slots[audio_out_idx];
    let left_buf = ao.unscaled_inputs.iter().find(|&&(j, _)| j == 0).unwrap().1;
    let right_buf = ao.unscaled_inputs.iter().find(|&&(j, _)| j == 1).unwrap().1;
    assert_eq!(sine_out_buf, left_buf, "left input must use sine output buffer");
    assert_eq!(sine_out_buf, right_buf, "right input must use sine output buffer");
}

#[test]
fn no_audio_out_returns_error() {
    let mut graph = ModuleGraph::new();
    graph.add_module(NodeId::new("sine"), oscillator(), &freq(440.0)).unwrap();
    let mut ids = IdSource::new();
    assert!(matches!(build(&default_builder(), &graph, &PlannerState::empty(), &mut ids), Err(BuildError::NoAudioOut)));
}

#[test]
fn multiple_audio_out_returns_error() {
    let mut graph = ModuleGraph::new();
    graph.add_module(NodeId::new("sine"), oscillator(), &freq(440.0)).unwrap();
    graph.add_module(NodeId::new("out1"), audio_out(), &ParameterMap::new()).unwrap();
    graph.add_module(NodeId::new("out2"), audio_out(), &ParameterMap::new()).unwrap();
    graph.connect(&NodeId::new("sine"), p("sine"), &NodeId::new("out1"), p("left"), f(1.0)).unwrap();
    graph.connect(&NodeId::new("sine"), p("sine"), &NodeId::new("out2"), p("left"), f(1.0)).unwrap();
    let mut ids = IdSource::new();
    assert!(matches!(
        build(&default_builder(), &graph, &PlannerState::empty(), &mut ids),
        Err(BuildError::MultipleAudioOut)
    ));
}

#[test]
fn input_scale_goes_to_scaled_inputs() {
    let mut g = ModuleGraph::new();
    g.add_module(NodeId::new("sine"), oscillator(), &freq(440.0)).unwrap();
    g.add_module(NodeId::new("out"), audio_out(), &ParameterMap::new()).unwrap();
    g.connect(&NodeId::new("sine"), p("sine"), &NodeId::new("out"), p("left"), f(0.5)).unwrap();
    let (plan, state) = default_build(&g);
    let ao = &plan.slots[plan.audio_out_index];
    let sine_buf = output_buffer(&state, "sine", 0);
    assert_eq!(ao.scaled_inputs, vec![(0, sine_buf, f(0.5))]);
    assert_eq!(ao.unscaled_inputs, vec![(1, 0)], "unconnected right input reads the zero slot");
}

#[test]
fn stable_buffer_index_for_unchanged_module_across_replan() {
    let builder = default_builder();
    let mut ids = IdSource::new();
    let mut graph_a = ModuleGraph::new();
    graph_a.add_module(NodeId::new("sine_a"), oscillator(), &freq(440.0)).unwrap();
    graph_a.add_module(NodeId::new("sine_b"), oscillator(), &freq(880.0)).unwrap();
    graph_a.add_module(NodeId::new("out"), audio_out(), &ParameterMap::new()).unwrap();
    graph_a.connect(&NodeId::new("sine_a"), p("sine"), &NodeId::new("out"), p("left"), f(1.0)).unwrap();
    graph_a.connect(&NodeId::new("sine_b"), p("sine"), &NodeId::new("out"), p("right"), f(1.0)).unwrap();
    let (_plan_a, state_a) = build(&builder, &graph_a, &PlannerState::empty(), &mut ids).unwrap();
    let buf_a = output_buffer(&state_a, "sine_a", 0);

    let mut graph_b = ModuleGraph::new();
    graph_b.add_module(NodeId::new("sine_a"), oscillator(), &freq(440.0)).unwrap();
    graph_b.add_module(NodeId::new("out"), audio_out(), &ParameterMap::new()).unwrap();
    graph_b.connect(&NodeId::new("sine_a"), p("sine"), &NodeId::new("out"), p("left"), f(1.0)).unwrap();
    graph_b.connect(&NodeId::new("sine_a"), p("sine"), &NodeId::new("out"), p("right"), f(1.0)).unwrap();
    let (plan_b, state_b) = build(&builder, &graph_b, &state_a, &mut ids).unwrap();

    let buf_b = output_buffer(&state_b, "sine_a", 0);
    assert_eq!(buf_a, buf_b, "sine_a output buffer must be identical across re-plan");
    let freed_buf = output_buffer(&state_a, "sine_b", 0);
    assert!(plan_b.to_zero.contains(&freed_buf), "freed buffer index {freed_buf} must appear in plan_b.to_zero");
}

fn two_sines(state: &PlannerState, ids: &mut IdSource) -> PlannerState {
    let mut g = ModuleGraph::new();
    g.add_module(NodeId::new("s1"), oscillator(), &freq(440.0)).unwrap();
    g.add_module(NodeId::new("s2"), oscillator(), &freq(880.0)).unwrap();
    g.add_module(NodeId::new("out"), audio_out(), &ParameterMap::new()).unwrap();
    g.connect(&NodeId::new("s1"), p("sine"), &NodeId::new("out"), p("left"), f(1.0)).unwrap();
    g.connect(&NodeId::new("s2"), p("sine"), &NodeId::new("out"), p("right"), f(1.0)).unwrap();
    build(&default_builder(), &g, state, ids).unwrap().1
}

fn one_sine(state: &PlannerState, ids: &mut IdSource) -> PlannerState {
    let mut g = ModuleGraph::new();
    g.add_module(NodeId::new("s1"), oscillator(), &freq(440.0)).unwrap();
    g.add_module(NodeId::new("out"), audio_out(), &ParameterMap::new()).unwrap();
    g.connect(&NodeId::new("s1"), p("sine"), &NodeId::new("out"), p("left"), f(1.0)).unwrap();
    g.connect(&NodeId::new("s1"), p("sine"), &NodeId::new("out"), p("right"), f(1.0)).unwrap();
    build(&default_builder(), &g, state, ids).unwrap().1
}

#[test]
fn freelist_recycles_indices_preventing_hwm_growth() {
    let mut ids = IdSource::new();
    let state_a = two_sines(&PlannerState::empty(), &mut ids);
    let hwm_after_first_two = state_a.buffer_alloc.next_hwm;
    let mut current = state_a;
    for _ in 0..20 {
        current = one_sine(&current, &mut ids);
        current = two_sines(&current, &mut ids);
    }
    assert_eq!(current.buffer_alloc.next_hwm, hwm_after_first_two, "hwm grew: freelist should have prevented new allocations");
}

#[test]
fn pool_exhausted_error_when_capacity_exceeded() {
    let graph = sine_to_audio_out_graph();
    let mut ids = IdSource::new();
    assert!(matches!(
        build(&PatchBuilder::new(1, 256), &graph, &PlannerState::empty(), &mut ids),
        Err(BuildError::PoolExhausted)
    ));
}

#[test]
fn module_pool_exhausted_error_when_module_capacity_exceeded() {
    let graph = sine_to_audio_out_graph();
    let mut ids = IdSource::new();
    assert!(matches!(
        build(&PatchBuilder::new(256, 1), &graph, &PlannerState::empty(), &mut ids),
        Err(BuildError::ModulePoolExhausted)
    ));
}

#[test]
fn new_node_all_modules_in_new_modules() {
    let graph = sine_to_audio_out_graph();
    let (plan, _) = default_build(&graph);
    assert_eq!(plan.installs.len(), 2, "all nodes are new on first build");
}

#[test]
fn surviving_node_no_new_modules_same_instance_id() {
    let graph = sine_to_audio_out_graph();
    let builder = default_builder();
    let mut ids = IdSource::new();
    let (_plan_a, state_a) = build(&builder, &graph, &PlannerState::empty(), &mut ids).unwrap();
    let id_sine_a = instance_of(&state_a, "a_sine");
    let id_out_a = instance_of(&state_a, "b_out");

    let (plan_b, state_b) = build(&builder, &graph, &state_a, &mut ids).unwrap();
    assert!(plan_b.installs.is_empty(), "no new modules on identical rebuild");
    assert_eq!(instance_of(&state_b, "a_sine"), id_sine_a);
    assert_eq!(instance_of(&state_b, "b_out"), id_out_a);
}

#[test]
fn removed_node_tombstone() {
    let mut ids = IdSource::new();
    let state_a = two_sines(&PlannerState::empty(), &mut ids);
    let s2_slot = pool_index_for(&state_a, "s2");
    let mut g = ModuleGraph::new();
    g.add_module(NodeId::new("s1"), oscillator(), &freq(440.0)).unwrap();
    g.add_module(NodeId::new("out"), audio_out(), &ParameterMap::new()).unwrap();
    g.connect(&NodeId::new("s1"), p("sine"), &NodeId::new("out"), p("left"), f(1.0)).unwrap();
    let (plan_b, _) = build(&default_builder(), &g, &state_a, &mut ids).unwrap();
    assert!(plan_b.tombstones.contains(&s2_slot), "removed s2 pool slot must be tombstoned");
}

#[test]
fn type_changed_node_tombstone_and_new_module() {
    let builder = default_builder();
    let mut ids = IdSource::new();
    let mut graph_a = ModuleGraph::new();
    graph_a.add_module(NodeId::new("osc"), oscillator(), &freq(440.0)).unwrap();
    graph_a.add_module(NodeId::new("out"), audio_out(), &ParameterMap::new()).unwrap();
    graph_a.connect(&NodeId::new("osc"), p("sine"), &NodeId::new("out"), p("left"), f(1.0)).unwrap();
    graph_a.connect(&NodeId::new("osc"), p("sine"), &NodeId::new("out"), p("right"), f(1.0)).unwrap();
    let (_plan_a, state_a) = build(&builder, &graph_a, &PlannerState::empty(), &mut ids).unwrap();
    let old_osc_id = instance_of(&state_a, "osc");
    let old_osc_slot = pool_index_for(&state_a, "osc");

    let mut graph_b = ModuleGraph::new();
    graph_b.add_module(NodeId::new("osc"), sum(1), &ParameterMap::new()).unwrap();
    graph_b.add_module(NodeId::new("out"), audio_out(), &ParameterMap::new()).unwrap();
    graph_b.connect(&NodeId::new("osc"), p("out"), &NodeId::new("out"), p("left"), f(1.0)).unwrap();
    graph_b.connect(&NodeId::new("osc"), p("out"), &NodeId::new("out"), p("right"), f(1.0)).unwrap();
    let (plan_b, state_b) = build(&builder, &graph_b, &state_a, &mut ids).unwrap();

    assert_ne!(instance_of(&state_b, "osc"), old_osc_id, "type-changed node must receive a new InstanceId");
    assert!(plan_b.tombstones.contains(&old_osc_slot), "old osc pool slot must be tombstoned on type change");
    assert_eq!(plan_b.installs.len(), 1, "only the type-changed node should be new");
}

#[test]
fn parameter_only_change_produces_parameter_updates_no_new_modules() {
    let builder = default_builder();
    let mut ids = IdSource::new();
    let (_plan_a, state_a) = build(&builder, &sine_to_audio_out_graph(), &PlannerState::empty(), &mut ids).unwrap();

    let mut graph_b = ModuleGraph::new();
    graph_b.add_module(NodeId::new("a_sine"), oscillator(), &freq(880.0)).unwrap();
    graph_b.add_module(NodeId::new("b_out"), audio_out(), &ParameterMap::new()).unwrap();
    graph_b.connect(&NodeId::new("a_sine"), p("sine"), &NodeId::new("b_out"), p("left"), f(1.0)).unwrap();
    graph_b.connect(&NodeId::new("a_sine"), p("sine"), &NodeId::new("b_out"), p("right"), f(1.0)).unwrap();
    let (plan_b, state_b) = build(&builder, &graph_b, &state_a, &mut ids).unwrap();

    assert!(plan_b.installs.is_empty());
    assert_eq!(plan_b.parameter_updates.len(), 1);
    let (slot, diff) = &plan_b.parameter_updates[0];
    assert_eq!(*slot, pool_index_for(&state_b, "a_sine"));
    assert_eq!(diff.get("frequency"), Some(&ParameterValue::Float(f(880.0))));
}

#[test]
fn unchanged_parameters_produce_empty_parameter_updates() {
    let builder = default_builder();
    let mut ids = IdSource::new();
    let graph = sine_to_audio_out_graph();
    let (_plan_a, state_a) = build(&builder, &graph, &PlannerState::empty(), &mut ids).unwrap();
    let (plan_b, _) = build(&builder, &graph, &state_a, &mut ids).unwrap();
    assert!(plan_b.parameter_updates.is_empty());
    assert!(plan_b.connectivity_updates.is_empty());
    assert!(plan_b.tombstones.is_empty());
    assert!(plan_b.to_zero.is_empty());
}

#[test]
fn topology_change_reports_connectivity_update() {
    let builder = default_builder();
    let mut ids = IdSource::new();
    let (_plan_a, state_a) = build(&builder, &sine_to_audio_out_graph(), &PlannerState::empty(), &mut ids).unwrap();

    let mut graph_b = ModuleGraph::new();
    graph_b.add_module(NodeId::new("a_sine"), oscillator(), &freq(440.0)).unwrap();
    graph_b.add_module(NodeId::new("b_out"), audio_out(), &ParameterMap::new()).unwrap();
    graph_b.connect(&NodeId::new("a_sine"), p("sine"), &NodeId::new("b_out"), p("left"), f(1.0)).unwrap();
    let (plan_b, _) = build(&builder, &graph_b, &state_a, &mut ids).unwrap();

    assert_eq!(plan_b.connectivity_updates.len(), 1);
    let (_, c) = &plan_b.connectivity_updates[0];
    assert_eq!(c.inputs, vec![true, false]);
}

#[test]
fn module_creation_failure_is_reported() {
    let graph = sine_to_audio_out_graph();
    let mut ids = IdSource::new();
    let refuse = |name: &'static str, _: ModuleShape, _: &ParameterMap, _: InstanceId| -> Result<(), String> {
        if name == "AudioOut" { Err("no device".to_string()) } else { Ok(()) }
    };
    match default_builder().build_patch(&graph, &PlannerState::empty(), &mut ids, &refuse) {
        Err(BuildError::ModuleCreationError(msg)) => assert_eq!(msg, "no device"),
        _ => panic!("expected ModuleCreationError"),
    }
}

#[test]
fn fresh_instances_are_drawn_in_execution_order() {
    let graph = sine_to_audio_out_graph();
    let mut ids = IdSource::starting_at(100);
    let (plan, state) = build(&default_builder(), &graph, &PlannerState::empty(), &mut ids).unwrap();
    assert_eq!(instance_of(&state, "a_sine").raw(), 100);
    assert_eq!(instance_of(&state, "b_out").raw(), 101);
    assert_eq!(plan.installs[0].1.raw(), 100);
    assert_eq!(InstanceId::next(&mut ids).raw(), 102);
}

// ── ModuleAllocState ──────────────────────────────────────────────────────────

fn make_ids(src: &mut IdSource, n: u64) -> Vec<InstanceId> {
    (0..n).map(|_| InstanceId::next(src)).collect()
}

#[test]
fn module_alloc_fresh_advances_hwm() {
    let mut src = IdSource::new();
    let state = ModuleAllocState::default();
    let ids = make_ids(&mut src, 3);
    let diff = state.diff(&ids, 64).expect("diff should succeed");

    assert_eq!(diff.next_hwm, 3, "hwm should advance by number of new modules");
    assert_eq!(diff.slot_map.len(), 3);
    assert!(diff.tombstoned.is_empty());
    assert!(diff.freelist.is_empty());

    let mut slots: Vec<usize> = diff.slot_map.iter().map(|(_, s)| *s).collect();
    slots.sort_unstable();
    assert_eq!(slots, vec![0, 1, 2]);
}

#[test]
fn module_alloc_stable_reuses_slots() {
    let mut src = IdSource::new();
    let ids = make_ids(&mut src, 2);
    let state0 = ModuleAllocState::default();
    let diff0 = state0.diff(&ids, 64).unwrap();
    let state1 = ModuleAllocState { pool_map: diff0.slot_map.clone(), freelist: diff0.freelist.clone(), next_hwm: diff0.next_hwm };
    let diff1 = state1.diff(&ids, 64).unwrap();
    for id in &ids {
        assert_eq!(find_slot(&diff0.slot_map, *id), find_slot(&diff1.slot_map, *id));
    }
    assert_eq!(diff1.next_hwm, diff0.next_hwm, "hwm must not grow");
    assert!(diff1.tombstoned.is_empty());
}

#[test]
fn module_alloc_tombstone_then_recycle() {
    let mut src = IdSource::new();
    let ids = make_ids(&mut src, 2);
    let id_a = ids[0];
    let id_b = ids[1];

    let state0 = ModuleAllocState::default();
    let diff0 = state0.diff(&ids, 64).unwrap();
    let slot_b = find_slot(&diff0.slot_map, id_b).unwrap();

    let state1 = ModuleAllocState { pool_map: diff0.slot_map, freelist: diff0.freelist, next_hwm: diff0.next_hwm };
    let diff1 = state1.diff(&vec![id_a], 64).unwrap();

    assert!(diff1.tombstoned.contains(&slot_b));
    assert!(diff1.freelist.contains(&slot_b));
    let hwm_after_remove = diff1.next_hwm;

    let id_c = make_ids(&mut src, 1)[0];
    let state2 = ModuleAllocState { pool_map: diff1.slot_map, freelist: diff1.freelist, next_hwm: diff1.next_hwm };
    let diff2 = state2.diff(&vec![id_a, id_c], 64).unwrap();

    assert_eq!(find_slot(&diff2.slot_map, id_c), Some(slot_b), "new module must reuse the recycled slot");
    assert_eq!(diff2.next_hwm, hwm_after_remove, "hwm must not grow when recycling");
}

#[test]
fn module_alloc_pool_exhausted() {
    let mut src = IdSource::new();
    let state = ModuleAllocState::default();
    let ids = make_ids(&mut src, 3);
    let result = state.diff(&ids, 2);
    assert!(matches!(result, Err(PlanError::ModulePoolExhausted)), "expected ModulePoolExhausted, got {result:?}");
}

// ── partition_inputs ──────────────────────────────────────────────────────────

#[test]
fn partition_empty_produces_two_empty_lists() {
    let (u, s) = partition_inputs(vec![]);
    assert!(u.is_empty());
    assert!(s.is_empty());
}

#[test]
fn partition_scale_one_goes_to_unscaled() {
    let (u, s) = partition_inputs(vec![(5, f(1.0))]);
    assert_eq!(u, vec![(0, 5)]);
    assert!(s.is_empty());
}

#[test]
fn partition_non_one_scale_goes_to_scaled() {
    let (u, s) = partition_inputs(vec![(3, f(0.5))]);
    assert!(u.is_empty());
    assert_eq!(s, vec![(0, 3, f(0.5))]);
}

#[test]
fn partition_mixed_produces_correct_split() {
    let (u, s) = partition_inputs(vec![(1, f(1.0)), (2, f(0.5)), (3, f(1.0)), (4, f(-1.0))]);
    assert_eq!(u, vec![(0, 1), (2, 3)]);
    assert_eq!(s, vec![(1, 2, f(0.5)), (3, 4, f(-1.0))]);
}

#[test]
fn build_error_from_plan_error() {
    assert!(matches!(BuildError::from(PlanError::NoSink), BuildError::NoAudioOut));
    assert!(matches!(BuildError::from(PlanError::MultipleSinks), BuildError::MultipleAudioOut));
    assert!(matches!(BuildError::from(PlanError::BufferPoolExhausted), BuildError::PoolExhausted));
    assert!(matches!(BuildError::from(PlanError::ModulePoolExhausted), BuildError::ModulePoolExhausted));
    match BuildError::from(PlanError::Internal("x".to_string())) {
        BuildError::InternalError(m) => assert_eq!(m, "x"),
        _ => panic!("expected InternalError"),
    }
}

#[test]
fn identical_rebuild_changes_nothing() {
    let builder = default_builder();
    let mut ids = IdSource::new();
    let graph = sine_to_audio_out_graph();
    let (_plan_a, state_a) = build(&builder, &graph, &PlannerState::empty(), &mut ids).unwrap();
    let (plan_b, state_b) = build(&builder, &graph, &state_a, &mut ids).unwrap();
    assert!(plan_b.installs.is_empty());
    assert!(plan_b.tombstones.is_empty());
    assert!(plan_b.parameter_updates.is_empty());
    assert!(plan_b.connectivity_updates.is_empty());
    assert!(plan_b.to_zero.is_empty());
    for node in ["a_sine", "b_out"] {
        assert_eq!(instance_of(&state_a, node), instance_of(&state_b, node));
        assert_eq!(pool_index_for(&state_a, node), pool_index_for(&state_b, node));
    }
    assert_eq!(output_buffer(&state_a, "a_sine", 0), output_buffer(&state_b, "a_sine", 0));
}

#[test]
fn replan_zeroes_new_and_freed_buffers_but_not_kept_ones() {
    let builder = default_builder();
    let mut ids = IdSource::new();
    let state_a = two_sines(&PlannerState::empty(), &mut ids);
    let kept = output_buffer(&state_a, "s1", 0);
    let freed = output_buffer(&state_a, "s2", 0);

    let mut g = ModuleGraph::new();
    g.add_module(NodeId::new("s1"), oscillator(), &freq(440.0)).unwrap();
    g.add_module(NodeId::new("s3"), oscillator(), &freq(660.0)).unwrap();
    g.add_module(NodeId::new("out"), audio_out(), &ParameterMap::new()).unwrap();
    g.connect(&NodeId::new("s1"), p("sine"), &NodeId::new("out"), p("left"), f(1.0)).unwrap();
    g.connect(&NodeId::new("s3"), p("sine"), &NodeId::new("out"), p("right"), f(1.0)).unwrap();
    let (plan_b, state_b) = build(&builder, &g, &state_a, &mut ids).unwrap();
    let fresh = output_buffer(&state_b, "s3", 0);

    assert_eq!(output_buffer(&state_b, "s1", 0), kept);
    assert!(!plan_b.to_zero.contains(&kept));
    assert!(plan_b.to_zero.contains(&fresh));
    assert!(plan_b.to_zero.contains(&freed));
    assert_ne!(fresh, kept);
    assert_ne!(fresh, 0, "slot 0 stays reserved");
}

#[test]
fn error_messages_name_the_failure() {
    assert_eq!(BuildError::NoAudioOut.message(), "patch graph has no AudioOut node");
    assert_eq!(BuildError::ModuleCreationError("bad".to_string()).message(), "module creation failed: bad");
    assert_eq!(BuildError::InternalError("x".to_string()).message(), "internal builder error: x");
    assert_eq!(PlanError::BufferPoolExhausted.message(), "buffer pool exhausted: too many output ports");
    assert_eq!(PlanError::Internal("y".to_string()).message(), "internal error: y");
    assert_eq!(PlanError::NoSink.message(), "patch graph has no sink node");
}
