use patches::float_bits::FloatBits;
use patches::graph::{GraphError, ModuleGraph, NodeId};
use patches::graph_doc::{
    coerce_param, decode_port, encode_port, graph_from_described, graph_from_doc, parse_u32, CableDoc, GraphDoc, GraphYamlError, NodeDoc, YamlScalar,
};
use patches::graph_record::{graph_to_doc, GraphRecord};
use patches::modules::{CableKind, ModuleDescriptor, ModuleShape, ParameterDescriptor, ParameterKind, ParameterValue, PortDescriptor, PortRef};
use patches::parameter_map::ParameterMap;

fn f(x: f64) -> FloatBits {
    FloatBits(x.to_bits())
}

fn port(name: &'static str, index: u32) -> PortDescriptor {
    PortDescriptor { name, index, kind: CableKind::Mono }
}

fn describe(module: &str, shape: ModuleShape) -> Option<ModuleDescriptor> {
    match module {
        "SineOsc" => Some(ModuleDescriptor {
            module_name: "SineOsc",
            shape,
            inputs: vec![],
            outputs: vec![port("out", 0)],
            parameters: vec![ParameterDescriptor {
                name: "frequency",
                index: 0,
                parameter_type: ParameterKind::Float { min: f(0.0), max: f(20000.0), default: f(440.0) },
            }],
            is_sink: false,
        }),
        "Gain" => Some(ModuleDescriptor {
            module_name: "Gain",
            shape,
            inputs: vec![port("in", 0)],
            outputs: vec![port("out", 0)],
            parameters: vec![ParameterDescriptor {
                name: "gain",
                index: 0,
                parameter_type: ParameterKind::Float { min: f(0.0), max: f(2.0), default: f(1.0) },
            }],
            is_sink: false,
        }),
        "Mix" => Some(ModuleDescriptor {
            module_name: "Mix",
            shape,
            inputs: vec![port("in", 0), port("in", 1)],
            outputs: vec![port("out", 0)],
            parameters: vec![],
            is_sink: false,
        }),
        _ => None,
    }
}

fn scalar_of(v: &ParameterValue) -> YamlScalar {
    match v {
        ParameterValue::Float(x) => YamlScalar { float: Some(*x), int: None, boolean: None, text: None, items: None },
        ParameterValue::Int(i) => YamlScalar { float: Some(f(*i as f64)), int: Some(*i), boolean: None, text: None, items: None },
        ParameterValue::Bool(b) => YamlScalar { float: None, int: None, boolean: Some(*b), text: None, items: None },
        ParameterValue::Enum(s) => YamlScalar { float: None, int: None, boolean: None, text: Some(s.to_string()), items: None },
        ParameterValue::Array(v) => YamlScalar {
            float: None,
            int: None,
            boolean: None,
            text: None,
            items: Some(v.iter().map(|s| Some(s.clone())).collect()),
        },
    }
}

fn reread(record: &GraphRecord) -> GraphDoc {
    GraphDoc {
        nodes: record
            .nodes
            .iter()
            .map(|(id, n)| {
                (
                    id.clone(),
                    NodeDoc {
                        module: n.module.clone(),
                        channels: n.channels,
                        length: n.length,
                        params: n.params.iter().map(|(k, v)| (k.clone(), scalar_of(v))).collect(),
                    },
                )
            })
            .collect(),
        cables: record
            .cables
            .iter()
            .map(|c| CableDoc { from: c.from.clone(), output: c.output.clone(), to: c.to.clone(), input: c.input.clone(), scale: c.scale })
            .collect(),
    }
}

fn node(module: &str, channels: usize, params: Vec<(String, YamlScalar)>) -> NodeDoc {
    NodeDoc { module: module.to_string(), channels, length: 0, params }
}

fn bool_scalar(b: bool) -> YamlScalar {
    YamlScalar { float: None, int: None, boolean: Some(b), text: None, items: None }
}

#[test]
fn round_trip_preserves_nodes_edges_and_params() {
    let osc_id = NodeId::new("osc1");
    let gain_id = NodeId::new("amp1");
    let osc_desc = describe("SineOsc", ModuleShape { channels: 1, length: 0 }).unwrap();
    let gain_desc = describe("Gain", ModuleShape { channels: 1, length: 0 }).unwrap();

    let mut osc_params = ParameterMap::new();
    osc_params.insert("frequency".to_string(), ParameterValue::Float(f(880.0)));

    let mut graph = ModuleGraph::new();
    graph.add_module(osc_id.clone(), osc_desc, &osc_params).unwrap();
    graph.add_module(gain_id.clone(), gain_desc, &ParameterMap::new()).unwrap();
    graph.connect(&osc_id, PortRef { name: "out", index: 0 }, &gain_id, PortRef { name: "in", index: 0 }, f(0.5)).unwrap();

    let record = graph_to_doc(&graph);
    let graph2 = graph_from_doc(&reread(&record), &describe).unwrap();

    assert_eq!(graph2.node_ids().len(), 2);
    let osc_node = graph2.get_node(&osc_id).unwrap();
    assert_eq!(osc_node.module_descriptor.module_name, "SineOsc");
    assert_eq!(osc_node.module_descriptor.shape.channels, 1);
    assert_eq!(osc_node.parameter_map.get("frequency"), Some(&ParameterValue::Float(f(880.0))));

    let edges = graph2.edge_list();
    assert_eq!(edges.len(), 1);
    let (from, out_name, out_idx, to, in_name, in_idx, scale) = &edges[0];
    assert_eq!(from.as_str(), "osc1");
    assert_eq!(out_name, "out");
    assert_eq!(*out_idx, 0);
    assert_eq!(to.as_str(), "amp1");
    assert_eq!(in_name, "in");
    assert_eq!(*in_idx, 0);
    assert_eq!(*scale, f(0.5));
}

#[test]
fn unknown_module_returns_error() {
    let doc = GraphDoc { nodes: vec![("x".to_string(), node("NoSuchModule", 1, vec![]))], cables: vec![] };
    match graph_from_doc(&doc, &describe) {
        Err(GraphYamlError::UnknownModule { name }) => assert_eq!(name, "NoSuchModule"),
        Err(e) => panic!("expected UnknownModule, got error: {e:?}"),
        Ok(_) => panic!("expected error, got Ok"),
    }
}

#[test]
fn parameter_type_mismatch_returns_error() {
    let doc = GraphDoc {
        nodes: vec![("osc".to_string(), node("SineOsc", 1, vec![("frequency".to_string(), bool_scalar(true))]))],
        cables: vec![],
    };
    assert!(matches!(graph_from_doc(&doc, &describe), Err(GraphYamlError::ParameterTypeMismatch { .. })));
}

#[test]
fn indexed_port_round_trips_as_name_slash_n() {
    let osc_id = NodeId::new("src");
    let mix_id = NodeId::new("mix");
    let mut graph = ModuleGraph::new();
    graph.add_module(osc_id.clone(), describe("SineOsc", ModuleShape { channels: 0, length: 0 }).unwrap(), &ParameterMap::new()).unwrap();
    graph.add_module(mix_id.clone(), describe("Mix", ModuleShape { channels: 0, length: 0 }).unwrap(), &ParameterMap::new()).unwrap();
    graph.connect(&osc_id, PortRef { name: "out", index: 0 }, &mix_id, PortRef { name: "in", index: 1 }, f(1.0)).unwrap();

    let record = graph_to_doc(&graph);
    assert_eq!(record.cables[0].input, "in/1");
    assert_eq!(record.cables[0].output, "out");

    let graph2 = graph_from_doc(&reread(&record), &describe).unwrap();
    let edges = graph2.edge_list();
    assert_eq!(edges.len(), 1);
    assert_eq!(edges[0].4, "in");
    assert_eq!(edges[0].5, 1);
}

#[test]
fn unknown_parameter_and_unknown_node_are_reported() {
    let doc = GraphDoc {
        nodes: vec![("g".to_string(), node("Gain", 0, vec![("volume".to_string(), bool_scalar(true))]))],
        cables: vec![],
    };
    match graph_from_doc(&doc, &describe) {
        Err(GraphYamlError::UnknownParameter { node, param }) => {
            assert_eq!(node, "g");
            assert_eq!(param, "volume");
        }
        _ => panic!("expected UnknownParameter"),
    }
    let doc = GraphDoc {
        nodes: vec![("g".to_string(), node("Gain", 0, vec![]))],
        cables: vec![CableDoc { from: "ghost".into(), output: "out".into(), to: "g".into(), input: "in".into(), scale: f(1.0) }],
    };
    match graph_from_doc(&doc, &describe) {
        Err(GraphYamlError::UnknownNode { id }) => assert_eq!(id, "ghost"),
        _ => panic!("expected UnknownNode"),
    }
}

#[test]
fn bad_ports_and_duplicates_are_reported() {
    let nodes = vec![
        ("a".to_string(), node("SineOsc", 0, vec![])),
        ("b".to_string(), node("Gain", 0, vec![])),
    ];
    let cable = |output: &str, input: &str, scale: f64| GraphDoc {
        nodes: nodes.iter().map(|(k, n)| (k.clone(), NodeDoc { module: n.module.clone(), channels: 0, length: 0, params: vec![] })).collect(),
        cables: vec![CableDoc { from: "a".into(), output: output.into(), to: "b".into(), input: input.into(), scale: f(scale) }],
    };
    assert!(matches!(graph_from_doc(&cable("out/x", "in", 1.0), &describe), Err(GraphYamlError::InvalidPortRef { port }) if port == "out/x"));
    assert!(matches!(
        graph_from_doc(&cable("nope", "in", 1.0), &describe),
        Err(GraphYamlError::Graph(GraphError::OutputPortNotFound { port, .. })) if port == "nope"
    ));
    assert!(matches!(
        graph_from_doc(&cable("out", "in/4", 1.0), &describe),
        Err(GraphYamlError::Graph(GraphError::InputPortNotFound { port, .. })) if port == "in/4"
    ));
    assert!(matches!(graph_from_doc(&cable("out", "in", 3.0), &describe), Err(GraphYamlError::Graph(GraphError::ScaleOutOfRange(_)))));
    let dup = GraphDoc { nodes: vec![("a".to_string(), node("Gain", 0, vec![])), ("a".to_string(), node("Gain", 0, vec![]))], cables: vec![] };
    assert!(matches!(graph_from_doc(&dup, &describe), Err(GraphYamlError::Graph(GraphError::DuplicateNodeId(_)))));
}

#[test]
fn graph_to_doc_sorts_nodes_and_cables() {
    let mut graph = ModuleGraph::new();
    let osc = describe("SineOsc", ModuleShape { channels: 0, length: 0 }).unwrap();
    let mix = describe("Mix", ModuleShape { channels: 0, length: 0 }).unwrap();
    graph.add_module(NodeId::new("z"), osc.clone(), &ParameterMap::new()).unwrap();
    graph.add_module(NodeId::new("m"), mix, &ParameterMap::new()).unwrap();
    graph.add_module(NodeId::new("a"), osc, &ParameterMap::new()).unwrap();
    graph.connect(&NodeId::new("z"), PortRef { name: "out", index: 0 }, &NodeId::new("m"), PortRef { name: "in", index: 1 }, f(1.0)).unwrap();
    graph.connect(&NodeId::new("a"), PortRef { name: "out", index: 0 }, &NodeId::new("m"), PortRef { name: "in", index: 0 }, f(-0.5)).unwrap();
    let record = graph_to_doc(&graph);
    let names: Vec<&str> = record.nodes.iter().map(|(k, _)| k.as_str()).collect();
    assert_eq!(names, vec!["a", "m", "z"]);
    let froms: Vec<&str> = record.cables.iter().map(|c| c.from.as_str()).collect();
    assert_eq!(froms, vec!["a", "z"]);
    assert_eq!(record.cables[0].input, "in");
    assert_eq!(record.cables[0].scale, f(-0.5));
    assert_eq!(record.nodes[1].1.module, "Mix");
}

#[test]
fn encode_port_uses_slash_only_for_nonzero_index() {
    assert_eq!(encode_port("in", 0), "in");
    assert_eq!(encode_port("in", 2), "in/2");
    assert_eq!(encode_port("a/b", 10), "a/b/10");
}

#[test]
fn decode_port_splits_at_last_slash() {
    assert_eq!(decode_port("in").unwrap(), ("in", 0));
    assert_eq!(decode_port("in/2").unwrap(), ("in", 2));
    assert_eq!(decode_port("a/b/10").unwrap(), ("a/b", 10));
    assert_eq!(decode_port("in/+7").unwrap(), ("in", 7));
    assert!(matches!(decode_port("in/abc"), Err(GraphYamlError::InvalidPortRef { port }) if port == "in/abc"));
    assert!(matches!(decode_port("in/"), Err(GraphYamlError::InvalidPortRef { .. })));
    assert!(matches!(decode_port("in/-1"), Err(GraphYamlError::InvalidPortRef { .. })));
    assert!(matches!(decode_port("in/4294967296"), Err(GraphYamlError::InvalidPortRef { .. })));
    assert_eq!(decode_port("in/4294967295").unwrap(), ("in", u32::MAX));
}

#[test]
fn parse_u32_follows_from_str() {
    for text in ["0", "42", "+42", "007", "4294967295", "", "+", "-1", "1 ", "4294967296", "1e3"] {
        assert_eq!(parse_u32(text), text.parse::<u32>().ok(), "text {text:?}");
    }
}

#[test]
fn coerce_param_checks_shapes() {
    let enum_kind = ParameterKind::Enum { variants: &["sine", "saw"], default: "sine" };
    let text = |s: &str| YamlScalar { float: None, int: None, boolean: None, text: Some(s.to_string()), items: None };
    assert_eq!(coerce_param(&text("saw"), &enum_kind, "osc", "waveform").unwrap(), ParameterValue::Enum("saw"));
    match coerce_param(&text("square"), &enum_kind, "osc", "waveform").unwrap_err() {
        GraphYamlError::ParameterTypeMismatch { node, param, expected } => {
            assert_eq!(node, "osc");
            assert_eq!(param, "waveform");
            assert_eq!(expected, "known enum variant");
        }
        e => panic!("unexpected {e:?}"),
    }
    let array_kind = ParameterKind::Array { default: &[], length: 4 };
    let items = YamlScalar { float: None, int: None, boolean: None, text: None, items: Some(vec![Some("C3".into()), None]) };
    match coerce_param(&items, &array_kind, "seq", "steps").unwrap_err() {
        GraphYamlError::ParameterTypeMismatch { param, expected, .. } => {
            assert_eq!(param, "steps[1]");
            assert_eq!(expected, "string");
        }
        e => panic!("unexpected {e:?}"),
    }
    let int_kind = ParameterKind::Int { min: 0, max: 9, default: 0 };
    assert!(matches!(coerce_param(&bool_scalar(true), &int_kind, "n", "p"), Err(GraphYamlError::ParameterTypeMismatch { expected: "int", .. })));
    let float_kind = ParameterKind::Float { min: f(0.0), max: f(1.0), default: f(0.0) };
    let number = YamlScalar { float: Some(f(3.0)), int: Some(3), boolean: None, text: None, items: None };
    assert_eq!(coerce_param(&number, &float_kind, "n", "p").unwrap(), ParameterValue::Float(f(3.0)));
    assert_eq!(coerce_param(&number, &int_kind, "n", "p").unwrap(), ParameterValue::Int(3));
}

#[test]
fn graph_from_described_uses_the_given_descriptors_and_reports_the_first_fault() {
    let gain = describe("Gain", ModuleShape { channels: 0, length: 0 });
    // A missing descriptor on the second node wins over the cable that
    // names an unknown node.
    let doc = GraphDoc {
        nodes: vec![("a".to_string(), node("Gain", 0, vec![])), ("b".to_string(), node("Whatever", 0, vec![]))],
        cables: vec![CableDoc { from: "zz".into(), output: "out".into(), to: "a".into(), input: "in".into(), scale: f(1.0) }],
    };
    match graph_from_described(&doc, vec![gain.clone(), None]) {
        Err(GraphYamlError::UnknownModule { name }) => assert_eq!(name, "Whatever"),
        _ => panic!("expected UnknownModule"),
    }
    // With both descriptors the cable is the first fault.
    match graph_from_described(&doc, vec![gain.clone(), gain.clone()]) {
        Err(GraphYamlError::UnknownNode { id }) => assert_eq!(id, "zz"),
        _ => panic!("expected UnknownNode"),
    }
    // A taken input is reported on the second cable into it.
    let doc = GraphDoc {
        nodes: vec![("a".to_string(), node("Gain", 0, vec![])), ("b".to_string(), node("Gain", 0, vec![]))],
        cables: vec![
            CableDoc { from: "a".into(), output: "out".into(), to: "b".into(), input: "in".into(), scale: f(1.0) },
            CableDoc { from: "b".into(), output: "out".into(), to: "b".into(), input: "in".into(), scale: f(0.5) },
        ],
    };
    match graph_from_described(&doc, vec![gain.clone(), gain.clone()]) {
        Err(GraphYamlError::Graph(GraphError::InputAlreadyConnected { node, port })) => {
            assert_eq!(node.as_str(), "b");
            assert_eq!(port, "in/0");
        }
        _ => panic!("expected InputAlreadyConnected"),
    }
    let ok = GraphDoc { nodes: doc.nodes.iter().map(|(k, n)| (k.clone(), node(&n.module, 0, vec![]))).collect(), cables: vec![] };
    let g = graph_from_described(&ok, vec![gain.clone(), gain]).unwrap();
    assert_eq!(g.node_ids().len(), 2);
    assert_eq!(g.edge_list().len(), 0);
}

#[test]
fn reading_back_the_written_document_gives_the_graph_back() {
    let mut graph = ModuleGraph::new();
    let mix = describe("Mix", ModuleShape { channels: 0, length: 0 }).unwrap();
    let osc = describe("SineOsc", ModuleShape { channels: 2, length: 0 }).unwrap();
    let mut p = ParameterMap::new();
    p.insert("frequency".to_string(), ParameterValue::Float(f(220.0)));
    graph.add_module(NodeId::new("zeta"), osc.clone(), &p).unwrap();
    graph.add_module(NodeId::new("alpha"), mix.clone(), &ParameterMap::new()).unwrap();
    graph.connect(&NodeId::new("zeta"), PortRef { name: "out", index: 0 }, &NodeId::new("alpha"), PortRef { name: "in", index: 1 }, f(-0.25)).unwrap();
    graph.connect(&NodeId::new("alpha"), PortRef { name: "out", index: 0 }, &NodeId::new("alpha"), PortRef { name: "in", index: 0 }, f(1.0)).unwrap();

    let record = graph_to_doc(&graph);
    assert_eq!(record.nodes[0].0, "alpha");
    assert_eq!(record.nodes[1].0, "zeta");
    let descs = vec![Some(mix), Some(osc)];
    let back = graph_from_described(&reread(&record), descs).unwrap();

    assert_eq!(back.node_ids().len(), 2);
    let z = back.get_node(&NodeId::new("zeta")).unwrap();
    assert_eq!(z.module_descriptor.shape.channels, 2);
    assert_eq!(z.parameter_map.get("frequency"), Some(&ParameterValue::Float(f(220.0))));
    let mut original = graph.edge_list();
    let mut read = back.edge_list();
    let key = |e: &(NodeId, String, u32, NodeId, String, u32, FloatBits)| (e.0.as_str().to_string(), e.1.clone(), e.2, e.3.as_str().to_string(), e.4.clone(), e.5, e.6 .0);
    original.sort_by_key(key);
    read.sort_by_key(key);
    assert_eq!(original.len(), read.len());
    for (a, b) in original.iter().zip(read.iter()) {
        assert_eq!(key(a), key(b));
    }
}

fn record_text(record: &GraphRecord) -> Vec<String> {
    let mut out = Vec::new();
    for (name, node) in record.nodes.iter() {
        out.push(format!("node {} {} {} {} {}", name, node.module, node.channels, node.length, node.params.len()));
    }
    for c in record.cables.iter() {
        out.push(format!("cable {} {} {} {} {}", c.from, c.output, c.to, c.input, c.scale.0));
    }
    out
}

#[test]
fn equal_graphs_built_in_different_orders_give_equal_documents() {
    let osc = describe("SineOsc", ModuleShape { channels: 0, length: 0 }).unwrap();
    let mix = describe("Mix", ModuleShape { channels: 0, length: 0 }).unwrap();
    let mut g1 = ModuleGraph::new();
    g1.add_module(NodeId::new("z"), osc.clone(), &ParameterMap::new()).unwrap();
    g1.add_module(NodeId::new("m"), mix.clone(), &ParameterMap::new()).unwrap();
    g1.add_module(NodeId::new("a"), osc.clone(), &ParameterMap::new()).unwrap();
    g1.connect(&NodeId::new("z"), PortRef { name: "out", index: 0 }, &NodeId::new("m"), PortRef { name: "in", index: 1 }, f(1.0)).unwrap();
    g1.connect(&NodeId::new("a"), PortRef { name: "out", index: 0 }, &NodeId::new("m"), PortRef { name: "in", index: 0 }, f(-0.5)).unwrap();
    let mut g2 = ModuleGraph::new();
    g2.add_module(NodeId::new("a"), osc.clone(), &ParameterMap::new()).unwrap();
    g2.add_module(NodeId::new("m"), mix, &ParameterMap::new()).unwrap();
    g2.add_module(NodeId::new("z"), osc, &ParameterMap::new()).unwrap();
    g2.connect(&NodeId::new("a"), PortRef { name: "out", index: 0 }, &NodeId::new("m"), PortRef { name: "in", index: 0 }, f(-0.5)).unwrap();
    g2.connect(&NodeId::new("z"), PortRef { name: "out", index: 0 }, &NodeId::new("m"), PortRef { name: "in", index: 1 }, f(1.0)).unwrap();
    let r1 = record_text(&graph_to_doc(&g1));
    let r2 = record_text(&graph_to_doc(&g2));
    assert_eq!(r1, r2);
    assert_eq!(r1.len(), 5);
}
