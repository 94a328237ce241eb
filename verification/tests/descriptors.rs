use patches::modules::{CableKind, ModuleDescriptor, ModuleShape, ParameterDescriptor, ParameterKind, ParameterValue, PortDescriptor};
use patches::float_bits::FloatBits;

fn f(x: f64) -> FloatBits {
    FloatBits(x.to_bits())
}

#[test]
fn port_descriptor_fields() {
    let p = PortDescriptor { name: "freq", index: 0, kind: CableKind::Mono };
    assert_eq!(p.name, "freq");
    assert_eq!(p.index, 0);
}

#[test]
fn module_descriptor_port_counts() {
    let desc = ModuleDescriptor {
        module_name: "Stereo",
        shape: ModuleShape { channels: 0, length: 0 },
        inputs: vec![PortDescriptor { name: "in", index: 0, kind: CableKind::Mono }],
        outputs: vec![
            PortDescriptor { name: "out_l", index: 0, kind: CableKind::Mono },
            PortDescriptor { name: "out_r", index: 0, kind: CableKind::Mono },
        ],
        parameters: vec![],
        is_sink: false,
    };
    assert_eq!(desc.inputs.len(), 1);
    assert_eq!(desc.outputs.len(), 2);
}

#[test]
fn module_descriptor_build_a_module_descriptor() {
    let gain_amount = ParameterKind::Float { min: f(0.0), max: f(1.2), default: f(1.0) };
    let pan_amount = ParameterKind::Float { min: f(-1.0), max: f(1.0), default: f(0.0) };
    let toggle_off_on = ParameterKind::Bool { default: false };

    let m = ModuleDescriptor {
        module_name: "Mixer",
        shape: ModuleShape { channels: 2, length: 0 },
        inputs: vec![
            PortDescriptor { name: "in", index: 0, kind: CableKind::Mono },
            PortDescriptor { name: "in", index: 1, kind: CableKind::Mono },
            PortDescriptor { name: "gain_mod", index: 0, kind: CableKind::Mono },
            PortDescriptor { name: "gain_mod", index: 1, kind: CableKind::Mono },
            PortDescriptor { name: "pan_mod", index: 0, kind: CableKind::Mono },
            PortDescriptor { name: "pan_mod", index: 1, kind: CableKind::Mono },
        ],
        outputs: vec![
            PortDescriptor { name: "out_l", index: 0, kind: CableKind::Mono },
            PortDescriptor { name: "out_r", index: 0, kind: CableKind::Mono },
        ],
        parameters: vec![
            ParameterDescriptor { name: "gain", index: 0, parameter_type: gain_amount },
            ParameterDescriptor { name: "gain", index: 1, parameter_type: gain_amount },
            ParameterDescriptor { name: "pan", index: 0, parameter_type: pan_amount },
            ParameterDescriptor { name: "pan", index: 1, parameter_type: pan_amount },
            ParameterDescriptor { name: "mute", index: 0, parameter_type: toggle_off_on },
            ParameterDescriptor { name: "mute", index: 1, parameter_type: toggle_off_on },
            ParameterDescriptor { name: "solo", index: 0, parameter_type: toggle_off_on },
            ParameterDescriptor { name: "solo", index: 0, parameter_type: toggle_off_on },
        ],
        is_sink: false,
    };
    assert_eq!(m.module_name, "Mixer");
    assert_eq!(m.shape.channels, 2);
    assert_eq!(m.shape.length, 0);
    assert_eq!(m.inputs.len(), 6);
    assert_eq!(m.outputs.len(), 2);
    assert_eq!(m.parameters.len(), 8);
}

#[test]
fn kind_defaults_and_names() {
    assert_eq!(ParameterKind::Float { min: f(0.0), max: f(1.0), default: f(0.5) }.default_value(), ParameterValue::Float(f(0.5)));
    assert_eq!(ParameterKind::Int { min: 0, max: 9, default: 3 }.default_value(), ParameterValue::Int(3));
    assert_eq!(ParameterKind::Bool { default: true }.default_value(), ParameterValue::Bool(true));
    assert_eq!(ParameterKind::Enum { variants: &["sine", "saw"], default: "saw" }.default_value(), ParameterValue::Enum("saw"));
    assert_eq!(
        ParameterKind::Array { default: &["C3", "E3"], length: 4 }.default_value(),
        ParameterValue::Array(vec!["C3".to_string(), "E3".to_string()])
    );
    assert_eq!(ParameterKind::Enum { variants: &[], default: "" }.kind_name(), "enum");
    assert_eq!(ParameterValue::Array(vec![]).kind_name(), "array");
    assert_eq!(ParameterValue::Int(1).kind_name(), "int");
}
