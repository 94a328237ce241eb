use patches::float_bits::FloatBits;
use patches::modules::{ModuleDescriptor, ModuleShape, ParameterDescriptor, ParameterKind, ParameterValue};
use patches::parameter_map::ParameterMap;
use patches::validation::{validate_parameters, BuildError, RangeValue};

fn f(x: f64) -> FloatBits {
    FloatBits(x.to_bits())
}

fn array_descriptor() -> ModuleDescriptor {
    ModuleDescriptor {
        module_name: "TestArrayModule",
        shape: ModuleShape { channels: 0, length: 16 },
        inputs: vec![],
        outputs: vec![],
        parameters: vec![ParameterDescriptor {
            name: "steps",
            index: 0,
            parameter_type: ParameterKind::Array { default: &[], length: 16 },
        }],
        is_sink: false,
    }
}

fn synth_descriptor() -> ModuleDescriptor {
    ModuleDescriptor {
        module_name: "Synth",
        shape: ModuleShape { channels: 0, length: 0 },
        inputs: vec![],
        outputs: vec![],
        parameters: vec![
            ParameterDescriptor {
                name: "frequency",
                index: 0,
                parameter_type: ParameterKind::Float { min: f(0.0), max: f(20000.0), default: f(440.0) },
            },
            ParameterDescriptor { name: "voices", index: 0, parameter_type: ParameterKind::Int { min: 1, max: 8, default: 4 } },
            ParameterDescriptor {
                name: "waveform",
                index: 0,
                parameter_type: ParameterKind::Enum { variants: &["sine", "saw"], default: "sine" },
            },
            ParameterDescriptor { name: "mute", index: 0, parameter_type: ParameterKind::Bool { default: false } },
        ],
        is_sink: false,
    }
}

#[test]
fn array_value_passes_validation_for_array_parameter() {
    let mut params = ParameterMap::new();
    params.insert("steps".to_string(), ParameterValue::Array(vec!["C3".to_string()]));
    let desc = array_descriptor();
    assert!(validate_parameters(&params, &desc).is_ok());
}

#[test]
fn array_value_exceeding_length_returns_error() {
    let mut params = ParameterMap::new();
    params.insert("steps".to_string(), ParameterValue::Array(vec!["C3".to_string(); 17]));
    let desc = array_descriptor();
    let err = validate_parameters(&params, &desc).unwrap_err();
    assert!(
        matches!(err, BuildError::Custom { module: "TestArrayModule", .. }),
        "expected Custom error for capacity exceeded, got: {err:?}"
    );
    match err {
        BuildError::Custom { message, .. } => assert_eq!(message, "parameter 'steps' has 17 elements but capacity is 16"),
        _ => unreachable!(),
    }
}

#[test]
fn float_value_against_array_descriptor_returns_invalid_parameter_type() {
    let mut params = ParameterMap::new();
    params.insert("steps".to_string(), ParameterValue::Float(f(1.0)));
    let desc = array_descriptor();
    let err = validate_parameters(&params, &desc).unwrap_err();
    assert!(
        matches!(err, BuildError::InvalidParameterType { parameter: "steps", expected: "array", found: "float", .. }),
        "expected InvalidParameterType, got: {err:?}"
    );
}

#[test]
fn unknown_parameter_is_reported_by_name() {
    let mut params = ParameterMap::new();
    params.insert("detune".to_string(), ParameterValue::Float(f(1.0)));
    match validate_parameters(&params, &synth_descriptor()).unwrap_err() {
        BuildError::Custom { module, message } => {
            assert_eq!(module, "Synth");
            assert_eq!(message, "unknown parameter 'detune'");
        }
        other => panic!("unexpected {other:?}"),
    }
}

#[test]
fn float_out_of_range_reports_bounds() {
    let mut params = ParameterMap::new();
    params.insert("frequency".to_string(), ParameterValue::Float(f(-5.0)));
    match validate_parameters(&params, &synth_descriptor()).unwrap_err() {
        BuildError::ParameterOutOfRange { module, parameter, min, max, found } => {
            assert_eq!(module, "Synth");
            assert_eq!(parameter, "frequency");
            assert_eq!(min, RangeValue::Float(f(0.0)));
            assert_eq!(max, RangeValue::Float(f(20000.0)));
            assert_eq!(found, RangeValue::Float(f(-5.0)));
        }
        other => panic!("unexpected {other:?}"),
    }
}

#[test]
fn int_out_of_range_reports_bounds() {
    let mut params = ParameterMap::new();
    params.insert("voices".to_string(), ParameterValue::Int(9));
    match validate_parameters(&params, &synth_descriptor()).unwrap_err() {
        BuildError::ParameterOutOfRange { min, max, found, .. } => {
            assert_eq!(min, RangeValue::Int(1));
            assert_eq!(max, RangeValue::Int(8));
            assert_eq!(found, RangeValue::Int(9));
        }
        other => panic!("unexpected {other:?}"),
    }
}

#[test]
fn bounds_are_inclusive_and_nan_passes() {
    let mut params = ParameterMap::new();
    params.insert("frequency".to_string(), ParameterValue::Float(f(20000.0)));
    params.insert("voices".to_string(), ParameterValue::Int(1));
    assert!(validate_parameters(&params, &synth_descriptor()).is_ok());
    let mut nan = ParameterMap::new();
    nan.insert("frequency".to_string(), ParameterValue::Float(f(f64::NAN)));
    assert!(validate_parameters(&nan, &synth_descriptor()).is_ok());
}

#[test]
fn unknown_enum_variant_is_reported() {
    let mut params = ParameterMap::new();
    params.insert("waveform".to_string(), ParameterValue::Enum("square"));
    match validate_parameters(&params, &synth_descriptor()).unwrap_err() {
        BuildError::Custom { message, .. } => assert_eq!(message, "parameter 'waveform' has unrecognised value 'square'"),
        other => panic!("unexpected {other:?}"),
    }
}

#[test]
fn missing_parameters_are_not_an_error() {
    assert!(validate_parameters(&ParameterMap::new(), &synth_descriptor()).is_ok());
}

#[test]
fn first_violation_in_declaration_order_is_reported() {
    let mut params = ParameterMap::new();
    params.insert("mute".to_string(), ParameterValue::Int(1));
    params.insert("voices".to_string(), ParameterValue::Int(0));
    match validate_parameters(&params, &synth_descriptor()).unwrap_err() {
        BuildError::ParameterOutOfRange { parameter, .. } => assert_eq!(parameter, "voices"),
        other => panic!("unexpected {other:?}"),
    }
}

#[test]
fn fill_defaults_adds_only_missing_parameters() {
    let mut params = ParameterMap::new();
    params.insert("voices".to_string(), ParameterValue::Int(2));
    let filled = patches::validation::fill_defaults(&params, &synth_descriptor());
    assert_eq!(filled.len(), 4);
    assert_eq!(filled.get("voices"), Some(&ParameterValue::Int(2)));
    assert_eq!(filled.get("frequency"), Some(&ParameterValue::Float(f(440.0))));
    assert_eq!(filled.get("waveform"), Some(&ParameterValue::Enum("sine")));
    assert_eq!(filled.get("mute"), Some(&ParameterValue::Bool(false)));
    assert!(validate_parameters(&filled, &synth_descriptor()).is_ok());
}
