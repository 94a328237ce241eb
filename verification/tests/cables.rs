use patches::cables::{InputPort, MonoInput, MonoOutput, OutputPort, PolyInput, PolyOutput, SampleBuffer};
use patches::float_bits::FloatBits;

#[test]
fn is_connected_mono_input() {
    assert!(!MonoInput::default().is_connected());
    assert!(MonoInput { cable_idx: 0, scale: FloatBits(1.0f64.to_bits()), connected: true }.is_connected());
}

#[test]
fn is_connected_poly_input() {
    assert!(!PolyInput::default().is_connected());
    assert!(PolyInput { cable_idx: 0, scale: FloatBits(1.0f64.to_bits()), connected: true }.is_connected());
}

#[test]
fn is_connected_mono_output() {
    assert!(!MonoOutput::default().is_connected());
    assert!(MonoOutput { cable_idx: 0, connected: true }.is_connected());
}

#[test]
fn is_connected_poly_output() {
    assert!(!PolyOutput::default().is_connected());
    assert!(PolyOutput { cable_idx: 0, connected: true }.is_connected());
}

#[test]
fn default_inputs_read_slot_zero_at_unit_scale() {
    let m = MonoInput::default();
    assert_eq!(m.cable_idx, 0);
    assert_eq!(f64::from_bits(m.scale.0), 1.0);
    let p = PolyInput::default();
    assert_eq!(f64::from_bits(p.scale.0), 1.0);
}

#[test]
fn port_wrappers_carry_their_port() {
    match OutputPort::Mono(MonoOutput { cable_idx: 3, connected: true }) {
        OutputPort::Mono(o) => assert_eq!(o.cable_idx, 3),
        OutputPort::Poly(_) => panic!("expected mono"),
    }
    match InputPort::Poly(PolyInput { cable_idx: 4, scale: FloatBits(0.5f64.to_bits()), connected: true }) {
        InputPort::Poly(p) => assert!(p.is_connected()),
        InputPort::Mono(_) => panic!("expected poly"),
    }
}

fn v(x: f64) -> FloatBits {
    FloatBits(x.to_bits())
}

#[test]
fn initial_read_is_zero() {
    let buf = SampleBuffer::new();
    assert_eq!(buf.read(), v(0.0));
}

#[test]
fn write_then_read_returns_previous_tick_value() {
    let mut buf = SampleBuffer::new();

    buf.write(v(1.0));
    assert_eq!(buf.read(), v(0.0));
    buf.advance();

    buf.write(v(2.0));
    assert_eq!(buf.read(), v(1.0));
    buf.advance();

    assert_eq!(buf.read(), v(2.0));
}

#[test]
fn advance_toggles_write_slot() {
    let mut buf = SampleBuffer::default();

    buf.write(v(10.0));
    buf.advance();
    buf.write(v(20.0));
    buf.advance();

    assert_eq!(buf.read(), v(20.0));
}
