//! Module-side cable ports: where a module reads its inputs and writes its
//! outputs in the shared cable pool, and whether a cable is attached.
use vstd::prelude::*;

use crate::float_bits::{FloatBits, ONE_BITS};

verus! {

/// A mono input port: the cable pool slot it reads, the scale applied on
/// read, and whether a cable is attached.
#[derive(Clone, Copy, Debug)]
pub struct MonoInput {
    pub cable_idx: usize,
    pub scale: FloatBits,
    pub connected: bool,
}

impl Default for MonoInput {
    /// Unconnected, reading slot `0` with scale `1.0`.
    fn default() -> (r: MonoInput)
        ensures
            r.cable_idx == 0 && r.scale == FloatBits(ONE_BITS) && !r.connected,
    {
        MonoInput { cable_idx: 0, scale: FloatBits(ONE_BITS), connected: false }
    }
}

impl MonoInput {
    /// Whether a cable is attached.
    pub fn is_connected(&self) -> (r: bool)
        ensures
            r == self.connected,
    {
        self.connected
    }
}

/// A poly (16-channel) input port.
#[derive(Clone, Copy, Debug)]
pub struct PolyInput {
    pub cable_idx: usize,
    pub scale: FloatBits,
    pub connected: bool,
}

impl Default for PolyInput {
    /// Unconnected, reading slot `0` with scale `1.0`.
    fn default() -> (r: PolyInput)
        ensures
            r.cable_idx == 0 && r.scale == FloatBits(ONE_BITS) && !r.connected,
    {
        PolyInput { cable_idx: 0, scale: FloatBits(ONE_BITS), connected: false }
    }
}

impl PolyInput {
    /// Whether a cable is attached.
    pub fn is_connected(&self) -> (r: bool)
        ensures
            r == self.connected,
    {
        self.connected
    }
}

/// A mono output port: the cable pool slot it writes.
#[derive(Clone, Copy, Debug)]
pub struct MonoOutput {
    pub cable_idx: usize,
    pub connected: bool,
}

impl Default for MonoOutput {
    /// Unconnected, writing slot `0`.
    fn default() -> (r: MonoOutput)
        ensures
            r.cable_idx == 0 && !r.connected,
    {
        MonoOutput { cable_idx: 0, connected: false }
    }
}

impl MonoOutput {
    /// Whether a cable is attached.
    pub fn is_connected(&self) -> (r: bool)
        ensures
            r == self.connected,
    {
        self.connected
    }
}

/// A poly (16-channel) output port.
#[derive(Clone, Copy, Debug)]
pub struct PolyOutput {
    pub cable_idx: usize,
    pub connected: bool,
}

impl Default for PolyOutput {
    /// Unconnected, writing slot `0`.
    fn default() -> (r: PolyOutput)
        ensures
            r.cable_idx == 0 && !r.connected,
    {
        PolyOutput { cable_idx: 0, connected: false }
    }
}

impl PolyOutput {
    /// Whether a cable is attached.
    pub fn is_connected(&self) -> (r: bool)
        ensures
            r == self.connected,
    {
        self.connected
    }
}

/// An input port of either arity.
#[derive(Clone, Copy, Debug)]
pub enum InputPort {
    Mono(MonoInput),
    Poly(PolyInput),
}

/// An output port of either arity.
#[derive(Clone, Copy, Debug)]
pub enum OutputPort {
    Mono(MonoOutput),
    Poly(PolyOutput),
}

/// A two-slot sample buffer: one slot is written during a tick while the
/// other holds the value written during the previous tick.
pub struct SampleBuffer {
    data: [FloatBits; 2],
    write_index: usize,
}

impl SampleBuffer {
    /// The slot written during the current tick (0 or 1).
    pub closed spec fn write_slot(&self) -> int {
        self.write_index as int
    }

    /// The value in slot `i`.
    pub closed spec fn slot(&self, i: int) -> FloatBits {
        self.data@[i]
    }

    /// The value a read gives: the one in the slot not being written.
    pub open spec fn read_value(&self) -> FloatBits {
        self.slot(1 - self.write_slot())
    }

    /// `after` is `self` with `value` stored in the write slot.
    pub open spec fn wrote(&self, value: FloatBits, after: SampleBuffer) -> bool {
        &&& after.write_slot() == self.write_slot()
        &&& after.slot(self.write_slot()) == value
        &&& after.slot(1 - self.write_slot()) == self.slot(1 - self.write_slot())
    }

    /// `after` is `self` with its write and read slots swapped.
    pub open spec fn advanced(&self, after: SampleBuffer) -> bool {
        &&& after.write_slot() == 1 - self.write_slot()
        &&& after.slot(0) == self.slot(0)
        &&& after.slot(1) == self.slot(1)
    }

    /// The write slot is 0 or 1.
    #[verifier::type_invariant]
    spec fn inv(&self) -> bool {
        self.write_index < 2
    }

    /// Both slots hold `0.0`, and slot 0 is written first.
    pub fn new() -> (r: SampleBuffer)
        ensures
            r.write_slot() == 0,
            r.slot(0) == FloatBits(0),
            r.slot(1) == FloatBits(0),
    {
        SampleBuffer { data: [FloatBits(0), FloatBits(0)], write_index: 0 }
    }

    /// Stores `value` in the write slot.
    pub fn write(&mut self, value: FloatBits)
        ensures
            old(self).wrote(value, *final(self)),
    {
        proof {
            use_type_invariant(&*self);
        }
        let i = self.write_index;
        let mut data = self.data;
        data.set(i, value);
        self.data = data;
    }

    /// The value written during the previous tick (the read slot).
    pub fn read(&self) -> (r: FloatBits)
        ensures
            0 <= self.write_slot() < 2,
            r == self.read_value(),
    {
        proof {
            use_type_invariant(self);
        }
        self.data[1 - self.write_index]
    }

    /// Swaps the write and read slots.
    pub fn advance(&mut self)
        ensures
            old(self).advanced(*final(self)),
    {
        proof {
            use_type_invariant(&*self);
        }
        self.write_index = 1 - self.write_index;
    }
}

impl Default for SampleBuffer {
    /// Both slots `0.0`, slot 0 written first.
    fn default() -> (r: SampleBuffer)
        ensures
            r.write_slot() == 0,
            r.slot(0) == FloatBits(0),
            r.slot(1) == FloatBits(0),
    {
        SampleBuffer::new()
    }
}

/// A one-sample delay: the value written during a tick is what is read
/// during the next one, and a write leaves the value read during its own
/// tick unchanged.
pub proof fn lemma_one_sample_delay(b0: SampleBuffer, value: FloatBits, b1: SampleBuffer, b2: SampleBuffer)
    requires
        0 <= b0.write_slot() < 2,
        b0.wrote(value, b1),
        b1.advanced(b2),
    ensures
        b1.read_value() == b0.read_value(),
        b2.read_value() == value,
{
}

} // verus!
