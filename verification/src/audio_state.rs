//! Bookkeeping of the audio thread that does not touch samples: which pool
//! slot holds the sink, and where the MIDI sub-block boundaries fall.
use vstd::prelude::*;

verus! {

/// Number of samples per MIDI sub-block.
pub const SUB_BLOCK_SIZE: u64 = 64;

/// Which module pool slot, if any, holds the registered sink.
#[derive(Debug, Clone, Copy, PartialEq, Eq, Structural)]
pub struct SinkSlot {
    pub slot: Option<usize>,
}

impl SinkSlot {
    /// No sink registered.
    pub fn new() -> (r: SinkSlot)
        ensures
            r.slot is None,
    {
        SinkSlot { slot: None }
    }

    /// Whether a sink is registered.
    pub fn has_sink(&self) -> (r: bool)
        ensures
            r == self.slot is Some,
    {
        self.slot.is_some()
    }

    /// Records that the module at `idx` was removed. Returns whether it was
    /// the sink, in which case the registration is cleared (and the caller
    /// clears its cached sink output).
    pub fn on_tombstone(&mut self, idx: usize) -> (r: bool)
        ensures
            r == (old(self).slot == Some(idx)),
            final(self).slot == if r { None } else { old(self).slot },
    {
        if self.slot == Some(idx) {
            self.slot = None;
            true
        } else {
            false
        }
    }

    /// Records that a module was installed at `idx`: a sink becomes the
    /// registered sink; any other module replacing the registered sink
    /// clears the registration. Returns whether the caller must clear its
    /// cached sink output.
    pub fn on_install(&mut self, idx: usize, is_sink: bool) -> (r: bool)
        ensures
            is_sink ==> final(self).slot == Some(idx) && !r,
            !is_sink ==> r == (old(self).slot == Some(idx)) && final(self).slot == if r {
                None
            } else {
                old(self).slot
            },
    {
        if is_sink {
            self.slot = Some(idx);
            false
        } else if self.slot == Some(idx) {
            self.slot = None;
            true
        } else {
            false
        }
    }
}

/// The MIDI sub-block position of the audio callback: the sample at which
/// the current sub-block starts, and how many of its samples are still to
/// be rendered.
pub struct SubBlockClock {
    sample_counter: u64,
    samples_until_next: u64,
}

impl SubBlockClock {
    /// The start of the current sub-block.
    pub closed spec fn start_spec(&self) -> u64 {
        self.sample_counter
    }

    /// Samples left in the current sub-block (`1..=SUB_BLOCK_SIZE`).
    pub closed spec fn remaining_spec(&self) -> u64 {
        self.samples_until_next
    }

    /// The position is well formed: sub-blocks start at multiples of the
    /// sub-block size, and between 1 and `SUB_BLOCK_SIZE` samples remain.
    pub open spec fn wf(&self) -> bool {
        &&& self.start_spec() % SUB_BLOCK_SIZE == 0
        &&& 1 <= self.remaining_spec() <= SUB_BLOCK_SIZE
    }

    /// Samples rendered since the clock was created.
    pub open spec fn rendered(&self) -> int {
        self.start_spec() + (SUB_BLOCK_SIZE - self.remaining_spec())
    }

    /// A clock at sample 0, at the start of a sub-block.
    pub fn new() -> (r: SubBlockClock)
        ensures
            r.wf(),
            r.start_spec() == 0,
            r.remaining_spec() == SUB_BLOCK_SIZE,
            r.rendered() == 0,
    {
        SubBlockClock { sample_counter: 0, samples_until_next: SUB_BLOCK_SIZE }
    }

    /// The sample at which the current sub-block starts (the window start
    /// for MIDI delivery, and the sample count published to the clock).
    pub fn sample_counter(&self) -> (r: u64)
        ensures
            r == self.start_spec(),
    {
        self.sample_counter
    }

    /// Whether the next sample starts a sub-block, so MIDI events are due.
    pub fn at_boundary(&self) -> (r: bool)
        ensures
            r == (self.remaining_spec() == SUB_BLOCK_SIZE),
    {
        self.samples_until_next == SUB_BLOCK_SIZE
    }

    /// The number of samples to render next, out of `frames` still wanted:
    /// up to the end of the current sub-block.
    pub fn next_chunk(&self, frames: usize) -> (r: usize)
        requires
            self.wf(),
        ensures
            r as int == if frames < self.remaining_spec() { frames as int } else { self.remaining_spec() as int },
    {
        if (frames as u64) < self.samples_until_next {
            frames
        } else {
            self.samples_until_next as usize
        }
    }

    /// Records that `chunk` samples of the current sub-block were rendered;
    /// at its end the clock moves to the next sub-block.
    pub fn advance(&mut self, chunk: u64)
        requires
            old(self).wf(),
            1 <= chunk <= old(self).remaining_spec(),
            old(self).start_spec() + SUB_BLOCK_SIZE <= u64::MAX,
        ensures
            final(self).wf(),
            final(self).rendered() == old(self).rendered() + chunk,
            chunk == old(self).remaining_spec() ==> final(self).start_spec() == old(self).start_spec() + SUB_BLOCK_SIZE
                && final(self).remaining_spec() == SUB_BLOCK_SIZE,
            chunk < old(self).remaining_spec() ==> final(self).start_spec() == old(self).start_spec()
                && final(self).remaining_spec() == old(self).remaining_spec() - chunk,
    {
        self.samples_until_next = self.samples_until_next - chunk;
        if self.samples_until_next == 0 {
            self.sample_counter = self.sample_counter + SUB_BLOCK_SIZE;
            self.samples_until_next = SUB_BLOCK_SIZE;
        }
    }
}

} // verus!
