//! The life cycle of a sound engine: created with its pools, opened on an
//! audio device, started once, stopped. The device and stream work is done
//! by the caller; this module decides which step is allowed.
use vstd::prelude::*;

verus! {

/// Why the engine refuses a step.
#[derive(Debug, Clone, Copy, PartialEq, Eq, Structural)]
pub enum EngineRefusal {
    /// A control period of zero samples was asked for.
    InvalidControlPeriod,
    /// The device was already opened.
    AlreadyOpened,
    /// `start` was called before the device was opened.
    NotOpened,
    /// The pools were already handed to an audio stream; a fresh engine is
    /// needed to start again.
    AlreadyConsumed,
}

/// What `start` is to do.
#[derive(Debug, Clone, Copy, PartialEq, Eq, Structural)]
pub enum StartStep {
    /// A stream is already running: nothing to do.
    AlreadyRunning,
    /// The start is refused.
    Refused(EngineRefusal),
    /// Build and play the stream with the pools and the opened device, both
    /// now handed over.
    Proceed,
}

/// Where an engine stands: whether its pools are still held for a stream
/// (`pending`), whether a device is opened and not yet used, and whether a
/// stream runs.
#[derive(Debug, Clone, Copy, PartialEq, Eq, Structural)]
pub struct EngineStage {
    pub pending: bool,
    pub opened: bool,
    pub running: bool,
}

impl EngineStage {
    /// A new engine with pools for a control period of `control_period`
    /// samples: refused when it is zero, else holding its pools, with no
    /// device and no stream.
    pub fn created(control_period: usize) -> (r: Result<EngineStage, EngineRefusal>)
        ensures
            control_period == 0 <==> r == Err::<EngineStage, EngineRefusal>(EngineRefusal::InvalidControlPeriod),
            control_period != 0 ==> r == Ok::<EngineStage, EngineRefusal>(
                EngineStage { pending: true, opened: false, running: false },
            ),
    {
        if control_period == 0 {
            Err(EngineRefusal::InvalidControlPeriod)
        } else {
            Ok(EngineStage { pending: true, opened: false, running: false })
        }
    }

    /// Whether the device may be opened: not when it already was.
    pub fn open_step(&self) -> (r: Result<(), EngineRefusal>)
        ensures
            self.opened ==> r == Err::<(), EngineRefusal>(EngineRefusal::AlreadyOpened),
            !self.opened ==> r is Ok,
    {
        if self.opened {
            Err(EngineRefusal::AlreadyOpened)
        } else {
            Ok(())
        }
    }

    /// Records that the device was opened.
    pub fn mark_opened(&mut self)
        ensures
            *final(self) == (EngineStage { opened: true, ..*old(self) }),
    {
        self.opened = true;
    }

    /// Decides a `start`: nothing to do while a stream runs; refused once
    /// the pools are gone, which a refused start for want of an opened
    /// device also causes; otherwise the pools and the device are handed
    /// over to the stream about to be built.
    pub fn start(&mut self) -> (r: StartStep)
        ensures
            old(self).running ==> r == StartStep::AlreadyRunning && *final(self) == *old(self),
            !old(self).running && !old(self).pending ==> r == StartStep::Refused(EngineRefusal::AlreadyConsumed)
                && *final(self) == *old(self),
            !old(self).running && old(self).pending && !old(self).opened ==> r == StartStep::Refused(
                EngineRefusal::NotOpened,
            ) && *final(self) == (EngineStage { pending: false, ..*old(self) }),
            !old(self).running && old(self).pending && old(self).opened ==> r == StartStep::Proceed && *final(self)
                == (EngineStage { pending: false, opened: false, running: false }),
    {
        if self.running {
            return StartStep::AlreadyRunning;
        }
        if !self.pending {
            return StartStep::Refused(EngineRefusal::AlreadyConsumed);
        }
        self.pending = false;
        if !self.opened {
            return StartStep::Refused(EngineRefusal::NotOpened);
        }
        self.opened = false;
        StartStep::Proceed
    }

    /// Records that the stream built by a `Proceed` start is playing.
    pub fn mark_running(&mut self)
        ensures
            *final(self) == (EngineStage { running: true, ..*old(self) }),
    {
        self.running = true;
    }

    /// Stops: the stream, if any, is dropped. Calling it again, or on an
    /// engine never started, changes nothing more.
    pub fn stop(&mut self)
        ensures
            *final(self) == (EngineStage { running: false, ..*old(self) }),
    {
        self.running = false;
    }
}

} // verus!
