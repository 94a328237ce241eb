//! MIDI events, their timing, and the lock-free queue that carries them from
//! the MIDI input threads to the audio thread.
use vstd::prelude::*;

verus! {

/// A raw 3-byte MIDI message: a status byte and two data bytes (unused data
/// bytes are zero).
#[derive(Debug, Clone, Copy, PartialEq, Eq)]
pub struct MidiEvent {
    pub bytes: [u8; 3],
}

/// Opt-in trait for modules that receive MIDI events. Called once per
/// sub-block for each event of its window; implementations must not
/// allocate, block or perform I/O.
pub trait ReceivesMidi {
    fn receive_midi(&mut self, event: MidiEvent);
}

/// Returned by [`EventQueueProducer::push`] when the queue is full.
#[derive(Debug, Clone, Copy, PartialEq, Eq, Structural)]
pub struct QueueFull;

/// The event carried by an incoming MIDI message: `None` for an empty
/// message and for a SysEx message (status `0xF0`); otherwise its first
/// three bytes, missing data bytes being zero.
pub fn midi_event_from_message(message: &[u8]) -> (r: Option<MidiEvent>)
    ensures
        message@.len() == 0 || message@[0] == 0xF0 ==> r is None,
        message@.len() > 0 && message@[0] != 0xF0 ==> (r matches Some(e) && e.bytes@ == seq![
            message@[0],
            if message@.len() > 1 { message@[1] } else { 0u8 },
            if message@.len() > 2 { message@[2] } else { 0u8 },
        ]),
{
    if message.len() == 0 {
        return None;
    }
    if message[0] == 0xF0 {
        return None;
    }
    let bytes = if message.len() == 1 {
        [message[0], 0, 0]
    } else if message.len() == 2 {
        [message[0], message[1], 0]
    } else {
        [message[0], message[1], message[2]]
    };
    let e = MidiEvent { bytes };
    proof {
        assert(e.bytes@ =~= seq![
            message@[0],
            if message@.len() > 1 { message@[1] } else { 0u8 },
            if message@.len() > 2 { message@[2] } else { 0u8 },
        ]);
    }
    Some(e)
}

/// The target sample of an event `elapsed_samples` after the anchor at
/// sample `anchor`, with `lookahead` added: never before the anchor.
pub open spec fn scheduled_spec(anchor: u64, elapsed_samples: i64, lookahead: u64) -> int {
    let target = anchor + elapsed_samples + lookahead;
    if target < anchor { anchor as int } else { target }
}

/// Computes the target sample of an event: `anchor + elapsed_samples +
/// lookahead`, clamped so that it is never before `anchor`.
pub fn scheduled_sample(anchor: u64, elapsed_samples: i64, lookahead: u64) -> (r: u64)
    requires
        anchor + elapsed_samples + lookahead <= i64::MAX,
        anchor <= i64::MAX,
    ensures
        r == scheduled_spec(anchor, elapsed_samples, lookahead),
{
    let target: i128 = anchor as i128 + elapsed_samples as i128 + lookahead as i128;
    if target < anchor as i128 {
        anchor
    } else {
        target as u64
    }
}

// ── the audio clock's sequence lock ──────────────────────────────────────────

#[verifier::external_type_specification]
#[verifier::external_body]
pub struct ExInstant(std::time::Instant);

/// A consistent snapshot of the audio clock: the sample count and the wall
/// time at which that sample is played.
#[derive(Clone, Copy, Debug, PartialEq, Eq)]
pub struct ClockAnchor {
    pub sample_count: u64,
    pub playback_wall_time: std::time::Instant,
}

/// The sequence value stored while a publication from `seq` is writing.
pub open spec fn writing_sequence(seq: u64) -> int {
    (seq as int + 1) % 0x1_0000_0000_0000_0000int
}

/// The sequence value stored once a publication from `seq` is done.
pub open spec fn done_sequence(seq: u64) -> int {
    (seq as int + 2) % 0x1_0000_0000_0000_0000int
}

/// A read that saw `seq1` before and `seq2` after reading the payload got a
/// consistent snapshot.
pub open spec fn consistent_read(seq1: int, seq2: int) -> bool {
    seq1 % 2 == 0 && seq1 == seq2
}

/// The two sequence values a publication stores: odd while the payload is
/// being written, then even.
pub fn publish_sequences(seq: u64) -> (r: (u64, u64))
    ensures
        r.0 == writing_sequence(seq),
        r.1 == done_sequence(seq),
{
    (seq.wrapping_add(1), seq.wrapping_add(2))
}

/// A read that saw sequence `seq1` before and `seq2` after reading the
/// payload got a consistent snapshot: no write was in progress (`seq1`
/// even) and none completed meanwhile (`seq1 == seq2`).
pub fn read_is_consistent(seq1: u64, seq2: u64) -> (r: bool)
    ensures
        r == consistent_read(seq1 as int, seq2 as int),
{
    proof {
        assert(seq1 & 1 == seq1 % 2) by (bit_vector);
    }
    seq1 & 1 == 0 && seq1 == seq2
}

/// Readers never take a snapshot that a publication overlaps: starting from
/// an even sequence, a read that begins while the payload is being written
/// (odd sequence) is rejected whatever it sees after, and so is a read that
/// begins before the publication and ends after it; the sequence is even
/// again once the publication is done.
pub proof fn lemma_publication_hides_partial_writes(seq: u64, seen_after: int)
    requires
        seq % 2 == 0,
    ensures
        !consistent_read(writing_sequence(seq), seen_after),
        !consistent_read(seq as int, done_sequence(seq)),
        done_sequence(seq) % 2 == 0,
{
}

// ── the event queue ──────────────────────────────────────────────────────────

/// An event with the sample at which it is due.
#[derive(Debug, Clone, Copy)]
pub struct TimedEvent {
    pub target_sample: u64,
    pub event: MidiEvent,
}

#[verifier::external_type_specification]
#[verifier::external_body]
#[verifier::reject_recursive_types(T)]
pub struct ExProducer<T>(rtrb::Producer<T>);

#[verifier::external_type_specification]
#[verifier::external_body]
#[verifier::reject_recursive_types(T)]
pub struct ExConsumer<T>(rtrb::Consumer<T>);

/// The number of slots of the ring buffer behind a producer end, as
/// `rtrb::RingBuffer::capacity` reports it through `Producer::buffer`.
pub uninterp spec fn producer_capacity(p: rtrb::Producer<TimedEvent>) -> nat;

/// The number of slots of the ring buffer behind a consumer end, as
/// `rtrb::RingBuffer::capacity` reports it through `Consumer::buffer`.
pub uninterp spec fn consumer_capacity(c: rtrb::Consumer<TimedEvent>) -> nat;

/// Calls `rtrb::RingBuffer::new`, which creates a single-producer,
/// single-consumer ring buffer of `capacity` slots and returns its two
/// ends, both over that buffer (rtrb stores `capacity` as the buffer's
/// capacity). It panics when `capacity * 2` overflows or the slots do not
/// fit the address space; `requires` keeps the capacity well below both.
/// The ends share a buffer that another thread fills or drains, so nothing
/// is claimed of their contents.
#[verifier::external_body]
fn ring_buffer(capacity: usize) -> (r: (rtrb::Producer<TimedEvent>, rtrb::Consumer<TimedEvent>))
    requires
        capacity <= 0x07ff_ffff,
    ensures
        producer_capacity(r.0) == capacity,
        consumer_capacity(r.1) == capacity,
{
    rtrb::RingBuffer::new(capacity)
}

/// Calls `rtrb::Producer::push`: `true` when the item was stored, `false`
/// when the queue was full (rtrb's `PushError::Full`). Whether it is full
/// depends on the consumer thread, so no outcome is promised; the buffer's
/// capacity, fixed when rtrb created it, stays as it was.
#[verifier::external_body]
fn push_timed(producer: &mut rtrb::Producer<TimedEvent>, item: TimedEvent) -> (r: bool)
    ensures
        producer_capacity(*final(producer)) == producer_capacity(*old(producer)),
{
    producer.push(item).is_ok()
}

/// Calls `rtrb::Consumer::pop`: the oldest item, or `None` when the queue
/// is empty (rtrb's `PopError::Empty`). What is there depends on the
/// producer thread, so no outcome is promised; the buffer's capacity, fixed
/// when rtrb created it, stays as it was.
#[verifier::external_body]
fn pop_timed(consumer: &mut rtrb::Consumer<TimedEvent>) -> (r: Option<TimedEvent>)
    ensures
        consumer_capacity(*final(consumer)) == consumer_capacity(*old(consumer)),
{
    consumer.pop().ok()
}

/// Producer half of the event queue; lives on a MIDI input thread.
pub struct EventQueueProducer {
    inner: rtrb::Producer<TimedEvent>,
    /// Every event this producer has stored in the queue, in order.
    pushed: Ghost<Seq<TimedEvent>>,
}

impl EventQueueProducer {
    /// The number of events the queue holds at most.
    pub closed spec fn capacity(&self) -> nat {
        producer_capacity(self.inner)
    }

    /// The events stored in the queue through this producer, in order.
    pub closed spec fn pushed(&self) -> Seq<TimedEvent> {
        self.pushed@
    }

    /// Pushes `event`, due at `target_sample`, without blocking or
    /// allocating; [`QueueFull`] when the queue has no room. Whether there
    /// is room depends on how far the consumer thread has drained the
    /// queue; the capacity stays as it was.
    pub fn push(&mut self, target_sample: u64, event: MidiEvent) -> (r: Result<(), QueueFull>)
        ensures
            final(self).capacity() == old(self).capacity(),
            r is Ok ==> final(self).pushed() == old(self).pushed().push(TimedEvent { target_sample, event }),
            r is Err ==> final(self).pushed() == old(self).pushed(),
    {
        let item = TimedEvent { target_sample, event };
        if push_timed(&mut self.inner, item) {
            self.pushed = Ghost(self.pushed@.push(item));
            Ok(())
        } else {
            Err(QueueFull)
        }
    }
}

/// Consumer half of the event queue; lives on the audio thread. Events
/// taken out of the queue that belong to a later window wait in `pending`,
/// in the order they were taken.
pub struct EventQueueConsumer {
    inner: rtrb::Consumer<TimedEvent>,
    pending: Vec<TimedEvent>,
    /// Every event this consumer has taken out of the queue, in order.
    taken: Ghost<Seq<TimedEvent>>,
}

/// Creates an event queue of `capacity` slots.
pub fn new_event_queue(capacity: usize) -> (r: (EventQueueProducer, EventQueueConsumer))
    requires
        capacity <= 0x07ff_ffff,
    ensures
        r.0.capacity() == capacity,
        r.1.capacity() == capacity,
        r.0.pushed() == Seq::<TimedEvent>::empty(),
        r.1.taken() == Seq::<TimedEvent>::empty(),
        r.1.pending_spec() == Seq::<TimedEvent>::empty(),
{
    let (producer, consumer) = ring_buffer(capacity);
    (
        EventQueueProducer { inner: producer, pushed: Ghost(Seq::empty()) },
        EventQueueConsumer { inner: consumer, pending: Vec::with_capacity(capacity), taken: Ghost(Seq::empty()) },
    )
}

/// A window of samples `[start, end)` being drained, with the sub-block
/// size that clamps offsets.
pub struct DrainWindow {
    pub window_start: u64,
    pub window_end: u64,
    pub sub_block_size: u64,
}

/// The end of the window of `size` samples starting at `start`, saturating
/// at `u64::MAX`.
pub open spec fn window_end_spec(start: u64, size: u64) -> u64 {
    if start + size > u64::MAX { u64::MAX } else { (start + size) as u64 }
}

/// Where an event due at `target` falls for the window starting at
/// `start` and ending at `end`: `None` when it belongs to a later window,
/// otherwise its offset in the window (0 for a late event, at most
/// `sub_block_size - 1`).
pub open spec fn window_offset(target: u64, start: u64, end: u64, sub_block_size: u64) -> Option<int> {
    if target >= end {
        None
    } else if target < start {
        Some(0)
    } else {
        let raw = target - start;
        let cap = if sub_block_size == 0 { 0 } else { sub_block_size - 1 };
        Some(if raw < cap { raw } else { cap })
    }
}

/// The window of `size` samples starting at `start`.
pub open spec fn window_of(start: u64, size: u64) -> DrainWindow {
    DrainWindow { window_start: start, window_end: window_end_spec(start, size), sub_block_size: size }
}

/// Event `t` is due before the end of window `w` (late events included).
pub open spec fn due_in(t: TimedEvent, w: DrainWindow) -> bool {
    window_offset(t.target_sample, w.window_start, w.window_end, w.sub_block_size) is Some
}

/// The events due in window `w`.
pub open spec fn due_pred(w: DrainWindow) -> spec_fn(TimedEvent) -> bool {
    |t: TimedEvent| due_in(t, w)
}

/// The events of a later window than `w`.
pub open spec fn later_pred(w: DrainWindow) -> spec_fn(TimedEvent) -> bool {
    |t: TimedEvent| !due_in(t, w)
}

/// What window `w` yields for event `t`, due in it: its offset and event.
pub open spec fn item_of(t: TimedEvent, w: DrainWindow) -> (usize, MidiEvent) {
    (window_offset(t.target_sample, w.window_start, w.window_end, w.sub_block_size)->Some_0 as usize, t.event)
}

/// What window `w` yields for the events `s`: the items of those due in
/// it, in order.
pub open spec fn items_due(s: Seq<TimedEvent>, w: DrainWindow) -> Seq<(usize, MidiEvent)> {
    s.filter(due_pred(w)).map_values(|t: TimedEvent| item_of(t, w))
}

/// Computes [`window_offset`].
pub fn offset_in_window(target: u64, start: u64, end: u64, sub_block_size: u64) -> (r: Option<usize>)
    requires
        sub_block_size <= usize::MAX,
    ensures
        match window_offset(target, start, end, sub_block_size) {
            None => r is None,
            Some(o) => r matches Some(x) && x == o,
        },
{
    if target >= end {
        None
    } else if target < start {
        Some(0)
    } else {
        let raw = target - start;
        let cap = sub_block_size.saturating_sub(1);
        let o = if raw < cap { raw } else { cap };
        Some(o as usize)
    }
}

impl EventQueueConsumer {
    /// The number of events the queue holds at most.
    pub closed spec fn capacity(&self) -> nat {
        consumer_capacity(self.inner)
    }

    /// The events taken out of the queue so far, in order.
    pub closed spec fn taken(&self) -> Seq<TimedEvent> {
        self.taken@
    }

    /// The events taken out of the queue that wait for a later window, in
    /// the order they were taken.
    pub closed spec fn pending_spec(&self) -> Seq<TimedEvent> {
        self.pending@
    }

    /// Starts draining the window `[window_start, window_start +
    /// sub_block_size)` (the end saturating at `u64::MAX`).
    pub fn drain_window(&mut self, window_start: u64, sub_block_size: u64) -> (r: DrainWindow)
        ensures
            r == window_of(window_start, sub_block_size),
            final(self).pending_spec() == old(self).pending_spec(),
            final(self).taken() == old(self).taken(),
            final(self).capacity() == old(self).capacity(),
    {
        DrainWindow { window_start, window_end: window_start.saturating_add(sub_block_size), sub_block_size }
    }

    /// The item of event `t` in window `w`, which it is due in.
    fn item_in(w: &DrainWindow, t: TimedEvent) -> (r: (usize, MidiEvent))
        requires
            w.sub_block_size <= usize::MAX,
            due_in(t, *w),
        ensures
            r == item_of(t, *w),
            r.0 < w.sub_block_size || r.0 == 0,
    {
        match offset_in_window(t.target_sample, w.window_start, w.window_end, w.sub_block_size) {
            Some(o) => (o, t.event),
            None => (0, t.event),
        }
    }

    /// Places event `t`, just taken out of the queue, in window `w`: an
    /// event due in the window is returned at its offset (0 when late,
    /// clamped to the sub-block); an event of a later window is set aside,
    /// after the events already waiting.
    pub fn place(&mut self, w: &DrainWindow, t: TimedEvent) -> (r: Option<(usize, MidiEvent)>)
        requires
            w.sub_block_size <= usize::MAX,
        ensures
            final(self).taken() == old(self).taken(),
            final(self).capacity() == old(self).capacity(),
            due_in(t, *w) ==> r == Some(item_of(t, *w)) && final(self).pending_spec() == old(self).pending_spec(),
            !due_in(t, *w) ==> r is None && final(self).pending_spec() == old(self).pending_spec().push(t),
    {
        if t.target_sample < w.window_end {
            Some(Self::item_in(w, t))
        } else {
            self.pending.push(t);
            None
        }
    }

    /// The next event of window `w` with its offset. The first waiting
    /// event due in the window comes first; otherwise events are taken from
    /// the queue in order, those of a later window being set aside, until
    /// one is due in the window or the queue is empty (which depends on the
    /// producer thread). Late events are given offset 0.
    pub fn next_in(&mut self, w: &DrainWindow) -> (r: Option<(usize, MidiEvent)>)
        requires
            w.sub_block_size <= usize::MAX,
        ensures
            final(self).capacity() == old(self).capacity(),
            final(self).taken().len() >= old(self).taken().len(),
            final(self).taken().take(old(self).taken().len() as int) == old(self).taken(),
            ({
                let p = old(self).pending_spec();
                let q = final(self).taken().skip(old(self).taken().len() as int);
                if exists|i: int| 0 <= i < p.len() && due_in(#[trigger] p[i], *w) {
                    &&& q.len() == 0
                    &&& exists|i: int|
                        0 <= i < p.len() && due_in(#[trigger] p[i], *w) && (forall|j: int| 0 <= j < i ==> !due_in(#[trigger] p[j], *w))
                            && r == Some(item_of(p[i], *w)) && final(self).pending_spec() == p.remove(i)
                } else {
                    match r {
                        Some(x) => {
                            &&& q.len() > 0
                            &&& due_in(q.last(), *w)
                            &&& x == item_of(q.last(), *w)
                            &&& forall|j: int| 0 <= j < q.len() - 1 ==> !due_in(#[trigger] q[j], *w)
                            &&& final(self).pending_spec() == p + q.drop_last()
                        },
                        None => {
                            &&& forall|j: int| 0 <= j < q.len() ==> !due_in(#[trigger] q[j], *w)
                            &&& final(self).pending_spec() == p + q
                        },
                    }
                }
            }),
            r matches Some((x, e)) ==> (x < w.sub_block_size || x == 0),
    {
        let ghost p = self.pending@;
        let ghost t0 = self.taken@;
        let mut i: usize = 0;
        while i < self.pending.len()
            invariant
                i <= self.pending@.len(),
                self.pending@ == p,
                self.taken@ == t0,
                p == old(self).pending@,
                t0 == old(self).taken@,
                w.sub_block_size <= usize::MAX,
                consumer_capacity(self.inner) == consumer_capacity(old(self).inner),
                forall|j: int| 0 <= j < i ==> !due_in(#[trigger] p[j], *w),
            decreases self.pending@.len() - i,
        {
            if self.pending[i].target_sample < w.window_end {
                let t = self.pending.remove(i);
                proof {
                    assert(self.taken@.skip(t0.len() as int) =~= Seq::<TimedEvent>::empty());
                    assert(self.taken@.take(t0.len() as int) =~= t0);
                }
                return Some(Self::item_in(w, t));
            }
            i = i + 1;
        }
        proof {
            assert(self.taken@.skip(t0.len() as int) =~= Seq::<TimedEvent>::empty());
            assert(p + Seq::<TimedEvent>::empty() =~= p);
            assert(self.taken@.take(t0.len() as int) =~= t0);
        }
        while self.pending.len() < usize::MAX
            invariant
                forall|j: int| 0 <= j < p.len() ==> !due_in(#[trigger] p[j], *w),
                w.sub_block_size <= usize::MAX,
                p == old(self).pending@,
                t0 == old(self).taken@,
                self.taken@.len() >= t0.len(),
                self.taken@.take(t0.len() as int) == t0,
                self.pending@ == p + self.taken@.skip(t0.len() as int),
                forall|j: int|
                    0 <= j < self.taken@.skip(t0.len() as int).len() ==> !due_in(
                        #[trigger] self.taken@.skip(t0.len() as int)[j],
                        *w,
                    ),
                consumer_capacity(self.inner) == consumer_capacity(old(self).inner),
            decreases usize::MAX - self.pending@.len(),
        {
            match pop_timed(&mut self.inner) {
                None => {
                    return None;
                },
                Some(t) => {
                    let ghost before = self.taken@;
                    self.taken = Ghost(self.taken@.push(t));
                    proof {
                        assert(self.taken@.take(t0.len() as int) =~= before.take(t0.len() as int));
                        assert(self.taken@.skip(t0.len() as int) =~= before.skip(t0.len() as int).push(t));
                    }
                    let ghost q = self.taken@.skip(t0.len() as int);
                    match self.place(w, t) {
                        Some(x) => {
                            proof {
                                assert(q.drop_last() =~= before.skip(t0.len() as int));
                            }
                            return Some(x);
                        },
                        None => {
                            proof {
                                assert(self.pending@ =~= p + q);
                            }
                        },
                    }
                },
            }
        }
        None
    }

    /// All events of the window `[window_start, window_start +
    /// sub_block_size)` with their offsets: first those already waiting,
    /// then those taken from the queue until it is empty, in the order they
    /// were taken. Late events are given offset 0. Every event of a later
    /// window is kept, in order, for the windows to come.
    pub fn drain(&mut self, window_start: u64, sub_block_size: u64) -> (r: Vec<(usize, MidiEvent)>)
        requires
            sub_block_size <= usize::MAX,
        ensures
            final(self).capacity() == old(self).capacity(),
            final(self).taken().len() >= old(self).taken().len(),
            final(self).taken().take(old(self).taken().len() as int) == old(self).taken(),
            ({
                let w = window_of(window_start, sub_block_size);
                let c = old(self).pending_spec() + final(self).taken().skip(old(self).taken().len() as int);
                &&& r@ == items_due(c, w)
                &&& final(self).pending_spec() == c.filter(later_pred(w))
            }),
            forall|i: int| 0 <= i < r@.len() ==> (#[trigger] r@[i]).0 < sub_block_size || r@[i].0 == 0,
    {
        let ghost p = self.pending@;
        let ghost t0 = self.taken@;
        let w = self.drain_window(window_start, sub_block_size);
        let mut out: Vec<(usize, MidiEvent)> = Vec::new();
        let mut kept: Vec<TimedEvent> = Vec::new();
        let mut i: usize = 0;
        while i < self.pending.len()
            invariant
                i <= self.pending@.len(),
                self.pending@ == p,
                self.taken@ == t0,
                p == old(self).pending@,
                t0 == old(self).taken@,
                consumer_capacity(self.inner) == consumer_capacity(old(self).inner),
                w == window_of(window_start, sub_block_size),
                sub_block_size <= usize::MAX,
                out@ == items_due(p.take(i as int), w),
                kept@ == p.take(i as int).filter(later_pred(w)),
                forall|k: int| 0 <= k < out@.len() ==> (#[trigger] out@[k]).0 < sub_block_size || out@[k].0 == 0,
            decreases self.pending@.len() - i,
        {
            let t = self.pending[i];
            proof {
                assert(p.take(i as int + 1) =~= p.take(i as int).push(t));
                p.take(i as int).lemma_filter_push(t, due_pred(w));
                p.take(i as int).lemma_filter_push(t, later_pred(w));
            }
            if t.target_sample < w.window_end {
                let ghost before = out@;
                out.push(Self::item_in(&w, t));
                proof {
                    assert(due_pred(w)(t));
                    assert(p.take(i as int).filter(due_pred(w)).push(t).map_values(|x: TimedEvent| item_of(x, w))
                        =~= before.push(item_of(t, w)));
                }
            } else {
                kept.push(t);
                proof {
                    assert(later_pred(w)(t));
                }
            }
            i = i + 1;
        }
        proof {
            assert(p.take(p.len() as int) =~= p);
            assert(self.taken@.skip(t0.len() as int) =~= Seq::<TimedEvent>::empty());
            assert(p + Seq::<TimedEvent>::empty() =~= p);
        }
        while out.len() < usize::MAX - kept.len()
            invariant
                w == window_of(window_start, sub_block_size),
                sub_block_size <= usize::MAX,
                p == old(self).pending@,
                t0 == old(self).taken@,
                self.taken@.len() >= t0.len(),
                self.taken@.take(t0.len() as int) == t0,
                out@ == items_due(p + self.taken@.skip(t0.len() as int), w),
                kept@ == (p + self.taken@.skip(t0.len() as int)).filter(later_pred(w)),
                forall|k: int| 0 <= k < out@.len() ==> (#[trigger] out@[k]).0 < sub_block_size || out@[k].0 == 0,
                consumer_capacity(self.inner) == consumer_capacity(old(self).inner),
            decreases usize::MAX - out@.len() - kept@.len(),
        {
            match pop_timed(&mut self.inner) {
                None => {
                    break;
                },
                Some(t) => {
                    let ghost before = self.taken@;
                    let ghost c0 = p + before.skip(t0.len() as int);
                    self.taken = Ghost(self.taken@.push(t));
                    proof {
                        assert(self.taken@.take(t0.len() as int) =~= before.take(t0.len() as int));
                        assert(p + self.taken@.skip(t0.len() as int) =~= c0.push(t));
                        c0.lemma_filter_push(t, due_pred(w));
                        c0.lemma_filter_push(t, later_pred(w));
                    }
                    if t.target_sample < w.window_end {
                        let ghost ob = out@;
                        out.push(Self::item_in(&w, t));
                        proof {
                            assert(due_pred(w)(t));
                            assert(c0.filter(due_pred(w)).push(t).map_values(|x: TimedEvent| item_of(x, w))
                                =~= ob.push(item_of(t, w)));
                        }
                    } else {
                        kept.push(t);
                        proof {
                            assert(later_pred(w)(t));
                        }
                    }
                },
            }
        }
        self.pending = kept;
        out
    }
}

} // verus!
