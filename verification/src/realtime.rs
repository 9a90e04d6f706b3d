//! Realtime MIDI ingest: choosing the input port, and the bounded
//! lock-free queue between the MIDI callback thread and the audio thread.
//! When the queue is full an event is dropped and counted, and a dropped
//! note-off raises an emergency all-notes-off flag for the audio thread.
//!
//! The queue is a `ringbuf` single-producer single-consumer ring shared by
//! two threads: what one side finds in it depends on the other side's
//! progress, so no contract here states its contents.

use vstd::prelude::*;
use vstd::string::StringExecFns;
use std::sync::Arc;
use std::sync::atomic::{AtomicBool, AtomicU64, Ordering};
use ringbuf::traits::{Consumer, Producer, Split};
use crate::midi::{decode, parse_midi_bytes, MidiEvent, MidiEventKind};

verus! {

/// Why realtime MIDI input could not start.
#[derive(Debug, Clone, PartialEq, Eq)]
pub enum MidiHostError {
    AlreadyRunning,
    NoInputPorts,
    InvalidQueueCapacity,
    PortNotFound { name: String },
    InitFailed { reason: String },
    OpenFailed { reason: String },
}

pub open spec fn host_error_text(e: MidiHostError) -> Seq<char> {
    match e {
        MidiHostError::AlreadyRunning => "MIDI host is already running"@,
        MidiHostError::NoInputPorts => "No MIDI input ports are available"@,
        MidiHostError::InvalidQueueCapacity => "Realtime MIDI queue capacity must be greater than zero"@,
        MidiHostError::PortNotFound { name } => "No MIDI port named '"@ + name@ + "'"@,
        MidiHostError::InitFailed { reason } => "Failed to initialize MIDI host: "@ + reason@,
        MidiHostError::OpenFailed { reason } => "Failed to open MIDI port: "@ + reason@,
    }
}

impl MidiHostError {
    /// The error's message.
    pub fn message(&self) -> (r: String)
        ensures
            r@ == host_error_text(*self),
    {
        match self {
            MidiHostError::AlreadyRunning => String::from_str("MIDI host is already running"),
            MidiHostError::NoInputPorts => String::from_str("No MIDI input ports are available"),
            MidiHostError::InvalidQueueCapacity => String::from_str(
                "Realtime MIDI queue capacity must be greater than zero",
            ),
            MidiHostError::PortNotFound { name } => {
                let mut s = String::from_str("No MIDI port named '");
                s.append(name.as_str());
                s.append("'");
                s
            },
            MidiHostError::InitFailed { reason } => {
                let mut s = String::from_str("Failed to initialize MIDI host: ");
                s.append(reason.as_str());
                s
            },
            MidiHostError::OpenFailed { reason } => {
                let mut s = String::from_str("Failed to open MIDI port: ");
                s.append(reason.as_str());
                s
            },
        }
    }
}

/// Why the audio output could not run.
#[derive(Debug, Clone, PartialEq, Eq)]
pub enum HardwareError {
    DeviceNotFound { name: String },
    NoDefaultDevice,
    StreamOpenFailed { reason: String },
    RealtimeNotEnabled,
}

pub open spec fn hardware_error_text(e: HardwareError) -> Seq<char> {
    match e {
        HardwareError::DeviceNotFound { name } => "No audio device named '"@ + name@ + "'"@,
        HardwareError::NoDefaultDevice => "No default audio output device found"@,
        HardwareError::StreamOpenFailed { reason } => "Failed to open audio stream: "@ + reason@,
        HardwareError::RealtimeNotEnabled => "Real-time feature not enabled. Rebuild with --features realtime"@,
    }
}

impl HardwareError {
    /// The error's message.
    pub fn message(&self) -> (r: String)
        ensures
            r@ == hardware_error_text(*self),
    {
        match self {
            HardwareError::DeviceNotFound { name } => {
                let mut s = String::from_str("No audio device named '");
                s.append(name.as_str());
                s.append("'");
                s
            },
            HardwareError::NoDefaultDevice => String::from_str("No default audio output device found"),
            HardwareError::StreamOpenFailed { reason } => {
                let mut s = String::from_str("Failed to open audio stream: ");
                s.append(reason.as_str());
                s
            },
            HardwareError::RealtimeNotEnabled => String::from_str(
                "Real-time feature not enabled. Rebuild with --features realtime",
            ),
        }
    }
}

/// Chooses the input port among the ports' names.
pub fn select_port(names: &Vec<String>, requested: Option<&str>) -> (r: Result<usize, MidiHostError>)
    ensures
        names@.len() == 0 ==> r == Err::<usize, MidiHostError>(MidiHostError::NoInputPorts),
        names@.len() > 0 && requested is None ==> r == Ok::<usize, MidiHostError>(0),
        names@.len() > 0 && requested is Some ==> match r {
            Ok(i) => i < names@.len() && names@[i as int]@ == requested->0@ && forall|j: int|
                0 <= j < i ==> names@[j]@ != requested->0@,
            Err(e) => (e matches MidiHostError::PortNotFound { name } && name@ == requested->0@) && forall|j: int|
                0 <= j < names@.len() ==> names@[j]@ != requested->0@,
        },
{
    if names.len() == 0 {
        return Err(MidiHostError::NoInputPorts);
    }
    match requested {
        None => Ok(0),
        Some(wanted) => {
            let mut i: usize = 0;
            while i < names.len()
                invariant
                    i <= names@.len(),
                    names@.len() > 0,
                    requested == Some(wanted),
                    forall|j: int| 0 <= j < i ==> names@[j]@ != wanted@,
                decreases names@.len() - i,
            {
                if crate::text::same_text(names[i].as_str(), wanted) {
                    return Ok(i);
                }
                i = i + 1;
            }
            Err(MidiHostError::PortNotFound { name: String::from_str(wanted) })
        },
    }
}

// ---------------------------------------------------------------------------
// The queue
// ---------------------------------------------------------------------------

/// Producer end of the ring (`ringbuf::HeapProd`), kept opaque.
#[verifier::external_body]
pub struct MidiRingProducer {
    inner: ringbuf::HeapProd<MidiEvent>,
}

/// Consumer end of the ring (`ringbuf::HeapCons`), kept opaque.
#[verifier::external_body]
pub struct MidiRingConsumer {
    inner: ringbuf::HeapCons<MidiEvent>,
}

/// `ringbuf::HeapRb::new` followed by `split`: an empty ring of
/// `capacity` slots, which panics on a zero capacity. Nothing is stated of
/// the two ends.
#[verifier::external_body]
fn ring_split(capacity: usize) -> (r: (MidiRingProducer, MidiRingConsumer))
    requires
        capacity > 0,
{
    let (producer, consumer) = ringbuf::HeapRb::<MidiEvent>::new(capacity).split();
    (MidiRingProducer { inner: producer }, MidiRingConsumer { inner: consumer })
}

/// `Producer::try_push`: appends the event, or hands it back when the ring
/// is full. Whether it is full depends on the consumer thread, so only the
/// hand-back is stated.
#[verifier::external_body]
fn ring_try_push(producer: &mut MidiRingProducer, event: MidiEvent) -> (r: Result<(), MidiEvent>)
    ensures
        r matches Err(e) ==> e == event,
{
    producer.inner.try_push(event)
}

/// `Consumer::try_pop`: the eldest event, or `None` when the ring is empty.
/// What it holds depends on the producer thread, so nothing is stated.
#[verifier::external_body]
fn ring_try_pop(consumer: &mut MidiRingConsumer) -> (r: Option<MidiEvent>) {
    consumer.inner.try_pop()
}

/// The MIDI-callback side of the queue.
pub struct RealtimeMidiProducer {
    ring: MidiRingProducer,
    dropped: Arc<AtomicU64>,
    emergency_all_notes_off: Arc<AtomicBool>,
}

/// The audio-thread side of the queue.
pub struct RealtimeMidiQueue {
    consumer: MidiRingConsumer,
    dropped: Arc<AtomicU64>,
    emergency_all_notes_off: Arc<AtomicBool>,
}

/// Whether losing this event leaves a note sounding.
pub open spec fn is_note_off(kind: MidiEventKind) -> bool {
    kind matches MidiEventKind::Note(n) && !n.is_on
}

/// What became of a message from the MIDI input.
#[derive(Debug, Clone, Copy, PartialEq, Eq, Structural)]
pub enum IngestOutcome {
    /// Input is stopped; the message was ignored.
    Stopped,
    /// Not a channel message.
    Unparsed,
    /// Queued for the audio thread.
    Queued,
    /// The queue was full: the event was dropped and counted, and a dropped
    /// note-off raised the emergency flag.
    Dropped { note_off: bool },
}

/// A bounded queue of `capacity` events. A zero capacity is refused.
pub fn realtime_queue(capacity: usize) -> (r: Result<(RealtimeMidiProducer, RealtimeMidiQueue), MidiHostError>)
    ensures
        capacity == 0 ==> r matches Err(MidiHostError::InvalidQueueCapacity),
        capacity > 0 ==> r is Ok,
{
    if capacity == 0 {
        return Err(MidiHostError::InvalidQueueCapacity);
    }
    let (producer, consumer) = ring_split(capacity);
    let dropped = Arc::new(AtomicU64::new(0));
    let emergency = Arc::new(AtomicBool::new(false));
    let p = RealtimeMidiProducer {
        ring: producer,
        dropped: dropped.clone(),
        emergency_all_notes_off: emergency.clone(),
    };
    let q = RealtimeMidiQueue { consumer, dropped, emergency_all_notes_off: emergency };
    Ok((p, q))
}

/// What became of an event that the ring accepted (`Ok`) or handed back
/// because it was full (`Err`): a handed-back note-off is reported as such,
/// so that the caller raises the emergency flag.
pub fn push_outcome(pushed: &Result<(), MidiEvent>) -> (r: IngestOutcome)
    ensures
        r == match pushed {
            Ok(()) => IngestOutcome::Queued,
            Err(e) => IngestOutcome::Dropped { note_off: is_note_off(e.kind) },
        },
{
    match pushed {
        Ok(()) => IngestOutcome::Queued,
        Err(e) => {
            let note_off = match e.kind {
                MidiEventKind::Note(n) => !n.is_on,
                _ => false,
            };
            IngestOutcome::Dropped { note_off }
        },
    }
}

impl RealtimeMidiProducer {
    /// Queues an event; when the queue is full the event is dropped and
    /// counted, and a dropped note-off raises the emergency flag. Which of
    /// the two happens is the ring's answer, read by `push_outcome`.
    pub fn push(&mut self, event: MidiEvent) -> (r: IngestOutcome)
        ensures
            r == IngestOutcome::Queued || r == (IngestOutcome::Dropped { note_off: is_note_off(event.kind) }),
    {
        let pushed = ring_try_push(&mut self.ring, event);
        let outcome = push_outcome(&pushed);
        match outcome {
            IngestOutcome::Dropped { note_off } => {
                self.dropped.fetch_add(1, Ordering::Relaxed);
                if note_off {
                    self.emergency_all_notes_off.store(true, Ordering::Release);
                }
            },
            _ => {},
        }
        outcome
    }

    /// Handles raw bytes from the MIDI input: ignored while input is
    /// stopped, decoded, then queued.
    pub fn ingest(&mut self, running: bool, bytes: &[u8]) -> (r: IngestOutcome)
        ensures
            !running ==> r == IngestOutcome::Stopped,
            running && decode(bytes@, 0) is None ==> r == IngestOutcome::Unparsed,
            running ==> (decode(bytes@, 0) matches Some(e) ==> (r == IngestOutcome::Queued || r
                == (IngestOutcome::Dropped { note_off: is_note_off(e.kind) }))),
    {
        if !running {
            return IngestOutcome::Stopped;
        }
        match parse_midi_bytes(bytes, 0) {
            Some(event) => self.push(event),
            None => IngestOutcome::Unparsed,
        }
    }
}

impl RealtimeMidiQueue {
    /// The eldest queued event, if any.
    pub fn try_pop(&mut self) -> Option<MidiEvent> {
        ring_try_pop(&mut self.consumer)
    }

    /// Events dropped because the queue was full.
    pub fn dropped_events(&self) -> u64 {
        self.dropped.load(Ordering::Relaxed)
    }

    /// Whether a note-off was dropped since the last call; the flag is
    /// cleared.
    pub fn take_emergency_all_notes_off(&self) -> bool {
        self.emergency_all_notes_off.swap(false, Ordering::AcqRel)
    }
}

/// Adds an event taken from a queue to the list for the next audio block:
/// it plays at the start of the block, and it is dropped once the list holds
/// `capacity` events. Returns whether it was kept.
pub fn collect_block_event(events: &mut Vec<MidiEvent>, event: MidiEvent, capacity: usize) -> (kept: bool)
    ensures
        kept == (old(events)@.len() < capacity),
        kept ==> final(events)@ == old(events)@.push(MidiEvent { frame_offset: 0, kind: event.kind }),
        !kept ==> final(events)@ == old(events)@,
{
    if events.len() < capacity {
        events.push(MidiEvent { frame_offset: 0, kind: event.kind });
        true
    } else {
        false
    }
}

} // verus!
