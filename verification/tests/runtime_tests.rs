use schisma::midi::{MidiEvent, MidiEventKind, NoteEvent};
use schisma::realtime::{collect_block_event, push_outcome, realtime_queue, select_port, HardwareError, IngestOutcome, MidiHostError};
use schisma::rt_audit::{
    audio_allocation_count, leave_audio_scope, record_allocation, reset_audio_allocation_count, AudioThreadGuard,
};
use schisma::telemetry::{CallbackHistogram, BUCKETS};
use std::sync::atomic::AtomicUsize;

#[test]
fn a_zero_capacity_queue_is_refused() {
    assert!(matches!(realtime_queue(0), Err(MidiHostError::InvalidQueueCapacity)));
    assert_eq!(
        MidiHostError::InvalidQueueCapacity.message(),
        "Realtime MIDI queue capacity must be greater than zero"
    );
}

#[test]
fn a_full_queue_drops_and_flags_lost_note_offs() {
    let (mut producer, mut queue) = realtime_queue(1).ok().unwrap();
    assert_eq!(producer.ingest(true, &[0x91, 60, 100]), IngestOutcome::Queued);
    assert_eq!(producer.ingest(true, &[0xB1, 74, 10]), IngestOutcome::Dropped { note_off: false });
    assert!(!queue.take_emergency_all_notes_off());
    assert_eq!(producer.ingest(true, &[0x81, 60, 0]), IngestOutcome::Dropped { note_off: true });
    assert_eq!(queue.dropped_events(), 2);
    assert!(queue.take_emergency_all_notes_off());
    assert!(!queue.take_emergency_all_notes_off());
    let first = queue.try_pop().unwrap();
    assert_eq!(
        first,
        MidiEvent {
            frame_offset: 0,
            kind: MidiEventKind::Note(NoteEvent { channel: 2, note: 60, velocity: 100, is_on: true })
        }
    );
    assert!(queue.try_pop().is_none());
    assert_eq!(producer.ingest(false, &[0x91, 60, 100]), IngestOutcome::Stopped);
    assert_eq!(producer.ingest(true, &[0xF8]), IngestOutcome::Unparsed);
}

#[test]
fn input_port_selection() {
    let names = vec!["IAC Bus".to_string(), "Linnstrument".to_string(), "Linnstrument".to_string()];
    assert_eq!(select_port(&names, None), Ok(0));
    assert_eq!(select_port(&names, Some("Linnstrument")), Ok(1));
    assert_eq!(
        select_port(&names, Some("Seaboard")),
        Err(MidiHostError::PortNotFound { name: "Seaboard".into() })
    );
    assert_eq!(select_port(&Vec::new(), Some("x")), Err(MidiHostError::NoInputPorts));
    assert_eq!(
        MidiHostError::PortNotFound { name: "Seaboard".into() }.message(),
        "No MIDI port named 'Seaboard'"
    );
    assert_eq!(
        HardwareError::StreamOpenFailed { reason: "busy".into() }.message(),
        "Failed to open audio stream: busy"
    );
}

#[test]
fn allocations_count_only_inside_audio_work() {
    let counter = AtomicUsize::new(0);
    let mut depth = 0_usize;
    assert!(!record_allocation(depth, &counter));
    let _guard = AudioThreadGuard::enter(&mut depth);
    assert_eq!(depth, 1);
    assert!(record_allocation(depth, &counter));
    assert!(record_allocation(depth, &counter));
    assert_eq!(audio_allocation_count(&counter), 2);
    leave_audio_scope(&mut depth);
    assert_eq!(depth, 0);
    leave_audio_scope(&mut depth);
    assert_eq!(depth, 0);
    assert!(!record_allocation(depth, &counter));
    reset_audio_allocation_count(&counter);
    assert_eq!(audio_allocation_count(&counter), 0);
}

/// Bucket of a callback that took `ratio` of its budget, as the host computes it.
fn bucket(ratio: f64) -> usize {
    let normalized = (ratio / 2.0).clamp(0.0, 1.0);
    ((normalized * (BUCKETS - 1) as f64).floor() as usize).min(BUCKETS - 1)
}

#[test]
fn histogram_reports_callback_budget_ratios() {
    let mut histogram = CallbackHistogram::new();
    let budget = 0.010;
    let mut max_ratio = 0.0_f64;
    for elapsed in [0.005, 0.007] {
        let ratio = elapsed / budget;
        histogram.observe_bucket(bucket(ratio));
        max_ratio = max_ratio.max(ratio);
    }
    assert_eq!(histogram.samples(), 2);
    let target = (histogram.samples() as f64 * 0.99).ceil() as u64;
    let p99 = match histogram.bucket_reaching(target) {
        Some(index) => (index + 1) as f64 / BUCKETS as f64 * 2.0,
        None => 2.0,
    };
    assert!(p99 >= 0.68);
    assert!((max_ratio - 0.7).abs() < 1e-9);
}

#[test]
fn percentile_search_finds_the_first_bucket_reaching_the_target() {
    let mut histogram = CallbackHistogram::new();
    for index in [3, 3, 10, 63] {
        histogram.observe_bucket(index);
    }
    assert_eq!(histogram.bucket_reaching(0), Some(0));
    assert_eq!(histogram.bucket_reaching(2), Some(3));
    assert_eq!(histogram.bucket_reaching(3), Some(10));
    assert_eq!(histogram.bucket_reaching(4), Some(63));
    assert_eq!(histogram.bucket_reaching(5), None);
}

#[test]
fn queued_events_move_to_the_block_start_until_the_list_is_full() {
    let (mut producer, mut queue) = match realtime_queue(4) {
        Ok(pair) => pair,
        Err(_) => panic!("capacity 4 is accepted"),
    };
    for note in [60u8, 62, 64] {
        let event = MidiEvent {
            frame_offset: 17,
            kind: MidiEventKind::Note(NoteEvent { channel: 2, note, velocity: 90, is_on: true }),
        };
        assert_eq!(producer.push(event), IngestOutcome::Queued);
    }
    let mut events = Vec::new();
    let mut kept = Vec::new();
    while let Some(event) = queue.try_pop() {
        kept.push(collect_block_event(&mut events, event, 2));
    }
    assert_eq!(kept, vec![true, true, false]);
    assert_eq!(events.len(), 2);
    assert!(events.iter().all(|e| e.frame_offset == 0));
    assert_eq!(events[1].kind, MidiEventKind::Note(NoteEvent { channel: 2, note: 62, velocity: 90, is_on: true }));
}

#[test]
fn the_ring_answer_decides_the_outcome() {
    let off = MidiEvent { frame_offset: 0, kind: MidiEventKind::Note(NoteEvent { channel: 3, note: 64, velocity: 0, is_on: false }) };
    let on = MidiEvent { frame_offset: 0, kind: MidiEventKind::Note(NoteEvent { channel: 3, note: 64, velocity: 90, is_on: true }) };
    let bend = MidiEvent { frame_offset: 0, kind: MidiEventKind::PitchBend { channel: 3, value: 8192 } };
    assert_eq!(push_outcome(&Ok(())), IngestOutcome::Queued);
    assert_eq!(push_outcome(&Err(off)), IngestOutcome::Dropped { note_off: true });
    assert_eq!(push_outcome(&Err(on)), IngestOutcome::Dropped { note_off: false });
    assert_eq!(push_outcome(&Err(bend)), IngestOutcome::Dropped { note_off: false });
}
