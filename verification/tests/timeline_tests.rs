use schisma::smf::{read_midi_file, tempo_spans, MidiError};
use schisma::midi::{MidiEventKind, NoteEvent};
use schisma::timeline::{BlockEvent, DeterministicMidiHarness, OfflineMidiReader, TimedMidiEvent};

#[test]
fn offline_reader_maps_absolute_frames_to_block_offsets() {
    // Event 0: CC1 at frame 16; event 1: CC74 at frame 79.
    let kinds = [
        MidiEventKind::ControlChange { channel: 1, cc: 1, value: 32 },
        MidiEventKind::ControlChange { channel: 1, cc: 74, value: 95 },
    ];
    let reader = OfflineMidiReader::new(&[16, 79]);
    let block = reader.block_events(64, 64);
    assert_eq!(block.len(), 1);
    assert_eq!(block[0].frame_offset, 15);
    assert_eq!(kinds[block[0].event], MidiEventKind::ControlChange { channel: 1, cc: 74, value: 95 });
}

#[test]
fn deterministic_harness_loops_events_across_block_boundaries() {
    let note_on = MidiEventKind::Note(NoteEvent { channel: 2, note: 60, velocity: 127, is_on: true });
    let kinds = [note_on, MidiEventKind::PolyPressure { channel: 2, note: 60, value: 64 }];
    let harness = DeterministicMidiHarness::new(&[0, 24], 32);
    let block = harness.events_for_block(24, 16);
    assert_eq!(block.len(), 2);
    assert_eq!(block[0].frame_offset, 0);
    assert_eq!(block[1].frame_offset, 8);
    assert_eq!(kinds[block[1].event], note_on);
}

#[test]
fn pressure_cycle_emits_sorted_mpe_events() {
    let values = [0.0, 0.25, 0.5, 0.75];
    let harness = DeterministicMidiHarness::mpe_pressure_cycle(64, values.len());
    let block = harness.events_for_block(64, 128);
    assert_eq!(block.len(), 2);
    assert_eq!(block[0].frame_offset, 0);
    assert_eq!(block[1].frame_offset, 64);
    assert!((values[block[0].event] - 0.25_f64).abs() < 1e-9);
}

const MIDI_BYTES: [u8; 41] = [
    0x4D, 0x54, 0x68, 0x64, 0x00, 0x00, 0x00, 0x06, 0x00, 0x00, 0x00, 0x01, 0x00, 0x60, 0x4D, 0x54,
    0x72, 0x6B, 0x00, 0x00, 0x00, 0x13, 0x00, 0xFF, 0x51, 0x03, 0x07, 0xA1, 0x20, 0x00, 0x90, 0x3C,
    0x64, 0x60, 0x80, 0x3C, 0x40, 0x00, 0xFF, 0x2F, 0x00,
];

/// Seconds of a tick, added span by span as the host does.
fn seconds(tick: u64, map: &[(u64, u32)], ticks_per_quarter: u64) -> f64 {
    tempo_spans(tick, map)
        .iter()
        .map(|(ticks, tempo)| *ticks as f64 * *tempo as f64 / 1_000_000.0 / ticks_per_quarter as f64)
        .sum()
}

#[test]
fn parses_standard_midi_bytes_into_timed_events() {
    let timeline = read_midi_file(&MIDI_BYTES).unwrap().unwrap();
    assert_eq!(timeline.ticks_per_quarter, 96);
    assert_eq!(timeline.tempo_map, vec![(0, 500_000)]);
    let frames: Vec<u64> = timeline
        .events
        .iter()
        .map(|e| (seconds(e.tick, &timeline.tempo_map, timeline.ticks_per_quarter) * 48_000.0).round() as u64)
        .collect();
    let reader = OfflineMidiReader::new(&frames);
    let events = reader.events();
    assert_eq!(events.len(), 2);
    assert_eq!(events[0].frame, 0);
    assert_eq!(events[1].frame, 24_000);
    assert!(matches!(
        timeline.events[events[0].event].kind,
        MidiEventKind::Note(NoteEvent { is_on: true, .. })
    ));
    assert!(matches!(
        timeline.events[events[1].event].kind,
        MidiEventKind::Note(NoteEvent { is_on: false, .. })
    ));
}

#[test]
fn running_status_and_tempo_changes() {
    // Format 0, 96 ticks per quarter, one track: a note-on at tick 0, a
    // running-status note-on with velocity 0 at tick 96, then a tempo change
    // to 250000 at tick 96 and the end of the track.
    let mut data = vec![0x4D, 0x54, 0x68, 0x64, 0, 0, 0, 6, 0, 0, 0, 1, 0, 0x60, 0x4D, 0x54, 0x72, 0x6B];
    let body: [u8; 15] = [0x00, 0x90, 0x3C, 0x64, 0x60, 0x3C, 0x00, 0x00, 0xFF, 0x51, 0x03, 0x03, 0xD0, 0x90, 0x00];
    let tail: [u8; 3] = [0xFF, 0x2F, 0x00];
    data.extend_from_slice(&[0, 0, 0, (body.len() + tail.len()) as u8]);
    data.extend_from_slice(&body);
    data.extend_from_slice(&tail);
    let timeline = read_midi_file(&data).unwrap().unwrap();
    assert_eq!(timeline.events.len(), 2);
    assert_eq!(timeline.events[1].tick, 96);
    assert_eq!(
        timeline.events[1].kind,
        MidiEventKind::Note(NoteEvent { channel: 1, note: 0x3C, velocity: 0, is_on: false })
    );
    assert_eq!(timeline.tempo_map, vec![(0, 500_000), (96, 250_000)]);
    assert_eq!(tempo_spans(192, &timeline.tempo_map), vec![(96, 500_000), (96, 250_000)]);
    assert_eq!(tempo_spans(50, &timeline.tempo_map), vec![(50, 500_000)]);
    assert!((seconds(192, &timeline.tempo_map, 96) - 0.75).abs() < 1e-12);
}

#[test]
fn malformed_and_timecode_files_are_refused() {
    match read_midi_file(&[1, 2, 3]) {
        Some(Err(MidiError::Parse(message))) => assert!(!message.is_empty()),
        other => panic!("expected a parse error, got {other:?}"),
    }
    let mut timecode = MIDI_BYTES;
    timecode[12] = 0xE7; // -25 fps
    timecode[13] = 0x28;
    match read_midi_file(&timecode) {
        Some(Err(MidiError::UnsupportedFormat)) => {}
        other => panic!("expected unsupported timing, got {other:?}"),
    }
}

#[test]
fn stable_order_keeps_arrival_order_on_ties() {
    let reader = OfflineMidiReader::new(&[30, 10, 30, 0]);
    let order: Vec<TimedMidiEvent> = reader.events().to_vec();
    assert_eq!(
        order,
        vec![
            TimedMidiEvent { frame: 0, event: 3 },
            TimedMidiEvent { frame: 10, event: 1 },
            TimedMidiEvent { frame: 30, event: 0 },
            TimedMidiEvent { frame: 30, event: 2 },
        ]
    );
    let range = reader.events_in_range(10, 30);
    assert_eq!(range, vec![TimedMidiEvent { frame: 10, event: 1 }]);
}

#[test]
fn consecutive_blocks_cover_the_timeline_once() {
    let reader = OfflineMidiReader::new(&[0, 5, 63, 64, 100, 127]);
    let whole = reader.block_events(0, 128);
    let mut pieces = reader.block_events(0, 64);
    pieces.extend(
        reader
            .block_events(64, 64)
            .into_iter()
            .map(|e| BlockEvent { frame_offset: e.frame_offset + 64, event: e.event }),
    );
    assert_eq!(whole, pieces);
}

#[test]
fn looped_blocks_repeat_every_loop() {
    let harness = DeterministicMidiHarness::new(&[3, 0, 17], 20);
    let first = harness.events_for_block(5, 30);
    let later = harness.events_for_block(25, 30);
    assert_eq!(first, later);
    let offsets: Vec<usize> = first.iter().map(|e| e.frame_offset).collect();
    assert_eq!(offsets, vec![12, 15, 18]);
}

#[test]
fn a_tempo_at_tick_zero_replaces_the_default() {
    // Format 0, 96 ticks per quarter: tempo 250000 at tick 0, a note-on at
    // tick 96, end of track.
    let mut data = vec![0x4D, 0x54, 0x68, 0x64, 0, 0, 0, 6, 0, 0, 0, 1, 0, 0x60, 0x4D, 0x54, 0x72, 0x6B];
    let body: [u8; 11] = [0x00, 0xFF, 0x51, 0x03, 0x03, 0xD0, 0x90, 0x60, 0x90, 0x3C, 0x64];
    let tail: [u8; 4] = [0x00, 0xFF, 0x2F, 0x00];
    data.extend_from_slice(&[0, 0, 0, (body.len() + tail.len()) as u8]);
    data.extend_from_slice(&body);
    data.extend_from_slice(&tail);
    let timeline = read_midi_file(&data).unwrap().unwrap();
    assert_eq!(timeline.tempo_map, vec![(0, 250_000)]);
    assert_eq!(timeline.events.len(), 1);
    assert_eq!(timeline.events[0].tick, 96);
    assert!((seconds(96, &timeline.tempo_map, 96) - 0.25).abs() < 1e-12);
}

#[test]
fn empty_blocks_repeat_with_the_loop() {
    let harness = DeterministicMidiHarness::new(&[0, 24], 32);
    assert_eq!(harness.events_for_block(24, 0), Vec::<BlockEvent>::new());
    assert_eq!(harness.events_for_block(56, 0), harness.events_for_block(24, 0));
    assert_eq!(harness.events_for_block(56, 16), harness.events_for_block(24, 16));
}

#[test]
fn a_block_holds_every_cycle_placement_inside_it() {
    let harness = DeterministicMidiHarness::new(&[0, 24], 32);
    let block = harness.events_for_block(24, 48);
    assert_eq!(
        block,
        vec![
            BlockEvent { frame_offset: 0, event: 1 },
            BlockEvent { frame_offset: 8, event: 0 },
            BlockEvent { frame_offset: 32, event: 1 },
            BlockEvent { frame_offset: 40, event: 0 },
        ]
    );
}
