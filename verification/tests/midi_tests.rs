use schisma::midi::{note_name, parse_midi_bytes, MidiEventKind, NoteEvent};

fn normalized(raw: u8) -> f64 {
    f64::from(raw) / 127.0
}

#[test]
fn test_parse_note_on() {
    let msg = [0x90, 60, 100];
    let event = parse_midi_bytes(&msg, 0).unwrap();
    match &event.kind {
        MidiEventKind::Note(n) => {
            assert!(n.is_on);
            assert_eq!(n.channel, 1);
            assert_eq!(n.note, 60);
            assert!((normalized(n.velocity) - 100.0 / 127.0).abs() < 1e-6);
        }
        _ => panic!("Expected NoteOn"),
    }
}

#[test]
fn test_parse_note_off() {
    let msg = [0x80, 60, 64];
    let event = parse_midi_bytes(&msg, 0).unwrap();
    match &event.kind {
        MidiEventKind::Note(n) => assert!(!n.is_on),
        _ => panic!("Expected NoteOff"),
    }
}

#[test]
fn test_parse_cc() {
    let msg = [0xB0, 1, 127];
    let event = parse_midi_bytes(&msg, 0).unwrap();
    match &event.kind {
        MidiEventKind::ControlChange { cc, value, .. } => {
            assert_eq!(*cc, 1);
            assert!((normalized(*value) - 1.0).abs() < 1e-6);
        }
        _ => panic!("Expected CC"),
    }
}

#[test]
fn test_parse_pitchbend_center() {
    let msg = [0xE0, 0x00, 0x40];
    let event = parse_midi_bytes(&msg, 0).unwrap();
    match &event.kind {
        MidiEventKind::PitchBend { value, .. } => {
            let bend = (f64::from(*value) - 8192.0) / 8192.0;
            assert!(bend.abs() < 0.01);
        }
        _ => panic!("Expected PitchBend"),
    }
}

#[test]
fn test_parse_channel_pressure() {
    let msg = [0xD0, 100];
    let event = parse_midi_bytes(&msg, 0).unwrap();
    match &event.kind {
        MidiEventKind::ChannelPressure { value, .. } => {
            assert!((normalized(*value) - 100.0 / 127.0).abs() < 1e-6);
        }
        _ => panic!("Expected ChannelPressure"),
    }
}

#[test]
fn test_parse_poly_pressure() {
    let event = parse_midi_bytes(&[0xA2, 60, 100], 7).unwrap();
    assert_eq!(event.frame_offset, 7);
    assert_eq!(
        event.kind,
        MidiEventKind::PolyPressure {
            channel: 3,
            note: 60,
            value: 100,
        }
    );
    match event.kind {
        MidiEventKind::PolyPressure { value, .. } => assert_eq!(normalized(value), 100.0 / 127.0),
        _ => panic!("Expected PolyPressure"),
    }
}

#[test]
fn note_on_with_zero_velocity_is_a_note_off() {
    let event = parse_midi_bytes(&[0x91, 64, 0], 0).unwrap();
    assert_eq!(
        event.kind,
        MidiEventKind::Note(NoteEvent { channel: 2, note: 64, velocity: 0, is_on: false })
    );
    assert!(event.kind.is_note_off());
}

#[test]
fn pitch_bend_combines_both_data_bytes() {
    let event = parse_midi_bytes(&[0xEF, 0x7F, 0x7F], 0).unwrap();
    assert_eq!(event.kind, MidiEventKind::PitchBend { channel: 16, value: 16383 });
    let event = parse_midi_bytes(&[0xE0, 0x01, 0x02], 0).unwrap();
    assert_eq!(event.kind, MidiEventKind::PitchBend { channel: 1, value: 257 });
}

#[test]
fn data_bytes_are_masked_to_seven_bits() {
    let event = parse_midi_bytes(&[0xB4, 0xC1, 0xFF], 0).unwrap();
    assert_eq!(event.kind, MidiEventKind::ControlChange { channel: 5, cc: 0x41, value: 0x7F });
}

#[test]
fn truncated_and_system_messages_are_ignored() {
    assert!(parse_midi_bytes(&[], 0).is_none());
    assert!(parse_midi_bytes(&[0x90, 60], 0).is_none());
    assert!(parse_midi_bytes(&[0xC0], 0).is_none());
    assert!(parse_midi_bytes(&[0xF8], 0).is_none());
    assert!(parse_midi_bytes(&[0x3C, 0x40], 0).is_none());
    let program = parse_midi_bytes(&[0xC9, 5], 0).unwrap();
    assert_eq!(program.kind, MidiEventKind::ProgramChange { channel: 10, program: 5 });
    assert_eq!(program.kind.channel(), 10);
}

#[test]
fn note_names_follow_scientific_pitch() {
    assert_eq!(note_name(60), "C4");
    assert_eq!(note_name(69), "A4");
    assert_eq!(note_name(61), "C#4");
    assert_eq!(note_name(0), "C-1");
    assert_eq!(note_name(11), "B-1");
    assert_eq!(note_name(12), "C0");
    assert_eq!(note_name(127), "G9");
    assert_eq!(note_name(118), "A#8");
}
