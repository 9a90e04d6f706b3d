use schisma::midi::{ExpressionKind, MidiEventKind};
use schisma::routing::{append_number, source_key, MidiRouter, RoutingRule, SourceKind};

#[test]
fn test_routing_cc_to_field() {
    let rules = vec![
        RoutingRule::direct("midi.cc.1", "density_mod"),
        RoutingRule::direct("midi.cc.74", "filter_cutoff"),
    ];
    // The affine transforms of the two rules: direct, and scale 20000 offset 20.
    let transforms: [(f64, f64); 2] = [(1.0, 0.0), (20000.0, 20.0)];
    let router = MidiRouter::new(rules);
    let events = [
        MidiEventKind::ControlChange { channel: 1, cc: 1, value: 0 },
        MidiEventKind::ControlChange { channel: 1, cc: 74, value: 127 },
    ];
    let values: [f64; 2] = [0.5, 1.0];
    let sources: Vec<SourceKind> = events.iter().map(|e| e.source()).collect();
    let fields = router.process(&sources);
    assert_eq!(fields.len(), 2);
    let value_of = |name: &str| {
        let field = fields.iter().find(|f| f.target == name).unwrap();
        let (scale, offset) = transforms[field.rule];
        values[field.event] * scale + offset
    };
    assert!((value_of("density_mod") - 0.5).abs() < 1e-6);
    assert!((value_of("filter_cutoff") - 20020.0).abs() < 1e-6);
}

#[test]
fn test_routing_mpe_pressure() {
    let router = MidiRouter::new(vec![RoutingRule::direct("mpe.pressure", "amplitude_mod")]);
    let fields = router.process(&[SourceKind::Expression(ExpressionKind::Pressure)]);
    assert_eq!(fields.len(), 1);
    assert_eq!(fields[0].target, "amplitude_mod");
    assert_eq!(fields[0].event, 0);
    let values = [0.75];
    assert!((values[fields[0].event] - 0.75_f64).abs() < 1e-6);
}

#[test]
fn last_event_wins_within_a_block() {
    let router = MidiRouter::new(vec![
        RoutingRule::direct("midi.pressure", "amp"),
        RoutingRule::direct("midi.pitchbend", "pitch"),
        RoutingRule::direct("midi.pressure", "amp"),
    ]);
    let sources = [
        SourceKind::ChannelPressure,
        SourceKind::PitchBend,
        SourceKind::ChannelPressure,
        SourceKind::Note,
    ];
    let fields = router.process(&sources);
    assert_eq!(fields.len(), 2);
    let amp = fields.iter().find(|f| f.target == "amp").unwrap();
    assert_eq!((amp.event, amp.rule), (2, 2));
    let pitch = fields.iter().find(|f| f.target == "pitch").unwrap();
    assert_eq!((pitch.event, pitch.rule), (1, 1));
}

#[test]
fn source_keys_name_each_event_kind() {
    assert_eq!(source_key(SourceKind::ControlChange(0)), "midi.cc.0");
    assert_eq!(source_key(SourceKind::ControlChange(74)), "midi.cc.74");
    assert_eq!(source_key(SourceKind::ControlChange(127)), "midi.cc.127");
    assert_eq!(source_key(SourceKind::PitchBend), "midi.pitchbend");
    assert_eq!(source_key(SourceKind::ChannelPressure), "midi.pressure");
    assert_eq!(source_key(SourceKind::PolyPressure), "midi.poly_pressure");
    assert_eq!(source_key(SourceKind::Note), "midi.note");
    assert_eq!(source_key(SourceKind::ProgramChange), "midi.program");
    assert_eq!(source_key(SourceKind::Expression(ExpressionKind::PitchBend)), "mpe.pitchbend");
    assert_eq!(source_key(SourceKind::Expression(ExpressionKind::Timbre)), "mpe.timbre");
    let cc = MidiEventKind::ControlChange { channel: 3, cc: 11, value: 5 };
    assert_eq!(cc.source(), SourceKind::ControlChange(11));
}

#[test]
fn numbers_are_written_in_decimal() {
    let mut s = String::from("n=");
    append_number(&mut s, 0);
    s.push(',');
    append_number(&mut s, 18446744073709551615);
    assert_eq!(s, "n=0,18446744073709551615");
}
