use schisma::scala::{
    kbm_reference_frequency_line, mapped_degree_for_note, midi_note_degree, parse_kbm, parse_midi_note,
    parse_non_negative_usize, parse_scl, reference_degree, split_degree, FrequencyCheck, KbmMapping,
    SclInterval, SclScale,
};

const PYTHAGOREAN_SCL: &str = "\
! pythagorean.scl
Pythagorean 7-note scale
7
9/8
5/4
4/3
3/2
5/3
15/8
2/1
";

const SIMPLE_KBM: &str = "\
! Simple mapping
12
0
127
60
69
440.000000
12
0
1
2
3
4
5
6
7
8
9
10
11
";

/// The host's judgement of a reference-frequency line.
fn judge(line: Option<String>) -> FrequencyCheck {
    match line.and_then(|l| l.parse::<f64>().ok()) {
        None => FrequencyCheck::Unparsable,
        Some(f) if !f.is_finite() || f <= 0.0 => FrequencyCheck::OutOfRange,
        Some(_) => FrequencyCheck::Accepted,
    }
}

fn kbm(text: &str) -> Result<KbmMapping, String> {
    parse_kbm(text, judge(kbm_reference_frequency_line(text)))
}

fn interval_ratio(interval: &SclInterval) -> f64 {
    match interval {
        SclInterval::Cents(text) => 2.0_f64.powf(text.parse::<f64>().unwrap() / 1200.0),
        SclInterval::Ratio { num, den } => *num as f64 / *den as f64,
    }
}

/// Ratio of a degree: the scale step's ratio times the equave per period.
fn ratio_for_degree(scl: &SclScale, degree: i32) -> f64 {
    let mut ratios = vec![1.0];
    ratios.extend(scl.intervals.iter().map(interval_ratio));
    let equave = ratios.pop().unwrap();
    let (step, period) = split_degree(degree, ratios.len());
    ratios[step] * equave.powi(period)
}

#[test]
fn test_parse_scl() {
    let scl = parse_scl(PYTHAGOREAN_SCL).unwrap();
    assert_eq!(scl.description, "Pythagorean 7-note scale");
    assert_eq!(scl.intervals.len(), 7);
}

#[test]
fn test_scala_unison() {
    let scl = parse_scl(PYTHAGOREAN_SCL).unwrap();
    assert!((261.625 * ratio_for_degree(&scl, 0) - 261.625).abs() < 1e-6);
}

#[test]
fn test_scala_perfect_fifth() {
    let scl = parse_scl(PYTHAGOREAN_SCL).unwrap();
    let expected = 261.625 * 3.0 / 2.0;
    assert!((261.625 * ratio_for_degree(&scl, 4) - expected).abs() < 1e-6);
}

#[test]
fn test_scala_octave_up() {
    let scl = parse_scl(PYTHAGOREAN_SCL).unwrap();
    let expected = 261.625 * 2.0;
    assert!((261.625 * ratio_for_degree(&scl, 7) - expected).abs() < 1e-6);
}

#[test]
fn test_scala_octave_down() {
    let scl = parse_scl(PYTHAGOREAN_SCL).unwrap();
    let expected = 261.625 / 2.0;
    assert!((261.625 * ratio_for_degree(&scl, -7) - expected).abs() < 1e-6);
}

#[test]
fn test_cents_format() {
    let scl_text = "\
! 12tet.scl
12-TET
12
100.0
200.0
300.0
400.0
500.0
600.0
700.0
800.0
900.0
1000.0
1100.0
1200.0
";
    let scl = parse_scl(scl_text).unwrap();
    assert!((440.0 * ratio_for_degree(&scl, 12) - 880.0).abs() < 1e-3);
}

#[test]
fn test_parse_kbm() {
    let mapping = kbm(SIMPLE_KBM).unwrap();
    assert_eq!(mapping.map_size, 12);
    assert_eq!(mapping.middle_note, 60);
    assert_eq!(mapping.reference_note, 69);
    let frequency: f64 = kbm_reference_frequency_line(SIMPLE_KBM).unwrap().parse().unwrap();
    assert!((frequency - 440.0).abs() < 1e-6);
    assert_eq!(mapping.key_map.len(), 12);
}

#[test]
fn kbm_reference_note_receives_reference_frequency() {
    let scl = parse_scl(PYTHAGOREAN_SCL).unwrap();
    let mapping = kbm(SIMPLE_KBM).unwrap();
    let reference = reference_degree(&scl, &mapping).unwrap();
    let base = 440.0 / ratio_for_degree(&scl, reference);
    let degree = midi_note_degree(Some(&mapping), scl.intervals.len(), 69).unwrap();
    let hz = base * ratio_for_degree(&scl, degree);
    assert!((hz - 440.0).abs() < 1e-9);
}

#[test]
fn kbm_mapping_repeats_below_middle_note_with_euclidean_division() {
    let scl = parse_scl(PYTHAGOREAN_SCL).unwrap();
    let mapping = kbm(SIMPLE_KBM).unwrap();
    let middle = midi_note_degree(Some(&mapping), scl.intervals.len(), 60).unwrap();
    let below = midi_note_degree(Some(&mapping), scl.intervals.len(), 48).unwrap();
    assert_eq!((middle, below), (0, -12));
    let ratio = ratio_for_degree(&scl, middle) / ratio_for_degree(&scl, below);
    assert!((ratio - 1.0 / ratio_for_degree(&scl, -12)).abs() < 1e-9);
}

#[test]
fn kbm_unmapped_and_out_of_range_notes_return_none() {
    let text = "\
2
60
61
60
60
261.625565
2
0
x
";
    let scl = parse_scl(PYTHAGOREAN_SCL).unwrap();
    let mapping = kbm(text).unwrap();
    assert!(reference_degree(&scl, &mapping).is_ok());
    assert!(mapped_degree_for_note(&mapping, scl.intervals.len(), 59).is_none());
    assert!(mapped_degree_for_note(&mapping, scl.intervals.len(), 60).is_some());
    assert!(mapped_degree_for_note(&mapping, scl.intervals.len(), 61).is_none());
}

#[test]
fn kbm_accepts_negative_degrees_and_omitted_trailing_entries() {
    let text = "\
3
0
127
60
60
261.625565
7
-1
0
";
    let parsed = kbm(text).unwrap();
    assert_eq!(parsed.key_map, vec![Some(-1), Some(0), None]);
}

#[test]
fn kbm_errors_name_the_field() {
    let missing = "12\n0\n";
    assert_eq!(kbm(missing).unwrap_err(), "Missing last note");
    assert_eq!(kbm("x\n").unwrap_err(), "Invalid map size: 'x'");
    assert_eq!(kbm("-1\n").unwrap_err(), "map size must be non-negative");
    assert_eq!(kbm("1\n0\n128\n").unwrap_err(), "last note must be in the MIDI note range 0..=127");
    assert_eq!(kbm("1\n5\n4\n").unwrap_err(), "First note must not be greater than last note");
    assert_eq!(kbm("1\n0\n127\n60\n69\n").unwrap_err(), "Missing reference frequency");
    assert_eq!(kbm("1\n0\n127\n60\n69\nabc\n").unwrap_err(), "Invalid reference frequency");
    assert_eq!(
        kbm("1\n0\n127\n60\n69\n-5\n").unwrap_err(),
        "Reference frequency must be finite and greater than zero"
    );
    assert_eq!(kbm("1\n0\n127\n60\n69\n440\n").unwrap_err(), "Missing formal octave");
    assert_eq!(kbm("1\n0\n127\n60\n69\n440\n12\nq\n").unwrap_err(), "Invalid key map entry: 'q'");
}

#[test]
fn kbm_field_checks() {
    assert_eq!(parse_midi_note(127, "first note"), Ok(127));
    assert_eq!(
        parse_midi_note(-1, "first note").unwrap_err(),
        "first note must be in the MIDI note range 0..=127"
    );
    assert_eq!(parse_non_negative_usize(3, "map size"), Ok(3));
    assert_eq!(parse_non_negative_usize(-3, "map size").unwrap_err(), "map size must be non-negative");
}

#[test]
fn scl_errors_and_comments() {
    let scl = parse_scl("! c\n!\nname\n 2 \n 701.955 cents\n 3/2 trailing\n").unwrap();
    assert_eq!(scl.description, "name");
    assert_eq!(scl.intervals.len(), 2);
    match &scl.intervals[0] {
        SclInterval::Cents(text) => assert_eq!(text, "701.955"),
        other => panic!("expected cents, got {other:?}"),
    }
    match &scl.intervals[1] {
        SclInterval::Ratio { num, den } => assert_eq!((*num, *den), (3, 2)),
        other => panic!("expected a ratio, got {other:?}"),
    }
    assert!(parse_scl("").is_err());
    assert!(parse_scl("name\n3\n2/1\n").is_err());
    assert!(parse_scl("name\n1\n3/0\n").is_err());
}

#[test]
fn linear_mapping_without_a_key_map() {
    assert_eq!(midi_note_degree(None, 7, 69), Some(0));
    assert_eq!(midi_note_degree(None, 7, 0), Some(-69));
    let mapping = kbm("0\n0\n127\n60\n69\n440\n0\n").unwrap();
    assert_eq!(mapped_degree_for_note(&mapping, 7, 72), Some(12));
    assert_eq!(mapped_degree_for_note(&mapping, 7, 50), Some(-10));
}

#[test]
fn degrees_split_into_step_and_period() {
    assert_eq!(split_degree(0, 7), (0, 0));
    assert_eq!(split_degree(7, 7), (0, 1));
    assert_eq!(split_degree(-1, 7), (6, -1));
    assert_eq!(split_degree(-7, 7), (0, -1));
    assert_eq!(split_degree(-8, 7), (6, -2));
    assert_eq!(split_degree(i32::MIN, 1), (0, i32::MIN));
}
