use schisma::keyboard::{is_black_key, KeyAction, PerformanceKeys};

#[test]
fn clicks_start_notes_on_successive_member_channels() {
    let mut keys = PerformanceKeys::new();
    assert_eq!(keys.press(60), KeyAction::Press { channel: 2 });
    assert_eq!(keys.press(64), KeyAction::Press { channel: 3 });
    assert!(keys.is_held(60));
    assert_eq!(keys.press(60), KeyAction::Release { channel: 2 });
    assert!(!keys.is_held(60));
    // One note is held, so the next note takes channel 3 again.
    assert_eq!(keys.press(67), KeyAction::Press { channel: 3 });
    assert_eq!(keys.release_all().into_iter().collect::<Vec<_>>(), vec![(64, 3), (67, 3)]);
    assert!(!keys.is_held(64));
}

#[test]
fn channels_wrap_after_fifteen_notes() {
    let mut keys = PerformanceKeys::new();
    for (i, note) in (48_u8..63).enumerate() {
        assert_eq!(keys.press(note), KeyAction::Press { channel: 2 + i as u8 });
    }
    assert_eq!(keys.press(70), KeyAction::Press { channel: 2 });
}

#[test]
fn black_keys() {
    let black: Vec<u8> = (60_u8..72).filter(|&n| is_black_key(n)).collect();
    assert_eq!(black, vec![61, 63, 66, 68, 70]);
}
