use schisma::midi::{MidiEvent, MidiEventKind, NoteEvent};
use schisma::voices::{
    channel_index, route_channel, ChannelRoute, ControllerEffect, MpeVoiceManager, RpnSelector, VoicePhase,
    VoiceUpdate, ZoneConfig,
};

fn note(channel: u8, note: u8, velocity: u8, is_on: bool) -> MidiEvent {
    MidiEvent { frame_offset: 0, kind: MidiEventKind::Note(NoteEvent { channel, note, velocity, is_on }) }
}

#[test]
fn released_voice_tracks_channel_until_it_is_reassigned() {
    let mut manager = MpeVoiceManager::new(ZoneConfig::lower(15), 4);
    let first = manager.handle_event(&note(2, 60, 127, true), 0).started_slot.unwrap();
    manager.handle_event(&note(2, 60, 51, false), 100);
    assert_eq!(manager.voices()[first].phase, VoicePhase::Released);
    assert_eq!(route_channel(manager.zone_config(), 2), ChannelRoute::Member);
    assert_eq!(manager.voices_following(2), vec![first]);

    let second = manager.handle_event(&note(2, 64, 127, true), 120).started_slot.unwrap();
    assert!(!manager.voices()[first].bound_to_channel);
    assert_eq!(manager.voices_following(2), vec![second]);
}

#[test]
fn rpn_zero_updates_member_pitch_bend_range() {
    let mut selector = RpnSelector::new();
    let mut range = 48;
    for (cc, raw) in [(101, 0), (100, 0), (6, 24)] {
        if let ControllerEffect::RangeSemitones(semitones) = selector.handle_cc(cc, raw) {
            range = semitones;
        }
    }
    // A full upward bend on the member channel then spans the new range.
    assert_eq!(f64::from(range) * 1.0, 24.0);
    assert_eq!(selector, RpnSelector { msb: 0, lsb: 0 });
}

#[test]
fn poly_pressure_targets_one_note() {
    let mut manager = MpeVoiceManager::new(ZoneConfig::lower(15), 4);
    let first = manager.handle_event(&note(2, 60, 127, true), 0).started_slot.unwrap();
    let second = manager.handle_event(&note(3, 64, 127, true), 0).started_slot.unwrap();
    let targets = manager.voices_playing(2, 60);
    assert_eq!(targets, vec![first]);
    assert!(!targets.contains(&second));
}

#[test]
fn controllers_outside_rpn_zero_leave_the_range() {
    let mut selector = RpnSelector::new();
    assert_eq!(selector.handle_cc(6, 24), ControllerEffect::NoEffect);
    assert_eq!(selector.handle_cc(74, 90), ControllerEffect::Timbre);
    selector.handle_cc(101, 0);
    selector.handle_cc(100, 0);
    assert_eq!(selector.handle_cc(38, 50), ControllerEffect::RangeCents(50));
    selector.handle_cc(100, 1);
    assert_eq!(selector.handle_cc(6, 12), ControllerEffect::NoEffect);
}

#[test]
fn master_channel_refreshes_every_voice() {
    let zone = ZoneConfig::lower(15);
    assert_eq!(route_channel(zone, 1), ChannelRoute::Master);
    assert_eq!(route_channel(zone, 0), ChannelRoute::Ignored);
    assert_eq!(route_channel(zone, 17), ChannelRoute::Ignored);
    let narrow = ZoneConfig::lower(3);
    assert_eq!(route_channel(narrow, 9), ChannelRoute::Stored);
    assert_eq!(channel_index(16), Some(15));
    assert_eq!(channel_index(0), None);
    let upper = ZoneConfig::upper(15);
    assert_eq!((upper.master_channel, upper.member_first, upper.member_last), (16, 1, 15));
}

#[test]
fn a_new_note_releases_the_held_note_on_its_channel() {
    let mut manager = MpeVoiceManager::new(ZoneConfig::lower(15), 2);
    let first = manager.handle_event(&note(2, 60, 100, true), 5).started_slot.unwrap();
    let update = manager.handle_event(&note(2, 62, 100, true), 9);
    assert_eq!(update.released_slot, Some(first));
    assert_eq!(manager.voices()[first].phase, VoicePhase::Released);
    assert_eq!(manager.voices()[first].release_frame, 9);
    assert_eq!(manager.active_voice_count(), 2);
}

#[test]
fn a_full_pool_steals_the_oldest_released_voice() {
    let mut manager = MpeVoiceManager::new(ZoneConfig::lower(15), 2);
    manager.handle_event(&note(2, 60, 100, true), 0);
    manager.handle_event(&note(3, 62, 100, true), 1);
    manager.handle_event(&note(3, 62, 0, true), 7);
    manager.handle_event(&note(2, 60, 0, false), 5);
    let update = manager.handle_event(&note(4, 67, 100, true), 10);
    // Both voices are released; the one released first (at frame 5) goes.
    assert_eq!(update.stolen_slot, Some(0));
    assert_eq!(update.started_slot, Some(0));
    assert_eq!(manager.voices()[0].note, 67);
}

#[test]
fn notes_outside_the_zone_and_other_messages_change_nothing() {
    let mut manager = MpeVoiceManager::new(ZoneConfig::lower(3), 2);
    let update = manager.handle_event(&note(9, 60, 100, true), 0);
    assert_eq!(update, VoiceUpdate::default());
    let bend = MidiEvent { frame_offset: 0, kind: MidiEventKind::PitchBend { channel: 2, value: 9000 } };
    assert_eq!(manager.handle_event(&bend, 0), VoiceUpdate::default());
    assert_eq!(manager.active_voice_count(), 0);
}

#[test]
fn all_notes_off_releases_and_detaches_every_voice() {
    let mut manager = MpeVoiceManager::new(ZoneConfig::lower(15), 3);
    manager.handle_event(&note(2, 60, 100, true), 0);
    manager.handle_event(&note(3, 64, 100, true), 0);
    manager.all_notes_off(42);
    for voice in manager.voices() {
        assert_ne!(voice.phase, VoicePhase::Held);
        assert!(!voice.bound_to_channel);
    }
    assert_eq!(manager.voices()[0].release_frame, 42);
    manager.free_slot(0);
    manager.free_slot(99);
    assert_eq!(manager.voices()[0].phase, VoicePhase::Free);
    assert_eq!(manager.active_voice_count(), 1);
}

#[test]
fn slot_count_stays_through_any_calls() {
    for (requested, expected) in [(0usize, 1usize), (1, 1), (3, 3)] {
        let mut manager = MpeVoiceManager::new(ZoneConfig::lower(15), requested);
        assert_eq!(manager.voices().len(), expected);
        for step in 0..20u64 {
            let channel = 2 + (step % 4) as u8;
            manager.handle_event(&note(channel, 60 + step as u8, 100, step % 3 != 2), step * 10);
            assert_eq!(manager.voices().len(), expected);
            if step % 5 == 0 {
                manager.free_slot(step as usize);
                assert_eq!(manager.voices().len(), expected);
            }
            if step % 7 == 0 {
                manager.all_notes_off(step * 10);
                assert_eq!(manager.voices().len(), expected);
            }
            manager.handle_event(&note(1, 60, 100, true), step * 10);
            assert_eq!(manager.voices().len(), expected);
        }
    }
}
