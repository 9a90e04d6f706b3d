//! MPE zone configuration as the settings describe it: a master channel,
//! an inclusive range of member channels and the member pitch-bend range in
//! whole semitones.

use vstd::prelude::*;

verus! {

/// An MPE zone: master channel and member channels (1-indexed, inclusive).
#[derive(Debug, Clone, Copy, PartialEq, Eq, Structural)]
pub struct MpeZone {
    pub master_channel: u8,
    pub member_first: u8,
    pub member_last: u8,
    /// Pitch-bend range of the member channels, in semitones.
    pub pitchbend_range_semitones: u8,
}

impl MpeZone {
    /// The standard lower zone: master on channel 1, members on 2–15.
    pub fn lower_zone(pitchbend_range_semitones: u8) -> (zone: Self)
        ensures
            zone == (MpeZone { master_channel: 1, member_first: 2, member_last: 15, pitchbend_range_semitones }),
    {
        MpeZone { master_channel: 1, member_first: 2, member_last: 15, pitchbend_range_semitones }
    }

    /// The standard upper zone: master on channel 16, members on 2–15.
    pub fn upper_zone(pitchbend_range_semitones: u8) -> (zone: Self)
        ensures
            zone == (MpeZone { master_channel: 16, member_first: 2, member_last: 15, pitchbend_range_semitones }),
    {
        MpeZone { master_channel: 16, member_first: 2, member_last: 15, pitchbend_range_semitones }
    }

    /// The member channel range as `(first, last)`, both included.
    pub fn member_channels(&self) -> (r: (u8, u8))
        ensures
            r == (self.member_first, self.member_last),
    {
        (self.member_first, self.member_last)
    }

    pub fn is_member_channel(&self, ch: u8) -> (b: bool)
        ensures
            b == (self.member_first <= ch && ch <= self.member_last),
    {
        self.member_first <= ch && ch <= self.member_last
    }
}

/// The zones in use and the voice limit.
#[derive(Debug, Clone)]
pub struct MpeConfig {
    pub zones: Vec<MpeZone>,
    /// Maximum simultaneous voices.
    pub max_voices: usize,
}

impl Default for MpeConfig {
    /// One lower zone with a 48-semitone member range, and 16 voices.
    fn default() -> (c: Self)
        ensures
            c.zones@ == seq![MpeZone { master_channel: 1, member_first: 2, member_last: 15, pitchbend_range_semitones: 48 }],
            c.max_voices == 16,
    {
        let mut zones: Vec<MpeZone> = Vec::new();
        zones.push(MpeZone::lower_zone(48));
        MpeConfig { zones, max_voices: 16 }
    }
}

} // verus!
