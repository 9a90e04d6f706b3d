//! MPE channel binding and voice lifecycle: which slot a note occupies, when
//! it is released, which voice is stolen, and which voice follows a member
//! channel's expression. Continuous expression values are carried beside this
//! state by the host; every decision about slots is made here.

use vstd::prelude::*;
use crate::midi::{MidiEvent, MidiEventKind};

verus! {

/// Lifecycle phase of one voice slot.
#[derive(Debug, Clone, Copy, PartialEq, Eq, Structural)]
pub enum VoicePhase {
    Free,
    Held,
    Released,
}

/// Slot-level state of one voice.
#[derive(Debug, Clone, Copy, PartialEq, Eq, Structural)]
pub struct VoiceState {
    pub id: u64,
    pub phase: VoicePhase,
    pub channel: u8,
    pub note: u8,
    pub note_on_frame: u64,
    pub release_frame: u64,
    /// Whether the voice still follows its member channel's expression.
    pub bound_to_channel: bool,
}

/// The channel layout of one MPE zone (1-indexed MIDI channels).
#[derive(Debug, Clone, Copy, PartialEq, Eq, Structural)]
pub struct ZoneConfig {
    pub master_channel: u8,
    pub member_first: u8,
    pub member_last: u8,
}

/// Which slots a note event started, released or stole.
#[derive(Debug, Clone, Copy, Default, PartialEq, Eq, Structural)]
pub struct VoiceUpdate {
    pub started_slot: Option<usize>,
    pub released_slot: Option<usize>,
    pub stolen_slot: Option<usize>,
}

/// Voice slots plus the zone they serve.
pub struct MpeVoiceManager {
    zone: ZoneConfig,
    voices: Vec<VoiceState>,
    next_voice_id: u64,
}

pub open spec fn free_voice() -> VoiceState {
    VoiceState {
        id: 0,
        phase: VoicePhase::Free,
        channel: 0,
        note: 0,
        note_on_frame: 0,
        release_frame: 0,
        bound_to_channel: false,
    }
}

pub open spec fn is_active(v: VoiceState) -> bool {
    v.phase != VoicePhase::Free
}

impl VoiceState {
    /// An unused slot.
    pub fn free() -> (v: Self)
        ensures
            v == free_voice(),
    {
        VoiceState {
            id: 0,
            phase: VoicePhase::Free,
            channel: 0,
            note: 0,
            note_on_frame: 0,
            release_frame: 0,
            bound_to_channel: false,
        }
    }

    pub fn is_active(&self) -> (b: bool)
        ensures
            b == is_active(*self),
    {
        match self.phase {
            VoicePhase::Free => false,
            _ => true,
        }
    }
}

pub open spec fn zone_is_member(zone: ZoneConfig, channel: u8) -> bool {
    zone.member_first <= channel && channel <= zone.member_last
}

pub open spec fn clamp_member_count(count: u8) -> u8 {
    if count < 1 {
        1
    } else if count > 15 {
        15
    } else {
        count
    }
}

pub open spec fn zone_wf(zone: ZoneConfig) -> bool {
    &&& 1 <= zone.master_channel <= 16
    &&& 1 <= zone.member_first <= zone.member_last <= 16
}

impl ZoneConfig {
    /// Lower zone: master on channel 1, members from channel 2 upwards.
    pub fn lower(member_channels: u8) -> (zone: Self)
        ensures
            zone.master_channel == 1,
            zone.member_first == 2,
            zone.member_last == 1 + clamp_member_count(member_channels),
            zone_wf(zone),
    {
        let count = if member_channels < 1 {
            1
        } else if member_channels > 15 {
            15
        } else {
            member_channels
        };
        ZoneConfig { master_channel: 1, member_first: 2, member_last: 1 + count }
    }

    /// Upper zone: master on channel 16, members from channel 15 downwards.
    pub fn upper(member_channels: u8) -> (zone: Self)
        ensures
            zone.master_channel == 16,
            zone.member_first == 16 - clamp_member_count(member_channels),
            zone.member_last == 15,
            zone_wf(zone),
    {
        let count = if member_channels < 1 {
            1
        } else if member_channels > 15 {
            15
        } else {
            member_channels
        };
        ZoneConfig { master_channel: 16, member_first: 16 - count, member_last: 15 }
    }

    pub fn is_member(&self, channel: u8) -> (b: bool)
        ensures
            b == zone_is_member(*self, channel),
    {
        channel >= self.member_first && channel <= self.member_last
    }
}

/// The voice as it is after a note-on on `channel` detached it: a held voice
/// bound to that channel is released at `frame`, and every active voice bound
/// to it stops following the channel.
pub open spec fn detach_from_channel(v: VoiceState, channel: u8, frame: u64) -> VoiceState {
    if is_active(v) && v.bound_to_channel && v.channel == channel {
        if v.phase == VoicePhase::Held {
            VoiceState { phase: VoicePhase::Released, release_frame: frame, bound_to_channel: false, ..v }
        } else {
            VoiceState { bound_to_channel: false, ..v }
        }
    } else {
        v
    }
}

pub open spec fn detach_all(voices: Seq<VoiceState>, channel: u8, frame: u64) -> Seq<VoiceState> {
    Seq::new(voices.len(), |i: int| detach_from_channel(voices[i], channel, frame))
}

/// `slot` is the lowest free slot.
pub open spec fn is_first_free(voices: Seq<VoiceState>, slot: int) -> bool {
    &&& 0 <= slot < voices.len()
    &&& voices[slot].phase == VoicePhase::Free
    &&& forall|j: int| 0 <= j < slot ==> voices[j].phase != VoicePhase::Free
}

pub open spec fn has_free(voices: Seq<VoiceState>) -> bool {
    exists|j: int| 0 <= j < voices.len() && voices[j].phase == VoicePhase::Free
}

pub open spec fn has_released(voices: Seq<VoiceState>) -> bool {
    exists|j: int| 0 <= j < voices.len() && voices[j].phase == VoicePhase::Released
}

/// `slot` is the voice to steal when no slot is free: the released voice with
/// the earliest release frame, or, when nothing is released, the voice with
/// the earliest note-on frame; ties go to the lowest slot.
pub open spec fn is_steal_choice(voices: Seq<VoiceState>, slot: int) -> bool {
    &&& 0 <= slot < voices.len()
    &&& if has_released(voices) {
        &&& voices[slot].phase == VoicePhase::Released
        &&& forall|j: int|
            0 <= j < voices.len() && voices[j].phase == VoicePhase::Released ==> voices[slot].release_frame
                <= voices[j].release_frame
        &&& forall|j: int|
            0 <= j < slot && voices[j].phase == VoicePhase::Released ==> voices[slot].release_frame
                < voices[j].release_frame
    } else {
        &&& forall|j: int| 0 <= j < voices.len() ==> voices[slot].note_on_frame <= voices[j].note_on_frame
        &&& forall|j: int| 0 <= j < slot ==> voices[slot].note_on_frame < voices[j].note_on_frame
    }
}

/// The slot a note-on takes in `voices` (already detached from the channel).
pub open spec fn is_start_slot(voices: Seq<VoiceState>, slot: int) -> bool {
    if has_free(voices) {
        is_first_free(voices, slot)
    } else {
        is_steal_choice(voices, slot)
    }
}

pub open spec fn successor_id(id: u64) -> u64 {
    if id == u64::MAX {
        1
    } else {
        (id + 1) as u64
    }
}

/// Some held voice bound to `channel` is at `slot`, and none after it.
pub open spec fn is_last_detached_held(voices: Seq<VoiceState>, channel: u8, slot: int) -> bool {
    &&& 0 <= slot < voices.len()
    &&& voices[slot].phase == VoicePhase::Held && voices[slot].bound_to_channel
        && voices[slot].channel == channel
    &&& forall|j: int|
        slot < j < voices.len() ==> !(voices[j].phase == VoicePhase::Held && voices[j].bound_to_channel
            && voices[j].channel == channel)
}

pub open spec fn has_bound_held(voices: Seq<VoiceState>, channel: u8) -> bool {
    exists|j: int|
        0 <= j < voices.len() && voices[j].phase == VoicePhase::Held && voices[j].bound_to_channel
            && voices[j].channel == channel
}

/// The held, bound voice playing `note` on `channel`, lowest slot first.
pub open spec fn is_note_off_target(voices: Seq<VoiceState>, channel: u8, note: u8, slot: int) -> bool {
    &&& 0 <= slot < voices.len()
    &&& matches_note_off(voices[slot], channel, note)
    &&& forall|j: int| 0 <= j < slot ==> !matches_note_off(voices[j], channel, note)
}

pub open spec fn matches_note_off(v: VoiceState, channel: u8, note: u8) -> bool {
    v.phase == VoicePhase::Held && v.bound_to_channel && v.channel == channel && v.note == note
}

pub open spec fn has_note_off_target(voices: Seq<VoiceState>, channel: u8, note: u8) -> bool {
    exists|j: int| 0 <= j < voices.len() && matches_note_off(voices[j], channel, note)
}

pub open spec fn voice_wf(v: VoiceState) -> bool {
    &&& v.phase == VoicePhase::Free ==> v == free_voice()
    &&& v.phase == VoicePhase::Held ==> v.bound_to_channel
    &&& is_active(v) ==> v.id >= 1
}

/// At most one voice follows each channel.
pub open spec fn bound_channels_distinct(voices: Seq<VoiceState>) -> bool {
    forall|i: int, j: int|
        0 <= i < voices.len() && 0 <= j < voices.len() && i != j && voices[i].bound_to_channel
            && voices[j].bound_to_channel ==> voices[i].channel != voices[j].channel
}

pub open spec fn voices_wf(voices: Seq<VoiceState>) -> bool {
    &&& voices.len() >= 1
    &&& forall|i: int| 0 <= i < voices.len() ==> voice_wf(#[trigger] voices[i])
    &&& bound_channels_distinct(voices)
}

pub open spec fn count_active(voices: Seq<VoiceState>) -> nat
    decreases voices.len(),
{
    if voices.len() == 0 {
        0
    } else {
        count_active(voices.drop_last()) + if is_active(voices.last()) {
            1nat
        } else {
            0nat
        }
    }
}

impl MpeVoiceManager {
    pub closed spec fn zone(&self) -> ZoneConfig {
        self.zone
    }

    pub closed spec fn voices_view(&self) -> Seq<VoiceState> {
        self.voices@
    }

    pub closed spec fn next_id(&self) -> u64 {
        self.next_voice_id
    }

    /// The manager's invariant: every slot is consistent, held voices follow
    /// their channel, no two voices follow the same channel, ids are nonzero.
    pub open spec fn wf(&self) -> bool {
        &&& voices_wf(self.voices_view())
        &&& zone_wf(self.zone())
        &&& self.next_id() >= 1
    }

    /// `max_voices` free slots (at least one) for `zone`.
    pub fn new(zone: ZoneConfig, max_voices: usize) -> (m: Self)
        requires
            zone_wf(zone),
        ensures
            m.wf(),
            m.zone() == zone,
            m.next_id() == 1,
            m.voices_view().len() == if max_voices < 1 { 1 } else { max_voices },
            forall|i: int| 0 <= i < m.voices_view().len() ==> m.voices_view()[i] == free_voice(),
    {
        let count = if max_voices < 1 { 1 } else { max_voices };
        let mut voices: Vec<VoiceState> = Vec::new();
        while voices.len() < count
            invariant
                voices.len() <= count,
                forall|i: int| 0 <= i < voices.len() ==> voices@[i] == free_voice(),
            decreases count - voices.len(),
        {
            voices.push(VoiceState::free());
        }
        let m = MpeVoiceManager { zone, voices, next_voice_id: 1 };
        assert(bound_channels_distinct(m.voices@));
        m
    }

    pub fn voices(&self) -> (v: &[VoiceState])
        ensures
            v@ == self.voices_view(),
    {
        self.voices.as_slice()
    }

    pub fn zone_config(&self) -> (z: ZoneConfig)
        ensures
            z == self.zone(),
    {
        self.zone
    }

    pub fn active_voice_count(&self) -> (n: usize)
        ensures
            n == count_active(self.voices_view()),
    {
        let mut n: usize = 0;
        let mut i: usize = 0;
        while i < self.voices.len()
            invariant
                i <= self.voices.len(),
                n == count_active(self.voices@.subrange(0, i as int)),
                n <= i,
            decreases self.voices.len() - i,
        {
            assert(self.voices@.subrange(0, i + 1).drop_last() == self.voices@.subrange(0, i as int));
            if self.voices[i].is_active() {
                n = n + 1;
            }
            i = i + 1;
        }
        assert(self.voices@.subrange(0, i as int) == self.voices@);
        n
    }

    /// Returns `slot` to the pool. Out-of-range slots are ignored.
    pub fn free_slot(&mut self, slot: usize)
        requires
            old(self).wf(),
        ensures
            final(self).wf(),
            final(self).zone() == old(self).zone(),
            final(self).next_id() == old(self).next_id(),
            final(self).voices_view() == if slot < old(self).voices_view().len() {
                old(self).voices_view().update(slot as int, free_voice())
            } else {
                old(self).voices_view()
            },
    {
        if slot < self.voices.len() {
            self.voices.set(slot, VoiceState::free());
        }
        proof {
            let v = self.voices@;
            assert forall|i: int| 0 <= i < v.len() implies voice_wf(#[trigger] v[i]) by {
                if i != slot {
                    assert(v[i] == old(self).voices@[i]);
                }
            }
        }
    }

    /// Releases every held voice at `frame` and detaches every voice from its
    /// channel.
    pub fn all_notes_off(&mut self, frame: u64)
        requires
            old(self).wf(),
        ensures
            final(self).wf(),
            final(self).zone() == old(self).zone(),
            final(self).next_id() == old(self).next_id(),
            final(self).voices_view() == all_off(old(self).voices_view(), frame),
    {
        let ghost start = self.voices@;
        let mut i: usize = 0;
        while i < self.voices.len()
            invariant
                i <= self.voices.len(),
                self.zone == old(self).zone,
                self.next_voice_id == old(self).next_voice_id,
                start == old(self).voices@,
                self.voices@.len() == start.len(),
                forall|j: int| 0 <= j < i ==> self.voices@[j] == release_voice(start[j], frame),
                forall|j: int| i <= j < start.len() ==> self.voices@[j] == start[j],
            decreases self.voices.len() - i,
        {
            let mut v = self.voices[i];
            if v.phase == VoicePhase::Held {
                v.phase = VoicePhase::Released;
                v.release_frame = frame;
            }
            v.bound_to_channel = false;
            self.voices.set(i, v);
            i = i + 1;
        }
        proof {
            assert(self.voices@ =~= all_off(start, frame));
            let v = self.voices@;
            assert forall|k: int| 0 <= k < v.len() implies voice_wf(#[trigger] v[k]) by {
                assert(voice_wf(start[k]));
            }
        }
    }

    /// A note event on `channel`. `sounding` is true for a note-on with
    /// nonzero velocity. Channels outside the zone's member range are ignored.
    pub fn handle_note(&mut self, channel: u8, note: u8, sounding: bool, frame: u64) -> (update:
        VoiceUpdate)
        requires
            old(self).wf(),
        ensures
            final(self).wf(),
            final(self).zone() == old(self).zone(),
            !zone_is_member(old(self).zone(), channel) ==> update == VoiceUpdate::default_spec()
                && final(self).voices_view() == old(self).voices_view() && final(self).next_id()
                == old(self).next_id(),
            zone_is_member(old(self).zone(), channel) && sounding ==> note_on_post(
                old(self).voices_view(),
                old(self).next_id(),
                channel,
                note,
                frame,
                final(self).voices_view(),
                final(self).next_id(),
                update,
            ),
            zone_is_member(old(self).zone(), channel) && !sounding ==> note_off_post(
                old(self).voices_view(),
                channel,
                note,
                frame,
                final(self).voices_view(),
                update,
            ) && final(self).next_id() == old(self).next_id(),
    {
        if !self.zone.is_member(channel) {
            return VoiceUpdate { started_slot: None, released_slot: None, stolen_slot: None };
        }
        if sounding {
            self.note_on(channel, note, frame)
        } else {
            self.note_off(channel, note, frame)
        }
    }

    fn note_on(&mut self, channel: u8, note: u8, frame: u64) -> (update: VoiceUpdate)
        requires
            old(self).wf(),
            1 <= channel <= 16,
        ensures
            final(self).wf(),
            final(self).zone() == old(self).zone(),
            note_on_post(
                old(self).voices_view(),
                old(self).next_id(),
                channel,
                note,
                frame,
                final(self).voices_view(),
                final(self).next_id(),
                update,
            ),
    {
        let ghost start = self.voices@;
        let mut released_slot: Option<usize> = None;
        let mut i: usize = 0;
        while i < self.voices.len()
            invariant
                i <= self.voices.len(),
                self.zone == old(self).zone,
                self.next_voice_id == old(self).next_voice_id,
                start == old(self).voices@,
                old(self).wf(),
                self.voices@.len() == start.len(),
                forall|j: int| 0 <= j < i ==> self.voices@[j] == detach_from_channel(start[j], channel, frame),
                forall|j: int| i <= j < start.len() ==> self.voices@[j] == start[j],
                match released_slot {
                    Some(s) => is_last_detached_held(start.subrange(0, i as int), channel, s as int),
                    None => !has_bound_held(start.subrange(0, i as int), channel),
                },
            decreases self.voices.len() - i,
        {
            let v = self.voices[i];
            if v.is_active() && v.bound_to_channel && v.channel == channel {
                let mut w = v;
                if v.phase == VoicePhase::Held {
                    w.phase = VoicePhase::Released;
                    w.release_frame = frame;
                    released_slot = Some(i);
                }
                w.bound_to_channel = false;
                self.voices.set(i, w);
            }
            proof {
                let pre = start.subrange(0, i as int);
                let post = start.subrange(0, i + 1);
                assert forall|j: int| 0 <= j < pre.len() implies post[j] == pre[j] by {}
                match released_slot {
                    Some(s) => {
                        if s < i {
                            assert forall|j: int| s < j < post.len() implies !(post[j].phase
                                == VoicePhase::Held && post[j].bound_to_channel && post[j].channel
                                == channel) by {
                                if j < i {
                                    assert(post[j] == pre[j]);
                                }
                            }
                        }
                    },
                    None => {
                        assert forall|j: int| 0 <= j < post.len() implies !(post[j].phase
                            == VoicePhase::Held && post[j].bound_to_channel && post[j].channel
                            == channel) by {
                            if j < i {
                                assert(post[j] == pre[j]);
                            }
                        }
                    },
                }
            }
            i = i + 1;
        }
        proof {
            assert(self.voices@ =~= detach_all(start, channel, frame));
            assert(start.subrange(0, start.len() as int) == start);
        }
        let ghost mid = self.voices@;
        let slot = match self.first_free() {
            Some(s) => s,
            None => self.voice_to_steal(),
        };
        let stolen_slot = if self.voices[slot].is_active() {
            Some(slot)
        } else {
            None
        };
        let voice = VoiceState {
            id: self.next_voice_id,
            phase: VoicePhase::Held,
            channel,
            note,
            note_on_frame: frame,
            release_frame: 0,
            bound_to_channel: true,
        };
        self.voices.set(slot, voice);
        self.next_voice_id = if self.next_voice_id == u64::MAX {
            1
        } else {
            self.next_voice_id + 1
        };
        proof {
            let v = self.voices@;
            assert forall|k: int| 0 <= k < v.len() implies voice_wf(#[trigger] v[k]) by {
                if k != slot {
                    assert(voice_wf(start[k]));
                    assert(v[k] == detach_from_channel(start[k], channel, frame));
                }
            }
            assert forall|a: int, b: int|
                0 <= a < v.len() && 0 <= b < v.len() && a != b && v[a].bound_to_channel
                    && v[b].bound_to_channel implies v[a].channel != v[b].channel by {
                if a != slot && b != slot {
                    assert(v[a] == detach_from_channel(start[a], channel, frame));
                    assert(v[b] == detach_from_channel(start[b], channel, frame));
                } else if a == slot {
                    assert(v[b] == detach_from_channel(start[b], channel, frame));
                } else {
                    assert(v[a] == detach_from_channel(start[a], channel, frame));
                }
            }
            assert(v =~= mid.update(slot as int, voice));
        }
        VoiceUpdate { started_slot: Some(slot), released_slot, stolen_slot }
    }

    fn first_free(&self) -> (r: Option<usize>)
        ensures
            match r {
                Some(s) => is_first_free(self.voices@, s as int),
                None => !has_free(self.voices@),
            },
    {
        let mut i: usize = 0;
        while i < self.voices.len()
            invariant
                i <= self.voices.len(),
                forall|j: int| 0 <= j < i ==> self.voices@[j].phase != VoicePhase::Free,
            decreases self.voices.len() - i,
        {
            if self.voices[i].phase == VoicePhase::Free {
                return Some(i);
            }
            i = i + 1;
        }
        None
    }

    fn voice_to_steal(&self) -> (slot: usize)
        requires
            self.voices@.len() >= 1,
        ensures
            is_steal_choice(self.voices@, slot as int),
    {
        let n = self.voices.len();
        let mut best_released: Option<usize> = None;
        let mut best_started: usize = 0;
        let mut i: usize = 0;
        while i < n
            invariant
                n == self.voices@.len(),
                1 <= n,
                i <= n,
                best_started < n,
                best_started < i || (i == 0 && best_started == 0),
                forall|j: int| 0 <= j < i ==> self.voices@[best_started as int].note_on_frame <= self.voices@[j].note_on_frame,
                forall|j: int| 0 <= j < best_started ==> self.voices@[best_started as int].note_on_frame < self.voices@[j].note_on_frame,
                match best_released {
                    Some(b) => {
                        &&& b < i
                        &&& self.voices@[b as int].phase == VoicePhase::Released
                        &&& forall|j: int|
                            0 <= j < i && self.voices@[j].phase == VoicePhase::Released
                                ==> self.voices@[b as int].release_frame <= self.voices@[j].release_frame
                        &&& forall|j: int|
                            0 <= j < b && self.voices@[j].phase == VoicePhase::Released
                                ==> self.voices@[b as int].release_frame < self.voices@[j].release_frame
                    },
                    None => forall|j: int| 0 <= j < i ==> self.voices@[j].phase != VoicePhase::Released,
                },
            decreases n - i,
        {
            let v = self.voices[i];
            if v.phase == VoicePhase::Released {
                match best_released {
                    Some(b) => {
                        if v.release_frame < self.voices[b].release_frame {
                            best_released = Some(i);
                        }
                    },
                    None => {
                        best_released = Some(i);
                    },
                }
            }
            if i > 0 && v.note_on_frame < self.voices[best_started].note_on_frame {
                best_started = i;
            }
            i = i + 1;
        }
        match best_released {
            Some(b) => b,
            None => best_started,
        }
    }

    fn note_off(&mut self, channel: u8, note: u8, frame: u64) -> (update: VoiceUpdate)
        requires
            old(self).wf(),
        ensures
            final(self).wf(),
            final(self).zone() == old(self).zone(),
            final(self).next_id() == old(self).next_id(),
            note_off_post(old(self).voices_view(), channel, note, frame, final(self).voices_view(), update),
    {
        let mut i: usize = 0;
        while i < self.voices.len()
            invariant
                i <= self.voices.len(),
                *self == *old(self),
                old(self).wf(),
                forall|j: int| 0 <= j < i ==> !matches_note_off(self.voices@[j], channel, note),
            decreases self.voices.len() - i,
        {
            let v = self.voices[i];
            if v.phase == VoicePhase::Held && v.bound_to_channel && v.channel == channel && v.note == note {
                let mut w = v;
                w.phase = VoicePhase::Released;
                w.release_frame = frame;
                self.voices.set(i, w);
                proof {
                    let s = self.voices@;
                    assert forall|k: int| 0 <= k < s.len() implies voice_wf(#[trigger] s[k]) by {
                        if k != i {
                            assert(s[k] == old(self).voices@[k]);
                        }
                    }
                    assert forall|a: int, b: int|
                        0 <= a < s.len() && 0 <= b < s.len() && a != b && s[a].bound_to_channel
                            && s[b].bound_to_channel implies s[a].channel != s[b].channel by {
                        assert(old(self).voices@[a].bound_to_channel);
                        assert(old(self).voices@[b].bound_to_channel);
                    }
                }
                return VoiceUpdate { started_slot: None, released_slot: Some(i), stolen_slot: None };
            }
            i = i + 1;
        }
        VoiceUpdate { started_slot: None, released_slot: None, stolen_slot: None }
    }
}

impl VoiceUpdate {
    pub open spec fn default_spec() -> VoiceUpdate {
        VoiceUpdate { started_slot: None, released_slot: None, stolen_slot: None }
    }
}

/// A held voice released at `frame`; every voice detached from its channel.
pub open spec fn release_voice(v: VoiceState, frame: u64) -> VoiceState {
    if v.phase == VoicePhase::Held {
        VoiceState { phase: VoicePhase::Released, release_frame: frame, bound_to_channel: false, ..v }
    } else {
        VoiceState { bound_to_channel: false, ..v }
    }
}

pub open spec fn all_off(voices: Seq<VoiceState>, frame: u64) -> Seq<VoiceState> {
    Seq::new(voices.len(), |i: int| release_voice(voices[i], frame))
}

/// What a note-on for `note` on member `channel` at `frame` does: every voice
/// following the channel is detached (a held one is released at `frame`,
/// reported as the last such slot); the new voice takes the lowest free slot,
/// or else the steal choice, and is held and bound with the next id.
pub open spec fn note_on_post(
    before: Seq<VoiceState>,
    next_id: u64,
    channel: u8,
    note: u8,
    frame: u64,
    after: Seq<VoiceState>,
    after_next_id: u64,
    update: VoiceUpdate,
) -> bool {
    let mid = detach_all(before, channel, frame);
    &&& after_next_id == successor_id(next_id)
    &&& update.started_slot is Some
    &&& {
        let s = update.started_slot->0 as int;
        &&& is_start_slot(mid, s)
        &&& after == mid.update(
            s,
            VoiceState {
                id: next_id,
                phase: VoicePhase::Held,
                channel,
                note,
                note_on_frame: frame,
                release_frame: 0,
                bound_to_channel: true,
            },
        )
        &&& update.stolen_slot == if is_active(mid[s]) {
            Some(s as usize)
        } else {
            None
        }
    }
    &&& match update.released_slot {
        Some(r) => is_last_detached_held(before, channel, r as int),
        None => !has_bound_held(before, channel),
    }
}

/// What a note-off for `note` on `channel` at `frame` does: the lowest held
/// voice bound to the channel and playing the note is released at `frame`;
/// without one nothing changes.
pub open spec fn note_off_post(
    before: Seq<VoiceState>,
    channel: u8,
    note: u8,
    frame: u64,
    after: Seq<VoiceState>,
    update: VoiceUpdate,
) -> bool {
    &&& update.started_slot is None
    &&& update.stolen_slot is None
    &&& match update.released_slot {
        Some(r) => {
            &&& is_note_off_target(before, channel, note, r as int)
            &&& after == before.update(
                r as int,
                VoiceState { phase: VoicePhase::Released, release_frame: frame, ..before[r as int] },
            )
        },
        None => !has_note_off_target(before, channel, note) && after == before,
    }
}


// ---------------------------------------------------------------------------
// Channel messages
// ---------------------------------------------------------------------------

/// What a per-channel expression message (bend, pressure, controller) does
/// to the zone.
#[derive(Debug, Clone, Copy, PartialEq, Eq, Structural)]
pub enum ChannelRoute {
    /// Not a MIDI channel (outside 1..=16): the message is dropped.
    Ignored,
    /// Stored on its channel; no voice is refreshed.
    Stored,
    /// The zone's master channel: every sounding voice is refreshed.
    Master,
    /// A member channel: the voices following it take the channel's values,
    /// then every sounding voice is refreshed.
    Member,
}

pub open spec fn channel_route(zone: ZoneConfig, channel: u8) -> ChannelRoute {
    if !(1 <= channel <= 16) {
        ChannelRoute::Ignored
    } else if channel == zone.master_channel {
        ChannelRoute::Master
    } else if zone_is_member(zone, channel) {
        ChannelRoute::Member
    } else {
        ChannelRoute::Stored
    }
}

/// How a message on `channel` is applied in `zone`.
pub fn route_channel(zone: ZoneConfig, channel: u8) -> (r: ChannelRoute)
    ensures
        r == channel_route(zone, channel),
{
    if channel < 1 || channel > 16 {
        ChannelRoute::Ignored
    } else if channel == zone.master_channel {
        ChannelRoute::Master
    } else if zone.is_member(channel) {
        ChannelRoute::Member
    } else {
        ChannelRoute::Stored
    }
}

/// Index of a MIDI channel's state (channels are 1..=16).
pub fn channel_index(channel: u8) -> (r: Option<usize>)
    ensures
        1 <= channel <= 16 ==> r == Some((channel - 1) as usize),
        !(1 <= channel <= 16) ==> r is None,
{
    if channel >= 1 && channel <= 16 {
        Some((channel - 1) as usize)
    } else {
        None
    }
}

/// Registered-parameter selection of one channel (controllers 101 and 100),
/// which decides what data-entry controllers 6 and 38 set.
#[derive(Debug, Clone, Copy, PartialEq, Eq, Structural)]
pub struct RpnSelector {
    pub msb: u8,
    pub lsb: u8,
}

/// What a controller message asks of a channel's expression state.
#[derive(Debug, Clone, Copy, PartialEq, Eq, Structural)]
pub enum ControllerEffect {
    /// Nothing that affects sound.
    NoEffect,
    /// Pitch-bend range: whole semitones set to the value, cents kept.
    RangeSemitones(u8),
    /// Pitch-bend range: cents set to the value, semitones kept.
    RangeCents(u8),
    /// Timbre (controller 74) set from the message's value.
    Timbre,
}

pub open spec fn pitch_range_selected(sel: RpnSelector) -> bool {
    sel.msb == 0 && sel.lsb == 0
}

/// The selector after a controller message, and what the message does.
pub open spec fn controller_step(sel: RpnSelector, cc: u8, raw: u8) -> (RpnSelector, ControllerEffect) {
    if cc == 101 {
        (RpnSelector { msb: raw, ..sel }, ControllerEffect::NoEffect)
    } else if cc == 100 {
        (RpnSelector { lsb: raw, ..sel }, ControllerEffect::NoEffect)
    } else if cc == 6 && pitch_range_selected(sel) {
        (sel, ControllerEffect::RangeSemitones(raw))
    } else if cc == 38 && pitch_range_selected(sel) {
        (sel, ControllerEffect::RangeCents(raw))
    } else if cc == 74 {
        (sel, ControllerEffect::Timbre)
    } else {
        (sel, ControllerEffect::NoEffect)
    }
}

impl RpnSelector {
    /// No parameter selected (the null RPN, 127/127).
    pub fn new() -> (r: Self)
        ensures
            r == (RpnSelector { msb: 127, lsb: 127 }),
    {
        RpnSelector { msb: 127, lsb: 127 }
    }

    /// Applies controller `cc` with 7-bit value `raw`.
    pub fn handle_cc(&mut self, cc: u8, raw: u8) -> (effect: ControllerEffect)
        ensures
            (*final(self), effect) == controller_step(*old(self), cc, raw),
    {
        if cc == 101 {
            self.msb = raw;
            ControllerEffect::NoEffect
        } else if cc == 100 {
            self.lsb = raw;
            ControllerEffect::NoEffect
        } else if cc == 6 && self.msb == 0 && self.lsb == 0 {
            ControllerEffect::RangeSemitones(raw)
        } else if cc == 38 && self.msb == 0 && self.lsb == 0 {
            ControllerEffect::RangeCents(raw)
        } else if cc == 74 {
            ControllerEffect::Timbre
        } else {
            ControllerEffect::NoEffect
        }
    }
}

/// The pitch-bend range is changed only by data entry while RPN 0/0 is
/// selected, and selecting a parameter never changes sound by itself.
pub proof fn law_pitch_range_needs_rpn_zero(sel: RpnSelector, cc: u8, raw: u8)
    ensures
        controller_step(sel, cc, raw).1 matches ControllerEffect::RangeSemitones(_) ==> cc == 6
            && pitch_range_selected(sel),
        controller_step(sel, cc, raw).1 matches ControllerEffect::RangeCents(_) ==> cc == 38
            && pitch_range_selected(sel),
        (cc == 101 || cc == 100) ==> controller_step(sel, cc, raw).1 == ControllerEffect::NoEffect,
        (cc != 101 && cc != 100) ==> controller_step(sel, cc, raw).0 == sel,
{
}

/// Slot `i` holds a sounding voice that follows `channel`.
pub open spec fn follows_channel(voices: Seq<VoiceState>, channel: u8, i: int) -> bool {
    &&& 0 <= i < voices.len()
    &&& is_active(voices[i])
    &&& voices[i].bound_to_channel
    &&& voices[i].channel == channel
}

/// Slot `i` holds a sounding voice playing `note` on `channel`.
pub open spec fn plays_note(voices: Seq<VoiceState>, channel: u8, note: u8, i: int) -> bool {
    &&& 0 <= i < voices.len()
    &&& is_active(voices[i])
    &&& voices[i].channel == channel
    &&& voices[i].note == note
}

/// `slots` lists, in increasing order, exactly the indices that satisfy `p`.
pub open spec fn lists_exactly(slots: Seq<usize>, p: spec_fn(int) -> bool) -> bool {
    &&& forall|a: int, b: int| 0 <= a < b < slots.len() ==> slots[a] < slots[b]
    &&& forall|a: int| 0 <= a < slots.len() ==> p(slots[a] as int)
    &&& forall|i: int| #[trigger] p(i) ==> exists|a: int| 0 <= a < slots.len() && slots[a] == i
}

impl MpeVoiceManager {
    fn select_slots(&self, channel: u8, note: u8, by_note: bool) -> (r: Vec<usize>)
        ensures
            by_note ==> lists_exactly(r@, |i: int| plays_note(self.voices_view(), channel, note, i)),
            !by_note ==> lists_exactly(r@, |i: int| follows_channel(self.voices_view(), channel, i)),
    {
        let ghost p = if by_note {
            |i: int| plays_note(self.voices@, channel, note, i)
        } else {
            |i: int| follows_channel(self.voices@, channel, i)
        };
        let mut r: Vec<usize> = Vec::new();
        let mut i: usize = 0;
        while i < self.voices.len()
            invariant
                i <= self.voices.len(),
                p == (if by_note {
                    |i: int| plays_note(self.voices@, channel, note, i)
                } else {
                    |i: int| follows_channel(self.voices@, channel, i)
                }),
                forall|a: int, b: int| 0 <= a < b < r@.len() ==> r@[a] < r@[b],
                forall|a: int| 0 <= a < r@.len() ==> r@[a] < i && p(r@[a] as int),
                forall|j: int| 0 <= j < i && #[trigger] p(j) ==> exists|a: int| 0 <= a < r@.len() && r@[a] == j,
            decreases self.voices.len() - i,
        {
            let v = self.voices[i];
            let hit = if by_note {
                v.is_active() && v.channel == channel && v.note == note
            } else {
                v.is_active() && v.bound_to_channel && v.channel == channel
            };
            let ghost r0 = r@;
            if hit {
                r.push(i);
            }
            proof {
                assert(hit == p(i as int));
                assert forall|j: int| 0 <= j < i + 1 && #[trigger] p(j) implies exists|a: int|
                    0 <= a < r@.len() && r@[a] == j by {
                    if j < i {
                        let a = choose|a: int| 0 <= a < r0.len() && r0[a] == j;
                        assert(r@[a] == r0[a]);
                    } else {
                        assert(r@[r@.len() - 1] == i);
                    }
                }
            }
            i = i + 1;
        }
        r
    }

    /// Slots whose voices take a member channel's bend, pressure and timbre.
    pub fn voices_following(&self, channel: u8) -> (r: Vec<usize>)
        ensures
            lists_exactly(r@, |i: int| follows_channel(self.voices_view(), channel, i)),
    {
        self.select_slots(channel, 0, false)
    }

    /// Slots whose voices a per-note message (poly pressure, direct
    /// expression) for `note` on `channel` reaches.
    pub fn voices_playing(&self, channel: u8, note: u8) -> (r: Vec<usize>)
        ensures
            lists_exactly(r@, |i: int| plays_note(self.voices_view(), channel, note, i)),
    {
        self.select_slots(channel, note, true)
    }

    /// Applies the slot-level part of an event: notes start, release and
    /// steal voices; every other message leaves the slots as they are (its
    /// values are applied by the host through `route_channel`,
    /// `voices_following` and `voices_playing`).
    pub fn handle_event(&mut self, event: &MidiEvent, frame: u64) -> (update: VoiceUpdate)
        requires
            old(self).wf(),
        ensures
            final(self).wf(),
            final(self).zone() == old(self).zone(),
            match event.kind {
                MidiEventKind::Note(n) => {
                    let sounding = n.is_on && n.velocity > 0;
                    if !zone_is_member(old(self).zone(), n.channel) {
                        update == VoiceUpdate::default_spec() && final(self).voices_view()
                            == old(self).voices_view() && final(self).next_id() == old(self).next_id()
                    } else if sounding {
                        note_on_post(
                            old(self).voices_view(),
                            old(self).next_id(),
                            n.channel,
                            n.note,
                            frame,
                            final(self).voices_view(),
                            final(self).next_id(),
                            update,
                        )
                    } else {
                        note_off_post(
                            old(self).voices_view(),
                            n.channel,
                            n.note,
                            frame,
                            final(self).voices_view(),
                            update,
                        ) && final(self).next_id() == old(self).next_id()
                    }
                },
                _ => update == VoiceUpdate::default_spec() && final(self).voices_view()
                    == old(self).voices_view() && final(self).next_id() == old(self).next_id(),
            },
    {
        match event.kind {
            MidiEventKind::Note(n) => {
                let sounding = n.is_on && n.velocity > 0;
                self.handle_note(n.channel, n.note, sounding, frame)
            },
            _ => VoiceUpdate { started_slot: None, released_slot: None, stolen_slot: None },
        }
    }
}

/// In a well-formed manager each channel has at most one held voice: a new
/// note on a member channel always releases the previous one.
pub proof fn law_one_held_voice_per_channel(voices: Seq<VoiceState>)
    requires
        voices_wf(voices),
    ensures
        forall|i: int, j: int|
            0 <= i < voices.len() && 0 <= j < voices.len() && i != j && voices[i].phase
                == VoicePhase::Held && voices[j].phase == VoicePhase::Held ==> voices[i].channel
                != voices[j].channel,
{
    assert forall|i: int, j: int|
        0 <= i < voices.len() && 0 <= j < voices.len() && i != j && voices[i].phase
            == VoicePhase::Held && voices[j].phase == VoicePhase::Held implies voices[i].channel
            != voices[j].channel by {
        assert(voice_wf(voices[i]));
        assert(voice_wf(voices[j]));
    }
}

/// A note-off that follows a note-on for the same channel and note releases
/// exactly the voice that the note-on started, at the note-off's frame.
pub proof fn law_note_off_releases_started_voice(
    before: Seq<VoiceState>,
    next_id: u64,
    channel: u8,
    note: u8,
    on_frame: u64,
    off_frame: u64,
    held: Seq<VoiceState>,
    held_next_id: u64,
    on: VoiceUpdate,
    after: Seq<VoiceState>,
    off: VoiceUpdate,
)
    requires
        voices_wf(before),
        note_on_post(before, next_id, channel, note, on_frame, held, held_next_id, on),
        note_off_post(held, channel, note, off_frame, after, off),
    ensures
        off.released_slot == on.started_slot,
        after[on.started_slot->0 as int].phase == VoicePhase::Released,
        after[on.started_slot->0 as int].release_frame == off_frame,
        after[on.started_slot->0 as int].id == next_id,
{
    let s = on.started_slot->0 as int;
    let mid = detach_all(before, channel, on_frame);
    assert(matches_note_off(held[s], channel, note));
    assert forall|j: int| 0 <= j < held.len() && j != s implies !matches_note_off(
        held[j],
        channel,
        note,
    ) by {
        assert(held[j] == mid[j]);
        assert(mid[j] == detach_from_channel(before[j], channel, on_frame));
    }
    match off.released_slot {
        Some(r) => {
            assert(r as int == s);
        },
        None => {
            assert(has_note_off_target(held, channel, note));
        },
    }
}

/// After all-notes-off no voice is held and no voice follows a channel; free
/// slots stay free and the slot count is unchanged.
pub proof fn law_all_notes_off_silences(voices: Seq<VoiceState>, frame: u64)
    ensures
        all_off(voices, frame).len() == voices.len(),
        forall|i: int|
            0 <= i < voices.len() ==> {
                let v = #[trigger] all_off(voices, frame)[i];
                &&& v.phase != VoicePhase::Held
                &&& !v.bound_to_channel
                &&& (voices[i].phase == VoicePhase::Free <==> v.phase == VoicePhase::Free)
            },
{
}

/// While any slot is free a note-on never steals a sounding voice, and it
/// takes the lowest free slot.
pub proof fn law_free_slot_before_stealing(
    before: Seq<VoiceState>,
    next_id: u64,
    channel: u8,
    note: u8,
    frame: u64,
    after: Seq<VoiceState>,
    after_next_id: u64,
    update: VoiceUpdate,
    free_slot: int,
)
    requires
        note_on_post(before, next_id, channel, note, frame, after, after_next_id, update),
        is_first_free(before, free_slot),
    ensures
        update.stolen_slot is None,
        update.started_slot == Some(free_slot as usize),
{
    let mid = detach_all(before, channel, frame);
    assert(mid[free_slot] == before[free_slot]);
    assert(has_free(mid));
    let s = update.started_slot->0 as int;
    assert forall|j: int| 0 <= j < mid.len() implies (mid[j].phase == VoicePhase::Free <==> before[j].phase
        == VoicePhase::Free) by {}
    if s < free_slot {
        assert(mid[s].phase == VoicePhase::Free);
    } else if s > free_slot {
        assert(mid[free_slot].phase == VoicePhase::Free);
    }
}

/// The slots before and after one call of `handle_note`, `handle_event`,
/// `free_slot` or `all_notes_off`, as those calls' contracts describe them:
/// unchanged, one slot freed, all notes off, a note-on or a note-off.
pub open spec fn is_voice_call(before: Seq<VoiceState>, after: Seq<VoiceState>) -> bool {
    ||| after == before
    ||| exists|slot: int| 0 <= slot < before.len() && after == #[trigger] before.update(slot, free_voice())
    ||| exists|frame: u64| after == #[trigger] all_off(before, frame)
    ||| exists|next_id: u64, channel: u8, note: u8, frame: u64, after_next_id: u64, update: VoiceUpdate|
        #[trigger] note_on_post(before, next_id, channel, note, frame, after, after_next_id, update)
    ||| exists|channel: u8, note: u8, frame: u64, update: VoiceUpdate|
        #[trigger] note_off_post(before, channel, note, frame, after, update)
}

proof fn lemma_call_keeps_slot_count(before: Seq<VoiceState>, after: Seq<VoiceState>)
    requires
        is_voice_call(before, after),
    ensures
        after.len() == before.len(),
{
    if exists|next_id: u64, channel: u8, note: u8, frame: u64, after_next_id: u64, update: VoiceUpdate|
        #[trigger] note_on_post(before, next_id, channel, note, frame, after, after_next_id, update) {
        let (next_id, channel, note, frame, after_next_id, update) = choose|
            next_id: u64,
            channel: u8,
            note: u8,
            frame: u64,
            after_next_id: u64,
            update: VoiceUpdate,
        | #[trigger] note_on_post(before, next_id, channel, note, frame, after, after_next_id, update);
        let mid = detach_all(before, channel, frame);
        let s = update.started_slot->0 as int;
        assert(is_start_slot(mid, s));
        assert(0 <= s < mid.len());
    } else if exists|channel: u8, note: u8, frame: u64, update: VoiceUpdate|
        #[trigger] note_off_post(before, channel, note, frame, after, update) {
        let (channel, note, frame, update) = choose|channel: u8, note: u8, frame: u64, update: VoiceUpdate|
            #[trigger] note_off_post(before, channel, note, frame, after, update);
        match update.released_slot {
            Some(r) => {
                assert(is_note_off_target(before, channel, note, r as int));
            },
            None => {},
        }
    }
}

/// A manager created for `max_voices` slots keeps `max(max_voices, 1)` slots
/// through any sequence of note events, slot frees and all-notes-off:
/// `history[0]` is its slots after `new`, and each next entry its slots after
/// one more call.
pub proof fn law_slot_count_constant(max_voices: usize, history: Seq<Seq<VoiceState>>)
    requires
        history.len() >= 1,
        history[0].len() == (if max_voices < 1 { 1 } else { max_voices }),
        forall|i: int| 0 <= i < history.len() - 1 ==> is_voice_call(#[trigger] history[i], history[i + 1]),
    ensures
        forall|i: int|
            0 <= i < history.len() ==> (#[trigger] history[i]).len() == (if max_voices < 1 {
                1
            } else {
                max_voices
            }),
    decreases history.len(),
{
    if history.len() > 1 {
        let prefix = history.drop_last();
        assert forall|i: int| 0 <= i < prefix.len() - 1 implies is_voice_call(#[trigger] prefix[i], prefix[i + 1]) by {
            assert(prefix[i] == history[i] && prefix[i + 1] == history[i + 1]);
            assert(is_voice_call(history[i], history[i + 1]));
        }
        law_slot_count_constant(max_voices, prefix);
        let n = history.len() - 1;
        assert(prefix[n - 1] == history[n - 1]);
        assert(is_voice_call(history[n - 1], history[n]));
        lemma_call_keeps_slot_count(history[n - 1], history[n]);
        assert forall|i: int| 0 <= i < history.len() implies (#[trigger] history[i]).len() == (if max_voices < 1 {
            1
        } else {
            max_voices
        }) by {
            if i < n {
                assert(prefix[i] == history[i]);
            }
        }
    }
}

/// The member range is inclusive at both ends: in a lower zone of `n` member
/// channels every channel from 2 through `1 + n` (clamped to 1..=15) is a
/// member, the last one included, and channels outside that range are not;
/// in general exactly the channels from `member_first` through `member_last`
/// are members.
pub proof fn law_member_range_inclusive(zone: ZoneConfig, channel: u8, n: u8)
    ensures
        zone_is_member(zone, channel) <==> (zone.member_first <= channel && channel <= zone.member_last),
        zone_is_member(zone, zone.member_first) <==> zone.member_first <= zone.member_last,
        zone_is_member(zone, zone.member_last) <==> zone.member_first <= zone.member_last,
        ({
            let lower = ZoneConfig { master_channel: 1, member_first: 2, member_last: (1 + clamp_member_count(n)) as u8 };
            &&& zone_is_member(lower, channel) <==> (2 <= channel && channel as int <= 1 + clamp_member_count(n))
            &&& zone_is_member(lower, (1 + clamp_member_count(n)) as u8)
        }),
{
}

/// In a well-formed manager a sounding note on any member channel, the last
/// one included, starts a voice (the slot a note-on takes always exists).
pub proof fn law_member_note_on_starts_voice(
    zone: ZoneConfig,
    before: Seq<VoiceState>,
    next_id: u64,
    channel: u8,
    note: u8,
    frame: u64,
    after: Seq<VoiceState>,
    after_next_id: u64,
    update: VoiceUpdate,
)
    requires
        zone_wf(zone),
        zone.member_first <= channel <= zone.member_last,
        zone_is_member(zone, channel) ==> note_on_post(before, next_id, channel, note, frame, after, after_next_id, update),
    ensures
        update.started_slot is Some,
        after[update.started_slot->0 as int].channel == channel,
        after[update.started_slot->0 as int].note == note,
        after[update.started_slot->0 as int].phase == VoicePhase::Held,
{
    let mid = detach_all(before, channel, frame);
    let s = update.started_slot->0 as int;
    assert(is_start_slot(mid, s));
    assert(0 <= s < mid.len());
}

} // verus!
