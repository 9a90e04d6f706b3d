//! The on-screen performance keyboard: clicking a key starts a note on the
//! next member channel or, if the key is already sounding, releases it on
//! the channel it was started on.

use vstd::prelude::*;
use std::collections::BTreeMap;

verus! {

/// Whether a MIDI note is a black key.
pub open spec fn black_key(note: u8) -> bool {
    let pc = note % 12;
    pc == 1 || pc == 3 || pc == 6 || pc == 8 || pc == 10
}

pub fn is_black_key(note: u8) -> (b: bool)
    ensures
        b == black_key(note),
{
    let pc = note % 12;
    pc == 1 || pc == 3 || pc == 6 || pc == 8 || pc == 10
}

/// What a click on a key asks for.
#[derive(Debug, Clone, Copy, PartialEq, Eq, Structural)]
pub enum KeyAction {
    /// Start the note on this channel.
    Press { channel: u8 },
    /// Release the note on the channel it sounds on.
    Release { channel: u8 },
}

/// Notes held from the on-screen keyboard and their channels, by note.
#[derive(Debug, Clone)]
pub struct PerformanceKeys {
    held: BTreeMap<u8, u8>,
}

/// The channel a new note takes when `held` notes are sounding: channels 2
/// to 16 in turn.
pub open spec fn next_channel(held: nat) -> u8 {
    (2 + held % 15) as u8
}

/// The channel for a new note while `held` notes sound.
fn channel_for(held: usize) -> (c: u8)
    ensures
        c == next_channel(held as nat),
{
    2 + (held % 15) as u8
}

impl PerformanceKeys {
    /// The sounding notes and their channels.
    pub closed spec fn view_map(&self) -> Map<u8, u8> {
        self.held@
    }

    /// No note held.
    pub fn new() -> (k: Self)
        ensures
            k.view_map() == Map::<u8, u8>::empty(),
    {
        PerformanceKeys { held: BTreeMap::new() }
    }

    /// A click on `note`: releases it if it sounds, else starts it on the
    /// next member channel.
    pub fn press(&mut self, note: u8) -> (a: KeyAction)
        ensures
            old(self).view_map().contains_key(note) ==> a == (KeyAction::Release {
                channel: old(self).view_map()[note],
            }) && final(self).view_map() == old(self).view_map().remove(note),
            !old(self).view_map().contains_key(note) ==> a == (KeyAction::Press {
                channel: next_channel(old(self).view_map().len()),
            }) && final(self).view_map() == old(self).view_map().insert(
                note,
                next_channel(old(self).view_map().len()),
            ),
    {
        broadcast use vstd::laws_cmp::group_laws_cmp;

        match self.held.remove(&note) {
            Some(channel) => KeyAction::Release { channel },
            None => {
                let channel = channel_for(self.held.len());
                self.held.insert(note, channel);
                KeyAction::Press { channel }
            },
        }
    }

    /// Whether `note` is sounding from the keyboard.
    pub fn is_held(&self, note: u8) -> (b: bool)
        ensures
            b == self.view_map().contains_key(note),
    {
        broadcast use vstd::laws_cmp::group_laws_cmp;

        self.held.contains_key(&note)
    }

    /// Releases every held note: the notes and their channels (which the
    /// map walks in note order), and the keyboard is left empty.
    pub fn release_all(&mut self) -> (r: BTreeMap<u8, u8>)
        ensures
            final(self).view_map() == Map::<u8, u8>::empty(),
            r@ == old(self).view_map(),
    {
        let mut taken: BTreeMap<u8, u8> = BTreeMap::new();
        std::mem::swap(&mut taken, &mut self.held);
        taken
    }
}

/// Each note sounds on one channel at a time: a click on a held key
/// releases it on the channel that started it, and the next click starts it
/// again.
pub proof fn law_click_toggles(held: Map<u8, u8>, note: u8)
    requires
        held.dom().finite(),
        !held.contains_key(note),
    ensures
        held.insert(note, next_channel(held.dom().len())).remove(note) == held,
        held.insert(note, next_channel(held.dom().len()))[note] == next_channel(held.dom().len()),
{
    assert(held.insert(note, next_channel(held.dom().len())).remove(note) =~= held);
}

} // verus!
