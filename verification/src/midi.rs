//! MIDI channel messages as they arrive on the wire. Values keep their wire
//! resolution (7-bit data bytes, 14-bit pitch bend with 8192 at centre); the
//! host scales them into its normalized ranges.

use vstd::prelude::*;
use vstd::string::StringExecFns;

verus! {

/// A note-on or note-off.
#[derive(Debug, Clone, Copy, PartialEq, Eq, Structural)]
pub struct NoteEvent {
    /// 1-indexed MIDI channel.
    pub channel: u8,
    pub note: u8,
    /// 7-bit velocity; 0 on a note-on means note-off.
    pub velocity: u8,
    pub is_on: bool,
}

#[derive(Debug, Clone, Copy, PartialEq, Eq, Structural)]
pub enum MidiEventKind {
    Note(NoteEvent),
    /// 14-bit bend; 8192 is centre.
    PitchBend { channel: u8, value: u16 },
    ChannelPressure { channel: u8, value: u8 },
    PolyPressure { channel: u8, note: u8, value: u8 },
    ProgramChange { channel: u8, program: u8 },
    ControlChange { channel: u8, cc: u8, value: u8 },
}

/// A message stamped with its frame offset inside the current block.
#[derive(Debug, Clone, Copy, PartialEq, Eq, Structural)]
pub struct MidiEvent {
    pub frame_offset: usize,
    pub kind: MidiEventKind,
}

/// The three per-note MPE dimensions.
#[derive(Debug, Clone, Copy, PartialEq, Eq, Structural)]
pub enum ExpressionKind {
    PitchBend,
    Pressure,
    Timbre,
}

/// The decoding of a channel-voice message, or `None` for anything that is
/// not one (system messages, running status, truncated messages).
pub open spec fn decode(bytes: Seq<u8>, frame_offset: usize) -> Option<MidiEvent> {
    if bytes.len() == 0 {
        None
    } else {
        let status = bytes[0];
        let channel = ((status & 0x0F) + 1) as u8;
        let kind: Option<MidiEventKind> = if status & 0xF0 == 0x90 && bytes.len() >= 3 {
            Some(
                MidiEventKind::Note(
                    NoteEvent {
                        channel,
                        note: bytes[1] & 0x7F,
                        velocity: bytes[2] & 0x7F,
                        is_on: bytes[2] & 0x7F > 0,
                    },
                ),
            )
        } else if status & 0xF0 == 0x80 && bytes.len() >= 3 {
            Some(
                MidiEventKind::Note(
                    NoteEvent { channel, note: bytes[1] & 0x7F, velocity: bytes[2] & 0x7F, is_on: false },
                ),
            )
        } else if status & 0xF0 == 0xB0 && bytes.len() >= 3 {
            Some(MidiEventKind::ControlChange { channel, cc: bytes[1] & 0x7F, value: bytes[2] & 0x7F })
        } else if status & 0xF0 == 0xE0 && bytes.len() >= 3 {
            Some(
                MidiEventKind::PitchBend {
                    channel,
                    value: ((bytes[2] & 0x7F) as int * 128 + (bytes[1] & 0x7F) as int) as u16,
                },
            )
        } else if status & 0xF0 == 0xD0 && bytes.len() >= 2 {
            Some(MidiEventKind::ChannelPressure { channel, value: bytes[1] & 0x7F })
        } else if status & 0xF0 == 0xA0 && bytes.len() >= 3 {
            Some(MidiEventKind::PolyPressure { channel, note: bytes[1] & 0x7F, value: bytes[2] & 0x7F })
        } else if status & 0xF0 == 0xC0 && bytes.len() >= 2 {
            Some(MidiEventKind::ProgramChange { channel, program: bytes[1] & 0x7F })
        } else {
            None
        };
        match kind {
            Some(k) => Some(MidiEvent { frame_offset, kind: k }),
            None => None,
        }
    }
}

/// Decodes one raw MIDI message (status byte first).
pub fn parse_midi_bytes(bytes: &[u8], frame_offset: usize) -> (r: Option<MidiEvent>)
    ensures
        r == decode(bytes@, frame_offset),
{
    if bytes.len() == 0 {
        return None;
    }
    let status = bytes[0];
    let msg_type = status & 0xF0;
    assert(status & 0x0F <= 15) by (bit_vector);
    let channel = (status & 0x0F) + 1;
    let kind = if msg_type == 0x90 && bytes.len() >= 3 {
        let note = bytes[1] & 0x7F;
        let vel = bytes[2] & 0x7F;
        MidiEventKind::Note(NoteEvent { channel, note, velocity: vel, is_on: vel > 0 })
    } else if msg_type == 0x80 && bytes.len() >= 3 {
        MidiEventKind::Note(NoteEvent { channel, note: bytes[1] & 0x7F, velocity: bytes[2] & 0x7F, is_on: false })
    } else if msg_type == 0xB0 && bytes.len() >= 3 {
        MidiEventKind::ControlChange { channel, cc: bytes[1] & 0x7F, value: bytes[2] & 0x7F }
    } else if msg_type == 0xE0 && bytes.len() >= 3 {
        let b1 = bytes[1];
        let b2 = bytes[2];
        let lsb = b1 & 0x7F;
        let msb = b2 & 0x7F;
        assert(b1 & 0x7F <= 127 && b2 & 0x7F <= 127) by (bit_vector);
        let raw = (msb as u16) * 128 + lsb as u16;
        MidiEventKind::PitchBend { channel, value: raw }
    } else if msg_type == 0xD0 && bytes.len() >= 2 {
        MidiEventKind::ChannelPressure { channel, value: bytes[1] & 0x7F }
    } else if msg_type == 0xA0 && bytes.len() >= 3 {
        MidiEventKind::PolyPressure { channel, note: bytes[1] & 0x7F, value: bytes[2] & 0x7F }
    } else if msg_type == 0xC0 && bytes.len() >= 2 {
        MidiEventKind::ProgramChange { channel, program: bytes[1] & 0x7F }
    } else {
        return None;
    };
    Some(MidiEvent { frame_offset, kind })
}

/// Every decoded message is on a channel from 1 to 16 and every data value
/// fits its wire width.
pub proof fn law_decoded_values_in_range(bytes: Seq<u8>, frame_offset: usize)
    ensures
        decode(bytes, frame_offset) matches Some(e) ==> {
            &&& 1 <= event_channel(e.kind) <= 16
            &&& match e.kind {
                MidiEventKind::Note(n) => n.note <= 127 && n.velocity <= 127 && (n.is_on ==> n.velocity > 0),
                MidiEventKind::PitchBend { value, .. } => value <= 16383,
                MidiEventKind::ChannelPressure { value, .. } => value <= 127,
                MidiEventKind::PolyPressure { note, value, .. } => note <= 127 && value <= 127,
                MidiEventKind::ProgramChange { program, .. } => program <= 127,
                MidiEventKind::ControlChange { cc, value, .. } => cc <= 127 && value <= 127,
            }
        },
{
    if bytes.len() > 0 {
        let s = bytes[0];
        assert(s & 0x0F <= 15) by (bit_vector);
        if bytes.len() >= 2 {
            let b1 = bytes[1];
            assert(b1 & 0x7F <= 127) by (bit_vector);
        }
        if bytes.len() >= 3 {
            let b2 = bytes[2];
            assert(b2 & 0x7F <= 127) by (bit_vector);
        }
    }
}

pub open spec fn event_channel(kind: MidiEventKind) -> u8 {
    match kind {
        MidiEventKind::Note(n) => n.channel,
        MidiEventKind::PitchBend { channel, .. } => channel,
        MidiEventKind::ChannelPressure { channel, .. } => channel,
        MidiEventKind::PolyPressure { channel, .. } => channel,
        MidiEventKind::ProgramChange { channel, .. } => channel,
        MidiEventKind::ControlChange { channel, .. } => channel,
    }
}

impl MidiEventKind {
    pub fn channel(&self) -> (c: u8)
        ensures
            c == event_channel(*self),
    {
        match self {
            MidiEventKind::Note(n) => n.channel,
            MidiEventKind::PitchBend { channel, .. } => *channel,
            MidiEventKind::ChannelPressure { channel, .. } => *channel,
            MidiEventKind::PolyPressure { channel, .. } => *channel,
            MidiEventKind::ProgramChange { channel, .. } => *channel,
            MidiEventKind::ControlChange { channel, .. } => *channel,
        }
    }

    /// A note-off, or a note-on with velocity zero.
    pub fn is_note_off(&self) -> (b: bool)
        ensures
            b == (*self matches MidiEventKind::Note(n) && !n.is_on),
    {
        match self {
            MidiEventKind::Note(n) => !n.is_on,
            _ => false,
        }
    }
}


/// Pitch-class names, C first, with sharps.
pub open spec fn pitch_class_name(pc: int) -> Seq<char> {
    if pc == 0 {
        "C"@
    } else if pc == 1 {
        "C#"@
    } else if pc == 2 {
        "D"@
    } else if pc == 3 {
        "D#"@
    } else if pc == 4 {
        "E"@
    } else if pc == 5 {
        "F"@
    } else if pc == 6 {
        "F#"@
    } else if pc == 7 {
        "G"@
    } else if pc == 8 {
        "G#"@
    } else if pc == 9 {
        "A"@
    } else if pc == 10 {
        "A#"@
    } else {
        "B"@
    }
}

/// Scientific pitch name: pitch class, then octave (middle C, note 60, is
/// C4; notes 0..=11 are in octave -1).
pub open spec fn note_name_text(note: u8) -> Seq<char> {
    let octave = note / 12 - 1;
    pitch_class_name((note % 12) as int) + if octave < 0 {
        "-1"@
    } else {
        crate::routing::decimal(octave as nat)
    }
}

fn pitch_class_str(pc: u8) -> (s: &'static str)
    requires
        pc < 12,
    ensures
        s@ == pitch_class_name(pc as int),
{
    match pc {
        0 => "C",
        1 => "C#",
        2 => "D",
        3 => "D#",
        4 => "E",
        5 => "F",
        6 => "F#",
        7 => "G",
        8 => "G#",
        9 => "A",
        10 => "A#",
        _ => "B",
    }
}

/// The name of a MIDI note, such as `C4` for note 60.
pub fn note_name(note: u8) -> (r: String)
    ensures
        r@ == note_name_text(note),
{
    let mut s = String::from_str(pitch_class_str(note % 12));
    let octave_above: u8 = note / 12;
    if octave_above == 0 {
        s.append("-1");
    } else {
        crate::routing::append_number(&mut s, (octave_above - 1) as u64);
    }
    s
}

/// A note-off (status `0x8n`) names the note of its first data byte and the
/// release velocity of its second, on channel `n + 1`; a note-on (status
/// `0x9n`) of the same data bytes names the same note and velocity, and
/// sounds exactly when that velocity is nonzero.
pub proof fn law_note_messages(channel: u8, key: u8, vel: u8, frame_offset: usize)
    requires
        channel < 16,
    ensures
        decode(seq![(0x80 + channel) as u8, key, vel], frame_offset) == Some(
            MidiEvent {
                frame_offset,
                kind: MidiEventKind::Note(
                    NoteEvent { channel: (channel + 1) as u8, note: key % 128, velocity: vel % 128, is_on: false },
                ),
            },
        ),
        decode(seq![(0x90 + channel) as u8, key, vel], frame_offset) == Some(
            MidiEvent {
                frame_offset,
                kind: MidiEventKind::Note(
                    NoteEvent {
                        channel: (channel + 1) as u8,
                        note: key % 128,
                        velocity: vel % 128,
                        is_on: vel % 128 != 0,
                    },
                ),
            },
        ),
{
    let off = (0x80 + channel) as u8;
    let on = (0x90 + channel) as u8;
    assert(off & 0xF0 == 0x80 && off & 0x0F == channel) by (bit_vector)
        requires
            channel < 16,
            off == 0x80 + channel,
    ;
    assert(on & 0xF0 == 0x90 && on & 0x0F == channel) by (bit_vector)
        requires
            channel < 16,
            on == 0x90 + channel,
    ;
    assert(key & 0x7F == key % 128 && vel & 0x7F == vel % 128) by (bit_vector);
    assert(seq![off, key, vel][0] == off);
    assert(seq![on, key, vel][0] == on);
}

} // verus!
