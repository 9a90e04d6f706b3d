//! Single-word encodings that the audio thread publishes for the interface
//! thread: the selected compute backend as a byte, and each voice's meter as
//! one 32-bit word (active flag, note, quantized pressure and timbre,
//! released flag).

use vstd::prelude::*;
use crate::gpu::BackendKind;
use crate::voices::{is_active, VoicePhase, VoiceState};

verus! {

pub open spec fn backend_code(kind: BackendKind) -> u8 {
    match kind {
        BackendKind::Auto => 0,
        BackendKind::Cpu => 1,
        BackendKind::Metal => 2,
        BackendKind::Cuda => 3,
    }
}

pub open spec fn backend_decoded(value: u8) -> BackendKind {
    if value == 1 {
        BackendKind::Cpu
    } else if value == 2 {
        BackendKind::Metal
    } else if value == 3 {
        BackendKind::Cuda
    } else {
        BackendKind::Auto
    }
}

pub fn backend_to_u8(backend: BackendKind) -> (r: u8)
    ensures
        r == backend_code(backend),
{
    match backend {
        BackendKind::Auto => 0,
        BackendKind::Cpu => 1,
        BackendKind::Metal => 2,
        BackendKind::Cuda => 3,
    }
}

/// Unknown codes read back as `Auto`.
pub fn backend_from_u8(value: u8) -> (r: BackendKind)
    ensures
        r == backend_decoded(value),
{
    match value {
        1 => BackendKind::Cpu,
        2 => BackendKind::Metal,
        3 => BackendKind::Cuda,
        _ => BackendKind::Auto,
    }
}

/// Decoding an encoded backend gives it back, and every code decodes to a
/// backend whose code it is, or to `Auto`.
pub proof fn law_backend_code_round_trip(kind: BackendKind, value: u8)
    ensures
        backend_decoded(backend_code(kind)) == kind,
        backend_decoded(value) == BackendKind::Auto || backend_code(backend_decoded(value)) == value,
{
}

/// One voice as the meters show it. Pressure and timbre are quantized to
/// 0..=255 by the host before packing.
#[derive(Debug, Clone, Copy, PartialEq, Eq, Structural)]
pub struct VoiceMeterWord {
    pub active: bool,
    pub note: u8,
    pub pressure: u8,
    pub timbre: u8,
    pub released: bool,
}

/// The packed word as a number: bit 31 active, bits 0..8 note, 8..16
/// pressure, 16..24 timbre, bit 24 released; zero for a free voice.
pub open spec fn packed_value(voice: VoiceState, pressure: u8, timbre: u8) -> int {
    if !is_active(voice) {
        0
    } else {
        0x8000_0000 + voice.note + pressure * 0x100 + timbre * 0x1_0000 + (if voice.phase
            == VoicePhase::Released {
            0x100_0000int
        } else {
            0
        })
    }
}

/// Packs a voice's meter word; `pressure` and `timbre` are the quantized
/// expression values.
pub fn pack_voice(voice: VoiceState, pressure: u8, timbre: u8) -> (r: u32)
    ensures
        r == packed_value(voice, pressure, timbre),
{
    if !voice.is_active() {
        return 0;
    }
    let released: u32 = if voice.phase == VoicePhase::Released { 1 } else { 0 };
    let n = voice.note as u32;
    let p = pressure as u32;
    let t = timbre as u32;
    let r = (1u32 << 31) | n | (p << 8) | (t << 16) | (released << 24);
    assert(r == 0x8000_0000 + n + p * 0x100 + t * 0x1_0000 + released * 0x100_0000) by (bit_vector)
        requires
            n < 256,
            p < 256,
            t < 256,
            released < 2,
            r == (1u32 << 31) | n | (p << 8) | (t << 16) | (released << 24),
    ;
    r
}

pub open spec fn unpacked(value: u32) -> VoiceMeterWord {
    VoiceMeterWord {
        active: value / 0x8000_0000 == 1,
        note: (value % 0x100) as u8,
        pressure: ((value / 0x100) % 0x100) as u8,
        timbre: ((value / 0x1_0000) % 0x100) as u8,
        released: (value / 0x100_0000) % 2 == 1,
    }
}

/// Reads a meter word back into its fields.
pub fn unpack_voice(value: u32) -> (r: VoiceMeterWord)
    ensures
        r == unpacked(value),
{
    let active = value & (1u32 << 31) != 0;
    let note = (value & 0xff) as u8;
    let pressure = ((value >> 8) & 0xff) as u8;
    let timbre = ((value >> 16) & 0xff) as u8;
    let released = value & (1u32 << 24) != 0;
    assert((value & (1u32 << 31) != 0) == (value / 0x8000_0000 == 1)) by (bit_vector);
    assert(value & 0xff == value % 0x100) by (bit_vector);
    assert((value >> 8) & 0xff == (value / 0x100) % 0x100) by (bit_vector);
    assert((value >> 16) & 0xff == (value / 0x1_0000) % 0x100) by (bit_vector);
    assert((value & (1u32 << 24) != 0) == ((value / 0x100_0000) % 2 == 1)) by (bit_vector);
    VoiceMeterWord { active, note, pressure, timbre, released }
}

/// Unpacking a packed sounding voice gives back its note, quantized
/// pressure and timbre and whether it is released; a free voice reads as
/// inactive.
pub proof fn law_voice_meter_round_trip(voice: VoiceState, pressure: u8, timbre: u8)
    ensures
        0 <= packed_value(voice, pressure, timbre) <= u32::MAX,
        ({
            let w = unpacked(packed_value(voice, pressure, timbre) as u32);
            if is_active(voice) {
                &&& w.active
                &&& w.note == voice.note
                &&& w.pressure == pressure
                &&& w.timbre == timbre
                &&& w.released == (voice.phase == VoicePhase::Released)
            } else {
                !w.active
            }
        }),
{
    if is_active(voice) {
        let n = voice.note as u32;
        let p = pressure as u32;
        let t = timbre as u32;
        let rel: u32 = if voice.phase == VoicePhase::Released { 1 } else { 0 };
        let v: int = 0x8000_0000 + n + p * 0x100 + t * 0x1_0000 + rel * 0x100_0000;
        assert(v == packed_value(voice, pressure, timbre));
        assert(0 <= v <= u32::MAX) by (nonlinear_arith)
            requires
                v == 0x8000_0000 + n + p * 0x100 + t * 0x1_0000 + rel * 0x100_0000,
                n < 256,
                p < 256,
                t < 256,
                rel < 2,
        ;
        let w: u32 = v as u32;
        assert(w / 0x8000_0000 == 1 && w % 0x100 == n && (w / 0x100) % 0x100 == p && (w / 0x1_0000)
            % 0x100 == t && (w / 0x100_0000) % 2 == rel) by (bit_vector)
            requires
                w == 0x8000_0000 + n + p * 0x100 + t * 0x1_0000 + rel * 0x100_0000,
                n < 256,
                p < 256,
                t < 256,
                rel < 2,
        ;
    }
}

} // verus!
