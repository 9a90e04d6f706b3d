//! Verified core of the Schisma MPE instrument: MIDI decoding and routing,
//! MPE voice allocation and channel binding, Scala scale and keyboard-mapping
//! files and their degree arithmetic, just-intonation scales, event timelines
//! and Standard MIDI File reading, topology validation, parameter registry,
//! compute-backend selection, the realtime MIDI queue, the audio-thread
//! allocation audit and callback timing counts.
//!
//! Floating-point work (synthesis, frequencies, normalized controller values,
//! analysis) is done by the host around these functions.

pub mod voices;
pub mod mpe;
pub mod graph;
pub mod midi;
pub mod routing;
pub mod timeline;
pub mod text;
pub mod scala;
pub mod gpu;
pub mod meter;
pub mod params;
pub mod tuning;
pub mod smf;
pub mod rt_audit;
pub mod realtime;
pub mod telemetry;
pub mod keyboard;
