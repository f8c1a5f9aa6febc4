//! Codec between a bank of foot-controller presets and the MIDI System
//! Exclusive dump that carries it over a 7-bit-clean wire.

pub mod preset;
pub mod sysex;
pub mod transcode;

pub use preset::Preset;
pub use sysex::{MidiError, SysExMessage};
