//! MIDI conversions and the events of exported and imported MIDI tracks.
pub mod convert;
pub mod events;
pub mod import;
pub mod roundtrip;
pub mod smf;

pub use convert::{DEFAULT_VELOCITY, PPQ, drum_type_to_midi_note, gm_program_to_instrument, midi_note_to_drum_type};
