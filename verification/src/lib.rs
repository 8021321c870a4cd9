//! Music theory and algorithmic-composition building blocks: key signatures,
//! integer sequence generators and rhythms, drum and General MIDI mappings,
//! the events of MIDI tracks written and read back, the frame layout of
//! audio samples, the interactive piano's controls, and the text work of
//! live coding.
pub mod text;
pub mod key_signature;
pub mod sequences;
pub mod instruments;
pub mod midi;
pub mod lfo;
pub mod sample;
pub mod piano;
pub mod live_coding;
