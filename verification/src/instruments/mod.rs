//! Instrument presets and drum kinds.
pub mod drums;
pub mod presets;
