//! The controls of the interactive piano: current octave, current keyboard
//! instrument, and which note a key plays.
use vstd::prelude::*;
use crate::instruments::presets::InstrumentPreset;

verus! {

/// Lowest octave the piano plays in.
pub const LOWEST_OCTAVE: i32 = 2;

/// Highest octave the piano plays in.
pub const HIGHEST_OCTAVE: i32 = 6;

/// Octave used at start and for octaves out of range.
pub const DEFAULT_OCTAVE: i32 = 4;

/// Index of the last keyboard instrument.
pub const LAST_INSTRUMENT: u8 = 7;

/// The octave kept for a requested one: the nearest in range.
pub open spec fn clamped_octave(octave: i32) -> i32 {
    if octave < LOWEST_OCTAVE {
        LOWEST_OCTAVE
    } else if octave > HIGHEST_OCTAVE {
        HIGHEST_OCTAVE
    } else {
        octave
    }
}

/// The name of the keyboard instrument with an index.
pub open spec fn keyboard_name(index: u8) -> Seq<char> {
    if index == 0 {
        "Acoustic Piano"@
    } else if index == 1 {
        "Electric Piano"@
    } else if index == 2 {
        "Stage 73 Rhodes"@
    } else if index == 3 {
        "Wurlitzer"@
    } else if index == 4 {
        "Hammond Organ"@
    } else if index == 5 {
        "Church Organ"@
    } else if index == 6 {
        "Clavinet"@
    } else if index == 7 {
        "Harpsichord"@
    } else {
        "Unknown"@
    }
}

/// The preset of the keyboard instrument with an index (the acoustic piano
/// for an index past the last).
pub open spec fn keyboard_preset(index: u8) -> InstrumentPreset {
    if index == 1 {
        InstrumentPreset::ElectricPiano
    } else if index == 2 {
        InstrumentPreset::Stage73
    } else if index == 3 {
        InstrumentPreset::Wurlitzer
    } else if index == 4 {
        InstrumentPreset::HammondOrgan
    } else if index == 5 {
        InstrumentPreset::ChurchOrgan
    } else if index == 6 {
        InstrumentPreset::Clavinet
    } else if index == 7 {
        InstrumentPreset::Harpsichord
    } else {
        InstrumentPreset::AcousticPiano
    }
}

/// The MIDI note of a key (a semitone counted from C, taken modulo 12) in an
/// octave; octaves outside 2 to 6 play in octave 4. Middle C (C4) is 60.
pub open spec fn key_note(semitone: u8, octave: i32) -> int {
    let o = if LOWEST_OCTAVE <= octave <= HIGHEST_OCTAVE {
        octave as int
    } else {
        DEFAULT_OCTAVE as int
    };
    (o + 1) * 12 + (semitone % 12) as int
}

/// The piano's current octave and instrument.
pub struct WebPiano {
    current_octave: i32,
    current_instrument: u8,
}

impl WebPiano {
    /// The current octave.
    pub closed spec fn octave(&self) -> i32 {
        self.current_octave
    }

    /// The index of the current instrument.
    pub closed spec fn instrument(&self) -> u8 {
        self.current_instrument
    }

    /// The octave is within 2 to 6 and the instrument index within 0 to 7.
    pub closed spec fn wf(&self) -> bool {
        &&& LOWEST_OCTAVE <= self.current_octave <= HIGHEST_OCTAVE
        &&& self.current_instrument <= LAST_INSTRUMENT
    }

    /// A piano in octave 4 with the acoustic piano.
    pub fn new() -> (p: Self)
        ensures
            p.wf(),
            p.octave() == DEFAULT_OCTAVE,
            p.instrument() == 0,
    {
        WebPiano { current_octave: DEFAULT_OCTAVE, current_instrument: 0 }
    }

    /// Sets the octave, kept within 2 to 6.
    pub fn set_octave(&mut self, octave: i32)
        ensures
            final(self).octave() == clamped_octave(octave),
            final(self).instrument() == old(self).instrument(),
            old(self).wf() ==> final(self).wf(),
    {
        self.current_octave = if octave < LOWEST_OCTAVE {
            LOWEST_OCTAVE
        } else if octave > HIGHEST_OCTAVE {
            HIGHEST_OCTAVE
        } else {
            octave
        };
    }

    /// The current octave.
    pub fn get_octave(&self) -> (o: i32)
        ensures
            o == self.octave(),
    {
        self.current_octave
    }

    /// Sets the instrument, an index past the last selecting the last.
    pub fn set_instrument(&mut self, index: u8)
        ensures
            final(self).instrument() == (if index < LAST_INSTRUMENT { index } else { LAST_INSTRUMENT }),
            final(self).octave() == old(self).octave(),
            old(self).wf() ==> final(self).wf(),
    {
        self.current_instrument = if index < LAST_INSTRUMENT {
            index
        } else {
            LAST_INSTRUMENT
        };
    }

    /// The name of the instrument with an index.
    pub fn get_instrument_name(&self, index: u8) -> (name: String)
        ensures
            name@ == keyboard_name(index),
    {
        let s: &str = match index {
            0 => "Acoustic Piano",
            1 => "Electric Piano",
            2 => "Stage 73 Rhodes",
            3 => "Wurlitzer",
            4 => "Hammond Organ",
            5 => "Church Organ",
            6 => "Clavinet",
            7 => "Harpsichord",
            _ => "Unknown",
        };
        String::from_str(s)
    }

    /// The preset of the current instrument.
    pub fn get_instrument(&self) -> (preset: InstrumentPreset)
        ensures
            preset == keyboard_preset(self.instrument()),
    {
        match self.current_instrument {
            1 => InstrumentPreset::ElectricPiano,
            2 => InstrumentPreset::Stage73,
            3 => InstrumentPreset::Wurlitzer,
            4 => InstrumentPreset::HammondOrgan,
            5 => InstrumentPreset::ChurchOrgan,
            6 => InstrumentPreset::Clavinet,
            7 => InstrumentPreset::Harpsichord,
            _ => InstrumentPreset::AcousticPiano,
        }
    }

    /// The MIDI note a key plays in an octave (see `key_note`).
    pub fn note_in_octave(&self, semitone: u8, octave: i32) -> (note: u8)
        ensures
            note == key_note(semitone, octave),
    {
        let o: i32 = if LOWEST_OCTAVE <= octave && octave <= HIGHEST_OCTAVE {
            octave
        } else {
            DEFAULT_OCTAVE
        };
        ((o + 1) * 12) as u8 + semitone % 12
    }

    /// The MIDI note a key plays in the current octave.
    pub fn note(&self, semitone: u8) -> (note: u8)
        ensures
            note == key_note(semitone, self.octave()),
    {
        self.note_in_octave(semitone, self.current_octave)
    }
}

/// Whatever octave is asked for, the piano stays within 2 to 6, and a key
/// always plays a note between C2 (36) and B6 (95).
pub proof fn lemma_piano_range(octave: i32, semitone: u8)
    ensures
        LOWEST_OCTAVE <= clamped_octave(octave) <= HIGHEST_OCTAVE,
        36 <= key_note(semitone, octave) <= 95,
        key_note(semitone, clamped_octave(octave)) % 12 == semitone % 12,
{
}

} // verus!
