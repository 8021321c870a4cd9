use tunes::instruments::presets::InstrumentPreset;
use tunes::piano::WebPiano;

#[test]
fn piano_starts_in_octave_four() {
    let piano = WebPiano::new();
    assert_eq!(piano.get_octave(), 4);
    assert_eq!(piano.get_instrument(), InstrumentPreset::AcousticPiano);
    // Middle C.
    assert_eq!(piano.note(0), 60);
    assert_eq!(piano.note(9), 69);
    // Semitones wrap within the octave.
    assert_eq!(piano.note(12), 60);
    assert_eq!(piano.note(23), 71);
}

#[test]
fn octave_is_clamped() {
    let mut piano = WebPiano::new();
    piano.set_octave(1);
    assert_eq!(piano.get_octave(), 2);
    piano.set_octave(9);
    assert_eq!(piano.get_octave(), 6);
    piano.set_octave(-100);
    assert_eq!(piano.get_octave(), 2);
    piano.set_octave(5);
    assert_eq!(piano.get_octave(), 5);
    assert_eq!(piano.note(0), 72);
}

#[test]
fn notes_in_other_octaves() {
    let piano = WebPiano::new();
    assert_eq!(piano.note_in_octave(0, 2), 36);
    assert_eq!(piano.note_in_octave(11, 6), 95);
    // Octaves out of range play in octave 4.
    assert_eq!(piano.note_in_octave(0, 7), 60);
    assert_eq!(piano.note_in_octave(4, -1), 64);
}

#[test]
fn instruments_and_names() {
    let mut piano = WebPiano::new();
    assert_eq!(piano.get_instrument_name(0), "Acoustic Piano");
    assert_eq!(piano.get_instrument_name(2), "Stage 73 Rhodes");
    assert_eq!(piano.get_instrument_name(7), "Harpsichord");
    assert_eq!(piano.get_instrument_name(8), "Unknown");
    piano.set_instrument(4);
    assert_eq!(piano.get_instrument(), InstrumentPreset::HammondOrgan);
    piano.set_instrument(200);
    assert_eq!(piano.get_instrument(), InstrumentPreset::Harpsichord);
    piano.set_instrument(3);
    assert_eq!(piano.get_instrument(), InstrumentPreset::Wurlitzer);
    assert_eq!(piano.get_octave(), 4);
}
