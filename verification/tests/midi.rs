use tunes::instruments::drums::DrumType;
use tunes::midi::{drum_type_to_midi_note, midi_note_to_drum_type};

#[test]
fn midi_test_drum_type_to_midi_note() {
    // Test a few standard mappings
    assert_eq!(drum_type_to_midi_note(DrumType::Kick), 36);
    assert_eq!(drum_type_to_midi_note(DrumType::Snare), 38);
    assert_eq!(drum_type_to_midi_note(DrumType::HiHatClosed), 42);
    assert_eq!(drum_type_to_midi_note(DrumType::HiHatOpen), 46);
    assert_eq!(drum_type_to_midi_note(DrumType::Clap), 39);
}

#[test]
fn midi_test_midi_note_to_drum_type() {
    // Test standard drum mappings
    assert_eq!(midi_note_to_drum_type(36), Some(DrumType::Kick));
    assert_eq!(midi_note_to_drum_type(38), Some(DrumType::Snare));
    assert_eq!(midi_note_to_drum_type(42), Some(DrumType::HiHatClosed));
    assert_eq!(midi_note_to_drum_type(46), Some(DrumType::HiHatOpen));
    assert_eq!(midi_note_to_drum_type(39), Some(DrumType::Clap));
    assert_eq!(midi_note_to_drum_type(49), Some(DrumType::Crash));

    // Test unsupported notes
    assert_eq!(midi_note_to_drum_type(0), None);
    assert_eq!(midi_note_to_drum_type(100), None);
}

#[test]
fn midi_test_drum_type_midi_note_roundtrip() {
    // Test that common drums can round-trip
    let drums = [
        DrumType::Kick,
        DrumType::Snare,
        DrumType::HiHatClosed,
        DrumType::HiHatOpen,
        DrumType::Clap,
        DrumType::Crash,
        DrumType::Ride,
    ];

    for drum in drums {
        let midi_note = drum_type_to_midi_note(drum);
        let converted_back = midi_note_to_drum_type(midi_note);
        assert!(converted_back.is_some());
    }
}

#[test]
fn convert_test_drum_type_to_midi_note() {
    // Test a few standard mappings
    assert_eq!(drum_type_to_midi_note(DrumType::Kick), 36);
    assert_eq!(drum_type_to_midi_note(DrumType::Snare), 38);
    assert_eq!(drum_type_to_midi_note(DrumType::HiHatClosed), 42);
    assert_eq!(drum_type_to_midi_note(DrumType::HiHatOpen), 46);
    assert_eq!(drum_type_to_midi_note(DrumType::Clap), 39);
}

#[test]
fn convert_test_midi_note_to_drum_type() {
    // Test standard drum mappings
    assert_eq!(midi_note_to_drum_type(36), Some(DrumType::Kick));
    assert_eq!(midi_note_to_drum_type(38), Some(DrumType::Snare));
    assert_eq!(midi_note_to_drum_type(42), Some(DrumType::HiHatClosed));
    assert_eq!(midi_note_to_drum_type(46), Some(DrumType::HiHatOpen));
    assert_eq!(midi_note_to_drum_type(39), Some(DrumType::Clap));
    assert_eq!(midi_note_to_drum_type(49), Some(DrumType::Crash));

    // Test unsupported notes
    assert_eq!(midi_note_to_drum_type(0), None);
    assert_eq!(midi_note_to_drum_type(100), None);
}

#[test]
fn convert_test_drum_type_midi_note_roundtrip() {
    // Test that common drums can round-trip
    let drums = [
        DrumType::Kick,
        DrumType::Snare,
        DrumType::HiHatClosed,
        DrumType::HiHatOpen,
        DrumType::Clap,
        DrumType::Crash,
        DrumType::Ride,
    ];

    for drum in drums {
        let midi_note = drum_type_to_midi_note(drum);
        let converted_back = midi_note_to_drum_type(midi_note);
        assert!(converted_back.is_some());
    }
}
