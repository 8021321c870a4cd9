use tunes::key_signature::{KeyMode, KeyRoot, KeySignature};

#[test]
fn test_major_key_sharps() {
    assert_eq!(KeySignature::new(KeyRoot::C, KeyMode::Major).to_midi_sharps_flats(), 0);
    assert_eq!(KeySignature::new(KeyRoot::G, KeyMode::Major).to_midi_sharps_flats(), 1);
    assert_eq!(KeySignature::new(KeyRoot::D, KeyMode::Major).to_midi_sharps_flats(), 2);
    assert_eq!(KeySignature::new(KeyRoot::A, KeyMode::Major).to_midi_sharps_flats(), 3);
    assert_eq!(KeySignature::new(KeyRoot::E, KeyMode::Major).to_midi_sharps_flats(), 4);
    assert_eq!(KeySignature::new(KeyRoot::B, KeyMode::Major).to_midi_sharps_flats(), 5);
    assert_eq!(KeySignature::new(KeyRoot::Fs, KeyMode::Major).to_midi_sharps_flats(), 6);
}

#[test]
fn test_major_key_flats() {
    assert_eq!(KeySignature::new(KeyRoot::F, KeyMode::Major).to_midi_sharps_flats(), -1);
    assert_eq!(KeySignature::new(KeyRoot::Bf, KeyMode::Major).to_midi_sharps_flats(), -2);
    assert_eq!(KeySignature::new(KeyRoot::Ef, KeyMode::Major).to_midi_sharps_flats(), -3);
    assert_eq!(KeySignature::new(KeyRoot::Af, KeyMode::Major).to_midi_sharps_flats(), -4);
    assert_eq!(KeySignature::new(KeyRoot::Df, KeyMode::Major).to_midi_sharps_flats(), 7);  // Enharmonic
    assert_eq!(KeySignature::new(KeyRoot::Gf, KeyMode::Major).to_midi_sharps_flats(), 6);  // Enharmonic
}

#[test]
fn test_minor_keys() {
    assert_eq!(KeySignature::new(KeyRoot::A, KeyMode::Minor).to_midi_sharps_flats(), 0);
    assert_eq!(KeySignature::new(KeyRoot::E, KeyMode::Minor).to_midi_sharps_flats(), 1);
    assert_eq!(KeySignature::new(KeyRoot::B, KeyMode::Minor).to_midi_sharps_flats(), 2);
    assert_eq!(KeySignature::new(KeyRoot::D, KeyMode::Minor).to_midi_sharps_flats(), -1);
    assert_eq!(KeySignature::new(KeyRoot::G, KeyMode::Minor).to_midi_sharps_flats(), -2);
    assert_eq!(KeySignature::new(KeyRoot::C, KeyMode::Minor).to_midi_sharps_flats(), -3);
}

#[test]
fn test_is_minor() {
    assert!(!KeySignature::new(KeyRoot::C, KeyMode::Major).is_minor());
    assert!(KeySignature::new(KeyRoot::A, KeyMode::Minor).is_minor());
    assert!(!KeySignature::new(KeyRoot::G, KeyMode::Major).is_minor());
    assert!(KeySignature::new(KeyRoot::E, KeyMode::Minor).is_minor());
}

#[test]
fn test_key_names() {
    assert_eq!(KeySignature::new(KeyRoot::C, KeyMode::Major).name(), "C Major");
    assert_eq!(KeySignature::new(KeyRoot::A, KeyMode::Minor).name(), "A Minor");
    assert_eq!(KeySignature::new(KeyRoot::Fs, KeyMode::Major).name(), "F# Major");
    assert_eq!(KeySignature::new(KeyRoot::Bf, KeyMode::Major).name(), "Bb Major");
    assert_eq!(KeySignature::new(KeyRoot::Ef, KeyMode::Minor).name(), "Eb Minor");
}

#[test]
fn test_enharmonic_equivalents() {
    let fs_major = KeySignature::new(KeyRoot::Fs, KeyMode::Major);
    let gf_major = KeySignature::new(KeyRoot::Gf, KeyMode::Major);

    // Both should map to the same MIDI representation
    assert_eq!(fs_major.to_midi_sharps_flats(), 6);
    assert_eq!(gf_major.to_midi_sharps_flats(), 6);
}

#[test]
fn test_custom_key_signature() {
    let key = KeySignature::new(KeyRoot::D, KeyMode::Major);
    assert_eq!(key.to_midi_sharps_flats(), 2);
    assert!(!key.is_minor());
    assert_eq!(key.name(), "D Major");
}

#[test]
fn test_dorian_mode() {
    // D Dorian = C Major parent (0 sharps/flats)
    assert_eq!(KeySignature::new(KeyRoot::D, KeyMode::Dorian).to_midi_sharps_flats(), 0);
    assert!(KeySignature::new(KeyRoot::D, KeyMode::Dorian).is_minor());
    assert_eq!(KeySignature::new(KeyRoot::D, KeyMode::Dorian).name(), "D Dorian");

    // E Dorian = D Major parent (2 sharps)
    assert_eq!(KeySignature::new(KeyRoot::E, KeyMode::Dorian).to_midi_sharps_flats(), 2);

    // G Dorian = F Major parent (1 flat)
    assert_eq!(KeySignature::new(KeyRoot::G, KeyMode::Dorian).to_midi_sharps_flats(), -1);
}

#[test]
fn test_phrygian_mode() {
    // E Phrygian = C Major parent (0 sharps/flats)
    assert_eq!(KeySignature::new(KeyRoot::E, KeyMode::Phrygian).to_midi_sharps_flats(), 0);
    assert!(KeySignature::new(KeyRoot::E, KeyMode::Phrygian).is_minor());
    assert_eq!(KeySignature::new(KeyRoot::E, KeyMode::Phrygian).name(), "E Phrygian");

    // A Phrygian = F Major parent (1 flat)
    assert_eq!(KeySignature::new(KeyRoot::A, KeyMode::Phrygian).to_midi_sharps_flats(), -1);

    // B Phrygian = G Major parent (1 sharp)
    assert_eq!(KeySignature::new(KeyRoot::B, KeyMode::Phrygian).to_midi_sharps_flats(), 1);
}

#[test]
fn test_lydian_mode() {
    // F Lydian = C Major parent (0 sharps/flats)
    assert_eq!(KeySignature::new(KeyRoot::F, KeyMode::Lydian).to_midi_sharps_flats(), 0);
    assert!(!KeySignature::new(KeyRoot::F, KeyMode::Lydian).is_minor());
    assert_eq!(KeySignature::new(KeyRoot::F, KeyMode::Lydian).name(), "F Lydian");

    // C Lydian = G Major parent (1 sharp)
    assert_eq!(KeySignature::new(KeyRoot::C, KeyMode::Lydian).to_midi_sharps_flats(), 1);

    // G Lydian = D Major parent (2 sharps)
    assert_eq!(KeySignature::new(KeyRoot::G, KeyMode::Lydian).to_midi_sharps_flats(), 2);
}

#[test]
fn test_mixolydian_mode() {
    // G Mixolydian = C Major parent (0 sharps/flats)
    assert_eq!(KeySignature::new(KeyRoot::G, KeyMode::Mixolydian).to_midi_sharps_flats(), 0);
    assert!(!KeySignature::new(KeyRoot::G, KeyMode::Mixolydian).is_minor());
    assert_eq!(KeySignature::new(KeyRoot::G, KeyMode::Mixolydian).name(), "G Mixolydian");

    // D Mixolydian = G Major parent (1 sharp)
    assert_eq!(KeySignature::new(KeyRoot::D, KeyMode::Mixolydian).to_midi_sharps_flats(), 1);

    // A Mixolydian = D Major parent (2 sharps)
    assert_eq!(KeySignature::new(KeyRoot::A, KeyMode::Mixolydian).to_midi_sharps_flats(), 2);

    // C Mixolydian = F Major parent (1 flat)
    assert_eq!(KeySignature::new(KeyRoot::C, KeyMode::Mixolydian).to_midi_sharps_flats(), -1);
}

#[test]
fn test_aeolian_mode() {
    // A Aeolian = C Major parent (0 sharps/flats)
    assert_eq!(KeySignature::new(KeyRoot::A, KeyMode::Aeolian).to_midi_sharps_flats(), 0);
    assert!(KeySignature::new(KeyRoot::A, KeyMode::Aeolian).is_minor());
    assert_eq!(KeySignature::new(KeyRoot::A, KeyMode::Aeolian).name(), "A Aeolian");

    // E Aeolian = G Major parent (1 sharp)
    assert_eq!(KeySignature::new(KeyRoot::E, KeyMode::Aeolian).to_midi_sharps_flats(), 1);

    // D Aeolian = F Major parent (1 flat)
    assert_eq!(KeySignature::new(KeyRoot::D, KeyMode::Aeolian).to_midi_sharps_flats(), -1);
}

#[test]
fn test_locrian_mode() {
    // B Locrian = C Major parent (0 sharps/flats)
    assert_eq!(KeySignature::new(KeyRoot::B, KeyMode::Locrian).to_midi_sharps_flats(), 0);
    assert!(KeySignature::new(KeyRoot::B, KeyMode::Locrian).is_minor());
    assert_eq!(KeySignature::new(KeyRoot::B, KeyMode::Locrian).name(), "B Locrian");

    // E Locrian = F Major parent (1 flat)
    assert_eq!(KeySignature::new(KeyRoot::E, KeyMode::Locrian).to_midi_sharps_flats(), -1);
}

#[test]
fn test_all_modes_of_c() {
    // All modes derived from the C major scale
    assert_eq!(KeySignature::new(KeyRoot::C, KeyMode::Major).to_midi_sharps_flats(), 0);      // C Ionian
    assert_eq!(KeySignature::new(KeyRoot::D, KeyMode::Dorian).to_midi_sharps_flats(), 0);     // D Dorian
    assert_eq!(KeySignature::new(KeyRoot::E, KeyMode::Phrygian).to_midi_sharps_flats(), 0);   // E Phrygian
    assert_eq!(KeySignature::new(KeyRoot::F, KeyMode::Lydian).to_midi_sharps_flats(), 0);     // F Lydian
    assert_eq!(KeySignature::new(KeyRoot::G, KeyMode::Mixolydian).to_midi_sharps_flats(), 0); // G Mixolydian
    assert_eq!(KeySignature::new(KeyRoot::A, KeyMode::Aeolian).to_midi_sharps_flats(), 0);    // A Aeolian
    assert_eq!(KeySignature::new(KeyRoot::B, KeyMode::Locrian).to_midi_sharps_flats(), 0);    // B Locrian
}

#[test]
fn flat_spelled_minor_keys_match_aeolian() {
    assert_eq!(KeySignature::new(KeyRoot::Df, KeyMode::Minor).to_midi_sharps_flats(), 4);
    assert_eq!(KeySignature::new(KeyRoot::Gf, KeyMode::Minor).to_midi_sharps_flats(), 3);
    assert_eq!(KeySignature::new(KeyRoot::Af, KeyMode::Minor).to_midi_sharps_flats(), 5);
    let roots = [
        KeyRoot::C, KeyRoot::Cs, KeyRoot::D, KeyRoot::Ds, KeyRoot::E, KeyRoot::F, KeyRoot::Fs,
        KeyRoot::G, KeyRoot::Gs, KeyRoot::A, KeyRoot::As, KeyRoot::B, KeyRoot::Df, KeyRoot::Ef,
        KeyRoot::Gf, KeyRoot::Af, KeyRoot::Bf,
    ];
    for r in roots {
        assert_eq!(
            KeySignature::new(r, KeyMode::Minor).to_midi_sharps_flats(),
            KeySignature::new(r, KeyMode::Aeolian).to_midi_sharps_flats()
        );
    }
}
