//! Key signatures: a root note and a mode, with their MIDI sharps/flats count.
use vstd::prelude::*;
use vstd::string::*;

verus! {

/// Root note of a key signature, with sharp and flat spellings.
#[derive(Debug, Clone, Copy, PartialEq, Eq, Structural)]
pub enum KeyRoot {
    C,
    Cs,
    D,
    Ds,
    E,
    F,
    Fs,
    G,
    Gs,
    A,
    As,
    B,
    Df,
    Ef,
    Gf,
    Af,
    Bf,
}

/// Mode of a key signature: major, minor and the Greek modes.
#[derive(Debug, Clone, Copy, PartialEq, Eq, Structural)]
pub enum KeyMode {
    Major,
    Minor,
    Dorian,
    Phrygian,
    Lydian,
    Mixolydian,
    Aeolian,
    Locrian,
}

/// A root note together with a mode.
#[derive(Debug, Clone, Copy, PartialEq, Eq, Structural)]
pub struct KeySignature {
    pub root: KeyRoot,
    pub mode: KeyMode,
}

/// Pitch class of a root, counted in semitones above C.
pub open spec fn root_pitch_class(r: KeyRoot) -> int {
    match r {
        KeyRoot::C => 0,
        KeyRoot::Cs | KeyRoot::Df => 1,
        KeyRoot::D => 2,
        KeyRoot::Ds | KeyRoot::Ef => 3,
        KeyRoot::E => 4,
        KeyRoot::F => 5,
        KeyRoot::Fs | KeyRoot::Gf => 6,
        KeyRoot::G => 7,
        KeyRoot::Gs | KeyRoot::Af => 8,
        KeyRoot::A => 9,
        KeyRoot::As | KeyRoot::Bf => 10,
        KeyRoot::B => 11,
    }
}

/// The spelling chosen for a pitch class when a parent major key is named:
/// sharps for C#, F#, flats for Eb, Ab, Bb.
pub open spec fn parent_spelling(pc: int) -> KeyRoot {
    if pc == 0 {
        KeyRoot::C
    } else if pc == 1 {
        KeyRoot::Cs
    } else if pc == 2 {
        KeyRoot::D
    } else if pc == 3 {
        KeyRoot::Ef
    } else if pc == 4 {
        KeyRoot::E
    } else if pc == 5 {
        KeyRoot::F
    } else if pc == 6 {
        KeyRoot::Fs
    } else if pc == 7 {
        KeyRoot::G
    } else if pc == 8 {
        KeyRoot::Af
    } else if pc == 9 {
        KeyRoot::A
    } else if pc == 10 {
        KeyRoot::Bf
    } else {
        KeyRoot::B
    }
}

/// Root of the parent major key reached by moving `semitones` from `root`.
pub open spec fn modal_parent_of(root: KeyRoot, semitones: int) -> KeyRoot {
    parent_spelling((root_pitch_class(root) + semitones) % 12)
}

/// Sharps (positive) or flats (negative) of a major or minor key; every
/// other pairing of root and mode counts as 0.
pub open spec fn table_sharps_flats(root: KeyRoot, mode: KeyMode) -> int {
    match mode {
        KeyMode::Major => match root {
            KeyRoot::C => 0,
            KeyRoot::G => 1,
            KeyRoot::D => 2,
            KeyRoot::A => 3,
            KeyRoot::E => 4,
            KeyRoot::B => 5,
            KeyRoot::Fs | KeyRoot::Gf => 6,
            KeyRoot::Cs | KeyRoot::Df => 7,
            KeyRoot::F => -1,
            KeyRoot::Bf => -2,
            KeyRoot::Ef => -3,
            KeyRoot::Af => -4,
            _ => 0,
        },
        KeyMode::Minor => match root {
            KeyRoot::A => 0,
            KeyRoot::E => 1,
            KeyRoot::B => 2,
            KeyRoot::Fs | KeyRoot::Gf => 3,
            KeyRoot::Cs | KeyRoot::Df => 4,
            KeyRoot::Gs | KeyRoot::Af => 5,
            KeyRoot::Ds | KeyRoot::Ef => 6,
            KeyRoot::As | KeyRoot::Bf => 7,
            KeyRoot::D => -1,
            KeyRoot::G => -2,
            KeyRoot::C => -3,
            KeyRoot::F => -4,
        },
        _ => 0,
    }
}

/// Semitones from a mode's root down (negative) or up (positive) to the root
/// of its parent major scale; 0 for Major and Minor, which use the table directly.
pub open spec fn mode_parent_offset(mode: KeyMode) -> int {
    match mode {
        KeyMode::Dorian => -2,
        KeyMode::Phrygian => -4,
        KeyMode::Lydian => -5,
        KeyMode::Mixolydian => -7,
        KeyMode::Aeolian => 3,
        KeyMode::Locrian => 1,
        _ => 0,
    }
}

/// Whether a mode is read through its parent major scale.
pub open spec fn is_modal(mode: KeyMode) -> bool {
    !(mode == KeyMode::Major || mode == KeyMode::Minor)
}

/// MIDI sharps/flats count of a key signature: modes use the signature of
/// their parent major key, Major and Minor use the table.
pub open spec fn sharps_flats(k: KeySignature) -> int {
    if is_modal(k.mode) {
        table_sharps_flats(modal_parent_of(k.root, mode_parent_offset(k.mode)), KeyMode::Major)
    } else {
        table_sharps_flats(k.root, k.mode)
    }
}

/// Minor-type modes: Minor, Dorian, Phrygian, Aeolian and Locrian.
pub open spec fn is_minor_mode(mode: KeyMode) -> bool {
    mode == KeyMode::Minor || mode == KeyMode::Dorian || mode == KeyMode::Phrygian
        || mode == KeyMode::Aeolian || mode == KeyMode::Locrian
}

/// Printed name of a root.
pub open spec fn root_name_chars(r: KeyRoot) -> Seq<char> {
    match r {
        KeyRoot::C => seq!['C'],
        KeyRoot::Cs => seq!['C', '#'],
        KeyRoot::D => seq!['D'],
        KeyRoot::Ds => seq!['D', '#'],
        KeyRoot::E => seq!['E'],
        KeyRoot::F => seq!['F'],
        KeyRoot::Fs => seq!['F', '#'],
        KeyRoot::G => seq!['G'],
        KeyRoot::Gs => seq!['G', '#'],
        KeyRoot::A => seq!['A'],
        KeyRoot::As => seq!['A', '#'],
        KeyRoot::B => seq!['B'],
        KeyRoot::Df => seq!['D', 'b'],
        KeyRoot::Ef => seq!['E', 'b'],
        KeyRoot::Gf => seq!['G', 'b'],
        KeyRoot::Af => seq!['A', 'b'],
        KeyRoot::Bf => seq!['B', 'b'],
    }
}

/// Printed name of a mode.
pub open spec fn mode_name_chars(m: KeyMode) -> Seq<char> {
    match m {
        KeyMode::Major => seq!['M', 'a', 'j', 'o', 'r'],
        KeyMode::Minor => seq!['M', 'i', 'n', 'o', 'r'],
        KeyMode::Dorian => seq!['D', 'o', 'r', 'i', 'a', 'n'],
        KeyMode::Phrygian => seq!['P', 'h', 'r', 'y', 'g', 'i', 'a', 'n'],
        KeyMode::Lydian => seq!['L', 'y', 'd', 'i', 'a', 'n'],
        KeyMode::Mixolydian => seq!['M', 'i', 'x', 'o', 'l', 'y', 'd', 'i', 'a', 'n'],
        KeyMode::Aeolian => seq!['A', 'e', 'o', 'l', 'i', 'a', 'n'],
        KeyMode::Locrian => seq!['L', 'o', 'c', 'r', 'i', 'a', 'n'],
    }
}

fn root_pitch_class_exec(r: KeyRoot) -> (v: i8)
    ensures
        v == root_pitch_class(r),
{
    match r {
        KeyRoot::C => 0,
        KeyRoot::Cs | KeyRoot::Df => 1,
        KeyRoot::D => 2,
        KeyRoot::Ds | KeyRoot::Ef => 3,
        KeyRoot::E => 4,
        KeyRoot::F => 5,
        KeyRoot::Fs | KeyRoot::Gf => 6,
        KeyRoot::G => 7,
        KeyRoot::Gs | KeyRoot::Af => 8,
        KeyRoot::A => 9,
        KeyRoot::As | KeyRoot::Bf => 10,
        KeyRoot::B => 11,
    }
}

fn root_name_str(r: KeyRoot) -> (s: &'static str)
    ensures
        s@ == root_name_chars(r),
{
    match r {
        KeyRoot::C => {
            proof { reveal_strlit("C"); }
            "C"
        },
        KeyRoot::Cs => {
            proof { reveal_strlit("C#"); }
            "C#"
        },
        KeyRoot::D => {
            proof { reveal_strlit("D"); }
            "D"
        },
        KeyRoot::Ds => {
            proof { reveal_strlit("D#"); }
            "D#"
        },
        KeyRoot::E => {
            proof { reveal_strlit("E"); }
            "E"
        },
        KeyRoot::F => {
            proof { reveal_strlit("F"); }
            "F"
        },
        KeyRoot::Fs => {
            proof { reveal_strlit("F#"); }
            "F#"
        },
        KeyRoot::G => {
            proof { reveal_strlit("G"); }
            "G"
        },
        KeyRoot::Gs => {
            proof { reveal_strlit("G#"); }
            "G#"
        },
        KeyRoot::A => {
            proof { reveal_strlit("A"); }
            "A"
        },
        KeyRoot::As => {
            proof { reveal_strlit("A#"); }
            "A#"
        },
        KeyRoot::B => {
            proof { reveal_strlit("B"); }
            "B"
        },
        KeyRoot::Df => {
            proof { reveal_strlit("Db"); }
            "Db"
        },
        KeyRoot::Ef => {
            proof { reveal_strlit("Eb"); }
            "Eb"
        },
        KeyRoot::Gf => {
            proof { reveal_strlit("Gb"); }
            "Gb"
        },
        KeyRoot::Af => {
            proof { reveal_strlit("Ab"); }
            "Ab"
        },
        KeyRoot::Bf => {
            proof { reveal_strlit("Bb"); }
            "Bb"
        },
    }
}

fn mode_name_str(m: KeyMode) -> (s: &'static str)
    ensures
        s@ == mode_name_chars(m),
{
    match m {
        KeyMode::Major => {
            proof { reveal_strlit("Major"); }
            "Major"
        },
        KeyMode::Minor => {
            proof { reveal_strlit("Minor"); }
            "Minor"
        },
        KeyMode::Dorian => {
            proof { reveal_strlit("Dorian"); }
            "Dorian"
        },
        KeyMode::Phrygian => {
            proof { reveal_strlit("Phrygian"); }
            "Phrygian"
        },
        KeyMode::Lydian => {
            proof { reveal_strlit("Lydian"); }
            "Lydian"
        },
        KeyMode::Mixolydian => {
            proof { reveal_strlit("Mixolydian"); }
            "Mixolydian"
        },
        KeyMode::Aeolian => {
            proof { reveal_strlit("Aeolian"); }
            "Aeolian"
        },
        KeyMode::Locrian => {
            proof { reveal_strlit("Locrian"); }
            "Locrian"
        },
    }
}

fn table_sharps_flats_exec(root: KeyRoot, mode: KeyMode) -> (v: i8)
    ensures
        v == table_sharps_flats(root, mode),
{
    match mode {
        KeyMode::Major => match root {
            KeyRoot::C => 0,
            KeyRoot::G => 1,
            KeyRoot::D => 2,
            KeyRoot::A => 3,
            KeyRoot::E => 4,
            KeyRoot::B => 5,
            KeyRoot::Fs | KeyRoot::Gf => 6,
            KeyRoot::Cs | KeyRoot::Df => 7,
            KeyRoot::F => -1,
            KeyRoot::Bf => -2,
            KeyRoot::Ef => -3,
            KeyRoot::Af => -4,
            _ => 0,
        },
        KeyMode::Minor => match root {
            KeyRoot::A => 0,
            KeyRoot::E => 1,
            KeyRoot::B => 2,
            KeyRoot::Fs | KeyRoot::Gf => 3,
            KeyRoot::Cs | KeyRoot::Df => 4,
            KeyRoot::Gs | KeyRoot::Af => 5,
            KeyRoot::Ds | KeyRoot::Ef => 6,
            KeyRoot::As | KeyRoot::Bf => 7,
            KeyRoot::D => -1,
            KeyRoot::G => -2,
            KeyRoot::C => -3,
            KeyRoot::F => -4,
        },
        _ => 0,
    }
}

/// Every mode other than Major and Minor carries the signature of its parent
/// major key, the major key whose root lies the mode's offset away.
pub proof fn lemma_mode_uses_parent_major(k: KeySignature)
    requires
        is_modal(k.mode),
    ensures
        sharps_flats(k) == sharps_flats(
            KeySignature { root: modal_parent_of(k.root, mode_parent_offset(k.mode)), mode: KeyMode::Major },
        ),
{
}

/// For the Greek modes the signature depends only on the pitch class of the
/// root, not on its sharp or flat spelling.
pub proof fn lemma_modal_signature_ignores_spelling(r1: KeyRoot, r2: KeyRoot, mode: KeyMode)
    requires
        is_modal(mode),
        root_pitch_class(r1) == root_pitch_class(r2),
    ensures
        sharps_flats(KeySignature { root: r1, mode }) == sharps_flats(KeySignature { root: r2, mode }),
{
}

/// Aeolian is the natural minor: it has the same signature as Minor for every
/// root.
pub proof fn lemma_aeolian_matches_minor(r: KeyRoot)
    ensures
        sharps_flats(KeySignature { root: r, mode: KeyMode::Aeolian }) == sharps_flats(
            KeySignature { root: r, mode: KeyMode::Minor },
        ),
{
}

/// The parent major key lies `semitones` from the root, modulo the octave,
/// and is spelled as one of C, C#, D, Eb, E, F, F#, G, Ab, A, Bb and B: never
/// D#, G#, A#, Db or Gb.
pub proof fn lemma_modal_parent_pitch(root: KeyRoot, semitones: int)
    ensures
        root_pitch_class(modal_parent_of(root, semitones)) == (root_pitch_class(root) + semitones) % 12,
        !(modal_parent_of(root, semitones) is Ds),
        !(modal_parent_of(root, semitones) is Gs),
        !(modal_parent_of(root, semitones) is As),
        !(modal_parent_of(root, semitones) is Df),
        !(modal_parent_of(root, semitones) is Gf),
{
}

/// Every signature lies between seven flats and seven sharps.
pub proof fn lemma_sharps_flats_range(k: KeySignature)
    ensures
        -7 <= sharps_flats(k) <= 7,
{
}

impl KeySignature {
    /// Creates a key signature from a root and a mode.
    pub fn new(root: KeyRoot, mode: KeyMode) -> (k: Self)
        ensures
            k.root == root,
            k.mode == mode,
    {
        Self { root, mode }
    }

    /// Root of the parent major scale `semitones` away from this key's root,
    /// taken modulo the octave.
    fn modal_parent(&self, semitones: i8) -> (r: KeyRoot)
        requires
            root_pitch_class(self.root) + semitones <= 127,
        ensures
            r == modal_parent_of(self.root, semitones as int),
            root_pitch_class(r) == (root_pitch_class(self.root) + semitones) % 12,
    {
        let root_value = root_pitch_class_exec(self.root);
        let sum: i8 = root_value + semitones;
        // 132 is a multiple of 12 that lifts every i8 sum above zero.
        let lifted: u32 = (sum as i32 + 132) as u32;
        let new_value: u32 = lifted % 12;
        assert(new_value as int == (root_pitch_class(self.root) + semitones) % 12) by {
            assert((sum + 132) % 12 == sum % 12);
        }
        match new_value {
            0 => KeyRoot::C,
            1 => KeyRoot::Cs,
            2 => KeyRoot::D,
            3 => KeyRoot::Ef,
            4 => KeyRoot::E,
            5 => KeyRoot::F,
            6 => KeyRoot::Fs,
            7 => KeyRoot::G,
            8 => KeyRoot::Af,
            9 => KeyRoot::A,
            10 => KeyRoot::Bf,
            _ => KeyRoot::B,
        }
    }

    /// MIDI key signature value: positive counts sharps, negative counts flats.
    /// Modes use the signature of their parent major scale.
    pub fn to_midi_sharps_flats(&self) -> (v: i8)
        ensures
            v == sharps_flats(*self),
            -7 <= v <= 7,
    {
        let (effective_root, effective_mode) = match self.mode {
            KeyMode::Dorian => (self.modal_parent(-2), KeyMode::Major),
            KeyMode::Phrygian => (self.modal_parent(-4), KeyMode::Major),
            KeyMode::Lydian => (self.modal_parent(-5), KeyMode::Major),
            KeyMode::Mixolydian => (self.modal_parent(-7), KeyMode::Major),
            KeyMode::Aeolian => (self.modal_parent(3), KeyMode::Major),
            KeyMode::Locrian => (self.modal_parent(1), KeyMode::Major),
            _ => (self.root, self.mode),
        };
        table_sharps_flats_exec(effective_root, effective_mode)
    }

    /// Whether the mode is minor-type (Minor, Dorian, Phrygian, Aeolian, Locrian).
    pub fn is_minor(&self) -> (b: bool)
        ensures
            b == is_minor_mode(self.mode),
    {
        match self.mode {
            KeyMode::Minor | KeyMode::Dorian | KeyMode::Phrygian | KeyMode::Aeolian
            | KeyMode::Locrian => true,
            _ => false,
        }
    }

    /// Human-readable name: the root, a space, then the mode.
    pub fn name(&self) -> (s: String)
        ensures
            s@ == root_name_chars(self.root) + seq![' '] + mode_name_chars(self.mode),
    {
        let mut s = String::from_str(root_name_str(self.root));
        proof { reveal_strlit(" "); }
        s.append(" ");
        s.append(mode_name_str(self.mode));
        s
    }
}

} // verus!
