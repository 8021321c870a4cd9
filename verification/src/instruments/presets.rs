//! Instrument presets chosen by General MIDI program numbers.
use vstd::prelude::*;

verus! {

/// The library's instrument presets that General MIDI programs select.
#[derive(Debug, Clone, Copy, PartialEq, Eq, Structural)]
pub enum InstrumentPreset {
    AcousticPiano,
    ElectricPiano,
    HonkyTonkPiano,
    Stage73,
    Wurlitzer,
    Harpsichord,
    Clavinet,
    Celesta,
    Glockenspiel,
    MusicBox,
    Vibraphone,
    Marimba,
    Xylophone,
    TubularBells,
    Dulcimer,
    HammondOrgan,
    Organ,
    ChurchOrgan,
    ReedOrgan,
    Accordion,
    AcousticGuitar,
    ElectricGuitarClean,
    GuitarPalmMuted,
    ElectricGuitarDistorted,
    GuitarHarmonics,
    UprightBass,
    FingerstyleBass,
    SlapBass,
    FretlessBass,
    SynthBass,
    Violin,
    Viola,
    Cello,
    DoubleBass,
    TremoloStrings,
    PizzicatoStrings,
    Harp,
    Timpani,
    Strings,
    SlowStrings,
    ChoirAahs,
    ChoirOohs,
    SynthVoice,
    SoloTrumpet,
    Trombone,
    Tuba,
    MutedTrumpet,
    FrenchHorn,
    BrassSection,
    ProphetBrass,
    AnalogBrass,
    SopranoSax,
    AltoSax,
    TenorSax,
    BaritoneSax,
    Oboe,
    EnglishHorn,
    Bassoon,
    Clarinet,
    Piccolo,
    Flute,
    PanFlute,
    Didgeridoo,
    Shakuhachi,
    UilleannPipes,
    SquareLead,
    SawLead,
    Chiptune,
    SynthLead,
    Supersaw,
    WarmPad,
    AmbientPad,
    VocalPad,
    ShimmerPad,
    JunoPad,
    CosmicRays,
    WindChimes,
    GlassHarmonica,
    GranularPad,
    Glitch,
    Sitar,
    Banjo,
    Shamisen,
    Koto,
    Kalimba,
    Bagpipes,
    Erhu,
    Duduk,
    SteelDrums,
    Cowbell,
    TaikoDrum,
    Taiko,
    Djembe,
    MetallicPerc,
    Impact,
    Riser,
    Laser,
}

} // verus!
