//! Conversions between the library's drum kinds and General MIDI
//! percussion notes.
use vstd::prelude::*;
use crate::instruments::drums::DrumType;
use crate::instruments::presets::InstrumentPreset;

verus! {

/// MIDI ticks per quarter note of exported files.
pub const PPQ: u16 = 480;

/// MIDI velocity of notes without their own (exported drum hits).
pub const DEFAULT_VELOCITY: u8 = 80;

/// General MIDI percussion note (channel 10) played for each drum kind;
/// kinds without their own General MIDI sound use the nearest one.
pub open spec fn gm_note_of(drum: DrumType) -> u8 {
    match drum {
        DrumType::Kick => 36,
        DrumType::Kick808 => 35,
        DrumType::SubKick => 35,
        DrumType::Snare => 38,
        DrumType::Snare808 => 40,
        DrumType::HiHatClosed => 42,
        DrumType::HiHatOpen => 46,
        DrumType::HiHat808Closed => 42,
        DrumType::HiHat808Open => 46,
        DrumType::Clap => 39,
        DrumType::Clap808 => 39,
        DrumType::Tom => 47,
        DrumType::TomHigh => 50,
        DrumType::TomLow => 45,
        DrumType::Rimshot => 37,
        DrumType::Cowbell => 56,
        DrumType::Crash => 49,
        DrumType::Ride => 51,
        DrumType::China => 52,
        DrumType::Splash => 55,
        DrumType::Tambourine => 54,
        DrumType::Shaker => 70,
        DrumType::BassDrop => 35,
        DrumType::Boom => 35,
        DrumType::Claves => 75,
        DrumType::Triangle => 81,
        DrumType::SideStick => 37,
        DrumType::WoodBlock => 77,
        DrumType::Kick909 => 36,
        DrumType::Snare909 => 40,
        DrumType::CongaHigh => 62,
        DrumType::CongaLow => 64,
        DrumType::BongoHigh => 60,
        DrumType::BongoLow => 61,
        DrumType::RideBell => 53,
        DrumType::FloorTomLow => 41,
        DrumType::FloorTomHigh => 43,
        DrumType::HiHatPedal => 44,
        DrumType::Crash2 => 57,
        DrumType::Vibraslap => 58,
        DrumType::TimbaleHigh => 65,
        DrumType::TimbaleLow => 66,
        DrumType::AgogoHigh => 67,
        DrumType::AgogoLow => 68,
        DrumType::Cabasa => 69,
        DrumType::GuiroShort => 73,
        DrumType::GuiroLong => 74,
        DrumType::WoodBlockHigh => 76,
        DrumType::Timpani => 47,
        DrumType::Gong => 52,
        DrumType::Chimes => 84,
        DrumType::Djembe => 60,
        DrumType::TablaBayan => 58,
        DrumType::TablaDayan => 77,
        DrumType::Cajon => 38,
        DrumType::Fingersnap => 37,
        DrumType::Maracas => 70,
        DrumType::Castanet => 85,
        DrumType::SleighBells => 83,
        DrumType::LaserZap => 35,
        DrumType::ReverseCymbal => 49,
        DrumType::WhiteNoiseHit => 39,
        DrumType::StickClick => 37,
        DrumType::KickTight => 36,
        DrumType::KickDeep => 35,
        DrumType::KickAcoustic => 36,
        DrumType::KickClick => 36,
        DrumType::SnareRim => 37,
        DrumType::SnareTight => 38,
        DrumType::SnareLoose => 38,
        DrumType::SnarePiccolo => 40,
        DrumType::HiHatHalfOpen => 46,
        DrumType::HiHatSizzle => 46,
        DrumType::ClapDry => 39,
        DrumType::ClapRoom => 39,
        DrumType::ClapGroup => 39,
        DrumType::ClapSnare => 39,
        DrumType::CrashShort => 49,
        DrumType::RideTip => 51,
        DrumType::EggShaker => 70,
        DrumType::TubeShaker => 70,
        DrumType::Tom808Low => 45,
        DrumType::Tom808Mid => 47,
        DrumType::Tom808High => 48,
        DrumType::Cowbell808 => 56,
        DrumType::Clave808 => 75,
        DrumType::HiHat909Closed => 42,
        DrumType::HiHat909Open => 46,
        DrumType::Clap909 => 39,
        DrumType::Cowbell909 => 56,
        DrumType::Rim909 => 37,
        DrumType::ReverseSnare => 38,
        DrumType::CymbalSwell => 55,
    }
}

/// Drum kind read from a General MIDI percussion note, for the notes the
/// library supports.
pub open spec fn drum_of_gm_note(note: u8) -> Option<DrumType> {
    if note == 35 {
        Some(DrumType::Kick808)
    } else if note == 36 {
        Some(DrumType::Kick)
    } else if note == 37 {
        Some(DrumType::Rimshot)
    } else if note == 38 {
        Some(DrumType::Snare)
    } else if note == 39 {
        Some(DrumType::Clap)
    } else if note == 40 {
        Some(DrumType::Snare808)
    } else if note == 41 {
        Some(DrumType::FloorTomLow)
    } else if note == 42 {
        Some(DrumType::HiHatClosed)
    } else if note == 43 {
        Some(DrumType::FloorTomHigh)
    } else if note == 44 {
        Some(DrumType::HiHatPedal)
    } else if note == 45 {
        Some(DrumType::TomLow)
    } else if note == 46 {
        Some(DrumType::HiHatOpen)
    } else if note == 47 {
        Some(DrumType::Tom)
    } else if note == 48 {
        Some(DrumType::Tom808High)
    } else if note == 49 {
        Some(DrumType::Crash)
    } else if note == 50 {
        Some(DrumType::TomHigh)
    } else if note == 51 {
        Some(DrumType::Ride)
    } else if note == 52 {
        Some(DrumType::China)
    } else if note == 53 {
        Some(DrumType::RideBell)
    } else if note == 54 {
        Some(DrumType::Tambourine)
    } else if note == 55 {
        Some(DrumType::Splash)
    } else if note == 56 {
        Some(DrumType::Cowbell)
    } else if note == 57 {
        Some(DrumType::Crash2)
    } else if note == 58 {
        Some(DrumType::Vibraslap)
    } else if note == 60 {
        Some(DrumType::BongoHigh)
    } else if note == 61 {
        Some(DrumType::BongoLow)
    } else if note == 62 {
        Some(DrumType::CongaHigh)
    } else if note == 64 {
        Some(DrumType::CongaLow)
    } else if note == 65 {
        Some(DrumType::TimbaleHigh)
    } else if note == 66 {
        Some(DrumType::TimbaleLow)
    } else if note == 67 {
        Some(DrumType::AgogoHigh)
    } else if note == 68 {
        Some(DrumType::AgogoLow)
    } else if note == 69 {
        Some(DrumType::Cabasa)
    } else if note == 70 {
        Some(DrumType::Shaker)
    } else if note == 73 {
        Some(DrumType::GuiroShort)
    } else if note == 74 {
        Some(DrumType::GuiroLong)
    } else if note == 75 {
        Some(DrumType::Claves)
    } else if note == 76 {
        Some(DrumType::WoodBlockHigh)
    } else if note == 77 {
        Some(DrumType::WoodBlock)
    } else if note == 81 {
        Some(DrumType::Triangle)
    } else if note == 83 {
        Some(DrumType::SleighBells)
    } else if note == 84 {
        Some(DrumType::Chimes)
    } else if note == 85 {
        Some(DrumType::Castanet)
    } else {
        None
    }
}

/// General MIDI percussion note number of a drum kind.
pub fn drum_type_to_midi_note(drum_type: DrumType) -> (note: u8)
    ensures
        note == gm_note_of(drum_type),
        35 <= note <= 85,
{
    match drum_type {
        DrumType::Kick => 36,
        DrumType::Kick808 => 35,
        DrumType::SubKick => 35,
        DrumType::Snare => 38,
        DrumType::Snare808 => 40,
        DrumType::HiHatClosed => 42,
        DrumType::HiHatOpen => 46,
        DrumType::HiHat808Closed => 42,
        DrumType::HiHat808Open => 46,
        DrumType::Clap => 39,
        DrumType::Clap808 => 39,
        DrumType::Tom => 47,
        DrumType::TomHigh => 50,
        DrumType::TomLow => 45,
        DrumType::Rimshot => 37,
        DrumType::Cowbell => 56,
        DrumType::Crash => 49,
        DrumType::Ride => 51,
        DrumType::China => 52,
        DrumType::Splash => 55,
        DrumType::Tambourine => 54,
        DrumType::Shaker => 70,
        DrumType::BassDrop => 35,
        DrumType::Boom => 35,
        DrumType::Claves => 75,
        DrumType::Triangle => 81,
        DrumType::SideStick => 37,
        DrumType::WoodBlock => 77,
        DrumType::Kick909 => 36,
        DrumType::Snare909 => 40,
        DrumType::CongaHigh => 62,
        DrumType::CongaLow => 64,
        DrumType::BongoHigh => 60,
        DrumType::BongoLow => 61,
        DrumType::RideBell => 53,
        DrumType::FloorTomLow => 41,
        DrumType::FloorTomHigh => 43,
        DrumType::HiHatPedal => 44,
        DrumType::Crash2 => 57,
        DrumType::Vibraslap => 58,
        DrumType::TimbaleHigh => 65,
        DrumType::TimbaleLow => 66,
        DrumType::AgogoHigh => 67,
        DrumType::AgogoLow => 68,
        DrumType::Cabasa => 69,
        DrumType::GuiroShort => 73,
        DrumType::GuiroLong => 74,
        DrumType::WoodBlockHigh => 76,
        DrumType::Timpani => 47,
        DrumType::Gong => 52,
        DrumType::Chimes => 84,
        DrumType::Djembe => 60,
        DrumType::TablaBayan => 58,
        DrumType::TablaDayan => 77,
        DrumType::Cajon => 38,
        DrumType::Fingersnap => 37,
        DrumType::Maracas => 70,
        DrumType::Castanet => 85,
        DrumType::SleighBells => 83,
        DrumType::LaserZap => 35,
        DrumType::ReverseCymbal => 49,
        DrumType::WhiteNoiseHit => 39,
        DrumType::StickClick => 37,
        DrumType::KickTight => 36,
        DrumType::KickDeep => 35,
        DrumType::KickAcoustic => 36,
        DrumType::KickClick => 36,
        DrumType::SnareRim => 37,
        DrumType::SnareTight => 38,
        DrumType::SnareLoose => 38,
        DrumType::SnarePiccolo => 40,
        DrumType::HiHatHalfOpen => 46,
        DrumType::HiHatSizzle => 46,
        DrumType::ClapDry => 39,
        DrumType::ClapRoom => 39,
        DrumType::ClapGroup => 39,
        DrumType::ClapSnare => 39,
        DrumType::CrashShort => 49,
        DrumType::RideTip => 51,
        DrumType::EggShaker => 70,
        DrumType::TubeShaker => 70,
        DrumType::Tom808Low => 45,
        DrumType::Tom808Mid => 47,
        DrumType::Tom808High => 48,
        DrumType::Cowbell808 => 56,
        DrumType::Clave808 => 75,
        DrumType::HiHat909Closed => 42,
        DrumType::HiHat909Open => 46,
        DrumType::Clap909 => 39,
        DrumType::Cowbell909 => 56,
        DrumType::Rim909 => 37,
        DrumType::ReverseSnare => 38,
        DrumType::CymbalSwell => 55,
    }
}

/// Drum kind of a General MIDI percussion note; `None` for notes the library
/// does not support.
pub fn midi_note_to_drum_type(midi_note: u8) -> (drum: Option<DrumType>)
    ensures
        drum == drum_of_gm_note(midi_note),
{
    match midi_note {
        35 => Some(DrumType::Kick808),
        36 => Some(DrumType::Kick),
        38 => Some(DrumType::Snare),
        40 => Some(DrumType::Snare808),
        42 => Some(DrumType::HiHatClosed),
        46 => Some(DrumType::HiHatOpen),
        37 => Some(DrumType::Rimshot),
        39 => Some(DrumType::Clap),
        45 => Some(DrumType::TomLow),
        47 => Some(DrumType::Tom),
        48 => Some(DrumType::Tom808High),
        50 => Some(DrumType::TomHigh),
        49 => Some(DrumType::Crash),
        51 => Some(DrumType::Ride),
        52 => Some(DrumType::China),
        55 => Some(DrumType::Splash),
        54 => Some(DrumType::Tambourine),
        56 => Some(DrumType::Cowbell),
        70 => Some(DrumType::Shaker),
        75 => Some(DrumType::Claves),
        77 => Some(DrumType::WoodBlock),
        81 => Some(DrumType::Triangle),
        60 => Some(DrumType::BongoHigh),
        61 => Some(DrumType::BongoLow),
        62 => Some(DrumType::CongaHigh),
        64 => Some(DrumType::CongaLow),
        53 => Some(DrumType::RideBell),
        41 => Some(DrumType::FloorTomLow),
        43 => Some(DrumType::FloorTomHigh),
        44 => Some(DrumType::HiHatPedal),
        57 => Some(DrumType::Crash2),
        58 => Some(DrumType::Vibraslap),
        65 => Some(DrumType::TimbaleHigh),
        66 => Some(DrumType::TimbaleLow),
        67 => Some(DrumType::AgogoHigh),
        68 => Some(DrumType::AgogoLow),
        69 => Some(DrumType::Cabasa),
        73 => Some(DrumType::GuiroShort),
        74 => Some(DrumType::GuiroLong),
        76 => Some(DrumType::WoodBlockHigh),
        83 => Some(DrumType::SleighBells),
        84 => Some(DrumType::Chimes),
        85 => Some(DrumType::Castanet),
        _ => None,
    }
}

/// The General MIDI percussion key map: each note the library reads names
/// its General MIDI sound (35 acoustic bass drum, 36 bass drum, 37 side
/// stick, 38 acoustic snare, 39 hand clap, 40 electric snare, 41 low floor
/// tom, 42 closed hi-hat, 43 high floor tom, 44 pedal hi-hat, 45 low tom,
/// 46 open hi-hat, 47 low-mid tom, 48 hi-mid tom, 49 crash, 50 high tom,
/// 51 ride, 52 Chinese cymbal, 53 ride bell, 54 tambourine, 55 splash,
/// 56 cowbell, 57 crash 2, 58 vibraslap, 60/61 high/low bongo, 62/64
/// conga, 65/66 timbales, 67/68 agogo, 69 cabasa, 70 maracas, 73/74 guiro,
/// 75 claves, 76/77 wood blocks, 81 triangle, 83 sleigh bells (jingle
/// bell), 84 bell tree, 85 castanets), and that sound's drum kind is written
/// back as the same note.
pub proof fn lemma_gm_percussion_key_map()
    ensures
        drum_of_gm_note(35) == Some(DrumType::Kick808) && gm_note_of(DrumType::Kick808) == 35,
        drum_of_gm_note(36) == Some(DrumType::Kick) && gm_note_of(DrumType::Kick) == 36,
        drum_of_gm_note(37) == Some(DrumType::Rimshot) && gm_note_of(DrumType::Rimshot) == 37,
        drum_of_gm_note(38) == Some(DrumType::Snare) && gm_note_of(DrumType::Snare) == 38,
        drum_of_gm_note(39) == Some(DrumType::Clap) && gm_note_of(DrumType::Clap) == 39,
        drum_of_gm_note(40) == Some(DrumType::Snare808) && gm_note_of(DrumType::Snare808) == 40,
        drum_of_gm_note(41) == Some(DrumType::FloorTomLow) && gm_note_of(DrumType::FloorTomLow) == 41,
        drum_of_gm_note(42) == Some(DrumType::HiHatClosed) && gm_note_of(DrumType::HiHatClosed) == 42,
        drum_of_gm_note(43) == Some(DrumType::FloorTomHigh) && gm_note_of(DrumType::FloorTomHigh) == 43,
        drum_of_gm_note(44) == Some(DrumType::HiHatPedal) && gm_note_of(DrumType::HiHatPedal) == 44,
        drum_of_gm_note(45) == Some(DrumType::TomLow) && gm_note_of(DrumType::TomLow) == 45,
        drum_of_gm_note(46) == Some(DrumType::HiHatOpen) && gm_note_of(DrumType::HiHatOpen) == 46,
        drum_of_gm_note(47) == Some(DrumType::Tom) && gm_note_of(DrumType::Tom) == 47,
        drum_of_gm_note(48) == Some(DrumType::Tom808High) && gm_note_of(DrumType::Tom808High) == 48,
        drum_of_gm_note(49) == Some(DrumType::Crash) && gm_note_of(DrumType::Crash) == 49,
        drum_of_gm_note(50) == Some(DrumType::TomHigh) && gm_note_of(DrumType::TomHigh) == 50,
        drum_of_gm_note(51) == Some(DrumType::Ride) && gm_note_of(DrumType::Ride) == 51,
        drum_of_gm_note(52) == Some(DrumType::China) && gm_note_of(DrumType::China) == 52,
        drum_of_gm_note(53) == Some(DrumType::RideBell) && gm_note_of(DrumType::RideBell) == 53,
        drum_of_gm_note(54) == Some(DrumType::Tambourine) && gm_note_of(DrumType::Tambourine) == 54,
        drum_of_gm_note(55) == Some(DrumType::Splash) && gm_note_of(DrumType::Splash) == 55,
        drum_of_gm_note(56) == Some(DrumType::Cowbell) && gm_note_of(DrumType::Cowbell) == 56,
        drum_of_gm_note(57) == Some(DrumType::Crash2) && gm_note_of(DrumType::Crash2) == 57,
        drum_of_gm_note(58) == Some(DrumType::Vibraslap) && gm_note_of(DrumType::Vibraslap) == 58,
        drum_of_gm_note(60) == Some(DrumType::BongoHigh) && gm_note_of(DrumType::BongoHigh) == 60,
        drum_of_gm_note(61) == Some(DrumType::BongoLow) && gm_note_of(DrumType::BongoLow) == 61,
        drum_of_gm_note(62) == Some(DrumType::CongaHigh) && gm_note_of(DrumType::CongaHigh) == 62,
        drum_of_gm_note(64) == Some(DrumType::CongaLow) && gm_note_of(DrumType::CongaLow) == 64,
        drum_of_gm_note(65) == Some(DrumType::TimbaleHigh) && gm_note_of(DrumType::TimbaleHigh) == 65,
        drum_of_gm_note(66) == Some(DrumType::TimbaleLow) && gm_note_of(DrumType::TimbaleLow) == 66,
        drum_of_gm_note(67) == Some(DrumType::AgogoHigh) && gm_note_of(DrumType::AgogoHigh) == 67,
        drum_of_gm_note(68) == Some(DrumType::AgogoLow) && gm_note_of(DrumType::AgogoLow) == 68,
        drum_of_gm_note(69) == Some(DrumType::Cabasa) && gm_note_of(DrumType::Cabasa) == 69,
        drum_of_gm_note(70) == Some(DrumType::Shaker) && gm_note_of(DrumType::Shaker) == 70,
        drum_of_gm_note(73) == Some(DrumType::GuiroShort) && gm_note_of(DrumType::GuiroShort) == 73,
        drum_of_gm_note(74) == Some(DrumType::GuiroLong) && gm_note_of(DrumType::GuiroLong) == 74,
        drum_of_gm_note(75) == Some(DrumType::Claves) && gm_note_of(DrumType::Claves) == 75,
        drum_of_gm_note(76) == Some(DrumType::WoodBlockHigh) && gm_note_of(DrumType::WoodBlockHigh) == 76,
        drum_of_gm_note(77) == Some(DrumType::WoodBlock) && gm_note_of(DrumType::WoodBlock) == 77,
        drum_of_gm_note(81) == Some(DrumType::Triangle) && gm_note_of(DrumType::Triangle) == 81,
        drum_of_gm_note(83) == Some(DrumType::SleighBells) && gm_note_of(DrumType::SleighBells) == 83,
        drum_of_gm_note(84) == Some(DrumType::Chimes) && gm_note_of(DrumType::Chimes) == 84,
        drum_of_gm_note(85) == Some(DrumType::Castanet) && gm_note_of(DrumType::Castanet) == 85,
{
}

/// The General MIDI note written for every drum kind; a kind without its own
/// General MIDI sound is written as the nearest one (808 and deep kicks as
/// the acoustic bass drum 35, rims and snaps as the side stick 37, and so on).
pub proof fn lemma_gm_note_of_every_kind()
    ensures
        gm_note_of(DrumType::Kick) == 36,
        gm_note_of(DrumType::Kick808) == 35,
        gm_note_of(DrumType::SubKick) == 35,
        gm_note_of(DrumType::Snare) == 38,
        gm_note_of(DrumType::Snare808) == 40,
        gm_note_of(DrumType::HiHatClosed) == 42,
        gm_note_of(DrumType::HiHatOpen) == 46,
        gm_note_of(DrumType::HiHat808Closed) == 42,
        gm_note_of(DrumType::HiHat808Open) == 46,
        gm_note_of(DrumType::Clap) == 39,
        gm_note_of(DrumType::Clap808) == 39,
        gm_note_of(DrumType::Tom) == 47,
        gm_note_of(DrumType::TomHigh) == 50,
        gm_note_of(DrumType::TomLow) == 45,
        gm_note_of(DrumType::Rimshot) == 37,
        gm_note_of(DrumType::Cowbell) == 56,
        gm_note_of(DrumType::Crash) == 49,
        gm_note_of(DrumType::Ride) == 51,
        gm_note_of(DrumType::China) == 52,
        gm_note_of(DrumType::Splash) == 55,
        gm_note_of(DrumType::Tambourine) == 54,
        gm_note_of(DrumType::Shaker) == 70,
        gm_note_of(DrumType::BassDrop) == 35,
        gm_note_of(DrumType::Boom) == 35,
        gm_note_of(DrumType::Claves) == 75,
        gm_note_of(DrumType::Triangle) == 81,
        gm_note_of(DrumType::SideStick) == 37,
        gm_note_of(DrumType::WoodBlock) == 77,
        gm_note_of(DrumType::Kick909) == 36,
        gm_note_of(DrumType::Snare909) == 40,
        gm_note_of(DrumType::CongaHigh) == 62,
        gm_note_of(DrumType::CongaLow) == 64,
        gm_note_of(DrumType::BongoHigh) == 60,
        gm_note_of(DrumType::BongoLow) == 61,
        gm_note_of(DrumType::RideBell) == 53,
        gm_note_of(DrumType::FloorTomLow) == 41,
        gm_note_of(DrumType::FloorTomHigh) == 43,
        gm_note_of(DrumType::HiHatPedal) == 44,
        gm_note_of(DrumType::Crash2) == 57,
        gm_note_of(DrumType::Vibraslap) == 58,
        gm_note_of(DrumType::TimbaleHigh) == 65,
        gm_note_of(DrumType::TimbaleLow) == 66,
        gm_note_of(DrumType::AgogoHigh) == 67,
        gm_note_of(DrumType::AgogoLow) == 68,
        gm_note_of(DrumType::Cabasa) == 69,
        gm_note_of(DrumType::GuiroShort) == 73,
        gm_note_of(DrumType::GuiroLong) == 74,
        gm_note_of(DrumType::WoodBlockHigh) == 76,
        gm_note_of(DrumType::Timpani) == 47,
        gm_note_of(DrumType::Gong) == 52,
        gm_note_of(DrumType::Chimes) == 84,
        gm_note_of(DrumType::Djembe) == 60,
        gm_note_of(DrumType::TablaBayan) == 58,
        gm_note_of(DrumType::TablaDayan) == 77,
        gm_note_of(DrumType::Cajon) == 38,
        gm_note_of(DrumType::Fingersnap) == 37,
        gm_note_of(DrumType::Maracas) == 70,
        gm_note_of(DrumType::Castanet) == 85,
        gm_note_of(DrumType::SleighBells) == 83,
        gm_note_of(DrumType::LaserZap) == 35,
        gm_note_of(DrumType::ReverseCymbal) == 49,
        gm_note_of(DrumType::WhiteNoiseHit) == 39,
        gm_note_of(DrumType::StickClick) == 37,
        gm_note_of(DrumType::KickTight) == 36,
        gm_note_of(DrumType::KickDeep) == 35,
        gm_note_of(DrumType::KickAcoustic) == 36,
        gm_note_of(DrumType::KickClick) == 36,
        gm_note_of(DrumType::SnareRim) == 37,
        gm_note_of(DrumType::SnareTight) == 38,
        gm_note_of(DrumType::SnareLoose) == 38,
        gm_note_of(DrumType::SnarePiccolo) == 40,
        gm_note_of(DrumType::HiHatHalfOpen) == 46,
        gm_note_of(DrumType::HiHatSizzle) == 46,
        gm_note_of(DrumType::ClapDry) == 39,
        gm_note_of(DrumType::ClapRoom) == 39,
        gm_note_of(DrumType::ClapGroup) == 39,
        gm_note_of(DrumType::ClapSnare) == 39,
        gm_note_of(DrumType::CrashShort) == 49,
        gm_note_of(DrumType::RideTip) == 51,
        gm_note_of(DrumType::EggShaker) == 70,
        gm_note_of(DrumType::TubeShaker) == 70,
        gm_note_of(DrumType::Tom808Low) == 45,
        gm_note_of(DrumType::Tom808Mid) == 47,
        gm_note_of(DrumType::Tom808High) == 48,
        gm_note_of(DrumType::Cowbell808) == 56,
        gm_note_of(DrumType::Clave808) == 75,
        gm_note_of(DrumType::HiHat909Closed) == 42,
        gm_note_of(DrumType::HiHat909Open) == 46,
        gm_note_of(DrumType::Clap909) == 39,
        gm_note_of(DrumType::Cowbell909) == 56,
        gm_note_of(DrumType::Rim909) == 37,
        gm_note_of(DrumType::ReverseSnare) == 38,
        gm_note_of(DrumType::CymbalSwell) == 55,
{
}

/// The notes read as a drum are exactly the General MIDI percussion keys
/// from 35 to 85 that the library plays, which leaves out 59 (ride 2), 63
/// (open high conga), 71 and 72 (whistles), 78 and 79 (cuica), 80 and 82
/// (mute triangle, shaker).
pub proof fn lemma_gm_percussion_range(note: u8)
    ensures
        drum_of_gm_note(note) is Some <==> 35 <= note <= 85 && note != 59 && note != 63 && note != 71 && note
            != 72 && note != 78 && note != 79 && note != 80 && note != 82,
{
}

/// Reading a supported percussion note and writing the drum back gives the same note.
pub proof fn lemma_note_drum_note(note: u8)
    requires
        drum_of_gm_note(note) is Some,
    ensures
        gm_note_of(drum_of_gm_note(note)->0) == note,
{
}

/// Every drum kind is written as a note that reads back as some drum kind.
pub proof fn lemma_drum_note_is_supported(drum: DrumType)
    ensures
        drum_of_gm_note(gm_note_of(drum)) is Some,
{
}

/// Preset selected for a General MIDI program number (0-127, grouped by
/// family: pianos, chromatic percussion, organs, guitars, basses, strings,
/// ensembles, brass, reeds, pipes, synth leads, pads, effects, ethnic,
/// percussive and sound effects); numbers above 127 fall back to the
/// acoustic piano.
pub open spec fn gm_preset_of(program: u8) -> InstrumentPreset {
    if program == 0 {
        InstrumentPreset::AcousticPiano
    } else if program == 1 {
        InstrumentPreset::AcousticPiano
    } else if program == 2 {
        InstrumentPreset::ElectricPiano
    } else if program == 3 {
        InstrumentPreset::HonkyTonkPiano
    } else if program == 4 {
        InstrumentPreset::ElectricPiano
    } else if program == 5 {
        InstrumentPreset::Stage73
    } else if program == 6 {
        InstrumentPreset::Harpsichord
    } else if program == 7 {
        InstrumentPreset::Clavinet
    } else if program == 8 {
        InstrumentPreset::Celesta
    } else if program == 9 {
        InstrumentPreset::Glockenspiel
    } else if program == 10 {
        InstrumentPreset::MusicBox
    } else if program == 11 {
        InstrumentPreset::Vibraphone
    } else if program == 12 {
        InstrumentPreset::Marimba
    } else if program == 13 {
        InstrumentPreset::Xylophone
    } else if program == 14 {
        InstrumentPreset::TubularBells
    } else if program == 15 {
        InstrumentPreset::Dulcimer
    } else if program == 16 {
        InstrumentPreset::HammondOrgan
    } else if program == 17 {
        InstrumentPreset::Organ
    } else if program == 18 {
        InstrumentPreset::ChurchOrgan
    } else if program == 19 {
        InstrumentPreset::ChurchOrgan
    } else if program == 20 {
        InstrumentPreset::ReedOrgan
    } else if program == 21 {
        InstrumentPreset::Accordion
    } else if program == 22 {
        InstrumentPreset::Accordion
    } else if program == 23 {
        InstrumentPreset::Accordion
    } else if program == 24 {
        InstrumentPreset::AcousticGuitar
    } else if program == 25 {
        InstrumentPreset::AcousticGuitar
    } else if program == 26 {
        InstrumentPreset::ElectricGuitarClean
    } else if program == 27 {
        InstrumentPreset::ElectricGuitarClean
    } else if program == 28 {
        InstrumentPreset::GuitarPalmMuted
    } else if program == 29 {
        InstrumentPreset::ElectricGuitarDistorted
    } else if program == 30 {
        InstrumentPreset::ElectricGuitarDistorted
    } else if program == 31 {
        InstrumentPreset::GuitarHarmonics
    } else if program == 32 {
        InstrumentPreset::UprightBass
    } else if program == 33 {
        InstrumentPreset::FingerstyleBass
    } else if program == 34 {
        InstrumentPreset::SlapBass
    } else if program == 35 {
        InstrumentPreset::FretlessBass
    } else if program == 36 {
        InstrumentPreset::SlapBass
    } else if program == 37 {
        InstrumentPreset::SlapBass
    } else if program == 38 {
        InstrumentPreset::SynthBass
    } else if program == 39 {
        InstrumentPreset::SynthBass
    } else if program == 40 {
        InstrumentPreset::Violin
    } else if program == 41 {
        InstrumentPreset::Viola
    } else if program == 42 {
        InstrumentPreset::Cello
    } else if program == 43 {
        InstrumentPreset::DoubleBass
    } else if program == 44 {
        InstrumentPreset::TremoloStrings
    } else if program == 45 {
        InstrumentPreset::PizzicatoStrings
    } else if program == 46 {
        InstrumentPreset::Harp
    } else if program == 47 {
        InstrumentPreset::Timpani
    } else if program == 48 {
        InstrumentPreset::Strings
    } else if program == 49 {
        InstrumentPreset::SlowStrings
    } else if program == 50 {
        InstrumentPreset::Strings
    } else if program == 51 {
        InstrumentPreset::Strings
    } else if program == 52 {
        InstrumentPreset::ChoirAahs
    } else if program == 53 {
        InstrumentPreset::ChoirOohs
    } else if program == 54 {
        InstrumentPreset::SynthVoice
    } else if program == 55 {
        InstrumentPreset::Strings
    } else if program == 56 {
        InstrumentPreset::SoloTrumpet
    } else if program == 57 {
        InstrumentPreset::Trombone
    } else if program == 58 {
        InstrumentPreset::Tuba
    } else if program == 59 {
        InstrumentPreset::MutedTrumpet
    } else if program == 60 {
        InstrumentPreset::FrenchHorn
    } else if program == 61 {
        InstrumentPreset::BrassSection
    } else if program == 62 {
        InstrumentPreset::ProphetBrass
    } else if program == 63 {
        InstrumentPreset::AnalogBrass
    } else if program == 64 {
        InstrumentPreset::SopranoSax
    } else if program == 65 {
        InstrumentPreset::AltoSax
    } else if program == 66 {
        InstrumentPreset::TenorSax
    } else if program == 67 {
        InstrumentPreset::BaritoneSax
    } else if program == 68 {
        InstrumentPreset::Oboe
    } else if program == 69 {
        InstrumentPreset::EnglishHorn
    } else if program == 70 {
        InstrumentPreset::Bassoon
    } else if program == 71 {
        InstrumentPreset::Clarinet
    } else if program == 72 {
        InstrumentPreset::Piccolo
    } else if program == 73 {
        InstrumentPreset::Flute
    } else if program == 74 {
        InstrumentPreset::Flute
    } else if program == 75 {
        InstrumentPreset::PanFlute
    } else if program == 76 {
        InstrumentPreset::Didgeridoo
    } else if program == 77 {
        InstrumentPreset::Shakuhachi
    } else if program == 78 {
        InstrumentPreset::Shakuhachi
    } else if program == 79 {
        InstrumentPreset::UilleannPipes
    } else if program == 80 {
        InstrumentPreset::SquareLead
    } else if program == 81 {
        InstrumentPreset::SawLead
    } else if program == 82 {
        InstrumentPreset::SynthVoice
    } else if program == 83 {
        InstrumentPreset::Chiptune
    } else if program == 84 {
        InstrumentPreset::SynthLead
    } else if program == 85 {
        InstrumentPreset::SynthVoice
    } else if program == 86 {
        InstrumentPreset::Supersaw
    } else if program == 87 {
        InstrumentPreset::SawLead
    } else if program == 88 {
        InstrumentPreset::WarmPad
    } else if program == 89 {
        InstrumentPreset::AmbientPad
    } else if program == 90 {
        InstrumentPreset::VocalPad
    } else if program == 91 {
        InstrumentPreset::ChoirOohs
    } else if program == 92 {
        InstrumentPreset::ShimmerPad
    } else if program == 93 {
        InstrumentPreset::AmbientPad
    } else if program == 94 {
        InstrumentPreset::WarmPad
    } else if program == 95 {
        InstrumentPreset::JunoPad
    } else if program == 96 {
        InstrumentPreset::CosmicRays
    } else if program == 97 {
        InstrumentPreset::WindChimes
    } else if program == 98 {
        InstrumentPreset::GlassHarmonica
    } else if program == 99 {
        InstrumentPreset::AmbientPad
    } else if program == 100 {
        InstrumentPreset::ShimmerPad
    } else if program == 101 {
        InstrumentPreset::GranularPad
    } else if program == 102 {
        InstrumentPreset::CosmicRays
    } else if program == 103 {
        InstrumentPreset::Glitch
    } else if program == 104 {
        InstrumentPreset::Sitar
    } else if program == 105 {
        InstrumentPreset::Banjo
    } else if program == 106 {
        InstrumentPreset::Shamisen
    } else if program == 107 {
        InstrumentPreset::Koto
    } else if program == 108 {
        InstrumentPreset::Kalimba
    } else if program == 109 {
        InstrumentPreset::Bagpipes
    } else if program == 110 {
        InstrumentPreset::Erhu
    } else if program == 111 {
        InstrumentPreset::Duduk
    } else if program == 112 {
        InstrumentPreset::SteelDrums
    } else if program == 113 {
        InstrumentPreset::Cowbell
    } else if program == 114 {
        InstrumentPreset::SteelDrums
    } else if program == 115 {
        InstrumentPreset::TaikoDrum
    } else if program == 116 {
        InstrumentPreset::Taiko
    } else if program == 117 {
        InstrumentPreset::Timpani
    } else if program == 118 {
        InstrumentPreset::Djembe
    } else if program == 119 {
        InstrumentPreset::MetallicPerc
    } else if program == 120 {
        InstrumentPreset::GuitarHarmonics
    } else if program == 121 {
        InstrumentPreset::Glitch
    } else if program == 122 {
        InstrumentPreset::WindChimes
    } else if program == 123 {
        InstrumentPreset::CosmicRays
    } else if program == 124 {
        InstrumentPreset::Glitch
    } else if program == 125 {
        InstrumentPreset::Impact
    } else if program == 126 {
        InstrumentPreset::Riser
    } else if program == 127 {
        InstrumentPreset::Laser
    } else {
        InstrumentPreset::AcousticPiano
    }
}

/// General MIDI programs select the preset of their standard instrument:
/// 0 and 1 the acoustic grand pianos, 6 harpsichord, 8 to 15 the chromatic
/// percussion (celesta, glockenspiel, music box, vibraphone, marimba,
/// xylophone, tubular bells, dulcimer), 19 church organ, 24 to 31 the
/// guitars, 32 to 39 the basses, 40 violin, 41 viola, 42 cello, 43
/// contrabass, 44 tremolo and 45 pizzicato strings, 46 harp, 47 timpani,
/// 52/53 choir, 56 to 61 the brass, 64 to 67 the saxophones, 68 to 73 the
/// reeds and pipes, 80/81 the square and sawtooth leads, 104 to 109 the
/// ethnic instruments, 114 steel drums and 116 taiko; a number above 127
/// is no General MIDI program and falls back to the acoustic piano.
pub proof fn lemma_gm_programs_standard_instruments()
    ensures
        gm_preset_of(0) == InstrumentPreset::AcousticPiano,
        gm_preset_of(1) == InstrumentPreset::AcousticPiano,
        gm_preset_of(3) == InstrumentPreset::HonkyTonkPiano,
        gm_preset_of(4) == InstrumentPreset::ElectricPiano,
        gm_preset_of(6) == InstrumentPreset::Harpsichord,
        gm_preset_of(7) == InstrumentPreset::Clavinet,
        gm_preset_of(8) == InstrumentPreset::Celesta,
        gm_preset_of(9) == InstrumentPreset::Glockenspiel,
        gm_preset_of(10) == InstrumentPreset::MusicBox,
        gm_preset_of(11) == InstrumentPreset::Vibraphone,
        gm_preset_of(12) == InstrumentPreset::Marimba,
        gm_preset_of(13) == InstrumentPreset::Xylophone,
        gm_preset_of(14) == InstrumentPreset::TubularBells,
        gm_preset_of(15) == InstrumentPreset::Dulcimer,
        gm_preset_of(16) == InstrumentPreset::HammondOrgan,
        gm_preset_of(19) == InstrumentPreset::ChurchOrgan,
        gm_preset_of(20) == InstrumentPreset::ReedOrgan,
        gm_preset_of(21) == InstrumentPreset::Accordion,
        gm_preset_of(24) == InstrumentPreset::AcousticGuitar,
        gm_preset_of(25) == InstrumentPreset::AcousticGuitar,
        gm_preset_of(26) == InstrumentPreset::ElectricGuitarClean,
        gm_preset_of(27) == InstrumentPreset::ElectricGuitarClean,
        gm_preset_of(28) == InstrumentPreset::GuitarPalmMuted,
        gm_preset_of(29) == InstrumentPreset::ElectricGuitarDistorted,
        gm_preset_of(30) == InstrumentPreset::ElectricGuitarDistorted,
        gm_preset_of(31) == InstrumentPreset::GuitarHarmonics,
        gm_preset_of(32) == InstrumentPreset::UprightBass,
        gm_preset_of(33) == InstrumentPreset::FingerstyleBass,
        gm_preset_of(35) == InstrumentPreset::FretlessBass,
        gm_preset_of(36) == InstrumentPreset::SlapBass,
        gm_preset_of(37) == InstrumentPreset::SlapBass,
        gm_preset_of(38) == InstrumentPreset::SynthBass,
        gm_preset_of(39) == InstrumentPreset::SynthBass,
        gm_preset_of(40) == InstrumentPreset::Violin,
        gm_preset_of(41) == InstrumentPreset::Viola,
        gm_preset_of(42) == InstrumentPreset::Cello,
        gm_preset_of(43) == InstrumentPreset::DoubleBass,
        gm_preset_of(44) == InstrumentPreset::TremoloStrings,
        gm_preset_of(45) == InstrumentPreset::PizzicatoStrings,
        gm_preset_of(46) == InstrumentPreset::Harp,
        gm_preset_of(47) == InstrumentPreset::Timpani,
        gm_preset_of(48) == InstrumentPreset::Strings,
        gm_preset_of(52) == InstrumentPreset::ChoirAahs,
        gm_preset_of(53) == InstrumentPreset::ChoirOohs,
        gm_preset_of(54) == InstrumentPreset::SynthVoice,
        gm_preset_of(56) == InstrumentPreset::SoloTrumpet,
        gm_preset_of(57) == InstrumentPreset::Trombone,
        gm_preset_of(58) == InstrumentPreset::Tuba,
        gm_preset_of(59) == InstrumentPreset::MutedTrumpet,
        gm_preset_of(60) == InstrumentPreset::FrenchHorn,
        gm_preset_of(61) == InstrumentPreset::BrassSection,
        gm_preset_of(64) == InstrumentPreset::SopranoSax,
        gm_preset_of(65) == InstrumentPreset::AltoSax,
        gm_preset_of(66) == InstrumentPreset::TenorSax,
        gm_preset_of(67) == InstrumentPreset::BaritoneSax,
        gm_preset_of(68) == InstrumentPreset::Oboe,
        gm_preset_of(69) == InstrumentPreset::EnglishHorn,
        gm_preset_of(70) == InstrumentPreset::Bassoon,
        gm_preset_of(71) == InstrumentPreset::Clarinet,
        gm_preset_of(72) == InstrumentPreset::Piccolo,
        gm_preset_of(73) == InstrumentPreset::Flute,
        gm_preset_of(75) == InstrumentPreset::PanFlute,
        gm_preset_of(77) == InstrumentPreset::Shakuhachi,
        gm_preset_of(80) == InstrumentPreset::SquareLead,
        gm_preset_of(81) == InstrumentPreset::SawLead,
        gm_preset_of(104) == InstrumentPreset::Sitar,
        gm_preset_of(105) == InstrumentPreset::Banjo,
        gm_preset_of(106) == InstrumentPreset::Shamisen,
        gm_preset_of(107) == InstrumentPreset::Koto,
        gm_preset_of(108) == InstrumentPreset::Kalimba,
        gm_preset_of(109) == InstrumentPreset::Bagpipes,
        gm_preset_of(114) == InstrumentPreset::SteelDrums,
        gm_preset_of(116) == InstrumentPreset::Taiko,
        forall|program: u8| program > 127 ==> gm_preset_of(program) == InstrumentPreset::AcousticPiano,
{
}

/// Instrument preset for a General MIDI program number.
pub fn gm_program_to_instrument(program: u8) -> (preset: InstrumentPreset)
    ensures
        preset == gm_preset_of(program),
{
    match program {
        0 => InstrumentPreset::AcousticPiano,
        1 => InstrumentPreset::AcousticPiano,
        2 => InstrumentPreset::ElectricPiano,
        3 => InstrumentPreset::HonkyTonkPiano,
        4 => InstrumentPreset::ElectricPiano,
        5 => InstrumentPreset::Stage73,
        6 => InstrumentPreset::Harpsichord,
        7 => InstrumentPreset::Clavinet,
        8 => InstrumentPreset::Celesta,
        9 => InstrumentPreset::Glockenspiel,
        10 => InstrumentPreset::MusicBox,
        11 => InstrumentPreset::Vibraphone,
        12 => InstrumentPreset::Marimba,
        13 => InstrumentPreset::Xylophone,
        14 => InstrumentPreset::TubularBells,
        15 => InstrumentPreset::Dulcimer,
        16 => InstrumentPreset::HammondOrgan,
        17 => InstrumentPreset::Organ,
        18 => InstrumentPreset::ChurchOrgan,
        19 => InstrumentPreset::ChurchOrgan,
        20 => InstrumentPreset::ReedOrgan,
        21 => InstrumentPreset::Accordion,
        22 => InstrumentPreset::Accordion,
        23 => InstrumentPreset::Accordion,
        24 => InstrumentPreset::AcousticGuitar,
        25 => InstrumentPreset::AcousticGuitar,
        26 => InstrumentPreset::ElectricGuitarClean,
        27 => InstrumentPreset::ElectricGuitarClean,
        28 => InstrumentPreset::GuitarPalmMuted,
        29 => InstrumentPreset::ElectricGuitarDistorted,
        30 => InstrumentPreset::ElectricGuitarDistorted,
        31 => InstrumentPreset::GuitarHarmonics,
        32 => InstrumentPreset::UprightBass,
        33 => InstrumentPreset::FingerstyleBass,
        34 => InstrumentPreset::SlapBass,
        35 => InstrumentPreset::FretlessBass,
        36 => InstrumentPreset::SlapBass,
        37 => InstrumentPreset::SlapBass,
        38 => InstrumentPreset::SynthBass,
        39 => InstrumentPreset::SynthBass,
        40 => InstrumentPreset::Violin,
        41 => InstrumentPreset::Viola,
        42 => InstrumentPreset::Cello,
        43 => InstrumentPreset::DoubleBass,
        44 => InstrumentPreset::TremoloStrings,
        45 => InstrumentPreset::PizzicatoStrings,
        46 => InstrumentPreset::Harp,
        47 => InstrumentPreset::Timpani,
        48 => InstrumentPreset::Strings,
        49 => InstrumentPreset::SlowStrings,
        50 => InstrumentPreset::Strings,
        51 => InstrumentPreset::Strings,
        52 => InstrumentPreset::ChoirAahs,
        53 => InstrumentPreset::ChoirOohs,
        54 => InstrumentPreset::SynthVoice,
        55 => InstrumentPreset::Strings,
        56 => InstrumentPreset::SoloTrumpet,
        57 => InstrumentPreset::Trombone,
        58 => InstrumentPreset::Tuba,
        59 => InstrumentPreset::MutedTrumpet,
        60 => InstrumentPreset::FrenchHorn,
        61 => InstrumentPreset::BrassSection,
        62 => InstrumentPreset::ProphetBrass,
        63 => InstrumentPreset::AnalogBrass,
        64 => InstrumentPreset::SopranoSax,
        65 => InstrumentPreset::AltoSax,
        66 => InstrumentPreset::TenorSax,
        67 => InstrumentPreset::BaritoneSax,
        68 => InstrumentPreset::Oboe,
        69 => InstrumentPreset::EnglishHorn,
        70 => InstrumentPreset::Bassoon,
        71 => InstrumentPreset::Clarinet,
        72 => InstrumentPreset::Piccolo,
        73 => InstrumentPreset::Flute,
        74 => InstrumentPreset::Flute,
        75 => InstrumentPreset::PanFlute,
        76 => InstrumentPreset::Didgeridoo,
        77 => InstrumentPreset::Shakuhachi,
        78 => InstrumentPreset::Shakuhachi,
        79 => InstrumentPreset::UilleannPipes,
        80 => InstrumentPreset::SquareLead,
        81 => InstrumentPreset::SawLead,
        82 => InstrumentPreset::SynthVoice,
        83 => InstrumentPreset::Chiptune,
        84 => InstrumentPreset::SynthLead,
        85 => InstrumentPreset::SynthVoice,
        86 => InstrumentPreset::Supersaw,
        87 => InstrumentPreset::SawLead,
        88 => InstrumentPreset::WarmPad,
        89 => InstrumentPreset::AmbientPad,
        90 => InstrumentPreset::VocalPad,
        91 => InstrumentPreset::ChoirOohs,
        92 => InstrumentPreset::ShimmerPad,
        93 => InstrumentPreset::AmbientPad,
        94 => InstrumentPreset::WarmPad,
        95 => InstrumentPreset::JunoPad,
        96 => InstrumentPreset::CosmicRays,
        97 => InstrumentPreset::WindChimes,
        98 => InstrumentPreset::GlassHarmonica,
        99 => InstrumentPreset::AmbientPad,
        100 => InstrumentPreset::ShimmerPad,
        101 => InstrumentPreset::GranularPad,
        102 => InstrumentPreset::CosmicRays,
        103 => InstrumentPreset::Glitch,
        104 => InstrumentPreset::Sitar,
        105 => InstrumentPreset::Banjo,
        106 => InstrumentPreset::Shamisen,
        107 => InstrumentPreset::Koto,
        108 => InstrumentPreset::Kalimba,
        109 => InstrumentPreset::Bagpipes,
        110 => InstrumentPreset::Erhu,
        111 => InstrumentPreset::Duduk,
        112 => InstrumentPreset::SteelDrums,
        113 => InstrumentPreset::Cowbell,
        114 => InstrumentPreset::SteelDrums,
        115 => InstrumentPreset::TaikoDrum,
        116 => InstrumentPreset::Taiko,
        117 => InstrumentPreset::Timpani,
        118 => InstrumentPreset::Djembe,
        119 => InstrumentPreset::MetallicPerc,
        120 => InstrumentPreset::GuitarHarmonics,
        121 => InstrumentPreset::Glitch,
        122 => InstrumentPreset::WindChimes,
        123 => InstrumentPreset::CosmicRays,
        124 => InstrumentPreset::Glitch,
        125 => InstrumentPreset::Impact,
        126 => InstrumentPreset::Riser,
        127 => InstrumentPreset::Laser,
        _ => InstrumentPreset::AcousticPiano,
    }
}

} // verus!
