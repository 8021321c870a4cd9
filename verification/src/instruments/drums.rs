//! Drum kinds of the drum machine.
use vstd::prelude::*;

verus! {

/// The drum sounds the library can play: acoustic and electronic kits,
/// cymbals, hand and world percussion, and effects.
#[derive(Debug, Clone, Copy, PartialEq, Eq, Structural)]
pub enum DrumType {
    Kick,
    Kick808,
    SubKick,
    Snare,
    Snare808,
    HiHatClosed,
    HiHatOpen,
    HiHat808Closed,
    HiHat808Open,
    Clap,
    Clap808,
    Tom,
    TomHigh,
    TomLow,
    Rimshot,
    Cowbell,
    Crash,
    Ride,
    China,
    Splash,
    Tambourine,
    Shaker,
    BassDrop,
    Boom,
    Claves,
    Triangle,
    SideStick,
    WoodBlock,
    Kick909,
    Snare909,
    CongaHigh,
    CongaLow,
    BongoHigh,
    BongoLow,
    RideBell,
    FloorTomLow,
    FloorTomHigh,
    HiHatPedal,
    Crash2,
    Vibraslap,
    TimbaleHigh,
    TimbaleLow,
    AgogoHigh,
    AgogoLow,
    Cabasa,
    GuiroShort,
    GuiroLong,
    WoodBlockHigh,
    Timpani,
    Gong,
    Chimes,
    Djembe,
    TablaBayan,
    TablaDayan,
    Cajon,
    Fingersnap,
    Maracas,
    Castanet,
    SleighBells,
    LaserZap,
    ReverseCymbal,
    WhiteNoiseHit,
    StickClick,
    KickTight,
    KickDeep,
    KickAcoustic,
    KickClick,
    SnareRim,
    SnareTight,
    SnareLoose,
    SnarePiccolo,
    HiHatHalfOpen,
    HiHatSizzle,
    ClapDry,
    ClapRoom,
    ClapGroup,
    ClapSnare,
    CrashShort,
    RideTip,
    EggShaker,
    TubeShaker,
    Tom808Low,
    Tom808Mid,
    Tom808High,
    Cowbell808,
    Clave808,
    HiHat909Closed,
    HiHat909Open,
    Clap909,
    Cowbell909,
    Rim909,
    ReverseSnare,
    CymbalSwell,
}

} // verus!
