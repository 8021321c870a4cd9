//! Modulation targets of the low-frequency oscillators.
use vstd::prelude::*;

verus! {

/// Parameter that an LFO modulates.
#[derive(Debug, Clone, Copy, PartialEq, Eq, Structural)]
pub enum ModTarget {
    FilterCutoff,
    FilterResonance,
    Volume,
    Pitch,
    Pan,
}

/// MIDI controller that carries a modulation target on export, with whether
/// its values are bipolar: pitch goes to the modulation wheel (CC1), volume
/// to expression (CC11), pan to pan (CC10); filter targets have no MIDI
/// controller.
pub open spec fn mod_target_controller(target: ModTarget) -> Option<(u8, bool)> {
    match target {
        ModTarget::Pitch => Some((1u8, true)),
        ModTarget::Volume => Some((11u8, false)),
        ModTarget::Pan => Some((10u8, true)),
        _ => None,
    }
}

/// Each modulation target MIDI can carry goes to its own controller: pitch
/// to the modulation wheel (CC1, bipolar), volume to expression (CC11,
/// unipolar), pan to pan (CC10, bipolar); the filter targets to none. No two
/// targets share a controller.
pub proof fn lemma_mod_target_controllers(a: ModTarget, b: ModTarget)
    ensures
        mod_target_controller(ModTarget::Pitch) == Some((1u8, true)),
        mod_target_controller(ModTarget::Volume) == Some((11u8, false)),
        mod_target_controller(ModTarget::Pan) == Some((10u8, true)),
        mod_target_controller(ModTarget::FilterCutoff) is None,
        mod_target_controller(ModTarget::FilterResonance) is None,
        a != b && mod_target_controller(a) is Some && mod_target_controller(b) is Some ==> (mod_target_controller(
            a,
        )->0).0 != (mod_target_controller(b)->0).0,
{
}

/// MIDI controller number and polarity used to export a modulation target;
/// `None` for the filter targets, which MIDI cannot carry.
pub fn mod_target_to_cc(target: ModTarget) -> (cc: Option<(u8, bool)>)
    ensures
        cc == mod_target_controller(target),
{
    match target {
        ModTarget::Pitch => Some((1, true)),
        ModTarget::Volume => Some((11, false)),
        ModTarget::Pan => Some((10, true)),
        _ => None,
    }
}

} // verus!
