//! Damage and the areas that deal it in pulses.
use vstd::prelude::*;

verus! {

/// Where damage comes from.
#[derive(Clone, Copy, Debug, PartialEq, Eq, Structural)]
pub enum DamageSource {
    Weapon,
    Enemy,
    Environment,
}

/// Whether a damage area pulses in this frame, given its pulse timer after the
/// frame's tick: a finished repeating timer pulses each time, a finished one-shot
/// timer only in the frame it finished.
pub fn pulse_fires(finished: bool, repeating: bool, just_finished: bool) -> (fires: bool)
    ensures
        fires == (finished && (repeating || just_finished)),
{
    if finished {
        if !repeating && !just_finished {
            return false;
        }
        return true;
    }
    false
}

} // verus!
