//! Enemy targeting: what an enemy does with what its line of sight shows, and the
//! random pattern by which it scans for a lost target.
use vstd::prelude::*;
use rand::Rng;

verus! {

/// What an enemy does with its target after a look along its line of sight.
#[derive(Clone, Copy, Debug, PartialEq, Eq, Structural)]
pub enum SightAction {
    /// The player is in sight: stop scanning, follow the player and restart the
    /// timer of when the target was last seen.
    Track,
    /// The target has been out of sight for too long: drop it and start scanning.
    StartScanning,
    /// Nothing changes.
    Keep,
}

/// The action after one look: `sees_player` when the ray along the enemy's heading
/// hits the player first, `last_seen_finished` when the last-seen timer has run
/// out, `scanning` when the enemy already scans.
pub open spec fn spec_sight_action(sees_player: bool, last_seen_finished: bool, scanning: bool) -> SightAction {
    if sees_player {
        SightAction::Track
    } else if last_seen_finished && !scanning {
        SightAction::StartScanning
    } else {
        SightAction::Keep
    }
}

/// Decides what an enemy does after a look along its line of sight.
pub fn line_of_sight_action(sees_player: bool, last_seen_finished: bool, scanning: bool) -> (action: SightAction)
    ensures
        action == spec_sight_action(sees_player, last_seen_finished, scanning),
{
    if sees_player {
        SightAction::Track
    } else if last_seen_finished && !scanning {
        SightAction::StartScanning
    } else {
        SightAction::Keep
    }
}

/// Calls `rand::thread_rng().gen::<bool>()`, a fair coin as rand documents it.
/// Which value comes back is left to chance and not stated.
#[verifier::external_body]
fn random_bool() -> (b: bool)
{
    rand::thread_rng().gen::<bool>()
}

/// How a scanning enemy sweeps its gaze: `steady` drops the swaying part of the
/// sweep, and `turn_left` picks the direction of the steady turn.
#[derive(Clone, Copy, Debug, PartialEq, Eq, Structural)]
pub struct ScanPattern {
    pub steady: bool,
    pub turn_left: bool,
}

impl ScanPattern {
    /// A pattern drawn at random, as each enemy gets when it starts scanning.
    pub fn random() -> (p: ScanPattern)
    {
        let steady = random_bool();
        let turn_left = random_bool();
        ScanPattern { steady, turn_left }
    }

    /// Whether the sweep sways around the steady turn.
    pub fn sways(&self) -> (r: bool)
        ensures
            r == !self.steady,
    {
        !self.steady
    }

    /// The sign of the steady turn: `1` to the left, `-1` to the right.
    pub fn turn_sign(&self) -> (s: i8)
        ensures
            s == (if self.turn_left { 1i8 } else { -1i8 }),
    {
        if self.turn_left {
            1
        } else {
            -1
        }
    }
}

} // verus!
