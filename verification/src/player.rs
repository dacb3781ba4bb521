//! The player's animation state and what the movement keys make of it.
use vstd::prelude::*;

verus! {

/// What the player's avatar is doing, for its animations.
#[derive(Clone, Copy, Debug, PartialEq, Eq, Structural)]
pub enum PlayerStateEnum {
    Idle,
    Running,
    Reloading,
    Shooting,
}

/// The animation state the player is in and the one it should be in.
#[derive(Clone, Copy, Debug, PartialEq, Eq, Structural)]
pub struct PlayerState {
    pub current: PlayerStateEnum,
    pub new: PlayerStateEnum,
}

impl PlayerState {
    /// A spawned player: the two states differ so that the first animation gets set.
    pub fn initial() -> (state: PlayerState)
        ensures
            state == (PlayerState { current: PlayerStateEnum::Running, new: PlayerStateEnum::Idle }),
    {
        PlayerState { current: PlayerStateEnum::Running, new: PlayerStateEnum::Idle }
    }

    /// The animation has to change.
    pub fn changed(&self) -> (r: bool)
        ensures
            r == (self.current != self.new),
    {
        self.current != self.new
    }
}

/// The state the movement keys ask for: idle where the pressed keys cancel out
/// (up against down, left against right), running otherwise.
pub fn movement_state(up: bool, left: bool, down: bool, right: bool) -> (state: PlayerStateEnum)
    ensures
        state == (if up == down && left == right { PlayerStateEnum::Idle } else { PlayerStateEnum::Running }),
{
    let dy: i8 = (if up { 1 } else { 0 }) - (if down { 1 } else { 0 });
    let dx: i8 = (if right { 1 } else { 0 }) - (if left { 1 } else { 0 });
    if dx == 0 && dy == 0 {
        PlayerStateEnum::Idle
    } else {
        PlayerStateEnum::Running
    }
}

} // verus!
