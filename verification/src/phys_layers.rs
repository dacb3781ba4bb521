//! Physics collision layers.
use vstd::prelude::*;

verus! {

/// The collision layers of the game's physics.
#[derive(Clone, Copy, Debug, PartialEq, Eq, Structural)]
pub enum PhysLayer {
    Player,
    World,
    Bullets,
    Enemies,
}

} // verus!
