//! World objects the player interacts with: multi-use items, triggers, doors and
//! explosive barrels.
use vstd::prelude::*;

verus! {

/// How many more times an item can be used.
#[derive(Clone, Copy, Debug, PartialEq, Eq, Structural)]
pub struct MultiUse {
    pub remaining: i32,
}

/// What an interaction with an item does to it.
#[derive(Clone, Copy, Debug, PartialEq, Eq, Structural)]
pub struct InteractionOutcome {
    /// The item is used up and goes once the interaction is processed.
    pub despawn_after: bool,
    /// The uses left afterwards; `None` where the item has no use counter (any more).
    pub multi_use: Option<MultiUse>,
}

/// The effect of one interaction on an item with the use counter `multi_use`: the
/// last use (or an item without counter) marks the item for despawning and drops
/// the counter, any earlier use takes one off the counter.
pub open spec fn spec_interact(multi_use: Option<MultiUse>) -> InteractionOutcome {
    match multi_use {
        Some(m) => if m.remaining <= 1 {
            InteractionOutcome { despawn_after: true, multi_use: None }
        } else {
            InteractionOutcome { despawn_after: false, multi_use: Some(MultiUse { remaining: (m.remaining - 1) as i32 }) }
        },
        None => InteractionOutcome { despawn_after: true, multi_use: None },
    }
}

/// Processes one interaction with an item (see `spec_interact`).
pub fn interact(multi_use: Option<MultiUse>) -> (outcome: InteractionOutcome)
    ensures
        outcome == spec_interact(multi_use),
{
    match multi_use {
        Some(m) => {
            if m.remaining <= 1 {
                InteractionOutcome { despawn_after: true, multi_use: None }
            } else {
                InteractionOutcome { despawn_after: false, multi_use: Some(MultiUse { remaining: m.remaining - 1 }) }
            }
        },
        None => InteractionOutcome { despawn_after: true, multi_use: None },
    }
}

/// The outcome of the `k`-th interaction (counting from 1) with an item that starts
/// with the use counter `multi_use`, where no earlier one used it up.
pub open spec fn nth_interaction(multi_use: Option<MultiUse>, k: nat) -> InteractionOutcome
    decreases k,
{
    if k <= 1 {
        spec_interact(multi_use)
    } else {
        nth_interaction(spec_interact(multi_use).multi_use, (k - 1) as nat)
    }
}

/// An item with `r` uses (at least one) lasts exactly `r` interactions: none of the
/// first `r - 1` uses it up, each leaving one use fewer, and the `r`-th does.
pub proof fn lemma_multi_use_lasts(r: i32, k: nat)
    requires
        1 <= k <= r,
    ensures
        k < r ==> nth_interaction(Some(MultiUse { remaining: r }), k)
            == (InteractionOutcome { despawn_after: false, multi_use: Some(MultiUse { remaining: (r - k) as i32 }) }),
        k == r ==> nth_interaction(Some(MultiUse { remaining: r }), k).despawn_after,
    decreases k,
{
    if k > 1 {
        lemma_multi_use_lasts((r - 1) as i32, (k - 1) as nat);
    }
}

/// Of the two entities of a collision event involving the player, the one that
/// is not the player (the first one where neither is).
pub fn trigger_entity(e1: u64, e2: u64, player: u64) -> (trigger: u64)
    ensures
        trigger == if e1 == player { e2 } else { e1 },
{
    if e1 == player { e2 } else { e1 }
}

/// A trigger fires on the interact key where it detects the player and its timeout,
/// if it has one, has finished.
pub fn trigger_fires(player_detected: bool, timeout_finished: Option<bool>) -> (fires: bool)
    ensures
        fires == (player_detected && (timeout_finished matches Some(done) ==> done)),
{
    if let Some(done) = timeout_finished {
        if !done {
            return false;
        }
    }
    player_detected
}

/// The game is won once any win zone detects the player.
pub fn game_won(win_zone_detections: &Vec<bool>) -> (won: bool)
    ensures
        won == win_zone_detections@.contains(true),
{
    let mut i: usize = 0;
    while i < win_zone_detections.len()
        invariant
            i <= win_zone_detections@.len(),
            forall|j: int| 0 <= j < i ==> !win_zone_detections@[j],
        decreases win_zone_detections@.len() - i,
    {
        if win_zone_detections[i] {
            proof { assert(win_zone_detections@[i as int] == true); }
            return true;
        }
        i += 1;
    }
    false
}

/// Whether a door is open.
#[derive(Clone, Copy, Debug, PartialEq, Eq, Structural)]
pub enum DoorOpenStatus {
    Opened,
    Closed,
}

/// Whether a door can be used.
#[derive(Clone, Copy, Debug, PartialEq, Eq, Structural)]
pub enum DoorLockStatus {
    Locked,
    Unlocked,
}

/// The side of its hinge.
#[derive(Clone, Copy, Debug, PartialEq, Eq, Structural)]
pub enum DoorRotationSide {
    Right,
    Left,
}

/// A door's state.
#[derive(Clone, Copy, Debug, PartialEq, Eq, Structural)]
pub struct DoorState {
    pub open_status: DoorOpenStatus,
    pub lock_status: DoorLockStatus,
    pub rotation_side: DoorRotationSide,
}

/// How a used door swings: the new open status, the side of its hinge relative to
/// the door's front (+1 or -1 quarter turns), and the quarter turn it rotates by.
#[derive(Clone, Copy, Debug, PartialEq, Eq, Structural)]
pub struct DoorSwing {
    pub open_status: DoorOpenStatus,
    pub axis_rotation: i8,
    pub door_rotation: i8,
}

/// The swing of an unlocked door that is used: it opens where closed and closes
/// where open, about a hinge on its rotation side.
pub open spec fn spec_door_swing(door: DoorState) -> DoorSwing {
    match door.open_status {
        DoorOpenStatus::Opened => match door.rotation_side {
            DoorRotationSide::Left => DoorSwing { open_status: DoorOpenStatus::Closed, axis_rotation: 1i8, door_rotation: -1i8 },
            DoorRotationSide::Right => DoorSwing { open_status: DoorOpenStatus::Closed, axis_rotation: -1i8, door_rotation: 1i8 },
        },
        DoorOpenStatus::Closed => match door.rotation_side {
            DoorRotationSide::Left => DoorSwing { open_status: DoorOpenStatus::Opened, axis_rotation: -1i8, door_rotation: -1i8 },
            DoorRotationSide::Right => DoorSwing { open_status: DoorOpenStatus::Opened, axis_rotation: 1i8, door_rotation: 1i8 },
        },
    }
}

/// Uses a door: a locked door does not move (`None`); an unlocked one swings (see
/// `spec_door_swing`) and takes its new open status.
pub fn use_door(door: &mut DoorState) -> (swing: Option<DoorSwing>)
    ensures
        old(door).lock_status == DoorLockStatus::Locked ==> swing is None && *final(door) == *old(door),
        old(door).lock_status == DoorLockStatus::Unlocked ==> swing == Some(spec_door_swing(*old(door)))
            && *final(door) == (DoorState { open_status: spec_door_swing(*old(door)).open_status, ..*old(door) }),
{
    match door.lock_status {
        DoorLockStatus::Locked => None,
        DoorLockStatus::Unlocked => {
            let swing = match door.open_status {
                DoorOpenStatus::Opened => match door.rotation_side {
                    DoorRotationSide::Left => DoorSwing { open_status: DoorOpenStatus::Closed, axis_rotation: 1i8, door_rotation: -1i8 },
                    DoorRotationSide::Right => DoorSwing { open_status: DoorOpenStatus::Closed, axis_rotation: -1i8, door_rotation: 1i8 },
                },
                DoorOpenStatus::Closed => match door.rotation_side {
                    DoorRotationSide::Left => DoorSwing { open_status: DoorOpenStatus::Opened, axis_rotation: -1i8, door_rotation: -1i8 },
                    DoorRotationSide::Right => DoorSwing { open_status: DoorOpenStatus::Opened, axis_rotation: 1i8, door_rotation: 1i8 },
                },
            };
            door.open_status = swing.open_status;
            Some(swing)
        },
    }
}

/// Using an unlocked door twice brings it back to its open status, and the second
/// swing rotates about the same hinge: its axis is the first swing's axis seen from
/// the other side.
pub proof fn lemma_door_use_twice(door: DoorState)
    requires
        door.lock_status == DoorLockStatus::Unlocked,
    ensures
        ({
            let first = spec_door_swing(door);
            let second = spec_door_swing(DoorState { open_status: first.open_status, ..door });
            &&& second.open_status == door.open_status
            &&& second.axis_rotation == -first.axis_rotation
            &&& second.door_rotation == first.door_rotation
        }),
{
}

/// A right-hinged door swings as the mirror image of a left-hinged one: from the
/// same open status it takes the same new status, with its hinge on the other side
/// (the axis rotation negated) and turning the other way (the door rotation
/// negated).
pub proof fn lemma_door_swing_mirror(door: DoorState)
    ensures
        ({
            let left = spec_door_swing(DoorState { rotation_side: DoorRotationSide::Left, ..door });
            let right = spec_door_swing(DoorState { rotation_side: DoorRotationSide::Right, ..door });
            &&& right.open_status == left.open_status
            &&& right.axis_rotation == -left.axis_rotation
            &&& right.door_rotation == -left.door_rotation
        }),
{
}

/// A used door turns about its hinge a quarter turn each way: the hinge lies a
/// quarter turn counterclockwise from the door's front (axis rotation +1) exactly
/// for a right-hinged door that opens or a left-hinged door that closes, and the door
/// turns the same way as its axis when opening and the other way when closing.
pub proof fn lemma_door_swing_hinge(door: DoorState)
    ensures
        ({
            let s = spec_door_swing(door);
            let opening = door.open_status == DoorOpenStatus::Closed;
            &&& s.open_status == (if opening { DoorOpenStatus::Opened } else { DoorOpenStatus::Closed })
            &&& (s.axis_rotation == 1) == (opening == (door.rotation_side == DoorRotationSide::Right))
            &&& s.axis_rotation == 1 || s.axis_rotation == -1
            &&& s.door_rotation == (if opening { s.axis_rotation as int } else { -s.axis_rotation })
        }),
{
}

/// The life of an explosive object.
#[derive(Clone, Copy, Debug, PartialEq, Eq, Structural)]
pub enum ExplosiveObjectState {
    NotDetonated,
    /// Exploding; how long it takes is timed outside.
    Exploding,
    Detonated,
}

/// What an explosive object's step asks for besides its new state.
#[derive(Clone, Copy, Debug, PartialEq, Eq, Structural)]
pub enum ExplosiveAction {
    Nothing,
    /// Start the explosion's timer and unpause its damage pulses.
    StartExploding,
    /// Remove the object.
    Despawn,
}

/// Order of the states of an explosive object.
pub open spec fn explosive_stage(s: ExplosiveObjectState) -> int {
    match s {
        ExplosiveObjectState::NotDetonated => 0,
        ExplosiveObjectState::Exploding => 1,
        ExplosiveObjectState::Detonated => 2,
    }
}

/// One step of an explosive object: it starts exploding once its health is
/// depleted, is detonated once the explosion's timer has finished, and is removed
/// when detonated.
pub fn explosive_step(state: ExplosiveObjectState, health_depleted: bool, timer_finished: bool)
    -> (r: (ExplosiveObjectState, ExplosiveAction))
    ensures
        r == match state {
            ExplosiveObjectState::NotDetonated => if health_depleted {
                (ExplosiveObjectState::Exploding, ExplosiveAction::StartExploding)
            } else {
                (ExplosiveObjectState::NotDetonated, ExplosiveAction::Nothing)
            },
            ExplosiveObjectState::Exploding => if timer_finished {
                (ExplosiveObjectState::Detonated, ExplosiveAction::Nothing)
            } else {
                (ExplosiveObjectState::Exploding, ExplosiveAction::Nothing)
            },
            ExplosiveObjectState::Detonated => (ExplosiveObjectState::Detonated, ExplosiveAction::Despawn),
        },
        // an explosive object never goes back to an earlier stage
        explosive_stage(state) <= explosive_stage(r.0),
{
    match state {
        ExplosiveObjectState::NotDetonated => {
            if health_depleted {
                (ExplosiveObjectState::Exploding, ExplosiveAction::StartExploding)
            } else {
                (ExplosiveObjectState::NotDetonated, ExplosiveAction::Nothing)
            }
        },
        ExplosiveObjectState::Exploding => {
            if timer_finished {
                (ExplosiveObjectState::Detonated, ExplosiveAction::Nothing)
            } else {
                (ExplosiveObjectState::Exploding, ExplosiveAction::Nothing)
            }
        },
        ExplosiveObjectState::Detonated => (ExplosiveObjectState::Detonated, ExplosiveAction::Despawn),
    }
}

} // verus!
