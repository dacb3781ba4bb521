use bevyjam::damage::pulse_fires;
use bevyjam::enemies::{line_of_sight_action, ScanPattern, SightAction};
use bevyjam::interaction::{
    explosive_step, game_won, interact, trigger_entity, trigger_fires, use_door, DoorLockStatus, DoorOpenStatus,
    DoorRotationSide, DoorState, ExplosiveAction, ExplosiveObjectState, MultiUse,
};
use bevyjam::player::{movement_state, PlayerState, PlayerStateEnum};
use bevyjam::shooting::{
    bullet_impact, pick_impact_sound, pick_up_ammo, reload_can_start, shot_plays_sound, AmmoType, GunMagazine, ImpactSoundList,
    ImpactSurface, SpareAmmo,
};

#[test]
fn reload_fills_the_deficit() {
    let mut mag = GunMagazine { current: 0, max: 30 };
    let mut spare = SpareAmmo { current: 100 };
    mag.complete_reload(&mut spare);
    assert_eq!((mag.current, spare.current), (30, 70));
}

#[test]
fn reload_with_few_spare_rounds() {
    let mut mag = GunMagazine { current: 0, max: 30 };
    let mut spare = SpareAmmo { current: 10 };
    mag.complete_reload(&mut spare);
    assert_eq!((mag.current, spare.current), (10, 0));
}

#[test]
fn reload_of_a_partly_full_magazine_sets_the_fill() {
    // the magazine holds the fill afterwards, the rounds it held are not added
    let mut mag = GunMagazine { current: 25, max: 30 };
    let mut spare = SpareAmmo { current: 12 };
    mag.complete_reload(&mut spare);
    assert_eq!((mag.current, spare.current), (5, 7));
}

#[test]
fn reload_of_an_overfull_magazine() {
    let mut mag = GunMagazine { current: 40, max: 30 };
    let mut spare = SpareAmmo { current: -25 };
    mag.complete_reload(&mut spare);
    assert_eq!((mag.current, spare.current), (-5, -20));
}

#[test]
fn firing_needs_a_round_and_no_reload() {
    let mut mag = GunMagazine { current: 1, max: 30 };
    assert!(mag.can_fire(false));
    assert!(!mag.can_fire(true));
    mag.fire();
    assert_eq!(mag.current, 0);
    assert!(!mag.can_fire(false));
    assert!(reload_can_start(&SpareAmmo { current: 1 }));
    assert!(!reload_can_start(&SpareAmmo { current: 0 }));
}

#[test]
fn ammo_box_adds_rounds() {
    let mut spare = SpareAmmo { current: 4 };
    pick_up_ammo(&mut spare, 20);
    assert_eq!(spare.current, 24);
}

#[test]
fn only_projectiles_sound() {
    assert!(shot_plays_sound(AmmoType::Projectile));
    assert!(!shot_plays_sound(AmmoType::Throwable));
    assert!(!shot_plays_sound(AmmoType::Static));
}

#[test]
fn impact_sounds_come_from_the_surface_list() {
    for _ in 0..50 {
        let (list, idx) = pick_impact_sound(ImpactSurface::World, 3, 5);
        assert!(list == ImpactSoundList::World && idx < 3);
        let (list, idx) = pick_impact_sound(ImpactSurface::Player, 3, 5);
        assert!(list == ImpactSoundList::Monster && idx < 5);
        let (list, idx) = pick_impact_sound(ImpactSurface::Monster, 1, 2);
        assert!(list == ImpactSoundList::Monster && idx < 2);
    }
}

#[test]
fn multi_use_item_lasts_its_uses() {
    let mut counter = Some(MultiUse { remaining: 3 });
    let first = interact(counter);
    assert!(!first.despawn_after);
    assert_eq!(first.multi_use, Some(MultiUse { remaining: 2 }));
    counter = first.multi_use;
    let second = interact(counter);
    assert!(!second.despawn_after);
    assert_eq!(second.multi_use, Some(MultiUse { remaining: 1 }));
    let third = interact(second.multi_use);
    assert!(third.despawn_after);
    assert_eq!(third.multi_use, None);
}

#[test]
fn item_without_uses_goes_at_once() {
    assert!(interact(None).despawn_after);
    assert!(interact(Some(MultiUse { remaining: 0 })).despawn_after);
}

#[test]
fn triggers() {
    assert_eq!(trigger_entity(7, 9, 7), 9);
    assert_eq!(trigger_entity(7, 9, 9), 7);
    assert_eq!(trigger_entity(1, 2, 3), 1);
    assert!(trigger_fires(true, None));
    assert!(trigger_fires(true, Some(true)));
    assert!(!trigger_fires(true, Some(false)));
    assert!(!trigger_fires(false, None));
    assert!(game_won(&vec![false, true]));
    assert!(!game_won(&vec![false, false]));
    assert!(!game_won(&vec![]));
}

#[test]
fn door_opens_and_closes() {
    let mut door = DoorState {
        open_status: DoorOpenStatus::Closed,
        lock_status: DoorLockStatus::Unlocked,
        rotation_side: DoorRotationSide::Left,
    };
    let first = use_door(&mut door).unwrap();
    assert!(first.open_status == DoorOpenStatus::Opened);
    assert_eq!((first.axis_rotation, first.door_rotation), (-1, -1));
    assert!(door.open_status == DoorOpenStatus::Opened);
    let second = use_door(&mut door).unwrap();
    assert!(door.open_status == DoorOpenStatus::Closed);
    assert_eq!((second.axis_rotation, second.door_rotation), (1, -1));
}

#[test]
fn locked_door_stays() {
    let mut door = DoorState {
        open_status: DoorOpenStatus::Closed,
        lock_status: DoorLockStatus::Locked,
        rotation_side: DoorRotationSide::Right,
    };
    assert!(use_door(&mut door).is_none());
    assert!(door.open_status == DoorOpenStatus::Closed);
}

#[test]
fn barrel_explodes_once_depleted() {
    let (s, a) = explosive_step(ExplosiveObjectState::NotDetonated, false, true);
    assert!(s == ExplosiveObjectState::NotDetonated && a == ExplosiveAction::Nothing);
    let (s, a) = explosive_step(ExplosiveObjectState::NotDetonated, true, false);
    assert!(s == ExplosiveObjectState::Exploding && a == ExplosiveAction::StartExploding);
    let (s, a) = explosive_step(s, true, false);
    assert!(s == ExplosiveObjectState::Exploding && a == ExplosiveAction::Nothing);
    let (s, a) = explosive_step(s, true, true);
    assert!(s == ExplosiveObjectState::Detonated && a == ExplosiveAction::Nothing);
    let (s, a) = explosive_step(s, false, false);
    assert!(s == ExplosiveObjectState::Detonated && a == ExplosiveAction::Despawn);
}

#[test]
fn pulses() {
    assert!(pulse_fires(true, true, false));
    assert!(pulse_fires(true, false, true));
    assert!(!pulse_fires(true, false, false));
    assert!(!pulse_fires(false, true, true));
}

#[test]
fn player_animation_state() {
    let s = PlayerState::initial();
    assert!(s.changed());
    assert!(!PlayerState { current: PlayerStateEnum::Idle, new: PlayerStateEnum::Idle }.changed());
    assert!(movement_state(false, false, false, false) == PlayerStateEnum::Idle);
    assert!(movement_state(true, false, true, false) == PlayerStateEnum::Idle);
    assert!(movement_state(true, false, false, false) == PlayerStateEnum::Running);
    assert!(movement_state(false, true, false, false) == PlayerStateEnum::Running);
    assert!(movement_state(true, true, true, true) == PlayerStateEnum::Idle);
}

#[test]
fn enemy_sight_decisions() {
    assert_eq!(line_of_sight_action(true, true, true), SightAction::Track);
    assert_eq!(line_of_sight_action(true, false, false), SightAction::Track);
    assert_eq!(line_of_sight_action(false, true, false), SightAction::StartScanning);
    assert_eq!(line_of_sight_action(false, true, true), SightAction::Keep);
    assert_eq!(line_of_sight_action(false, false, false), SightAction::Keep);
}

#[test]
fn scan_patterns() {
    let p = ScanPattern { steady: true, turn_left: false };
    assert!(!p.sways());
    assert_eq!(p.turn_sign(), -1);
    let q = ScanPattern { steady: false, turn_left: true };
    assert!(q.sways());
    assert_eq!(q.turn_sign(), 1);
    let r = ScanPattern::random();
    assert_eq!(r.sways(), !r.steady);
}

#[test]
fn bullet_impacts() {
    assert_eq!(bullet_impact(true, true), (ImpactSurface::Player, false));
    assert_eq!(bullet_impact(true, false), (ImpactSurface::Player, false));
    assert_eq!(bullet_impact(false, true), (ImpactSurface::Monster, true));
    assert_eq!(bullet_impact(false, false), (ImpactSurface::World, false));
}

#[test]
fn item_with_no_uses_left_goes_at_once() {
    let outcome = interact(Some(MultiUse { remaining: -3 }));
    assert!(outcome.despawn_after);
    assert_eq!(outcome.multi_use, None);
}
