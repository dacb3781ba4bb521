//! Guns, ammunition and the sounds of shots and impacts.
use vstd::prelude::*;
use rand::Rng;
use crate::grid::{fits_i32, trunc_rem};

verus! {

/// How a weapon's shots behave.
#[derive(Clone, Copy, Debug, PartialEq, Eq, Structural)]
pub enum AmmoType {
    /// not physical objects
    Projectile,
    /// physics based
    Throwable,
    /// just nonphysical static objects
    Static,
}

/// What a bullet hit.
#[derive(Clone, Copy, Debug, PartialEq, Eq, Structural)]
pub enum ImpactSurface {
    World,
    Monster,
    Player,
}

/// The rounds loaded in a gun.
pub struct GunMagazine {
    pub current: i32,
    pub max: i32,
}

/// The rounds a player carries besides the magazine.
pub struct SpareAmmo {
    pub current: i32,
}

/// Rounds a completed reload puts into a magazine holding `current` of `max` rounds
/// from `spare` spare rounds: the whole deficit `max - current` where the spare
/// rounds cover it, otherwise the spare rounds modulo the deficit.
pub open spec fn spec_reload_fill(current: int, max: int, spare: int) -> int {
    let deficit = max - current;
    if spare >= deficit { deficit } else { trunc_rem(spare, deficit) }
}

impl GunMagazine {
    /// The gun can fire: a round is loaded and no reload is going on.
    pub fn can_fire(&self, reloading: bool) -> (r: bool)
        ensures
            r == (self.current >= 1 && !reloading),
    {
        !(self.current < 1 || reloading)
    }

    /// Takes the round of one shot out of the magazine.
    pub fn fire(&mut self)
        requires
            old(self).current >= 1,
        ensures
            final(self).current == old(self).current - 1,
            final(self).max == old(self).max,
    {
        self.current = self.current - 1;
    }

    /// Completes a reload: the magazine then holds the fill that
    /// `spec_reload_fill` gives, and the spare rounds lose that fill.
    pub fn complete_reload(&mut self, spare_ammo: &mut SpareAmmo)
        requires
            fits_i32(old(self).max - old(self).current),
            old(spare_ammo).current < old(self).max - old(self).current ==> old(self).max - old(self).current != 0
                && !(old(spare_ammo).current == i32::MIN && old(self).max - old(self).current == -1),
            fits_i32(old(spare_ammo).current - spec_reload_fill(old(self).current as int, old(self).max as int,
                old(spare_ammo).current as int)),
        ensures
            final(self).current == spec_reload_fill(old(self).current as int, old(self).max as int,
                old(spare_ammo).current as int),
            final(self).max == old(self).max,
            final(spare_ammo).current == old(spare_ammo).current - final(self).current,
            0 <= old(spare_ammo).current < old(self).max - old(self).current ==> final(self).current
                == old(spare_ammo).current && final(spare_ammo).current == 0,
            old(self).current <= old(self).max && old(spare_ammo).current >= 0 ==> 0 <= final(spare_ammo).current
                <= old(spare_ammo).current,
    {
        proof {
            if self.current <= self.max && spare_ammo.current >= 0 {
                lemma_reload_fill_within_spare(self.current as int, self.max as int, spare_ammo.current as int);
            }
        }
        let deficit = self.max - self.current;
        let spare = spare_ammo.current;
        let fill: i32 = if spare >= deficit {
            deficit
        } else if deficit > 0 {
            spare % deficit
        } else {
            let r: i64 = -((-(spare as i64)) % (-(deficit as i64)));
            proof {
                assert(0 <= (-(spare as i64)) % (-(deficit as i64)) < -(deficit as i64));
            }
            r as i32
        };
        self.current = fill;
        spare_ammo.current = spare - fill;
    }
}

/// Reloading an empty magazine loses no round: where the spare rounds cover the
/// magazine it ends up full, otherwise it takes all the spare rounds; either way
/// the spare rounds lose exactly what the magazine gains.
pub proof fn lemma_empty_magazine_reload(max: int, spare: int)
    requires
        max > 0,
        spare >= 0,
    ensures
        spare >= max ==> spec_reload_fill(0, max, spare) == max,
        spare < max ==> spec_reload_fill(0, max, spare) == spare,
        0 <= spec_reload_fill(0, max, spare) <= spare,
{
    if spare < max {
        vstd::arithmetic::div_mod::lemma_small_mod(spare as nat, max as nat);
    }
}

/// A completed reload never takes more rounds than the player carries: where the
/// magazine is not over-full and the spare rounds are not negative, the fill lies
/// between none and all of the spare rounds, so the spare count stays
/// non-negative; where the spare rounds do not cover the deficit, the magazine
/// takes exactly the spare rounds.
pub proof fn lemma_reload_fill_within_spare(current: int, max: int, spare: int)
    requires
        current <= max,
        spare >= 0,
    ensures
        0 <= spec_reload_fill(current, max, spare) <= spare,
        spare < max - current ==> spec_reload_fill(current, max, spare) == spare,
        spare >= max - current ==> spec_reload_fill(current, max, spare) == max - current,
{
    if spare < max - current {
        vstd::arithmetic::div_mod::lemma_small_mod(spare as nat, (max - current) as nat);
    }
}

/// A reload can start: the player carries at least one spare round.
pub fn reload_can_start(spare_ammo: &SpareAmmo) -> (r: bool)
    ensures
        r == (spare_ammo.current >= 1),
{
    !(spare_ammo.current < 1)
}

/// Adds the rounds of a picked up ammo box to the spare rounds.
pub fn pick_up_ammo(spare_ammo: &mut SpareAmmo, amount: i32)
    requires
        fits_i32(old(spare_ammo).current + amount),
    ensures
        final(spare_ammo).current == old(spare_ammo).current + amount,
{
    spare_ammo.current = spare_ammo.current + amount;
}

/// Only projectile shots make a shot sound.
pub fn shot_plays_sound(ammo_type: AmmoType) -> (r: bool)
    ensures
        r == (ammo_type == AmmoType::Projectile),
{
    match ammo_type {
        AmmoType::Projectile => true,
        AmmoType::Throwable => false,
        AmmoType::Static => false,
    }
}

/// The surface a bullet's ray hit, and whether the hit deals the bullet's damage
/// and ends the bullet: the player is hit without damage; anything else within
/// this frame's travel is a monster that takes the damage; anything further on is
/// the world.
pub fn bullet_impact(hit_is_player: bool, within_travel: bool) -> (r: (ImpactSurface, bool))
    ensures
        r == (if hit_is_player {
            (ImpactSurface::Player, false)
        } else if within_travel {
            (ImpactSurface::Monster, true)
        } else {
            (ImpactSurface::World, false)
        }),
{
    if hit_is_player {
        (ImpactSurface::Player, false)
    } else if within_travel {
        (ImpactSurface::Monster, true)
    } else {
        (ImpactSurface::World, false)
    }
}

/// The list of impact sounds that a surface draws from.
#[derive(Clone, Copy, Debug, PartialEq, Eq, Structural)]
pub enum ImpactSoundList {
    World,
    Monster,
}

/// Impacts on the world draw from the world sounds; impacts on monsters, and for
/// now on the player, from the monster sounds.
pub open spec fn spec_impact_sound_list(surface: ImpactSurface) -> ImpactSoundList {
    match surface {
        ImpactSurface::World => ImpactSoundList::World,
        ImpactSurface::Monster => ImpactSoundList::Monster,
        ImpactSurface::Player => ImpactSoundList::Monster,
    }
}

/// Calls `rand::thread_rng().gen_range(0..len)`, which, as rand documents, returns
/// a number of the half-open range `0..len` and panics on an empty range. Which
/// number comes back is left to chance and not stated.
#[verifier::external_body]
fn random_index(len: usize) -> (idx: usize)
    requires
        len > 0,
    ensures
        idx < len,
{
    rand::thread_rng().gen_range(0..len)
}

/// Picks a random impact sound for a hit on `surface`: the list it draws from
/// (see `spec_impact_sound_list`) and an index into that list, whose length is
/// `world_len` or `monster_len`.
pub fn pick_impact_sound(surface: ImpactSurface, world_len: usize, monster_len: usize) -> (pick: (ImpactSoundList, usize))
    requires
        spec_impact_sound_list(surface) == ImpactSoundList::World ==> world_len > 0,
        spec_impact_sound_list(surface) == ImpactSoundList::Monster ==> monster_len > 0,
    ensures
        pick.0 == spec_impact_sound_list(surface),
        pick.0 == ImpactSoundList::World ==> pick.1 < world_len,
        pick.0 == ImpactSoundList::Monster ==> pick.1 < monster_len,
{
    match surface {
        ImpactSurface::World => (ImpactSoundList::World, random_index(world_len)),
        ImpactSurface::Monster => (ImpactSoundList::Monster, random_index(monster_len)),
        ImpactSurface::Player => (ImpactSoundList::Monster, random_index(monster_len)),
    }
}

} // verus!
