use vstd::prelude::*;
use crate::skills::Skills;

verus! {

/// Identity of an entity in the store. References between entities are
/// plain identities, checked for liveness before every use.
pub type EntityId = u64;

/// Seconds, in microseconds, between two attacks of one fighter.
pub const COOLDOWN: u64 = 1_000_000;

/// Length units per pixel.
pub const UNITS_PER_PIXEL: i64 = 1_000_000;

/// Side length of a fighter's square collision box, in length units.
pub const FIGHTER_SIZE: i64 = 32 * UNITS_PER_PIXEL;

/// The mutable combat state of one unit.
#[derive(Debug, Clone, Copy)]
pub struct Fighter {
    pub skills: Skills,
    pub hp: u8,
    /// Upper bound of the flat damage reduction roll.
    pub protection: u8,
    /// The opponent currently engaged, which may have left the store since.
    pub fighting: Option<EntityId>,
    /// Microseconds until the next attack is possible.
    pub attack_cooldown: u64,
    /// Blocked by a unit of the same side in front of it.
    pub waiting: bool,
}

impl Fighter {
    pub open spec fn spec_new(skills: Skills) -> Fighter {
        Fighter {
            skills,
            hp: skills.hp,
            protection: 0,
            fighting: None,
            attack_cooldown: 0,
            waiting: false,
        }
    }

    /// A fresh fighter at full health, unengaged and ready to attack.
    pub fn new(skills: Skills) -> (r: Fighter)
        ensures
            r == Fighter::spec_new(skills),
    {
        Fighter {
            hp: skills.hp,
            protection: 0,
            skills,
            fighting: None,
            attack_cooldown: 0,
            waiting: false,
        }
    }

    pub open spec fn spec_moving(&self) -> bool {
        !self.waiting && self.fighting.is_none()
    }

    /// A fighter walks when it is neither blocked nor engaged.
    pub fn moving(&self) -> (r: bool)
        ensures
            r == self.spec_moving(),
    {
        !self.waiting && self.fighting.is_none()
    }

    /// Health stays within the template's maximum, and damage can be rolled.
    pub open spec fn valid(&self) -> bool {
        &&& self.hp <= self.skills.hp
        &&& self.skills.valid()
    }
}

/// A fighter in the field: its identity, position, side and combat state.
/// `flipped` units belong to the right side and walk toward negative `x`.
#[derive(Debug, Clone, Copy)]
pub struct Unit {
    pub id: EntityId,
    pub x: i64,
    pub y: i64,
    pub flipped: bool,
    pub fighter: Fighter,
}

/// The cursor position in world length units.
#[derive(Debug, Clone, Copy, Default)]
pub struct MouseLoc {
    pub x: i64,
    pub y: i64,
}

} // verus!
