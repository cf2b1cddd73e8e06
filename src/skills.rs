use vstd::prelude::*;

verus! {

/// The immutable template a fighter is built from. `attack`, `defence` and
/// `strength` bound the dice rolls of combat, `hp` is the maximum health,
/// `speed` scales the walking pace and `siege` is the money paid for reaching
/// the far edge.
#[derive(Debug, Clone, Copy, PartialEq, Eq)]
pub struct Skills {
    pub price: u8,
    pub attack: u8,
    pub defence: u8,
    pub strength: u8,
    pub hp: u8,
    pub speed: u8,
    pub siege: u8,
}

impl Skills {
    /// A damage roll draws from `1..=strength`, which must not be empty.
    pub open spec fn valid(&self) -> bool {
        self.strength >= 1
    }
}

/// The three named skill sets a side can buy.
#[derive(Debug, Clone, Copy, PartialEq, Eq)]
pub enum Preset {
    Private,
    Fighter,
    Shieldsman,
}

impl Preset {
    pub open spec fn spec_skills(self) -> Skills {
        match self {
            Preset::Private => Skills {
                price: 2,
                attack: 15,
                defence: 15,
                strength: 5,
                hp: 20,
                speed: 30,
                siege: 5,
            },
            Preset::Fighter => Skills {
                price: 3,
                attack: 30,
                defence: 5,
                strength: 10,
                hp: 15,
                speed: 35,
                siege: 7,
            },
            Preset::Shieldsman => Skills {
                price: 3,
                attack: 5,
                defence: 30,
                strength: 5,
                hp: 30,
                speed: 20,
                siege: 1,
            },
        }
    }

    pub fn skills(&self) -> (r: Skills)
        ensures
            r == self.spec_skills(),
            r.valid(),
            r.price >= CHEAPEST_PRICE,
    {
        match self {
            Preset::Private => Skills {
                price: 2,
                attack: 15,
                defence: 15,
                strength: 5,
                hp: 20,
                speed: 30,
                siege: 5,
            },
            Preset::Fighter => Skills {
                price: 3,
                attack: 30,
                defence: 5,
                strength: 10,
                hp: 15,
                speed: 35,
                siege: 7,
            },
            Preset::Shieldsman => Skills {
                price: 3,
                attack: 5,
                defence: 30,
                strength: 5,
                hp: 30,
                speed: 20,
                siege: 1,
            },
        }
    }
}

/// `s` is one of the three presets.
pub open spec fn is_preset(s: Skills) -> bool {
    s == Preset::Private.spec_skills() || s == Preset::Fighter.spec_skills() || s == Preset::Shieldsman.spec_skills()
}

/// The price of the cheapest preset.
pub const CHEAPEST_PRICE: u8 = 2;

/// A mouse button as the placement input reports it.
#[derive(Debug, Clone, Copy, PartialEq, Eq)]
pub enum Button {
    Left,
    Middle,
    Right,
    Other,
}

pub open spec fn spec_preset_for(button: Button) -> Option<Preset> {
    match button {
        Button::Left => Some(Preset::Fighter),
        Button::Middle => Some(Preset::Private),
        Button::Right => Some(Preset::Shieldsman),
        Button::Other => None,
    }
}

/// Which preset a click of `button` buys, if any.
pub fn preset_for(button: Button) -> (r: Option<Preset>)
    ensures
        r == spec_preset_for(button),
{
    match button {
        Button::Left => Some(Preset::Fighter),
        Button::Middle => Some(Preset::Private),
        Button::Right => Some(Preset::Shieldsman),
        Button::Other => None,
    }
}

/// Whether the quit chord was given: escape pressed this frame while the left
/// shift key is held.
pub fn exit_on_esc_system(shift_held: bool, escape_just_pressed: bool) -> (r: bool)
    ensures
        r == (shift_held && escape_just_pressed),
{
    shift_held && escape_just_pressed
}

} // verus!
