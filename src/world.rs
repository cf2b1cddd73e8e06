use vstd::prelude::*;
use crate::fighter::{EntityId, Fighter, Unit};
use crate::skills::Skills;

verus! {

/// Bound on the coordinates of a unit, far beyond any field.
pub const POS_LIMIT: i64 = 1_152_921_504_606_846_976;

/// One second in microseconds.
pub const ONE_SECOND: i64 = 1_000_000;

/// The two sides' balances. The left side is the player's, the right side
/// the computer's.
#[derive(Debug, Clone, Copy, PartialEq, Eq)]
pub struct Money {
    pub left: i16,
    pub right: i16,
}

impl Money {
    pub open spec fn valid(&self) -> bool {
        self.left >= 0 && self.right >= 0
    }
}

/// `m` raised by `v`, held at the largest balance.
pub open spec fn spec_credit(m: i16, v: u8) -> i16 {
    if m + v > i16::MAX { i16::MAX } else { (m + v) as i16 }
}

pub fn credit(m: i16, v: u8) -> (r: i16)
    ensures
        r == spec_credit(m, v),
{
    if m > i16::MAX - v as i16 {
        i16::MAX
    } else {
        m + v as i16
    }
}

/// One of the two sides.
#[derive(Debug, Clone, Copy, PartialEq, Eq)]
pub enum Side {
    Left,
    Right,
}

/// The side a unit belongs to: flipped units are the right side's.
pub open spec fn side_of(flipped: bool) -> Side {
    if flipped { Side::Right } else { Side::Left }
}

/// A change to the balances.
#[derive(Debug, Clone, Copy, PartialEq, Eq)]
pub enum Ledger {
    /// One unit of money to a side for a kill.
    Bounty(Side),
    /// A unit's siege value to its side for crossing the field.
    Siege(Side, u8),
    /// A side buys a unit of the given price, if it can afford it.
    Purchase(Side, u8),
}

pub open spec fn balance(m: Money, side: Side) -> i16 {
    match side {
        Side::Left => m.left,
        Side::Right => m.right,
    }
}

pub open spec fn with_balance(m: Money, side: Side, v: i16) -> Money {
    match side {
        Side::Left => Money { left: v, ..m },
        Side::Right => Money { right: v, ..m },
    }
}

/// The balances after one entry: credits are held at the largest balance, a
/// purchase goes through only when the side has the price.
pub open spec fn apply_ledger(m: Money, e: Ledger) -> Money {
    match e {
        Ledger::Bounty(side) => with_balance(m, side, spec_credit(balance(m, side), 1)),
        Ledger::Siege(side, v) => with_balance(m, side, spec_credit(balance(m, side), v)),
        Ledger::Purchase(side, price) => if balance(m, side) >= price {
            with_balance(m, side, (balance(m, side) - price) as i16)
        } else {
            m
        },
    }
}

/// The balances after the entries `es`, in order.
pub open spec fn ledger_after(m: Money, es: Seq<Ledger>) -> Money
    decreases es.len(),
{
    if es.len() == 0 {
        m
    } else {
        apply_ledger(ledger_after(m, es.drop_last()), es.last())
    }
}

/// Balances never go negative: starting from non-negative balances, every
/// sequence of bounties, siege payments and purchases keeps both balances
/// non-negative after each entry.
pub proof fn lemma_balances_never_negative(m: Money, es: Seq<Ledger>)
    requires
        m.valid(),
    ensures
        forall|i: int| 0 <= i <= es.len() ==> (#[trigger] ledger_after(m, es.take(i))).valid(),
    decreases es.len(),
{
    if es.len() > 0 {
        let init = es.drop_last();
        lemma_balances_never_negative(m, init);
        assert forall|i: int| 0 <= i <= es.len() implies (#[trigger] ledger_after(m, es.take(i))).valid() by {
            if i < es.len() {
                assert(es.take(i) =~= init.take(i));
            } else {
                assert(es.take(i) =~= es);
                assert(init.take(init.len() as int) =~= init);
                assert(ledger_after(m, init).valid());
            }
        }
    } else {
        assert forall|i: int| 0 <= i <= es.len() implies (#[trigger] ledger_after(m, es.take(i))).valid() by {
            assert(es.take(i).len() == 0);
        }
    }
}

/// Spawn geometry and the computer side's spawn timer. The zones are centred
/// at `-x` (left side) and `x` (right side); `height` is the field height;
/// `timer` counts microseconds down to the next autonomous spawn.
#[derive(Debug, Clone, Copy, PartialEq, Eq)]
pub struct SpawnZone {
    pub x: i64,
    pub timer: i64,
    pub height: i64,
}

impl SpawnZone {
    pub open spec fn valid(&self) -> bool {
        &&& 0 <= self.x <= POS_LIMIT
        &&& 0 < self.height <= POS_LIMIT
        &&& 0 <= self.timer <= ONE_SECOND
    }
}

/// A countdown that removes its own entity, and the entities tied to it,
/// when it runs out.
#[derive(Debug)]
pub struct Timeout {
    /// Microseconds left.
    pub time_left: u64,
    pub tied_to: Vec<EntityId>,
}

impl Timeout {
    /// A countdown of `time_left` microseconds tied to nothing.
    pub fn new(time_left: u64) -> (r: Timeout)
        ensures
            r.time_left == time_left,
            r.tied_to@ == Seq::<EntityId>::empty(),
    {
        Timeout { time_left, tied_to: Vec::new() }
    }

    /// The same countdown, tied to `tied_to` instead.
    pub fn tied_to(self, tied_to: Vec<EntityId>) -> (r: Timeout)
        ensures
            r.time_left == self.time_left,
            r.tied_to@ == tied_to@,
    {
        Timeout { tied_to, ..self }
    }
}

/// A short-lived visual: a damage number when `label` holds one, else a hit
/// marker.
#[derive(Debug)]
pub struct Effect {
    pub id: EntityId,
    pub x: i64,
    pub y: i64,
    pub label: Option<u8>,
    pub timeout: Option<Timeout>,
}

/// The entity store and the shared state of one simulation.
#[derive(Debug)]
pub struct World {
    pub units: Vec<Unit>,
    pub effects: Vec<Effect>,
    pub money: Money,
    pub zone: SpawnZone,
    /// Every identity handed out so far is below this one.
    pub next_id: EntityId,
}

/// A world as mathematical values, the form in which contracts relate one
/// world to the next.
pub struct State {
    pub units: Seq<Unit>,
    pub effects: Seq<Effect>,
    pub money: Money,
    pub zone: SpawnZone,
    pub next_id: EntityId,
}

impl World {
    pub open spec fn state(&self) -> State {
        State {
            units: self.units@,
            effects: self.effects@,
            money: self.money,
            zone: self.zone,
            next_id: self.next_id,
        }
    }
}

/// Every unit is healthy in form, within bounds and not engaged with itself.
pub open spec fn units_valid(units: Seq<Unit>) -> bool {
    forall|k: int| 0 <= k < units.len() ==> {
        &&& (#[trigger] units[k]).fighter.valid()
        &&& -POS_LIMIT <= units[k].x <= POS_LIMIT
        &&& -POS_LIMIT <= units[k].y <= POS_LIMIT
        &&& units[k].fighter.fighting != Some(units[k].id)
    }
}

/// Identities are below `next` and no two entities share one.
pub open spec fn ids_fresh(units: Seq<Unit>, effects: Seq<Effect>, next: EntityId) -> bool {
    &&& forall|k: int| 0 <= k < units.len() ==> (#[trigger] units[k]).id < next
    &&& forall|k: int| 0 <= k < effects.len() ==> (#[trigger] effects[k]).id < next
    &&& forall|k1: int, k2: int| 0 <= k1 < units.len() && 0 <= k2 < units.len() && k1 != k2
        ==> (#[trigger] units[k1]).id != (#[trigger] units[k2]).id
    &&& forall|k1: int, k2: int| 0 <= k1 < effects.len() && 0 <= k2 < effects.len() && k1 != k2
        ==> (#[trigger] effects[k1]).id != (#[trigger] effects[k2]).id
    &&& forall|k1: int, k2: int| 0 <= k1 < units.len() && 0 <= k2 < effects.len()
        ==> (#[trigger] units[k1]).id != (#[trigger] effects[k2]).id
}

/// Some unit has identity `id`.
pub open spec fn has_unit(units: Seq<Unit>, id: EntityId) -> bool {
    exists|k: int| 0 <= k < units.len() && (#[trigger] units[k]).id == id
}

/// The position of the unit with identity `id`, where there is one.
pub open spec fn unit_index(units: Seq<Unit>, id: EntityId) -> int {
    choose|k: int| 0 <= k < units.len() && (#[trigger] units[k]).id == id
}

impl World {
    pub open spec fn valid(&self) -> bool {
        &&& units_valid(self.units@)
        &&& ids_fresh(self.units@, self.effects@, self.next_id)
        &&& self.money.valid()
        &&& self.zone.valid()
    }
}

/// The position of the first unit with identity `id`.
pub fn find_unit(units: &Vec<Unit>, id: EntityId) -> (r: Option<usize>)
    ensures
        r is None <==> !has_unit(units@, id),
        r matches Some(k) ==> k < units@.len() && units@[k as int].id == id,
{
    let mut k: usize = 0;
    while k < units.len()
        invariant
            k <= units@.len(),
            forall|m: int| 0 <= m < k ==> (#[trigger] units@[m]).id != id,
        decreases units@.len() - k,
    {
        if units[k].id == id {
            return Some(k);
        }
        k += 1;
    }
    None
}

/// With distinct identities, a unit found by identity is the one `unit_index` names.
pub proof fn lemma_unit_index(units: Seq<Unit>, id: EntityId, k: int)
    requires
        0 <= k < units.len(),
        units[k].id == id,
        forall|k1: int, k2: int| 0 <= k1 < units.len() && 0 <= k2 < units.len() && k1 != k2
            ==> (#[trigger] units[k1]).id != (#[trigger] units[k2]).id,
    ensures
        has_unit(units, id),
        unit_index(units, id) == k,
{
    assert(units[k].id == id);
}


/// Replacing a unit by a valid one of the same identity keeps the store valid.
pub proof fn lemma_update_unit(units: Seq<Unit>, effects: Seq<Effect>, next: EntityId, i: int, v: Unit)
    requires
        units_valid(units),
        ids_fresh(units, effects, next),
        0 <= i < units.len(),
        v.id == units[i].id,
        units_valid(seq![v]),
    ensures
        units_valid(units.update(i, v)),
        ids_fresh(units.update(i, v), effects, next),
{
    let n = units.update(i, v);
    assert(v == seq![v][0]);
    assert forall|k: int| 0 <= k < n.len() implies (#[trigger] n[k]).id == units[k].id by {}
}

/// Removing a unit keeps the store valid.
pub proof fn lemma_remove_unit(units: Seq<Unit>, effects: Seq<Effect>, next: EntityId, i: int)
    requires
        units_valid(units),
        ids_fresh(units, effects, next),
        0 <= i < units.len(),
    ensures
        units_valid(units.remove(i)),
        ids_fresh(units.remove(i), effects, next),
{
    let n = units.remove(i);
    assert forall|k: int| 0 <= k < n.len() implies #[trigger] n[k] == units[if k < i { k } else { k + 1 }] by {}
    assert forall|k1: int, k2: int| 0 <= k1 < n.len() && 0 <= k2 < n.len() && k1 != k2
        implies (#[trigger] n[k1]).id != (#[trigger] n[k2]).id by {
        assert(n[k1] == units[if k1 < i { k1 } else { k1 + 1 }]);
        assert(n[k2] == units[if k2 < i { k2 } else { k2 + 1 }]);
    }
    assert forall|k1: int, k2: int| 0 <= k1 < n.len() && 0 <= k2 < effects.len()
        implies (#[trigger] n[k1]).id != (#[trigger] effects[k2]).id by {
        assert(n[k1] == units[if k1 < i { k1 } else { k1 + 1 }]);
    }
}


/// What a filter keeps of a list of units keeps fresh identities, and
/// validity, and each kept unit stands in the unfiltered list.
pub proof fn lemma_filter_units(units: Seq<Unit>, effects: Seq<Effect>, next: EntityId, keep: spec_fn(Unit) -> bool)
    requires
        ids_fresh(units, effects, next),
    ensures
        units_valid(units) ==> units_valid(units.filter(keep)),
        ids_fresh(units.filter(keep), effects, next),
        forall|k: int| 0 <= k < units.filter(keep).len() ==> units.contains(#[trigger] units.filter(keep)[k]),
    decreases units.len(),
{
    if units.len() > 0 {
        let init = units.drop_last();
        let l = units.last();
        assert forall|k: int| 0 <= k < init.len() implies #[trigger] init[k] == units[k] by {}
        assert(units_valid(units) ==> units_valid(init));
        assert(ids_fresh(init, effects, next));
        lemma_filter_units(init, effects, next, keep);
        let fi = init.filter(keep);
        let f = units.filter(keep);
        reveal_with_fuel(Seq::<_>::filter, 1);
        assert forall|k: int| 0 <= k < fi.len() implies units.contains(#[trigger] fi[k]) by {
            assert(init.contains(fi[k]));
            let m = choose|m: int| 0 <= m < init.len() && init[m] == fi[k];
            assert(units[m] == fi[k]);
        }
        assert forall|k: int| 0 <= k < fi.len() implies (#[trigger] fi[k]).id != l.id by {
            assert(init.contains(fi[k]));
            let m = choose|m: int| 0 <= m < init.len() && init[m] == fi[k];
            assert(units[m] == fi[k]);
            assert(units[units.len() - 1] == l);
        }
        assert(units[units.len() - 1] == l);
        assert(units.contains(l));
        if keep(l) {
            assert(f == fi.push(l));
            assert forall|k: int| 0 <= k < f.len() implies #[trigger] f[k] == if k < fi.len() { fi[k] } else { l } by {}
        } else {
            assert(f == fi);
        }
        assert forall|k: int| 0 <= k < f.len() implies units.contains(#[trigger] f[k]) by {
            if k < fi.len() {
                assert(f[k] == fi[k]);
            }
        }
        assert forall|k: int| 0 <= k < f.len() implies (#[trigger] f[k]).id < next && (units_valid(units) ==> f[k].fighter.valid()
            && -POS_LIMIT <= f[k].x <= POS_LIMIT && -POS_LIMIT <= f[k].y <= POS_LIMIT && f[k].fighter.fighting != Some(f[k].id)) by {
            assert(units.contains(f[k]));
            let m = choose|m: int| 0 <= m < units.len() && units[m] == f[k];
        }
        assert forall|k1: int, k2: int| 0 <= k1 < f.len() && 0 <= k2 < effects.len()
            implies (#[trigger] f[k1]).id != (#[trigger] effects[k2]).id by {
            assert(units.contains(f[k1]));
            let m = choose|m: int| 0 <= m < units.len() && units[m] == f[k1];
        }
        assert forall|k1: int, k2: int| 0 <= k1 < f.len() && 0 <= k2 < f.len() && k1 != k2
            implies (#[trigger] f[k1]).id != (#[trigger] f[k2]).id by {
            if k1 < fi.len() && k2 < fi.len() {
                assert(f[k1] == fi[k1]);
                assert(f[k2] == fi[k2]);
            } else if k1 < fi.len() {
                assert(f[k1] == fi[k1]);
            } else {
                assert(f[k2] == fi[k2]);
            }
        }
    }
}


/// A fresh unit: full health, unengaged, ready.
pub open spec fn spawned(id: EntityId, x: i64, y: i64, flipped: bool, skills: Skills) -> Unit {
    Unit { id, x, y, flipped, fighter: Fighter::spec_new(skills) }
}

/// Adds a fresh unit under the next identity.
pub fn spawn_unit(world: &mut World, x: i64, y: i64, flipped: bool, skills: Skills)
    requires
        old(world).valid(),
        old(world).next_id < u64::MAX,
        -POS_LIMIT <= x <= POS_LIMIT,
        -POS_LIMIT <= y <= POS_LIMIT,
        skills.valid(),
    ensures
        final(world).valid(),
        final(world).units@ == old(world).units@.push(spawned(old(world).next_id, x, y, flipped, skills)),
        final(world).next_id == old(world).next_id + 1,
        final(world).effects@ == old(world).effects@,
        final(world).money == old(world).money,
        final(world).zone == old(world).zone,
{
    let ghost u0 = world.units@;
    let id = world.next_id;
    world.units.push(Unit { id, x, y, flipped, fighter: Fighter::new(skills) });
    world.next_id = id + 1;
    let ghost u = world.units@;
    assert forall|k: int| 0 <= k < u.len() implies #[trigger] u[k] == if k < u0.len() { u0[k] } else {
        spawned(id, x, y, flipped, skills)
    } by {}
    assert forall|k1: int, k2: int| 0 <= k1 < u.len() && 0 <= k2 < u.len() && k1 != k2
        implies (#[trigger] u[k1]).id != (#[trigger] u[k2]).id by {
        if k1 < u0.len() && k2 < u0.len() {
            assert(u[k1] == u0[k1]);
            assert(u[k2] == u0[k2]);
        } else if k1 < u0.len() {
            assert(u[k1] == u0[k1]);
        } else {
            assert(u[k2] == u0[k2]);
        }
    }
    assert forall|k1: int, k2: int| 0 <= k1 < u.len() && 0 <= k2 < world.effects@.len()
        implies (#[trigger] u[k1]).id != (#[trigger] world.effects@[k2]).id by {
        if k1 < u0.len() {
            assert(u[k1] == u0[k1]);
        }
    }
}


/// What a filter keeps of the effects of a valid store stays valid, and each
/// kept effect stands in the unfiltered list.
pub proof fn lemma_filter_effects(units: Seq<Unit>, effects: Seq<Effect>, next: EntityId, keep: spec_fn(Effect) -> bool)
    requires
        ids_fresh(units, effects, next),
    ensures
        ids_fresh(units, effects.filter(keep), next),
        forall|k: int| 0 <= k < effects.filter(keep).len() ==> effects.contains(#[trigger] effects.filter(keep)[k]),
    decreases effects.len(),
{
    if effects.len() > 0 {
        let init = effects.drop_last();
        let l = effects.last();
        assert forall|k: int| 0 <= k < init.len() implies #[trigger] init[k] == effects[k] by {}
        assert(ids_fresh(units, init, next));
        lemma_filter_effects(units, init, next, keep);
        let fi = init.filter(keep);
        let f = effects.filter(keep);
        reveal_with_fuel(Seq::<_>::filter, 1);
        assert forall|k: int| 0 <= k < fi.len() implies effects.contains(#[trigger] fi[k]) && fi[k].id != l.id by {
            assert(init.contains(fi[k]));
            let m = choose|m: int| 0 <= m < init.len() && init[m] == fi[k];
            assert(effects[m] == fi[k]);
            assert(effects[effects.len() - 1] == l);
        }
        assert(effects[effects.len() - 1] == l);
        assert(effects.contains(l));
        if keep(l) {
            assert(f == fi.push(l));
            assert forall|k: int| 0 <= k < f.len() implies #[trigger] f[k] == if k < fi.len() { fi[k] } else { l } by {}
        } else {
            assert(f == fi);
        }
        assert forall|k: int| 0 <= k < f.len() implies effects.contains(#[trigger] f[k]) by {
            if k < fi.len() {
                assert(f[k] == fi[k]);
            }
        }
        assert forall|k: int| 0 <= k < f.len() implies (#[trigger] f[k]).id < next by {
            assert(effects.contains(f[k]));
            let m = choose|m: int| 0 <= m < effects.len() && effects[m] == f[k];
        }
        assert forall|k1: int, k2: int| 0 <= k1 < units.len() && 0 <= k2 < f.len()
            implies (#[trigger] units[k1]).id != (#[trigger] f[k2]).id by {
            assert(effects.contains(f[k2]));
            let m = choose|m: int| 0 <= m < effects.len() && effects[m] == f[k2];
        }
        assert forall|k1: int, k2: int| 0 <= k1 < f.len() && 0 <= k2 < f.len() && k1 != k2
            implies (#[trigger] f[k1]).id != (#[trigger] f[k2]).id by {
            if k1 < fi.len() && k2 < fi.len() {
                assert(f[k1] == fi[k1]);
                assert(f[k2] == fi[k2]);
            } else if k1 < fi.len() {
                assert(f[k1] == fi[k1]);
            } else {
                assert(f[k2] == fi[k2]);
            }
        }
    }
}

} // verus!
