use vstd::prelude::*;
use crate::dice::roll;
use crate::fighter::{EntityId, Unit, COOLDOWN, UNITS_PER_PIXEL};
use crate::skills::Skills;
use crate::world::{
    credit, find_unit, has_unit, ids_fresh, lemma_remove_unit, lemma_unit_index, lemma_update_unit,
    unit_index, units_valid, apply_ledger, side_of, Effect, Ledger, Money, State, Timeout, World,
};

verus! {

/// How long, in microseconds, the marks of a hit stay on screen.
pub const EFFECT_LIFETIME: u64 = 1_150_000;

/// How far above the defender the marks of a hit appear.
pub const MARK_RISE: i64 = 45 * UNITS_PER_PIXEL;

/// A ready attacker, its opponent, and the attacker's skills when it became
/// ready.
#[derive(Debug, Clone, Copy, PartialEq, Eq)]
pub struct Attack {
    pub attacker: EntityId,
    pub target: EntityId,
    pub skills: Skills,
}

/// The four dice of one attack: `hit` against `guard` decides whether it
/// lands, then `damage` less `reduction` is dealt.
#[derive(Debug, Clone, Copy, PartialEq, Eq)]
pub struct Rolls {
    pub hit: u8,
    pub guard: u8,
    pub damage: u8,
    pub reduction: u8,
}

pub open spec fn sat_sub_u64(a: u64, b: u64) -> u64 {
    if a >= b { (a - b) as u64 } else { 0 }
}

pub open spec fn sat_add_u64(a: u64, b: u64) -> u64 {
    if a + b > u64::MAX { u64::MAX } else { (a + b) as u64 }
}

pub open spec fn sat_sub_u8(a: u8, b: u8) -> u8 {
    if a >= b { (a - b) as u8 } else { 0 }
}

/// `u` after `dt` microseconds of cooling down.
pub open spec fn cooled(u: Unit, dt: u32) -> Unit {
    Unit {
        fighter: crate::fighter::Fighter {
            attack_cooldown: sat_sub_u64(u.fighter.attack_cooldown, dt as u64),
            ..u.fighter
        },
        ..u
    }
}

/// A unit whose cooldown has run out and which has an opponent strikes.
pub open spec fn ready(u: Unit) -> bool {
    u.fighter.attack_cooldown == 0 && u.fighter.fighting is Some
}

pub open spec fn attack_of(u: Unit) -> Attack {
    Attack { attacker: u.id, target: u.fighter.fighting.unwrap(), skills: u.fighter.skills }
}

/// The attacks of the ready units, in the order of the units.
pub open spec fn attacks_of(units: Seq<Unit>) -> Seq<Attack>
    decreases units.len(),
{
    if units.len() == 0 {
        Seq::empty()
    } else {
        let rest = attacks_of(units.drop_last());
        if ready(units.last()) { rest.push(attack_of(units.last())) } else { rest }
    }
}

/// The first combat phase: every unit cools down by `dt` microseconds, never
/// below zero, and each unit then ready hands out its attack. No unit reads
/// another.
pub fn cooldown_phase(units: &mut Vec<Unit>, dt: u32) -> (r: Vec<Attack>)
    ensures
        final(units)@ == Seq::new(old(units)@.len(), |k: int| cooled(old(units)@[k], dt)),
        r@ == attacks_of(final(units)@),
{
    let ghost u0 = units@;
    let mut r: Vec<Attack> = Vec::new();
    let mut k: usize = 0;
    while k < units.len()
        invariant
            units@.len() == u0.len(),
            k <= u0.len(),
            forall|m: int| 0 <= m < k ==> units@[m] == cooled(u0[m], dt),
            forall|m: int| k <= m < u0.len() ==> units@[m] == u0[m],
            r@ == attacks_of(units@.take(k as int)),
        decreases u0.len() - k,
    {
        let ghost before = units@;
        let mut u = units[k];
        u.fighter.attack_cooldown = u.fighter.attack_cooldown.saturating_sub(dt as u64);
        units.set(k, u);
        assert(units@.take(k as int) =~= before.take(k as int));
        assert(units@.take(k + 1).drop_last() =~= units@.take(k as int));
        assert(units@.take(k + 1).last() == u);
        if u.fighter.attack_cooldown == 0 {
            match u.fighter.fighting {
                Some(t) => {
                    r.push(Attack { attacker: u.id, target: t, skills: u.fighter.skills });
                },
                None => {},
            }
        }
        k += 1;
    }
    assert(units@.take(k as int) =~= units@);
    assert(units@ =~= Seq::new(u0.len(), |k: int| cooled(u0[k], dt)));
    r
}

/// The damage an attack with `r` deals: nothing on a miss, else the damage
/// roll less the reduction roll, never below zero.
pub open spec fn spec_dealt(r: Rolls) -> u8 {
    if r.hit > r.guard { sat_sub_u8(r.damage, r.reduction) } else { 0 }
}

pub fn dealt(r: &Rolls) -> (d: u8)
    ensures
        d == spec_dealt(*r),
{
    if r.hit > r.guard { r.damage.saturating_sub(r.reduction) } else { 0 }
}

/// The attacker after striking: its cooldown raised by `COOLDOWN`.
pub open spec fn rearmed(u: Unit) -> Unit {
    Unit {
        fighter: crate::fighter::Fighter {
            attack_cooldown: sat_add_u64(u.fighter.attack_cooldown, COOLDOWN),
            ..u.fighter
        },
        ..u
    }
}

/// The attacker whose opponent is gone: unengaged and rearmed.
pub open spec fn disengaged(u: Unit) -> Unit {
    Unit {
        fighter: crate::fighter::Fighter {
            fighting: None,
            attack_cooldown: sat_add_u64(u.fighter.attack_cooldown, COOLDOWN),
            ..u.fighter
        },
        ..u
    }
}

/// The defender after taking `d` damage, never below zero.
pub open spec fn wounded(u: Unit, d: u8) -> Unit {
    Unit { fighter: crate::fighter::Fighter { hp: sat_sub_u8(u.fighter.hp, d), ..u.fighter }, ..u }
}

/// The bounty for a kill goes to the side opposite the fallen unit.
pub open spec fn spec_bounty(m: Money, fallen_flipped: bool) -> Money {
    apply_ledger(m, Ledger::Bounty(side_of(!fallen_flipped)))
}

/// The two marks of a hit, at identities `id` and `id + 1`: the number `d` and
/// a marker whose countdown of `EFFECT_LIFETIME` also removes the number.
pub open spec fn hit_marks_added(before: Seq<Effect>, after: Seq<Effect>, x: i64, y: i64, d: u8, id: EntityId) -> bool {
    &&& after.len() == before.len() + 2
    &&& after.take(before.len() as int) == before
    &&& after[before.len() as int].id == id
    &&& after[before.len() as int].x == x
    &&& after[before.len() as int].y == y + MARK_RISE
    &&& after[before.len() as int].label == Some(d)
    &&& after[before.len() as int].timeout is None
    &&& after[before.len() + 1int].id == id + 1
    &&& after[before.len() + 1int].x == x
    &&& after[before.len() + 1int].y == y + MARK_RISE
    &&& after[before.len() + 1int].label is None
    &&& after[before.len() + 1int].timeout matches Some(t) && t.time_left == EFFECT_LIFETIME && t.tied_to@ == seq![id]
}

fn add_hit_marks(world: &mut World, x: i64, y: i64, d: u8)
    requires
        old(world).valid(),
        -crate::world::POS_LIMIT <= y <= crate::world::POS_LIMIT,
        old(world).next_id <= u64::MAX - 2,
    ensures
        final(world).valid(),
        hit_marks_added(old(world).effects@, final(world).effects@, x, y, d, old(world).next_id),
        final(world).next_id == old(world).next_id + 2,
        final(world).units@ == old(world).units@,
        final(world).money == old(world).money,
        final(world).zone == old(world).zone,
{
    let ghost e0 = world.effects@;
    let id = world.next_id;
    let mut tied: Vec<EntityId> = Vec::new();
    tied.push(id);
    world.effects.push(Effect { id, x, y: y + MARK_RISE, label: Some(d), timeout: None });
    world.effects.push(Effect {
        id: id + 1,
        x,
        y: y + MARK_RISE,
        label: None,
        timeout: Some(Timeout::new(EFFECT_LIFETIME).tied_to(tied)),
    });
    world.next_id = id + 2;
    assert(world.effects@.take(e0.len() as int) =~= e0);
    let ghost e = world.effects@;
    assert forall|k: int| 0 <= k < e.len() implies (#[trigger] e[k]).id < world.next_id by {
        if k < e0.len() {
            assert(e[k] == e0[k]);
        }
    }
    assert forall|k1: int, k2: int| 0 <= k1 < e.len() && 0 <= k2 < e.len() && k1 != k2
        implies (#[trigger] e[k1]).id != (#[trigger] e[k2]).id by {
        if k1 < e0.len() {
            assert(e[k1] == e0[k1]);
        }
        if k2 < e0.len() {
            assert(e[k2] == e0[k2]);
        }
    }
    let ghost u = world.units@;
    assert forall|k1: int, k2: int| 0 <= k1 < u.len() && 0 <= k2 < e.len()
        implies (#[trigger] u[k1]).id != (#[trigger] e[k2]).id by {
        if k2 < e0.len() {
            assert(e[k2] == e0[k2]);
        }
    }
}


/// The dice of an attack fit it: each roll lies in its bound when the
/// target is there, and all are zero when it is gone.
pub open spec fn rolls_fit(a: Attack, units: Seq<Unit>, r: Rolls) -> bool {
    if has_unit(units, a.target) {
        let d = units[unit_index(units, a.target)].fighter;
        &&& r.hit <= a.skills.attack
        &&& r.guard <= d.skills.defence
        &&& 1 <= r.damage <= a.skills.strength
        &&& r.reduction <= d.protection
    } else {
        r == Rolls { hit: 0, guard: 0, damage: 0, reduction: 0 }
    }
}

/// `t` is what the attack `a` with dice `r` makes of `s`.
///
/// When the attacker is gone nothing happens. When the target is gone the
/// attacker lets go of it and rearms. Otherwise the attacker rearms and the
/// target takes `spec_dealt(r)`; a hit leaves two marks, while identities
/// last, and a hit that brings the target to zero health removes it and pays
/// the bounty to the other side.
pub open spec fn attack_outcome(s: State, a: Attack, r: Rolls, t: State) -> bool {
    let u = s.units;
    &&& t.zone == s.zone
    &&& !has_unit(u, a.attacker) ==> {
        &&& t.units == u
        &&& t.effects == s.effects
        &&& t.money == s.money
        &&& t.next_id == s.next_id
    }
    &&& has_unit(u, a.attacker) && !has_unit(u, a.target) ==> {
        let ia = unit_index(u, a.attacker);
        &&& t.units == u.update(ia, disengaged(u[ia]))
        &&& t.effects == s.effects
        &&& t.money == s.money
        &&& t.next_id == s.next_id
    }
    &&& has_unit(u, a.attacker) && has_unit(u, a.target) ==> {
        let ia = unit_index(u, a.attacker);
        let it = unit_index(u, a.target);
        let hit = r.hit > r.guard;
        let hurt = wounded(u[it], spec_dealt(r));
        let u1 = u.update(ia, rearmed(u[ia])).update(it, hurt);
        let killed = hit && hurt.fighter.hp == 0;
        let marked = hit && s.next_id <= u64::MAX - 2;
        &&& t.units == if killed { u1.remove(it) } else { u1 }
        &&& t.money == if killed { spec_bounty(s.money, u[it].flipped) } else { s.money }
        &&& marked ==> hit_marks_added(s.effects, t.effects, u[it].x, u[it].y, spec_dealt(r), s.next_id)
        &&& marked ==> t.next_id == s.next_id + 2
        &&& !marked ==> t.effects == s.effects
        &&& !marked ==> t.next_id == s.next_id
    }
}

/// What one attack does to a valid world, given its dice: see
/// `attack_outcome`.
pub fn resolve_attack(world: &mut World, attack: &Attack, rolls: Rolls)
    requires
        old(world).valid(),
        attack.attacker != attack.target,
    ensures
        final(world).valid(),
        attack_outcome(old(world).state(), *attack, rolls, final(world).state()),
{
    let ghost u = world.units@;
    let ia = match find_unit(&world.units, attack.attacker) {
        Some(ia) => ia,
        None => {
            return;
        },
    };
    proof {
        lemma_unit_index(u, attack.attacker, ia as int);
    }
    match find_unit(&world.units, attack.target) {
        None => {
            let mut a = world.units[ia];
            a.fighter.fighting = None;
            a.fighter.attack_cooldown = a.fighter.attack_cooldown.saturating_add(COOLDOWN);
            proof {
                assert(units_valid(seq![a])) by {
                    assert(seq![a][0] == a);
                    assert(u[ia as int].fighter.valid());
                }
                lemma_update_unit(u, world.effects@, world.next_id, ia as int, a);
            }
            world.units.set(ia, a);
        },
        Some(it) => {
            proof {
                lemma_unit_index(u, attack.target, it as int);
            }
            let mut a = world.units[ia];
            a.fighter.attack_cooldown = a.fighter.attack_cooldown.saturating_add(COOLDOWN);
            proof {
                assert(units_valid(seq![a])) by {
                    assert(seq![a][0] == a);
                    assert(u[ia as int].fighter.valid());
                }
                lemma_update_unit(u, world.effects@, world.next_id, ia as int, a);
            }
            world.units.set(ia, a);
            let d = dealt(&rolls);
            let mut t = world.units[it];
            t.fighter.hp = t.fighter.hp.saturating_sub(d);
            proof {
                assert(units_valid(seq![t])) by {
                    assert(seq![t][0] == t);
                    assert(u[it as int].fighter.valid());
                }
                lemma_update_unit(world.units@, world.effects@, world.next_id, it as int, t);
            }
            world.units.set(it, t);
            if rolls.hit > rolls.guard {
                if world.next_id <= u64::MAX - 2 {
                    add_hit_marks(world, t.x, t.y, d);
                }
                if t.fighter.hp == 0 {
                    if t.flipped {
                        world.money.left = credit(world.money.left, 1);
                    } else {
                        world.money.right = credit(world.money.right, 1);
                    }
                    proof {
                        lemma_remove_unit(world.units@, world.effects@, world.next_id, it as int);
                    }
                    world.units.remove(it);
                }
            }
        },
    }
}


/// Every attack handed out by valid units names another unit as target and
/// carries skills that can roll damage.
pub proof fn lemma_attacks_sound(units: Seq<Unit>)
    requires
        units_valid(units),
    ensures
        forall|k: int| 0 <= k < attacks_of(units).len() ==> {
            &&& (#[trigger] attacks_of(units)[k]).attacker != attacks_of(units)[k].target
            &&& attacks_of(units)[k].skills.valid()
        },
    decreases units.len(),
{
    if units.len() > 0 {
        let init = units.drop_last();
        assert forall|k: int| 0 <= k < init.len() implies #[trigger] init[k] == units[k] by {}
        lemma_attacks_sound(init);
        let l = units.last();
        assert(units[units.len() - 1] == l);
        assert(l.fighter.valid() && l.fighter.fighting != Some(l.id));
        let r = attacks_of(units);
        let ri = attacks_of(init);
        if ready(l) {
            assert(r == ri.push(attack_of(l)));
            assert(attack_of(l).attacker != attack_of(l).target);
            assert forall|k: int| 0 <= k < r.len() implies (#[trigger] r[k]).attacker != r[k].target && r[k].skills.valid() by {
                if k < ri.len() {
                    assert(r[k] == ri[k]);
                }
            }
        } else {
            assert(r == ri);
        }
    }
}

/// `a` is `b` after combat: same identity, position, side, skills,
/// protection and waiting flag, and no more health.
pub open spec fn kept_through(a: Unit, b: Unit) -> bool {
    &&& a.id == b.id
    &&& a.x == b.x
    &&& a.y == b.y
    &&& a.flipped == b.flipped
    &&& a.fighter.skills == b.fighter.skills
    &&& a.fighter.protection == b.fighter.protection
    &&& a.fighter.waiting == b.fighter.waiting
    &&& a.fighter.hp <= b.fighter.hp
}

/// `a` is some unit of `s` kept through combat.
pub open spec fn has_ancestor(a: Unit, s: Seq<Unit>) -> bool {
    exists|m: int| 0 <= m < s.len() && #[trigger] kept_through(a, s[m])
}

/// Every unit of `t` is some unit of `s` kept through combat.
pub open spec fn descends(t: Seq<Unit>, s: Seq<Unit>) -> bool {
    forall|k: int| 0 <= k < t.len() ==> #[trigger] has_ancestor(t[k], s)
}

proof fn lemma_descends_trans(a: Seq<Unit>, b: Seq<Unit>, c: Seq<Unit>)
    requires
        descends(a, b),
        descends(b, c),
    ensures
        descends(a, c),
{
    assert forall|k: int| 0 <= k < a.len() implies #[trigger] has_ancestor(a[k], c) by {
        assert(has_ancestor(a[k], b));
        let m1 = choose|m: int| 0 <= m < b.len() && #[trigger] kept_through(a[k], b[m]);
        assert(has_ancestor(b[m1], c));
        let m2 = choose|m: int| 0 <= m < c.len() && #[trigger] kept_through(b[m1], c[m]);
        assert(kept_through(a[k], c[m2]));
    }
}

proof fn lemma_attack_descends(s: State, a: Attack, r: Rolls, t: State)
    requires
        attack_outcome(s, a, r, t),
        a.attacker != a.target,
        has_unit(s.units, a.attacker) && has_unit(s.units, a.target) ==> unit_index(s.units, a.attacker) != unit_index(s.units, a.target),
    ensures
        descends(t.units, s.units),
{
    let u = s.units;
    if !has_unit(u, a.attacker) {
        assert forall|k: int| 0 <= k < t.units.len() implies #[trigger] has_ancestor(t.units[k], u) by {
            assert(kept_through(t.units[k], u[k]));
        }
    } else if !has_unit(u, a.target) {
        let ia = unit_index(u, a.attacker);
        assert forall|k: int| 0 <= k < t.units.len() implies #[trigger] has_ancestor(t.units[k], u) by {
            assert(kept_through(t.units[k], u[k]));
        }
    } else {
        let ia = unit_index(u, a.attacker);
        let it = unit_index(u, a.target);
        let hurt = wounded(u[it], spec_dealt(r));
        let u1 = u.update(ia, rearmed(u[ia])).update(it, hurt);
        assert forall|k: int| 0 <= k < u1.len() implies #[trigger] kept_through(u1[k], u[k]) by {}
        let killed = r.hit > r.guard && hurt.fighter.hp == 0;
        assert forall|k: int| 0 <= k < t.units.len() implies #[trigger] has_ancestor(t.units[k], u) by {
            if killed {
                let k2 = if k < it { k } else { k + 1 };
                assert(t.units[k] == u1[k2]);
                assert(kept_through(u1[k2], u[k2]));
            } else {
                assert(kept_through(u1[k], u[k]));
            }
        }
    }
}

/// `s` with every unit cooled down by `dt` microseconds.
pub open spec fn cooled_state(s: State, dt: u32) -> State {
    State { units: Seq::new(s.units.len(), |k: int| cooled(s.units[k], dt)), ..s }
}

/// `ss` runs from `s` through the attacks `attacks` with the dice `rs`, one
/// state per attack resolved.
pub open spec fn combat_trace(s: State, attacks: Seq<Attack>, rs: Seq<Rolls>, ss: Seq<State>) -> bool {
    &&& rs.len() == attacks.len()
    &&& ss.len() == attacks.len() + 1
    &&& ss[0] == s
    &&& forall|k: int| 0 <= k < attacks.len() ==> #[trigger] trace_step(attacks, rs, ss, k)
}

/// Attack `k` of a trace has dice within its bounds and leads from state `k`
/// to state `k + 1`.
pub open spec fn trace_step(attacks: Seq<Attack>, rs: Seq<Rolls>, ss: Seq<State>, k: int) -> bool {
    rolls_fit(attacks[k], ss[k].units, rs[k]) && attack_outcome(ss[k], attacks[k], rs[k], ss[k + 1])
}

/// `t` is what a combat step of `dt` microseconds can make of `s`: every
/// unit cools down, then the attacks of the ready units are resolved in
/// order, each with dice within its bounds.
pub open spec fn combat_step(s: State, t: State, dt: u32) -> bool {
    let c = cooled_state(s, dt);
    exists|rs: Seq<Rolls>, ss: Seq<State>| #[trigger] combat_trace(c, attacks_of(c.units), rs, ss) && ss.last() == t
}

/// One combat step of `dt` microseconds: the cooldown phase, then each
/// handed-out attack in turn, with fresh dice for each attack whose target is
/// still there. The outcome is `combat_step` for some dice within their
/// bounds; whatever the dice, the world stays valid, no balance falls, and
/// units only leave.
pub fn combat_system(world: &mut World, dt: u32)
    requires
        old(world).valid(),
    ensures
        final(world).valid(),
        combat_step(old(world).state(), final(world).state(), dt),
        descends(final(world).units@, old(world).units@),
        final(world).zone == old(world).zone,
        final(world).money.left >= old(world).money.left,
        final(world).money.right >= old(world).money.right,
        final(world).units@.len() <= old(world).units@.len(),
        final(world).next_id >= old(world).next_id,
{
    let ghost s0 = world.state();
    let ghost w0_units = world.units@;
    let attacks = cooldown_phase(&mut world.units, dt);
    proof {
        let u = world.units@;
        assert forall|k: int| 0 <= k < u.len() implies #[trigger] u[k] == cooled(w0_units[k], dt) by {}
        assert(units_valid(u));
        assert(ids_fresh(u, world.effects@, world.next_id)) by {
            assert forall|k1: int, k2: int| 0 <= k1 < u.len() && 0 <= k2 < u.len() && k1 != k2
                implies (#[trigger] u[k1]).id != (#[trigger] u[k2]).id by {
                assert(u[k1].id == w0_units[k1].id);
                assert(u[k2].id == w0_units[k2].id);
            }
            assert forall|k1: int, k2: int| 0 <= k1 < u.len() && 0 <= k2 < world.effects@.len()
                implies (#[trigger] u[k1]).id != (#[trigger] world.effects@[k2]).id by {
                assert(u[k1].id == w0_units[k1].id);
            }
        }
        lemma_attacks_sound(u);
    }
    let ghost c = world.state();
    assert(c == cooled_state(s0, dt));
    assert forall|k: int| 0 <= k < world.units@.len() implies #[trigger] has_ancestor(world.units@[k], w0_units) by {
        assert(kept_through(world.units@[k], w0_units[k]));
    }
    let ghost mut rs: Seq<Rolls> = Seq::empty();
    let ghost mut ss: Seq<State> = seq![c];
    let ghost m0 = world.money;
    let ghost n0 = world.units@.len();
    let ghost z0 = world.zone;
    let ghost id0 = world.next_id;
    let mut k: usize = 0;
    while k < attacks.len()
        invariant
            world.valid(),
            world.zone == z0,
            world.money.left >= m0.left,
            world.money.right >= m0.right,
            world.units@.len() <= n0,
            world.next_id >= id0,
            k <= attacks@.len(),
            forall|m: int| 0 <= m < attacks@.len() ==> {
                &&& (#[trigger] attacks@[m]).attacker != attacks@[m].target
                &&& attacks@[m].skills.valid()
            },
            combat_trace(c, attacks@.take(k as int), rs, ss),
            ss.last() == world.state(),
            descends(world.units@, w0_units),
        decreases attacks@.len() - k,
    {
        let a = attacks[k];
        assert(attacks@[k as int] == a);
        let ghost before = world.state();
        let rolls = match find_unit(&world.units, a.target) {
            Some(it) => {
                proof {
                    lemma_unit_index(world.units@, a.target, it as int);
                }
                let d = world.units[it].fighter;
                Rolls {
                    hit: roll(0, a.skills.attack),
                    guard: roll(0, d.skills.defence),
                    damage: roll(1, a.skills.strength),
                    reduction: roll(0, d.protection),
                }
            },
            None => Rolls { hit: 0, guard: 0, damage: 0, reduction: 0 },
        };
        assert(rolls_fit(a, before.units, rolls));
        resolve_attack(world, &a, rolls);
        proof {
            if has_unit(before.units, a.attacker) && has_unit(before.units, a.target) {
                let ia = unit_index(before.units, a.attacker);
                let it = unit_index(before.units, a.target);
                assert(before.units[ia].id != before.units[it].id);
            }
            lemma_attack_descends(before, a, rolls, world.state());
            lemma_descends_trans(world.units@, before.units, w0_units);
            let ts = attacks@.take(k as int);
            let ts2 = attacks@.take(k + 1);
            let rs2 = rs.push(rolls);
            let ss2 = ss.push(world.state());
            assert forall|m: int| 0 <= m < ts2.len() implies #[trigger] trace_step(ts2, rs2, ss2, m) by {
                if m < k {
                    assert(ts2[m] == ts[m]);
                    assert(ss2[m] == ss[m]);
                    assert(ss2[m + 1] == ss[m + 1]);
                    assert(rs2[m] == rs[m]);
                    assert(trace_step(ts, rs, ss, m));
                } else {
                    assert(ts2[m] == a);
                    assert(ss2[m] == before);
                    assert(ss2[m + 1] == world.state());
                    assert(rs2[m] == rolls);
                }
            }
            assert(ss2[0] == ss[0]);
            assert(rs2.len() == ts2.len());
            assert(ss2.len() == ts2.len() + 1);
            assert(ss2[0] == c);
            assert(combat_trace(c, ts2, rs2, ss2));
            rs = rs2;
            ss = ss2;
        }
        k += 1;
    }
    assert(attacks@.take(k as int) =~= attacks@);
    assert(combat_trace(c, attacks_of(c.units), rs, ss));
}

} // verus!
