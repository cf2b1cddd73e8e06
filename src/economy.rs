use vstd::prelude::*;
use vstd::arithmetic::div_mod::{lemma_div_is_ordered, lemma_div_is_ordered_by_denominator};
use crate::dice::{choose_preset, random_between};
use crate::fighter::{Fighter, MouseLoc, Unit, UNITS_PER_PIXEL};
use crate::movement::{lane_wrap, spec_lane_wrap};
use crate::skills::{is_preset, preset_for, spec_preset_for, Button, Preset, CHEAPEST_PRICE};
use crate::world::{apply_ledger, spawn_unit, spawned, Ledger, Money, Side, SpawnZone, State, World, ONE_SECOND, POS_LIMIT};

verus! {

/// Width of a spawn zone.
pub const SPAWN_WIDTH: i64 = 64 * UNITS_PER_PIXEL;

/// A click at `loc` lies within reach of the left spawn zone.
pub open spec fn in_left_zone(zone_x: i64, loc: MouseLoc) -> bool {
    loc.x < -zone_x + SPAWN_WIDTH / 2
}

/// Units, balances and next identity, the part of the world a purchase
/// changes.
pub type Roster = (Seq<Unit>, Money, u64);

/// One click of `button`: when it names a preset the left side can afford,
/// and identities last, a left-side unit appears at `(x, y)` and the price is
/// paid.
pub open spec fn place_one(r: Roster, button: Button, x: i64, y: i64) -> Roster {
    match spec_preset_for(button) {
        Some(p) => {
            let skills = p.spec_skills();
            if r.1.left >= skills.price && r.2 < u64::MAX {
                (r.0.push(spawned(r.2, x, y, false, skills)), apply_ledger(r.1, Ledger::Purchase(Side::Left, skills.price)), (r.2 + 1) as u64)
            } else {
                r
            }
        },
        None => r,
    }
}

/// The clicks `buttons`, in order.
pub open spec fn place_all(r: Roster, buttons: Seq<Button>, x: i64, y: i64) -> Roster
    decreases buttons.len(),
{
    if buttons.len() == 0 {
        r
    } else {
        place_one(place_all(r, buttons.drop_last(), x, y), buttons.last(), x, y)
    }
}

/// The player's clicks of this frame at `loc`. Inside the left zone's reach
/// each click buys its preset, if affordable, at the zone's centre line and
/// the clicked lane; elsewhere nothing happens.
pub fn soldier_placement_system(world: &mut World, loc: MouseLoc, buttons: &Vec<Button>)
    requires
        old(world).valid(),
    ensures
        final(world).valid(),
        final(world).effects@ == old(world).effects@,
        final(world).zone == old(world).zone,
        in_left_zone(old(world).zone.x, loc) ==> (final(world).units@, final(world).money, final(world).next_id)
            == place_all((old(world).units@, old(world).money, old(world).next_id), buttons@, (-old(world).zone.x) as i64,
                spec_lane_wrap(loc.y, old(world).zone.height)),
        !in_left_zone(old(world).zone.x, loc) ==> {
            &&& final(world).units@ == old(world).units@
            &&& final(world).money == old(world).money
            &&& final(world).next_id == old(world).next_id
        },
{
    let zx = world.zone.x;
    if !(loc.x < -zx + SPAWN_WIDTH / 2) {
        return;
    }
    let y = lane_wrap(loc.y, world.zone.height);
    let ghost r0: Roster = (world.units@, world.money, world.next_id);
    let ghost e0 = world.effects@;
    let ghost z0 = world.zone;
    let mut k: usize = 0;
    while k < buttons.len()
        invariant
            world.valid(),
            world.effects@ == e0,
            world.zone == z0,
            zx == z0.x,
            -POS_LIMIT <= y <= POS_LIMIT,
            k <= buttons@.len(),
            (world.units@, world.money, world.next_id) == place_all(r0, buttons@.take(k as int), (-zx) as i64, y),
        decreases buttons@.len() - k,
    {
        let b = buttons[k];
        assert(buttons@.take(k + 1).drop_last() =~= buttons@.take(k as int));
        assert(buttons@.take(k + 1).last() == b);
        match preset_for(b) {
            Some(p) => {
                let skills = p.skills();
                if world.money.left >= skills.price as i16 && world.next_id < u64::MAX {
                    spawn_unit(world, -zx, y, false, skills);
                    world.money.left = world.money.left - skills.price as i16;
                }
            },
            None => {},
        }
        k += 1;
    }
    assert(buttons@.take(k as int) =~= buttons@);
}

/// Microseconds between autonomous spawns with `funds` in hand: a second
/// divided by a seventh of the funds, at least one.
pub open spec fn spawn_interval(funds: i16) -> i64 {
    let d: int = if funds / 7 > 1 { funds / 7 } else { 1 };
    (ONE_SECOND as int / d) as i64
}

/// More funds never lengthen the wait between autonomous spawns, and the
/// wait is never longer than a second nor shorter than a second over the
/// largest seventh of any balance.
pub proof fn lemma_interval_shrinks_with_funds(a: i16, b: i16)
    requires
        0 <= a <= b,
    ensures
        spawn_interval(b) <= spawn_interval(a),
        ONE_SECOND as int / (i16::MAX as int / 7) <= spawn_interval(b) <= ONE_SECOND,
{
    let da: int = if a / 7 > 1 { a / 7 } else { 1 };
    let db: int = if b / 7 > 1 { b / 7 } else { 1 };
    lemma_div_is_ordered(a as int, b as int, 7);
    assert(1 <= da <= db <= i16::MAX as int / 7);
    lemma_div_is_ordered_by_denominator(ONE_SECOND as int, da, db);
    lemma_div_is_ordered_by_denominator(ONE_SECOND as int, 1, db);
    lemma_div_is_ordered_by_denominator(ONE_SECOND as int, db, i16::MAX as int / 7);
}

/// One autonomous spawn with the drawn `preset` and lane `y`, while the
/// countdown `timer` is below zero. When the right side can afford the preset
/// and identities last, a right-side unit appears at the zone's centre line
/// on lane `y`, the price is paid and the countdown is raised by the
/// interval for the funds held before paying; otherwise nothing changes.
pub fn spawn_attempt(world: &mut World, timer: &mut i64, preset: Preset, y: i64) -> (done: bool)
    requires
        old(world).valid(),
        *old(timer) < 0,
    ensures
        final(world).valid(),
        final(world).effects@ == old(world).effects@,
        final(world).zone == old(world).zone,
        final(world).money.left == old(world).money.left,
        done == (old(world).money.right >= preset.spec_skills().price && old(world).next_id < u64::MAX),
        done ==> {
            &&& final(world).units@ == old(world).units@.push(
                spawned(old(world).next_id, old(world).zone.x, spec_lane_wrap(y, old(world).zone.height), true, preset.spec_skills()))
            &&& final(world).money == apply_ledger(old(world).money, Ledger::Purchase(Side::Right, preset.spec_skills().price))
            &&& final(world).next_id == old(world).next_id + 1
            &&& *final(timer) == *old(timer) + spawn_interval(old(world).money.right)
            &&& -(old(world).zone.height / 2) <= spec_lane_wrap(y, old(world).zone.height)
                < old(world).zone.height - old(world).zone.height / 2
        },
        !done ==> {
            &&& final(world).units@ == old(world).units@
            &&& final(world).money == old(world).money
            &&& final(world).next_id == old(world).next_id
            &&& *final(timer) == *old(timer)
        },
{
    let skills = preset.skills();
    if world.money.right < skills.price as i16 || world.next_id == u64::MAX {
        return false;
    }
    let funds = world.money.right;
    let d: i16 = if funds / 7 > 1 { funds / 7 } else { 1 };
    *timer = *timer + ONE_SECOND / d as i64;
    let lane = lane_wrap(y, world.zone.height);
    spawn_unit(world, world.zone.x, lane, true, skills);
    world.money.right = funds - skills.price as i16;
    true
}

/// `u` is a fresh right-side unit of some preset on the zone line `zone_x`,
/// in the lane band of a field `height` high.
pub open spec fn recruit(u: Unit, zone_x: i64, height: i64) -> bool {
    &&& u.flipped
    &&& u.x == zone_x
    &&& -(height / 2) <= u.y < height - height / 2
    &&& is_preset(u.fighter.skills)
    &&& u.fighter == Fighter::spec_new(u.fighter.skills)
}

/// What the units `us` cost together.
pub open spec fn prices(us: Seq<Unit>) -> int
    decreases us.len(),
{
    if us.len() == 0 { 0 } else { prices(us.drop_last()) + us.last().fighter.skills.price }
}

/// Recruits cost at least the cheapest price each.
pub proof fn lemma_recruits_cost(us: Seq<Unit>, zone_x: i64, height: i64)
    requires
        forall|k: int| 0 <= k < us.len() ==> recruit(#[trigger] us[k], zone_x, height),
    ensures
        prices(us) >= CHEAPEST_PRICE * us.len(),
    decreases us.len(),
{
    if us.len() > 0 {
        let init = us.drop_last();
        assert forall|k: int| 0 <= k < init.len() implies recruit(#[trigger] init[k], zone_x, height) by {
            assert(init[k] == us[k]);
        }
        lemma_recruits_cost(init, zone_x, height);
        assert(recruit(us[us.len() - 1], zone_x, height));
    }
}

/// `t` is what a spawner step of `dt` microseconds can make of `s`, whatever
/// was drawn. When the countdown does not run out, only the countdown falls.
/// Otherwise the units that join are fresh right-side units of a preset, on
/// the right zone's line and in the lane band; the right side pays exactly
/// their prices, at least the cheapest price each; at least one joins when
/// the right side can afford every preset; none joins, and nothing is paid,
/// when it cannot afford the cheapest. Effects, the left balance and the
/// zone's geometry stay as they were.
pub open spec fn spawner_step(s: State, t: State, dt: u32) -> bool {
    let n = s.units.len();
    let fresh = t.units.subrange(n as int, t.units.len() as int);
    &&& t.effects == s.effects
    &&& t.zone.x == s.zone.x
    &&& t.zone.height == s.zone.height
    &&& t.money.left == s.money.left
    &&& t.units.len() >= n
    &&& t.units.take(n as int) == s.units
    &&& forall|k: int| n <= k < t.units.len() ==> recruit(#[trigger] t.units[k], s.zone.x, s.zone.height)
    &&& t.money.right == s.money.right - prices(fresh)
    &&& CHEAPEST_PRICE * fresh.len() <= s.money.right - t.money.right
    &&& t.next_id == s.next_id + fresh.len()
    &&& s.money.right < CHEAPEST_PRICE ==> t.units == s.units && t.money == s.money && t.next_id == s.next_id
    &&& s.zone.timer >= dt ==> t == (State { zone: SpawnZone { timer: (s.zone.timer - dt) as i64, ..s.zone }, ..s })
    &&& s.zone.timer < dt && s.money.right >= 3 && s.next_id < u64::MAX ==> t.units.len() > n
}

/// The right side's spawner over `dt` microseconds: the countdown falls by
/// `dt`, and while it is below zero a random preset is drawn for a random
/// lane and bought if affordable. When a draw cannot be bought the countdown
/// rests at zero until the next step. The outcome is described by
/// `spawner_step` whatever was drawn.
pub fn spawner_system(world: &mut World, dt: u32)
    requires
        old(world).valid(),
    ensures
        final(world).valid(),
        spawner_step(old(world).state(), final(world).state(), dt),
{
    let ghost u0 = world.units@;
    let ghost w0 = world.money;
    let ghost e0 = world.effects@;
    let ghost z0 = world.zone;
    let ghost id0 = world.next_id;
    let mut timer: i64 = world.zone.timer - dt as i64;
    while timer < 0
        invariant
            world.valid(),
            world.effects@ == e0,
            world.zone == z0,
            world.money.left == w0.left,
            world.units@.len() >= u0.len(),
            world.units@.take(u0.len() as int) == u0,
            w0.right < CHEAPEST_PRICE ==> world.units@ == u0 && world.money == w0 && world.next_id == id0,
            timer <= ONE_SECOND,
            timer >= -0x1_0000_0000,
            forall|k: int| u0.len() <= k < world.units@.len() ==> recruit(#[trigger] world.units@[k], z0.x, z0.height),
            world.money.right == w0.right - prices(world.units@.subrange(u0.len() as int, world.units@.len() as int)),
            world.next_id == id0 + (world.units@.len() - u0.len()),
            z0.timer >= dt ==> world.units@ == u0 && world.money == w0 && world.next_id == id0 && timer == z0.timer - dt,
            z0.timer < dt && w0.right >= 3 && id0 < u64::MAX ==> world.units@.len() > u0.len()
                || (world.money == w0 && world.next_id == id0 && timer < 0),
        decreases world.money.right as int * 2 + (if timer < 0 { 1int } else { 0int }),
    {
        let mut options: Vec<Preset> = Vec::new();
        options.push(Preset::Fighter);
        options.push(Preset::Private);
        options.push(Preset::Shieldsman);
        let preset = choose_preset(&options);
        let h = world.zone.height;
        let y = random_between(-(h / 2), h - h / 2 - 1);
        let ghost before = world.units@;
        let ghost m_before = world.money;
        if !spawn_attempt(world, &mut timer, preset, y) {
            timer = 0;
        } else {
            assert(world.units@.take(u0.len() as int) =~= before.take(u0.len() as int));
            assert forall|k: int| u0.len() <= k < world.units@.len() implies recruit(#[trigger] world.units@[k], z0.x, z0.height) by {
                if k < before.len() {
                    assert(world.units@[k] == before[k]);
                }
            }
            let ghost fresh = world.units@.subrange(u0.len() as int, world.units@.len() as int);
            assert(fresh.drop_last() =~= before.subrange(u0.len() as int, before.len() as int));
            assert(fresh.last() == world.units@[world.units@.len() - 1]);
        }
    }
    world.zone.timer = timer;
    proof {
        let fresh = world.units@.subrange(u0.len() as int, world.units@.len() as int);
        assert forall|k: int| 0 <= k < fresh.len() implies recruit(#[trigger] fresh[k], z0.x, z0.height) by {
            assert(fresh[k] == world.units@[u0.len() + k]);
        }
        lemma_recruits_cost(fresh, z0.x, z0.height);
        if w0.right < CHEAPEST_PRICE {
            assert(fresh.len() == 0);
        }
    }
}

} // verus!
