use vstd::prelude::*;
use crate::collision::{collision_system, engagement_outcome, lemma_engagement_valid, pair_order};
use crate::combat::{combat_step, combat_system};
use crate::economy::{in_left_zone, place_all, soldier_placement_system, spawner_step, spawner_system, SPAWN_WIDTH};
use crate::fighter::MouseLoc;
use crate::movement::{moved, movement_system, spec_lane_wrap};
use crate::siege::{siege_pay, siege_system, stays};
use crate::skills::Button;
use crate::timeout::{timeout_step, timeout_system};
use crate::world::{Money, SpawnZone, State, World, ONE_SECOND, POS_LIMIT};

verus! {

/// Balances each side starts with.
pub const START_LEFT: i16 = 30;
pub const START_RIGHT: i16 = 25;

/// `s` after the movement phase.
pub open spec fn moved_state(s: State, dt: u32, height: i64) -> State {
    State { units: Seq::new(s.units.len(), |k: int| moved(s.units[k], dt, height)), ..s }
}

/// `s` after the engagement sweep.
pub open spec fn engaged_state(s: State) -> State {
    State { units: engagement_outcome(s.units, pair_order(s.units.len())), ..s }
}

/// `s` after the lane-crossing phase on a field `2 * half_width` wide.
pub open spec fn sieged_state(s: State, half_width: i64) -> State {
    State { units: s.units.filter(stays(half_width)), money: siege_pay(s.money, s.units, half_width), ..s }
}

/// `s` after the clicks `clicks` at `loc`.
pub open spec fn placed_state(s: State, loc: MouseLoc, clicks: Seq<Button>) -> State {
    if in_left_zone(s.zone.x, loc) {
        let r = place_all((s.units, s.money, s.next_id), clicks, (-s.zone.x) as i64, spec_lane_wrap(loc.y, s.zone.height));
        State { units: r.0, money: r.1, next_id: r.2, ..s }
    } else {
        s
    }
}

/// `s` after the countdown phase.
pub open spec fn timed_out_state(s: State, dt: u32) -> State {
    let t = timeout_step(s.units, s.effects, dt);
    State { units: t.0, effects: t.1, ..s }
}

/// `t` is what one tick can make of `s`: movement, the engagement sweep, a
/// combat step, lane crossing, the clicks, a spawner step and the
/// countdowns, in that order, each phase starting from where the last ended.
pub open spec fn tick_step(s: State, t: State, dt: u32, width: i64, height: i64, loc: MouseLoc, clicks: Seq<Button>) -> bool {
    exists|c: State, p: State|
        #![trigger combat_step(engaged_state(moved_state(s, dt, height)), c, dt), spawner_step(placed_state(sieged_state(c, (width / 2) as i64), loc, clicks), p, dt)]
        combat_step(engaged_state(moved_state(s, dt, height)), c, dt)
            && spawner_step(placed_state(sieged_state(c, (width / 2) as i64), loc, clicks), p, dt)
            && t == timed_out_state(p, dt)
}

impl World {
    /// An empty field `width` wide and `height` high: spawn zones at both
    /// edges, starting balances, and the first autonomous spawn a second
    /// away.
    pub fn new(width: i64, height: i64) -> (r: World)
        requires
            SPAWN_WIDTH <= width <= POS_LIMIT,
            0 < height <= POS_LIMIT,
        ensures
            r.valid(),
            r.units@.len() == 0,
            r.effects@.len() == 0,
            r.money == (Money { left: START_LEFT, right: START_RIGHT }),
            r.zone == (SpawnZone { x: (width / 2 - SPAWN_WIDTH / 2) as i64, timer: ONE_SECOND, height }),
            r.next_id == 0,
    {
        World {
            units: Vec::new(),
            effects: Vec::new(),
            money: Money { left: START_LEFT, right: START_RIGHT },
            zone: SpawnZone { x: width / 2 - SPAWN_WIDTH / 2, timer: ONE_SECOND, height },
            next_id: 0,
        }
    }

    /// One simulation tick of `dt` microseconds on a field `width` wide and
    /// `height` high, with the clicks of this frame at `loc`: movement,
    /// engagement, combat, lane crossing, placement and spawning, then the
    /// countdowns, as `tick_step` describes. Every unit's health stays between
    /// zero and its maximum and both balances stay non-negative.
    pub fn tick(&mut self, dt: u32, width: i64, height: i64, loc: MouseLoc, clicks: &Vec<Button>)
        requires
            old(self).valid(),
            0 <= width,
            0 < height <= POS_LIMIT,
        ensures
            final(self).valid(),
            tick_step(old(self).state(), final(self).state(), dt, width, height, loc, clicks@),
            forall|k: int| 0 <= k < final(self).units@.len() ==>
                0 <= (#[trigger] final(self).units@[k]).fighter.hp <= final(self).units@[k].fighter.skills.hp,
            final(self).money.left >= 0,
            final(self).money.right >= 0,
    {
        let ghost s0 = self.state();
        movement_system(self, dt, height);
        assert(self.state() == moved_state(s0, dt, height));
        let count = self.units.len();
        proof {
            assert(self.units@.len() == count);
            lemma_engagement_valid(self.units@, self.effects@, self.next_id);
        }
        collision_system(&mut self.units);
        let ghost s2 = self.state();
        assert(s2 == engaged_state(moved_state(s0, dt, height)));
        combat_system(self, dt);
        let ghost c = self.state();
        siege_system(self, width / 2);
        assert(self.state() == sieged_state(c, (width / 2) as i64));
        soldier_placement_system(self, loc, clicks);
        let ghost s5 = self.state();
        assert(s5 == placed_state(sieged_state(c, (width / 2) as i64), loc, clicks@));
        spawner_system(self, dt);
        let ghost p = self.state();
        timeout_system(self, dt);
        assert(self.state() == timed_out_state(p, dt));
        assert(combat_step(engaged_state(moved_state(s0, dt, height)), c, dt));
        assert(spawner_step(placed_state(sieged_state(c, (width / 2) as i64), loc, clicks@), p, dt));
    }
}

} // verus!
