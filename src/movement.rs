use vstd::prelude::*;
use crate::fighter::Unit;
use crate::world::{units_valid, World, POS_LIMIT};

verus! {

/// Length units a fighter walks per microsecond for each point of speed.
pub const BASE_RATE: i64 = 3;

/// `y` wrapped onto the lane band `[-(h / 2), h - h / 2)` of a field `h` high:
/// leaving at one edge re-enters at the other.
pub open spec fn spec_lane_wrap(y: i64, h: i64) -> i64 {
    (((y + h + h / 2) % (h as int)) - h / 2) as i64
}

pub fn lane_wrap(y: i64, h: i64) -> (r: i64)
    requires
        0 < h <= POS_LIMIT,
    ensures
        r == spec_lane_wrap(y, h),
        -(h / 2) <= r < h - h / 2,
{
    let v: i128 = y as i128 + h as i128 + (h / 2) as i128;
    let m: i128 = match v.checked_rem_euclid(h as i128) {
        Some(m) => m,
        None => 0,
    };
    (m - (h / 2) as i128) as i64
}

/// `v` held within the coordinate bounds.
pub open spec fn clamp_pos(v: int) -> i64 {
    if v > POS_LIMIT {
        POS_LIMIT
    } else if v < -POS_LIMIT {
        (-POS_LIMIT) as i64
    } else {
        v as i64
    }
}

/// How far a unit walks in `dt` microseconds: right for the left side, left
/// for the right side.
pub open spec fn stride(u: Unit, dt: u32) -> int {
    let d = BASE_RATE * (u.fighter.skills.speed * dt);
    if u.flipped { -d } else { d }
}

/// A moving unit after `dt` microseconds on a field `h` high; a blocked or
/// engaged one stays put.
pub open spec fn moved(u: Unit, dt: u32, h: i64) -> Unit {
    if u.fighter.spec_moving() {
        Unit { x: clamp_pos(u.x + stride(u, dt)), y: spec_lane_wrap(u.y, h), ..u }
    } else {
        u
    }
}

fn move_unit(u: &Unit, dt: u32, h: i64) -> (r: Unit)
    requires
        0 < h <= POS_LIMIT,
        -POS_LIMIT <= u.x <= POS_LIMIT,
    ensures
        r == moved(*u, dt, h),
{
    if !u.fighter.moving() {
        return *u;
    }
    let speed: u64 = u.fighter.skills.speed as u64;
    let d: u64 = dt as u64;
    assert(speed * d <= 255 * 0xFFFF_FFFF) by (nonlinear_arith)
        requires
            speed <= 255,
            d <= 0xFFFF_FFFF,
    ;
    let sd: u64 = speed * d;
    let step: i128 = BASE_RATE as i128 * sd as i128;
    let x: i128 = if u.flipped { u.x as i128 - step } else { u.x as i128 + step };
    let cx: i64 = if x > POS_LIMIT as i128 {
        POS_LIMIT
    } else if x < -POS_LIMIT as i128 {
        -POS_LIMIT
    } else {
        x as i64
    };
    Unit { x: cx, y: lane_wrap(u.y, h), ..*u }
}

/// Walks every free unit for `dt` microseconds on a field `height` high.
/// Each unit's step reads and writes that unit alone.
pub fn movement_system(world: &mut World, dt: u32, height: i64)
    requires
        old(world).valid(),
        0 < height <= POS_LIMIT,
    ensures
        final(world).valid(),
        final(world).units@ == Seq::new(old(world).units@.len(), |k: int| moved(old(world).units@[k], dt, height)),
        final(world).effects@ == old(world).effects@,
        final(world).money == old(world).money,
        final(world).zone == old(world).zone,
        final(world).next_id == old(world).next_id,
{
    let ghost u0 = world.units@;
    let ghost e0 = world.effects@;
    let ghost m0 = world.money;
    let ghost z0 = world.zone;
    let ghost id0 = world.next_id;
    let mut k: usize = 0;
    while k < world.units.len()
        invariant
            world.units@.len() == u0.len(),
            k <= u0.len(),
            units_valid(u0),
            forall|m: int| 0 <= m < k ==> world.units@[m] == moved(u0[m], dt, height),
            forall|m: int| k <= m < u0.len() ==> world.units@[m] == u0[m],
            world.effects@ == e0,
            world.money == m0,
            world.zone == z0,
            world.next_id == id0,
            0 < height <= POS_LIMIT,
        decreases u0.len() - k,
    {
        let u = world.units[k];
        assert(u == u0[k as int]);
        let v = move_unit(&u, dt, height);
        world.units.set(k, v);
        k += 1;
    }
    assert(world.units@ =~= Seq::new(u0.len(), |k: int| moved(u0[k], dt, height)));
    let ghost u = world.units@;
    assert forall|k1: int, k2: int| 0 <= k1 < u.len() && 0 <= k2 < u.len() && k1 != k2
        implies (#[trigger] u[k1]).id != (#[trigger] u[k2]).id by {
        assert(u[k1].id == u0[k1].id);
        assert(u[k2].id == u0[k2].id);
    }
    assert forall|k1: int, k2: int| 0 <= k1 < u.len() && 0 <= k2 < e0.len()
        implies (#[trigger] u[k1]).id != (#[trigger] e0[k2]).id by {
        assert(u[k1].id == u0[k1].id);
    }
    assert forall|k: int| 0 <= k < u.len() implies (#[trigger] u[k]).id < id0 && u[k].fighter.valid()
        && -POS_LIMIT <= u[k].x <= POS_LIMIT && -POS_LIMIT <= u[k].y <= POS_LIMIT && u[k].fighter.fighting != Some(u[k].id) by {
        assert(u[k] == moved(u0[k], dt, height));
    }
}

} // verus!
