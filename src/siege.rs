use vstd::prelude::*;
use crate::fighter::Unit;
use crate::world::{apply_ledger, credit, lemma_filter_units, side_of, Ledger, Money, World};

verus! {

/// `u` has walked past the far edge on its way: the right edge at
/// `half_width` for the left side, the left edge at `-half_width` for the
/// right side.
pub open spec fn crossed(u: Unit, half_width: i64) -> bool {
    if u.flipped { u.x < -half_width } else { u.x > half_width }
}

pub fn has_crossed(u: &Unit, half_width: i64) -> (r: bool)
    requires
        half_width >= 0,
    ensures
        r == crossed(*u, half_width),
{
    if u.flipped { u.x < -half_width } else { u.x > half_width }
}

/// The units a siege step keeps.
pub open spec fn stays(half_width: i64) -> spec_fn(Unit) -> bool {
    |u: Unit| !crossed(u, half_width)
}

/// `m` after paying each crossed unit's siege value to its own side, unit by
/// unit.
pub open spec fn siege_pay(m: Money, units: Seq<Unit>, half_width: i64) -> Money
    decreases units.len(),
{
    if units.len() == 0 {
        m
    } else {
        let m1 = siege_pay(m, units.drop_last(), half_width);
        let l = units.last();
        if !crossed(l, half_width) {
            m1
        } else {
            apply_ledger(m1, Ledger::Siege(side_of(l.flipped), l.fighter.skills.siege))
        }
    }
}

/// Removes every unit past the far edge of a field `2 * half_width` wide
/// and pays its siege value to its own side, whatever it was doing.
pub fn siege_system(world: &mut World, half_width: i64)
    requires
        old(world).valid(),
        half_width >= 0,
    ensures
        final(world).valid(),
        final(world).units@ == old(world).units@.filter(stays(half_width)),
        final(world).money == siege_pay(old(world).money, old(world).units@, half_width),
        final(world).effects@ == old(world).effects@,
        final(world).zone == old(world).zone,
        final(world).next_id == old(world).next_id,
{
    let ghost u0 = world.units@;
    let ghost m0 = world.money;
    let ghost w0_effects = world.effects@;
    let ghost z0 = world.zone;
    let ghost id0 = world.next_id;
    let mut kept: Vec<Unit> = Vec::new();
    let mut k: usize = 0;
    while k < world.units.len()
        invariant
            world.units@ == u0,
            k <= u0.len(),
            kept@ == u0.take(k as int).filter(stays(half_width)),
            world.money == siege_pay(m0, u0.take(k as int), half_width),
            world.valid(),
            world.effects@ == w0_effects,
            world.zone == z0,
            world.next_id == id0,
            half_width >= 0,
        decreases u0.len() - k,
    {
        let u = world.units[k];
        assert(u0.take(k + 1).drop_last() =~= u0.take(k as int));
        assert(u0.take(k + 1).last() == u);
        reveal_with_fuel(Seq::<_>::filter, 1);
        if has_crossed(&u, half_width) {
            if u.flipped {
                world.money.right = credit(world.money.right, u.fighter.skills.siege);
            } else {
                world.money.left = credit(world.money.left, u.fighter.skills.siege);
            }
        } else {
            kept.push(u);
        }
        k += 1;
    }
    assert(u0.take(k as int) =~= u0);
    proof {
        lemma_filter_units(u0, world.effects@, world.next_id, stays(half_width));
    }
    world.units = kept;
}

} // verus!
