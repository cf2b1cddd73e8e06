use vstd::prelude::*;
use crate::combat::sat_sub_u64;
use crate::fighter::{EntityId, Unit};
use crate::world::{has_unit, ids_fresh, lemma_filter_effects, lemma_filter_units, Effect, Timeout, World};

verus! {

/// `e` after `dt` microseconds: its countdown, if any, falls, never below zero.
pub open spec fn ticked(e: Effect, dt: u32) -> Effect {
    match e.timeout {
        Some(t) => Effect { timeout: Some(Timeout { time_left: sat_sub_u64(t.time_left, dt as u64), ..t }), ..e },
        None => e,
    }
}

/// The countdown of `e` has run out.
pub open spec fn expired(e: Effect) -> bool {
    e.timeout matches Some(t) && t.time_left == 0
}

/// `e` has run out and takes the entity `id` with it: itself or one tied to it.
pub open spec fn dooms(e: Effect, id: EntityId) -> bool {
    expired(e) && (e.id == id || e.timeout.unwrap().tied_to@.contains(id))
}

/// Some effect of `effects` takes the entity `id` with it.
pub open spec fn doomed(effects: Seq<Effect>, id: EntityId) -> bool {
    exists|k: int| 0 <= k < effects.len() && dooms(#[trigger] effects[k], id)
}

pub open spec fn spared_unit(effects: Seq<Effect>) -> spec_fn(Unit) -> bool {
    |u: Unit| !doomed(effects, u.id)
}

pub open spec fn spared_effect(effects: Seq<Effect>) -> spec_fn(Effect) -> bool {
    |e: Effect| !doomed(effects, e.id)
}

/// The effects after their countdowns fall by `dt`.
pub open spec fn ticked_all(effects: Seq<Effect>, dt: u32) -> Seq<Effect> {
    Seq::new(effects.len(), |k: int| ticked(effects[k], dt))
}

/// Units and effects after one countdown step of `dt` microseconds: every
/// countdown falls, and every entity that a run-out countdown takes with it
/// is gone.
pub open spec fn timeout_step(units: Seq<Unit>, effects: Seq<Effect>, dt: u32) -> (Seq<Unit>, Seq<Effect>) {
    let t = ticked_all(effects, dt);
    (units.filter(spared_unit(t)), t.filter(spared_effect(t)))
}

fn tick_effect(e: Effect, dt: u32) -> (r: Effect)
    ensures
        r == ticked(e, dt),
{
    let Effect { id, x, y, label, timeout } = e;
    let timeout = match timeout {
        Some(t) => {
            let Timeout { time_left, tied_to } = t;
            Some(Timeout { time_left: time_left.saturating_sub(dt as u64), tied_to })
        },
        None => None,
    };
    Effect { id, x, y, label, timeout }
}

fn holds_id(ids: &Vec<EntityId>, id: EntityId) -> (r: bool)
    ensures
        r == ids@.contains(id),
{
    let mut k: usize = 0;
    while k < ids.len()
        invariant
            k <= ids@.len(),
            forall|m: int| 0 <= m < k ==> ids@[m] != id,
        decreases ids@.len() - k,
    {
        if ids[k] == id {
            assert(ids@[k as int] == id);
            return true;
        }
        k += 1;
    }
    false
}

proof fn lemma_push_contains(s: Seq<EntityId>, x: EntityId)
    ensures
        forall|id: EntityId| #[trigger] s.push(x).contains(id) <==> (s.contains(id) || id == x),
{
    assert forall|id: EntityId| #[trigger] s.push(x).contains(id) <==> (s.contains(id) || id == x) by {
        if s.push(x).contains(id) && id != x {
            let m = choose|m: int| 0 <= m < s.push(x).len() && s.push(x)[m] == id;
            assert(s[m] == id);
        }
        if s.contains(id) {
            let m = choose|m: int| 0 <= m < s.len() && s[m] == id;
            assert(s.push(x)[m] == id);
        }
        if id == x {
            assert(s.push(x)[s.len() as int] == id);
        }
    }
}

/// The identities that the run-out countdowns of `effects` take with them.
fn doomed_ids(effects: &Vec<Effect>) -> (r: Vec<EntityId>)
    ensures
        forall|id: EntityId| #[trigger] r@.contains(id) <==> doomed(effects@, id),
{
    let mut r: Vec<EntityId> = Vec::new();
    let mut k: usize = 0;
    while k < effects.len()
        invariant
            k <= effects@.len(),
            forall|id: EntityId| #[trigger] r@.contains(id) <==> doomed(effects@.take(k as int), id),
        decreases effects@.len() - k,
    {
        let ghost r0 = r@;
        let e = &effects[k];
        let ghost pre = effects@.take(k as int);
        let ghost post = effects@.take(k + 1);
        assert forall|id: EntityId| doomed(post, id) <==> (doomed(pre, id) || dooms(effects@[k as int], id)) by {
            if doomed(post, id) {
                let m = choose|m: int| 0 <= m < post.len() && dooms(#[trigger] post[m], id);
                if m < k {
                    assert(pre[m] == post[m]);
                }
            }
            if doomed(pre, id) {
                let m = choose|m: int| 0 <= m < pre.len() && dooms(#[trigger] pre[m], id);
                assert(pre[m] == post[m]);
            }
            if dooms(effects@[k as int], id) {
                assert(post[k as int] == effects@[k as int]);
            }
        }
        match &e.timeout {
            Some(t) => {
                if t.time_left == 0 {
                    r.push(e.id);
                    proof {
                        lemma_push_contains(r0, e.id);
                        assert(t.tied_to@.take(0).len() == 0);
                    }
                    let mut j: usize = 0;
                    while j < t.tied_to.len()
                        invariant
                            j <= t.tied_to@.len(),
                            forall|id: EntityId| #[trigger] r@.contains(id) <==> (r0.contains(id) || id == e.id
                                || t.tied_to@.take(j as int).contains(id)),
                        decreases t.tied_to@.len() - j,
                    {
                        let ghost rj = r@;
                        r.push(t.tied_to[j]);
                        proof {
                            lemma_push_contains(rj, t.tied_to@[j as int]);
                            assert(t.tied_to@.take(j + 1) =~= t.tied_to@.take(j as int).push(t.tied_to@[j as int]));
                            lemma_push_contains(t.tied_to@.take(j as int), t.tied_to@[j as int]);
                        }
                        j += 1;
                    }
                    assert(t.tied_to@.take(j as int) =~= t.tied_to@);
                }
            },
            None => {},
        }
        k += 1;
    }
    assert(effects@.take(k as int) =~= effects@);
    r
}


/// One countdown step of `dt` microseconds: every effect's countdown falls,
/// never below zero, and each countdown that has run out removes its own
/// effect and every entity tied to it, unit or effect, whatever its state.
pub fn timeout_system(world: &mut World, dt: u32)
    requires
        old(world).valid(),
    ensures
        final(world).valid(),
        (final(world).units@, final(world).effects@) == timeout_step(old(world).units@, old(world).effects@, dt),
        final(world).money == old(world).money,
        final(world).zone == old(world).zone,
        final(world).next_id == old(world).next_id,
{
    let ghost e0 = world.effects@;
    let ghost u0 = world.units@;
    let mut rest: Vec<Effect> = Vec::new();
    std::mem::swap(&mut rest, &mut world.effects);
    let mut ticked_effects: Vec<Effect> = Vec::new();
    let n = rest.len();
    let mut k: usize = 0;
    while k < n
        invariant
            n == e0.len(),
            k <= n,
            rest@ == e0.subrange(k as int, n as int),
            ticked_effects@ == ticked_all(e0.take(k as int), dt),
        decreases n - k,
    {
        let e = rest.remove(0);
        assert(e == e0[k as int]);
        ticked_effects.push(tick_effect(e, dt));
        assert(ticked_effects@ =~= ticked_all(e0.take(k + 1), dt));
        assert(rest@ =~= e0.subrange(k + 1, n as int));
        k += 1;
    }
    assert(e0.take(n as int) =~= e0);
    let ghost t = ticked_effects@;
    assert(t =~= ticked_all(e0, dt));
    let gone = doomed_ids(&ticked_effects);

    let mut kept_units: Vec<Unit> = Vec::new();
    let mut k: usize = 0;
    while k < world.units.len()
        invariant
            world.units@ == u0,
            k <= u0.len(),
            kept_units@ == u0.take(k as int).filter(spared_unit(t)),
            forall|id: EntityId| #[trigger] gone@.contains(id) <==> doomed(t, id),
        decreases u0.len() - k,
    {
        let u = world.units[k];
        assert(u0.take(k + 1).drop_last() =~= u0.take(k as int));
        assert(u0.take(k + 1).last() == u);
        reveal_with_fuel(Seq::<_>::filter, 1);
        if !holds_id(&gone, u.id) {
            kept_units.push(u);
        }
        k += 1;
    }
    assert(u0.take(k as int) =~= u0);

    let mut kept_effects: Vec<Effect> = Vec::new();
    let m = ticked_effects.len();
    let mut k: usize = 0;
    while k < m
        invariant
            m == t.len(),
            k <= m,
            ticked_effects@ == t.subrange(k as int, m as int),
            kept_effects@ == t.take(k as int).filter(spared_effect(t)),
            forall|id: EntityId| #[trigger] gone@.contains(id) <==> doomed(t, id),
        decreases m - k,
    {
        let e = ticked_effects.remove(0);
        assert(e == t[k as int]);
        assert(t.take(k + 1).drop_last() =~= t.take(k as int));
        assert(t.take(k + 1).last() == e);
        reveal_with_fuel(Seq::<_>::filter, 1);
        if !holds_id(&gone, e.id) {
            kept_effects.push(e);
        }
        assert(ticked_effects@ =~= t.subrange(k + 1, m as int));
        k += 1;
    }
    assert(t.take(m as int) =~= t);
    proof {
        lemma_timeout_step_fresh(u0, e0, world.next_id, dt);
        lemma_filter_units(u0, t, world.next_id, spared_unit(t));
    }
    world.units = kept_units;
    world.effects = kept_effects;
}


/// A countdown step keeps identities fresh and distinct.
pub proof fn lemma_timeout_step_fresh(units: Seq<Unit>, effects: Seq<Effect>, next: EntityId, dt: u32)
    requires
        ids_fresh(units, effects, next),
    ensures
        ids_fresh(timeout_step(units, effects, dt).0, timeout_step(units, effects, dt).1, next),
        forall|k: int| 0 <= k < timeout_step(units, effects, dt).0.len() ==> units.contains(#[trigger] timeout_step(units, effects, dt).0[k]),
        forall|k: int| 0 <= k < timeout_step(units, effects, dt).1.len()
            ==> ticked_all(effects, dt).contains(#[trigger] timeout_step(units, effects, dt).1[k]),
{
    let t = ticked_all(effects, dt);
    assert forall|k1: int, k2: int| 0 <= k1 < t.len() && 0 <= k2 < t.len() && k1 != k2
        implies (#[trigger] t[k1]).id != (#[trigger] t[k2]).id by {
        assert(t[k1].id == effects[k1].id);
        assert(t[k2].id == effects[k2].id);
    }
    assert forall|k1: int, k2: int| 0 <= k1 < units.len() && 0 <= k2 < t.len()
        implies (#[trigger] units[k1]).id != (#[trigger] t[k2]).id by {
        assert(t[k2].id == effects[k2].id);
    }
    assert forall|k: int| 0 <= k < t.len() implies (#[trigger] t[k]).id < next by {
        assert(t[k].id == effects[k].id);
    }
    lemma_filter_units(units, t, next, spared_unit(t));
    lemma_filter_effects(units.filter(spared_unit(t)), t, next, spared_effect(t));
}

/// Some effect has identity `id`.
pub open spec fn has_effect(effects: Seq<Effect>, id: EntityId) -> bool {
    exists|k: int| 0 <= k < effects.len() && (#[trigger] effects[k]).id == id
}

/// Some unit or effect has identity `id`.
pub open spec fn present(units: Seq<Unit>, effects: Seq<Effect>, id: EntityId) -> bool {
    has_unit(units, id) || has_effect(effects, id)
}

/// The microseconds the steps `dts` add up to.
pub open spec fn total_time(dts: Seq<u32>) -> int
    decreases dts.len(),
{
    if dts.len() == 0 { 0 } else { total_time(dts.drop_last()) + dts.last() }
}

/// Units and effects after countdown steps of `dts` microseconds, in order.
pub open spec fn run_timeouts(units: Seq<Unit>, effects: Seq<Effect>, dts: Seq<u32>) -> (Seq<Unit>, Seq<Effect>)
    decreases dts.len(),
{
    if dts.len() == 0 {
        (units, effects)
    } else {
        let s = run_timeouts(units, effects, dts.drop_last());
        timeout_step(s.0, s.1, dts.last())
    }
}

/// No countdown but the one of the effect `te` is held by `x` or names `te`
/// or `x`.
pub open spec fn undisturbed(effects: Seq<Effect>, te: EntityId, x: EntityId) -> bool {
    forall|k: int| 0 <= k < effects.len() && (#[trigger] effects[k]).timeout is Some && effects[k].id != te ==> {
        &&& effects[k].id != x
        &&& !effects[k].timeout.unwrap().tied_to@.contains(x)
        &&& !effects[k].timeout.unwrap().tied_to@.contains(te)
    }
}

/// `e` holds a countdown of `r` microseconds tied to `x` alone.
pub open spec fn counts_down(e: Effect, r: u64, x: EntityId) -> bool {
    e.timeout matches Some(tt) && tt.time_left == r && tt.tied_to@ == seq![x]
}

/// The effect `te` holds a countdown of `r` microseconds tied to `x` alone,
/// and `x` is present.
pub open spec fn pending(units: Seq<Unit>, effects: Seq<Effect>, te: EntityId, x: EntityId, r: u64) -> bool {
    &&& exists|i: int| 0 <= i < effects.len() && (#[trigger] effects[i]).id == te
        && counts_down(effects[i], r, x)
    &&& present(units, effects, x)
    &&& x != te
}

proof fn lemma_step_absent(units: Seq<Unit>, effects: Seq<Effect>, next: EntityId, dt: u32, id: EntityId)
    requires
        ids_fresh(units, effects, next),
        !present(units, effects, id),
    ensures
        !present(timeout_step(units, effects, dt).0, timeout_step(units, effects, dt).1, id),
{
    lemma_timeout_step_fresh(units, effects, next, dt);
    let s = timeout_step(units, effects, dt);
    let t = ticked_all(effects, dt);
    if has_unit(s.0, id) {
        let k = choose|k: int| 0 <= k < s.0.len() && (#[trigger] s.0[k]).id == id;
        assert(units.contains(s.0[k]));
        let m = choose|m: int| 0 <= m < units.len() && units[m] == s.0[k];
        assert(has_unit(units, id));
    }
    if has_effect(s.1, id) {
        let k = choose|k: int| 0 <= k < s.1.len() && (#[trigger] s.1[k]).id == id;
        assert(t.contains(s.1[k]));
        let m = choose|m: int| 0 <= m < t.len() && t[m] == s.1[k];
        assert(t[m].id == effects[m].id);
        assert(has_effect(effects, id));
    }
}

proof fn lemma_step_pending(units: Seq<Unit>, effects: Seq<Effect>, next: EntityId, te: EntityId, x: EntityId, r: u64, dt: u32)
    requires
        ids_fresh(units, effects, next),
        pending(units, effects, te, x, r),
        undisturbed(effects, te, x),
    ensures
        ids_fresh(timeout_step(units, effects, dt).0, timeout_step(units, effects, dt).1, next),
        undisturbed(timeout_step(units, effects, dt).1, te, x),
        dt < r ==> pending(timeout_step(units, effects, dt).0, timeout_step(units, effects, dt).1, te, x, (r - dt) as u64),
        dt >= r ==> !present(timeout_step(units, effects, dt).0, timeout_step(units, effects, dt).1, te)
            && !present(timeout_step(units, effects, dt).0, timeout_step(units, effects, dt).1, x),
{
    lemma_timeout_step_fresh(units, effects, next, dt);
    let s = timeout_step(units, effects, dt);
    let t = ticked_all(effects, dt);
    let i = choose|i: int| 0 <= i < effects.len() && (#[trigger] effects[i]).id == te
        && counts_down(effects[i], r, x);
    let tt = effects[i].timeout.unwrap();
    assert(t[i] == ticked(effects[i], dt));
    assert(t[i].timeout.unwrap().tied_to@ == seq![x]);
    assert(seq![x][0] == x);
    assert forall|k: int| 0 <= k < s.1.len() && (#[trigger] s.1[k]).timeout is Some && s.1[k].id != te implies {
        &&& s.1[k].id != x
        &&& !s.1[k].timeout.unwrap().tied_to@.contains(x)
        &&& !s.1[k].timeout.unwrap().tied_to@.contains(te)
    } by {
        assert(t.contains(s.1[k]));
        let m = choose|m: int| 0 <= m < t.len() && t[m] == s.1[k];
        assert(t[m] == ticked(effects[m], dt));
    }
    if dt >= r {
        assert(expired(t[i]));
        assert(dooms(t[i], te));
        assert(t[i].timeout.unwrap().tied_to@.contains(x));
        assert(dooms(t[i], x));
        assert(doomed(t, te));
        assert(doomed(t, x));
        assert forall|id: EntityId| doomed(t, id) implies !present(s.0, s.1, id) by {
            if has_unit(s.0, id) {
                let k = choose|k: int| 0 <= k < s.0.len() && (#[trigger] s.0[k]).id == id;
                units.lemma_filter_pred(spared_unit(t), k);
            }
            if has_effect(s.1, id) {
                let k = choose|k: int| 0 <= k < s.1.len() && (#[trigger] s.1[k]).id == id;
                t.lemma_filter_pred(spared_effect(t), k);
            }
        }
    } else {
        assert(!expired(t[i]));
        assert forall|id: EntityId| id == te || id == x implies !doomed(t, id) by {
            if doomed(t, id) {
                let k = choose|k: int| 0 <= k < t.len() && dooms(#[trigger] t[k], id);
                assert(t[k] == ticked(effects[k], dt));
                if k != i {
                    assert(effects[k].id != te);
                }
            }
        }
        t.lemma_filter_contains(spared_effect(t), i);
        let k = choose|k: int| 0 <= k < s.1.len() && s.1[k] == t[i];
        assert(s.1[k].id == te);
        if has_unit(units, x) {
            let j = choose|j: int| 0 <= j < units.len() && (#[trigger] units[j]).id == x;
            units.lemma_filter_contains(spared_unit(t), j);
            let k2 = choose|k2: int| 0 <= k2 < s.0.len() && s.0[k2] == units[j];
            assert(has_unit(s.0, x));
        } else {
            let j = choose|j: int| 0 <= j < effects.len() && (#[trigger] effects[j]).id == x;
            assert(j != i);
            assert(t[j] == ticked(effects[j], dt));
            assert(effects[j].timeout is None);
            t.lemma_filter_contains(spared_effect(t), j);
            let k2 = choose|k2: int| 0 <= k2 < s.1.len() && s.1[k2] == t[j];
            assert(has_effect(s.1, x));
        }
    }
}

proof fn lemma_total_time_nonneg(dts: Seq<u32>)
    ensures
        total_time(dts) >= 0,
    decreases dts.len(),
{
    if dts.len() > 0 {
        lemma_total_time_nonneg(dts.drop_last());
    }
}

proof fn lemma_run_timeouts(units: Seq<Unit>, effects: Seq<Effect>, next: EntityId, dts: Seq<u32>, te: EntityId, x: EntityId, t: u64)
    requires
        ids_fresh(units, effects, next),
        pending(units, effects, te, x, t),
        undisturbed(effects, te, x),
    ensures
        ids_fresh(run_timeouts(units, effects, dts).0, run_timeouts(units, effects, dts).1, next),
        total_time(dts) < t ==> pending(run_timeouts(units, effects, dts).0, run_timeouts(units, effects, dts).1, te, x,
            (t - total_time(dts)) as u64) && undisturbed(run_timeouts(units, effects, dts).1, te, x),
        dts.len() > 0 && total_time(dts) >= t ==> !present(run_timeouts(units, effects, dts).0, run_timeouts(units, effects, dts).1, te)
            && !present(run_timeouts(units, effects, dts).0, run_timeouts(units, effects, dts).1, x),
    decreases dts.len(),
{
    if dts.len() > 0 {
        let init = dts.drop_last();
        let dt = dts.last();
        lemma_run_timeouts(units, effects, next, init, te, x, t);
        lemma_total_time_nonneg(init);
        let s = run_timeouts(units, effects, init);
        lemma_timeout_step_fresh(s.0, s.1, next, dt);
        if total_time(init) < t {
            lemma_step_pending(s.0, s.1, next, te, x, (t - total_time(init)) as u64, dt);
        } else if init.len() == 0 {
            lemma_step_pending(s.0, s.1, next, te, x, t, dt);
        } else {
            lemma_step_absent(s.0, s.1, next, dt, te);
            lemma_step_absent(s.0, s.1, next, dt, x);
        }
    }
}

/// A countdown of `t` microseconds held by the effect `te` and tied to the
/// entity `x` alone: while the steps add up to less than `t`, both are still
/// there; once at least one step has run and they add up to `t` or more,
/// both are gone. This holds when no other countdown is held by `x` or names
/// `te` or `x`.
pub proof fn lemma_timeout_expiry(units: Seq<Unit>, effects: Seq<Effect>, next: EntityId, dts: Seq<u32>, te: EntityId, x: EntityId, t: u64)
    requires
        ids_fresh(units, effects, next),
        pending(units, effects, te, x, t),
        undisturbed(effects, te, x),
    ensures
        total_time(dts) < t ==> present(run_timeouts(units, effects, dts).0, run_timeouts(units, effects, dts).1, te)
            && present(run_timeouts(units, effects, dts).0, run_timeouts(units, effects, dts).1, x),
        dts.len() > 0 && total_time(dts) >= t ==> !present(run_timeouts(units, effects, dts).0, run_timeouts(units, effects, dts).1, te)
            && !present(run_timeouts(units, effects, dts).0, run_timeouts(units, effects, dts).1, x),
{
    lemma_run_timeouts(units, effects, next, dts, te, x, t);
    let s = run_timeouts(units, effects, dts);
    if total_time(dts) < t {
        let i = choose|i: int| 0 <= i < s.1.len() && (#[trigger] s.1[i]).id == te
            && counts_down(s.1[i], (t - total_time(dts)) as u64, x);
        assert(has_effect(s.1, te));
    }
}

} // verus!
