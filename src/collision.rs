use vstd::prelude::*;
use self_compare::SliceCompareExt;
use crate::fighter::{EntityId, Unit, FIGHTER_SIZE};

verus! {

/// The square boxes of side `FIGHTER_SIZE` centred on the two units touch or
/// overlap.
pub open spec fn spec_overlaps(a: Unit, b: Unit) -> bool {
    &&& -FIGHTER_SIZE <= a.x - b.x <= FIGHTER_SIZE
    &&& -FIGHTER_SIZE <= a.y - b.y <= FIGHTER_SIZE
}

pub fn overlaps(a: &Unit, b: &Unit) -> (r: bool)
    ensures
        r == spec_overlaps(*a, *b),
{
    let dx: i128 = a.x as i128 - b.x as i128;
    let dy: i128 = a.y as i128 - b.y as i128;
    let s: i128 = FIGHTER_SIZE as i128;
    -s <= dx && dx <= s && -s <= dy && dy <= s
}

/// Of two overlapping units of one side, whether `a` is the one behind, which
/// has to wait. A unit walking right is behind when it is further left, one
/// walking left when it is not further left. At equal `x` the unit listed
/// second waits when walking right and the first when walking left.
pub open spec fn spec_left_waits(a: Unit, b: Unit) -> bool {
    a.flipped != (a.x < b.x)
}

pub fn left_waits(a: &Unit, b: &Unit) -> (r: bool)
    ensures
        r == spec_left_waits(*a, *b),
{
    a.flipped != (a.x < b.x)
}

pub open spec fn with_waiting(u: Unit, waiting: bool) -> Unit {
    Unit { fighter: crate::fighter::Fighter { waiting, ..u.fighter }, ..u }
}

pub open spec fn with_foe(u: Unit, foe: EntityId) -> Unit {
    Unit { fighter: crate::fighter::Fighter { fighting: Some(foe), ..u.fighter }, ..u }
}

/// The effect of comparing units `i` and `j` during a sweep. `marks` records,
/// per unit, whether some pair has found it blocked behind another; it
/// starts all false, and after the sweep each unit waits exactly when its
/// mark is set. Overlapping units of opposite sides engage each other at once.
pub open spec fn visit(units: Seq<Unit>, marks: Seq<bool>, i: int, j: int) -> (Seq<Unit>, Seq<bool>) {
    let a = units[i];
    let b = units[j];
    if spec_overlaps(a, b) {
        if a.flipped == b.flipped {
            let w = if spec_left_waits(a, b) { i } else { j };
            (units, marks.update(w, true))
        } else {
            (units.update(i, with_foe(a, b.id)).update(j, with_foe(b, a.id)), marks)
        }
    } else {
        (units, marks)
    }
}

/// The sweep over the pairs `ps`, in their order.
pub open spec fn sweep(units: Seq<Unit>, marks: Seq<bool>, ps: Seq<(usize, usize)>) -> (Seq<Unit>, Seq<bool>)
    decreases ps.len(),
{
    if ps.len() == 0 {
        (units, marks)
    } else {
        let s = sweep(units, marks, ps.drop_last());
        visit(s.0, s.1, ps.last().0 as int, ps.last().1 as int)
    }
}

pub open spec fn no_marks(n: nat) -> Seq<bool> {
    Seq::new(n, |k: int| false)
}

/// Sets each unit's waiting flag to its mark: set when blocked, clear otherwise.
pub open spec fn release(units: Seq<Unit>, marks: Seq<bool>) -> Seq<Unit> {
    Seq::new(units.len(), |k: int| with_waiting(units[k], marks[k]))
}

/// The units after a sweep over `ps` and the deferred setting of the
/// waiting flags.
pub open spec fn engagement_outcome(units: Seq<Unit>, ps: Seq<(usize, usize)>) -> Seq<Unit> {
    let s = sweep(units, no_marks(units.len()), ps);
    release(s.0, s.1)
}

/// Row `i` of the visiting order: `(i, i + 1)` up to `(i, n - 1)`.
pub open spec fn row(i: nat, n: nat) -> Seq<(usize, usize)> {
    if i + 1 < n {
        Seq::new((n - i - 1) as nat, |k: int| (i as usize, (i + 1 + k) as usize))
    } else {
        Seq::empty()
    }
}

pub open spec fn rows(i: nat, n: nat) -> Seq<(usize, usize)>
    decreases n - i,
{
    if i >= n {
        Seq::empty()
    } else {
        row(i, n) + rows(i + 1, n)
    }
}

/// Every unordered pair of `n` items once, as `(i, j)` with `i < j`, by
/// ascending `i` and then ascending `j`.
pub open spec fn pair_order(n: nat) -> Seq<(usize, usize)> {
    rows(0, n)
}

/// Appends the pair `(i, j)` to `pairs`.
fn note_pair(pairs: &mut Vec<(usize, usize)>, i: usize, j: usize)
    ensures
        final(pairs)@ == old(pairs)@.push((i, j)),
{
    pairs.push((i, j));
}

/// Relies on self_compare's `compare_self_enumerated`: it hands the closure
/// every pair of positions `(i, j)` with `i < j` once, by ascending `i` and
/// then ascending `j`.
#[verifier::external_body]
fn visiting_order(units: &Vec<Unit>) -> (r: Vec<(usize, usize)>)
    ensures
        r@ == pair_order(units@.len()),
{
    let mut r = Vec::new();
    units.as_slice().compare_self_enumerated(|(i, _), (j, _)| note_pair(&mut r, i, j));
    r
}

pub proof fn lemma_rows_contents(i: nat, n: nat)
    requires
        n <= usize::MAX,
    ensures
        forall|p: (usize, usize)| #[trigger] rows(i, n).contains(p) <==> (i <= p.0 && p.0 < p.1 && p.1 < n),
    decreases n - i,
{
    if i < n {
        lemma_rows_contents(i + 1, n);
        let r = row(i, n);
        let rest = rows(i + 1, n);
        assert forall|p: (usize, usize)| #[trigger] rows(i, n).contains(p) <==> (i <= p.0 && p.0 < p.1 && p.1 < n) by {
            if rows(i, n).contains(p) {
                let k = choose|k: int| 0 <= k < rows(i, n).len() && rows(i, n)[k] == p;
                if k < r.len() {
                    assert(r[k] == p);
                } else {
                    assert(rest[k - r.len()] == p);
                    assert(rest.contains(p));
                }
            }
            if i <= p.0 && p.0 < p.1 && p.1 < n {
                if p.0 == i {
                    let k = p.1 - i - 1;
                    assert(r[k] == p);
                    assert(rows(i, n)[k] == p);
                } else {
                    assert(rest.contains(p));
                    let k = choose|k: int| 0 <= k < rest.len() && rest[k] == p;
                    assert(rows(i, n)[r.len() + k] == p);
                }
            }
        }
    } else {
        assert forall|p: (usize, usize)| #[trigger] rows(i, n).contains(p) <==> (i <= p.0 && p.0 < p.1 && p.1 < n) by {
            if rows(i, n).contains(p) {
                let k = choose|k: int| 0 <= k < rows(i, n).len() && rows(i, n)[k] == p;
            }
        }
    }
}

/// The visiting order holds exactly the pairs `(i, j)` with `i < j < n`.
pub proof fn lemma_pair_order_contents(n: nat)
    requires
        n <= usize::MAX,
    ensures
        forall|p: (usize, usize)| #[trigger] pair_order(n).contains(p) <==> (p.0 < p.1 && p.1 < n),
{
    lemma_rows_contents(0, n);
}


fn visit_pair(units: &mut Vec<Unit>, marks: &mut Vec<bool>, i: usize, j: usize)
    requires
        i < j < old(units).len(),
        old(marks).len() == old(units).len(),
    ensures
        (final(units)@, final(marks)@) == visit(old(units)@, old(marks)@, i as int, j as int),
{
    let a = units[i];
    let b = units[j];
    if overlaps(&a, &b) {
        if a.flipped == b.flipped {
            let w = if left_waits(&a, &b) { i } else { j };
            marks.set(w, true);
        } else {
            let mut a2 = a;
            a2.fighter.fighting = Some(b.id);
            let mut b2 = b;
            b2.fighter.fighting = Some(a.id);
            units.set(i, a2);
            units.set(j, b2);
        }
    }
}

/// One sweep of the engagement rules over every pair of `units`, in the
/// order self_compare visits them. Overlapping units of one side block the
/// one behind; overlapping units of opposite sides engage each other. The
/// waiting flags are derived anew: afterwards a unit waits exactly when some
/// pair found it blocked.
pub fn collision_system(units: &mut Vec<Unit>)
    ensures
        final(units)@ == engagement_outcome(old(units)@, pair_order(old(units)@.len())),
{
    let n = units.len();
    let pairs = visiting_order(units);
    proof {
        lemma_pair_order_contents(n as nat);
    }
    let ghost u0 = units@;
    let mut marks: Vec<bool> = Vec::new();
    let mut k: usize = 0;
    while k < n
        invariant
            k <= n,
            marks@ == no_marks(k as nat),
        decreases n - k,
    {
        marks.push(false);
        k += 1;
        assert(marks@ =~= no_marks(k as nat));
    }
    let mut p: usize = 0;
    while p < pairs.len()
        invariant
            pairs@ == pair_order(n as nat),
            forall|q: (usize, usize)| #[trigger] pair_order(n as nat).contains(q) <==> (q.0 < q.1 && q.1 < n),
            p <= pairs@.len(),
            units@.len() == n,
            marks@.len() == n,
            u0.len() == n,
            (units@, marks@) == sweep(u0, no_marks(n as nat), pairs@.take(p as int)),
        decreases pairs@.len() - p,
    {
        let (i, j) = pairs[p];
        assert(pairs@.contains(pairs@[p as int]));
        visit_pair(units, &mut marks, i, j);
        assert(pairs@.take(p + 1).drop_last() =~= pairs@.take(p as int));
        p += 1;
    }
    assert(pairs@.take(p as int) =~= pairs@);
    let ghost swept = units@;
    let mut k: usize = 0;
    while k < n
        invariant
            k <= n,
            units@.len() == n,
            marks@.len() == n,
            swept.len() == n,
            forall|m: int| 0 <= m < k ==> units@[m] == release(swept, marks@)[m],
            forall|m: int| k <= m < n ==> units@[m] == swept[m],
        decreases n - k,
    {
        let mut u = units[k];
        u.fighter.waiting = marks[k];
        units.set(k, u);
        k += 1;
    }
    assert(units@ =~= release(swept, marks@));
}


/// Units `i` and `j` overlap and belong to one side.
pub open spec fn blocks(u: Seq<Unit>, i: int, j: int) -> bool {
    spec_overlaps(u[i], u[j]) && u[i].flipped == u[j].flipped
}

/// Units `i` and `j` overlap and belong to opposite sides.
pub open spec fn clashes(u: Seq<Unit>, i: int, j: int) -> bool {
    spec_overlaps(u[i], u[j]) && u[i].flipped != u[j].flipped
}

/// Which of two blocking units waits.
pub open spec fn rear(u: Seq<Unit>, i: int, j: int) -> int {
    if spec_left_waits(u[i], u[j]) { i } else { j }
}

/// Some pair of `ps` finds unit `k` blocked behind another.
pub open spec fn blocked_in(u: Seq<Unit>, ps: Seq<(usize, usize)>, k: int) -> bool {
    exists|q: (usize, usize)| #[trigger] ps.contains(q) && blocks(u, q.0 as int, q.1 as int) && rear(u, q.0 as int, q.1 as int) == k
}

/// Some pair of `ps` finds unit `k` overlapping a unit of the other side.
pub open spec fn clash_in(u: Seq<Unit>, ps: Seq<(usize, usize)>, k: int) -> bool {
    exists|q: (usize, usize)| #[trigger] ps.contains(q) && clashes(u, q.0 as int, q.1 as int) && (q.0 == k || q.1 == k)
}

/// No unit overlaps two units of the other side.
pub open spec fn single_foe(u: Seq<Unit>) -> bool {
    forall|k: int, m1: int, m2: int|
        0 <= k < u.len() && 0 <= m1 < u.len() && 0 <= m2 < u.len() && #[trigger] clashes(u, k, m1) && #[trigger] clashes(u, k, m2)
            ==> m1 == m2
}

/// The unit of the other side that unit `k` overlaps, where there is one.
pub open spec fn foe(u: Seq<Unit>, k: int) -> int {
    choose|m: int| 0 <= m < u.len() && clashes(u, k, m)
}

/// `ps` holds pairs `(i, j)` of positions of `n` units with `i < j`.
pub open spec fn proper_pairs(ps: Seq<(usize, usize)>, n: nat) -> bool {
    forall|q: (usize, usize)| #[trigger] ps.contains(q) ==> q.0 < q.1 && q.1 < n
}

/// `a` is `b` with possibly other engagement fields.
pub open spec fn same_but_engagement(a: Unit, b: Unit) -> bool {
    a == Unit { fighter: crate::fighter::Fighter { waiting: a.fighter.waiting, fighting: a.fighter.fighting, ..b.fighter }, ..b }
}

/// The waiting flag a sweep over `ps` leaves on unit `k`: set exactly when
/// some pair found it blocked.
pub open spec fn settled_waiting(u: Seq<Unit>, ps: Seq<(usize, usize)>, k: int) -> bool {
    blocked_in(u, ps, k)
}

/// The opponent a sweep over `ps` leaves on unit `k` when no unit has two foes.
pub open spec fn settled_fighting(u: Seq<Unit>, ps: Seq<(usize, usize)>, k: int) -> Option<EntityId> {
    if clash_in(u, ps, k) { Some(u[foe(u, k)].id) } else { u[k].fighter.fighting }
}

/// `f` is unit `k`'s old opponent or the identity of another unit.
pub open spec fn kept_or_other(u: Seq<Unit>, f: Option<EntityId>, k: int) -> bool {
    f == u[k].fighter.fighting || exists|m: int| 0 <= m < u.len() && m != k && f == Some(#[trigger] u[m].id)
}

proof fn lemma_contains_last(ps: Seq<(usize, usize)>)
    requires
        ps.len() > 0,
    ensures
        forall|q: (usize, usize)| #[trigger] ps.contains(q) == (ps.drop_last().contains(q) || q == ps.last()),
{
    let init = ps.drop_last();
    assert forall|q: (usize, usize)| #[trigger] ps.contains(q) == (init.contains(q) || q == ps.last()) by {
        if ps.contains(q) {
            let k = choose|k: int| 0 <= k < ps.len() && ps[k] == q;
            if k < ps.len() - 1 {
                assert(init[k] == q);
            }
        }
        if init.contains(q) {
            let k = choose|k: int| 0 <= k < init.len() && init[k] == q;
            assert(ps[k] == q);
        }
        if q == ps.last() {
            assert(ps[ps.len() - 1] == q);
        }
    }
}

/// What a sweep from no marks leaves behind, unit by unit, described by which
/// pairs it visited rather than by their order.
proof fn lemma_sweep_shape(u: Seq<Unit>, ps: Seq<(usize, usize)>)
    requires
        proper_pairs(ps, u.len()),
    ensures
        sweep(u, no_marks(u.len()), ps).0.len() == u.len(),
        sweep(u, no_marks(u.len()), ps).1.len() == u.len(),
        forall|k: int| 0 <= k < u.len() ==> same_but_engagement(#[trigger] sweep(u, no_marks(u.len()), ps).0[k], u[k]),
        forall|k: int| 0 <= k < u.len() ==> #[trigger] sweep(u, no_marks(u.len()), ps).1[k] == blocked_in(u, ps, k),
        single_foe(u) ==> forall|k: int| 0 <= k < u.len() ==> (#[trigger] sweep(u, no_marks(u.len()), ps).0[k]).fighter.fighting
            == settled_fighting(u, ps, k),
        forall|k: int| 0 <= k < u.len() ==> kept_or_other(u, (#[trigger] sweep(u, no_marks(u.len()), ps).0[k]).fighter.fighting, k),
    decreases ps.len(),
{
    let n = u.len();
    if ps.len() == 0 {
        assert forall|k: int| 0 <= k < n implies !blocked_in(u, ps, k) && !clash_in(u, ps, k) by {
            if blocked_in(u, ps, k) {
                let q = choose|q: (usize, usize)| #[trigger] ps.contains(q) && blocks(u, q.0 as int, q.1 as int) && rear(u, q.0 as int, q.1 as int) == k;
                let w = choose|w: int| 0 <= w < ps.len() && ps[w] == q;
            }
            if clash_in(u, ps, k) {
                let q = choose|q: (usize, usize)| #[trigger] ps.contains(q) && clashes(u, q.0 as int, q.1 as int) && (q.0 == k || q.1 == k);
                let w = choose|w: int| 0 <= w < ps.len() && ps[w] == q;
            }
        }
    } else {
        let init = ps.drop_last();
        let last = ps.last();
        lemma_contains_last(ps);
        assert forall|q: (usize, usize)| #[trigger] init.contains(q) implies q.0 < q.1 && q.1 < n by {
            assert(ps.contains(q));
        }
        assert(ps.contains(last));
        lemma_sweep_shape(u, init);
        let s = sweep(u, no_marks(n), init);
        let i = last.0 as int;
        let j = last.1 as int;
        assert(same_but_engagement(s.0[i], u[i]));
        assert(same_but_engagement(s.0[j], u[j]));
        assert forall|k: int| 0 <= k < n implies
            (blocked_in(u, ps, k) == (blocked_in(u, init, k) || (blocks(u, i, j) && rear(u, i, j) == k)))
            && (clash_in(u, ps, k) == (clash_in(u, init, k) || (clashes(u, i, j) && (i == k || j == k)))) by {
            if blocked_in(u, ps, k) {
                let q = choose|q: (usize, usize)| #[trigger] ps.contains(q) && blocks(u, q.0 as int, q.1 as int) && rear(u, q.0 as int, q.1 as int) == k;
                if q != last {
                    assert(init.contains(q));
                }
            }
            if blocked_in(u, init, k) {
                let q = choose|q: (usize, usize)| #[trigger] init.contains(q) && blocks(u, q.0 as int, q.1 as int) && rear(u, q.0 as int, q.1 as int) == k;
                assert(ps.contains(q));
            }
            if clash_in(u, ps, k) {
                let q = choose|q: (usize, usize)| #[trigger] ps.contains(q) && clashes(u, q.0 as int, q.1 as int) && (q.0 == k || q.1 == k);
                if q != last {
                    assert(init.contains(q));
                }
            }
            if clash_in(u, init, k) {
                let q = choose|q: (usize, usize)| #[trigger] init.contains(q) && clashes(u, q.0 as int, q.1 as int) && (q.0 == k || q.1 == k);
                assert(ps.contains(q));
            }
        }
        if single_foe(u) && clashes(u, i, j) {
            assert(clashes(u, j, i));
            assert(foe(u, i) == j);
            assert(foe(u, j) == i);
        }
        let r = sweep(u, no_marks(n), ps);
        assert(r == visit(s.0, s.1, i, j));
        if clashes(u, i, j) {
            assert(r.0[i].fighter.fighting == Some(u[j].id));
            assert(r.0[j].fighter.fighting == Some(u[i].id));
            assert(kept_or_other(u, r.0[i].fighter.fighting, i));
            assert(kept_or_other(u, r.0[j].fighter.fighting, j));
        }
        assert forall|k: int| 0 <= k < n implies kept_or_other(u, (#[trigger] r.0[k]).fighter.fighting, k) by {
            if k != i && k != j || !clashes(u, i, j) {
                assert(r.0[k].fighter.fighting == s.0[k].fighter.fighting);
            }
        }
    }
}

/// The outcome of a sweep over any proper pairs: a unit waits exactly when
/// some pair found it blocked, whatever its flag was before; when no unit overlaps two units of the other side, a unit that overlaps
/// one engages it and any other keeps its opponent. Nothing else changes.
pub proof fn lemma_engagement_outcome(u: Seq<Unit>, ps: Seq<(usize, usize)>)
    requires
        proper_pairs(ps, u.len()),
    ensures
        engagement_outcome(u, ps).len() == u.len(),
        forall|k: int| 0 <= k < u.len() ==> same_but_engagement(#[trigger] engagement_outcome(u, ps)[k], u[k]),
        forall|k: int| 0 <= k < u.len() ==> (#[trigger] engagement_outcome(u, ps)[k]).fighter.waiting == settled_waiting(u, ps, k),
        single_foe(u) ==> forall|k: int| 0 <= k < u.len() ==> (#[trigger] engagement_outcome(u, ps)[k]).fighter.fighting
            == settled_fighting(u, ps, k),
{
    lemma_sweep_shape(u, ps);
}

/// A full sweep keeps a valid store valid.
pub proof fn lemma_engagement_valid(u: Seq<Unit>, effects: Seq<crate::world::Effect>, next: EntityId)
    requires
        u.len() <= usize::MAX,
        crate::world::units_valid(u),
        crate::world::ids_fresh(u, effects, next),
    ensures
        crate::world::units_valid(engagement_outcome(u, pair_order(u.len()))),
        crate::world::ids_fresh(engagement_outcome(u, pair_order(u.len())), effects, next),
{
    let ps = pair_order(u.len());
    lemma_pair_order_contents(u.len());
    lemma_sweep_shape(u, ps);
    let s = sweep(u, no_marks(u.len()), ps);
    let o = engagement_outcome(u, ps);
    assert forall|k: int| 0 <= k < o.len() implies (#[trigger] o[k]).id == u[k].id && o[k].fighter.fighting != Some(o[k].id)
        && o[k].fighter.valid() && -crate::world::POS_LIMIT <= o[k].x <= crate::world::POS_LIMIT
        && -crate::world::POS_LIMIT <= o[k].y <= crate::world::POS_LIMIT by {
        assert(same_but_engagement(s.0[k], u[k]));
        assert(kept_or_other(u, s.0[k].fighter.fighting, k));
        if s.0[k].fighter.fighting != u[k].fighter.fighting {
            let m = choose|m: int| 0 <= m < u.len() && m != k && s.0[k].fighter.fighting == Some(#[trigger] u[m].id);
            assert(u[m].id != u[k].id);
        }
    }
    assert forall|k1: int, k2: int| 0 <= k1 < o.len() && 0 <= k2 < o.len() && k1 != k2
        implies (#[trigger] o[k1]).id != (#[trigger] o[k2]).id by {
        assert(o[k1].id == u[k1].id);
        assert(o[k2].id == u[k2].id);
    }
    assert forall|k1: int, k2: int| 0 <= k1 < o.len() && 0 <= k2 < effects.len()
        implies (#[trigger] o[k1]).id != (#[trigger] effects[k2]).id by {
        assert(o[k1].id == u[k1].id);
    }
}

/// The order of the pairs does not matter: sweeps over two orders of the same
/// pairs leave every unit with the same waiting flag, whatever the units, and,
/// when no unit overlaps two units of the other side, leave the same units.
pub proof fn lemma_order_independent(u: Seq<Unit>, ps1: Seq<(usize, usize)>, ps2: Seq<(usize, usize)>)
    requires
        proper_pairs(ps1, u.len()),
        forall|q: (usize, usize)| ps1.contains(q) <==> ps2.contains(q),
    ensures
        engagement_outcome(u, ps1).len() == engagement_outcome(u, ps2).len(),
        forall|k: int| 0 <= k < u.len() ==> (#[trigger] engagement_outcome(u, ps1)[k]).fighter.waiting
            == engagement_outcome(u, ps2)[k].fighter.waiting,
        single_foe(u) ==> engagement_outcome(u, ps1) == engagement_outcome(u, ps2),
{
    assert(proper_pairs(ps2, u.len()));
    lemma_engagement_outcome(u, ps1);
    lemma_engagement_outcome(u, ps2);
    assert forall|k: int| 0 <= k < u.len() implies blocked_in(u, ps1, k) == blocked_in(u, ps2, k)
        && clash_in(u, ps1, k) == clash_in(u, ps2, k) by {
        if blocked_in(u, ps1, k) {
            let q = choose|q: (usize, usize)| #[trigger] ps1.contains(q) && blocks(u, q.0 as int, q.1 as int) && rear(u, q.0 as int, q.1 as int) == k;
            assert(ps2.contains(q));
        }
        if blocked_in(u, ps2, k) {
            let q = choose|q: (usize, usize)| #[trigger] ps2.contains(q) && blocks(u, q.0 as int, q.1 as int) && rear(u, q.0 as int, q.1 as int) == k;
            assert(ps1.contains(q));
        }
        if clash_in(u, ps1, k) {
            let q = choose|q: (usize, usize)| #[trigger] ps1.contains(q) && clashes(u, q.0 as int, q.1 as int) && (q.0 == k || q.1 == k);
            assert(ps2.contains(q));
        }
        if clash_in(u, ps2, k) {
            let q = choose|q: (usize, usize)| #[trigger] ps2.contains(q) && clashes(u, q.0 as int, q.1 as int) && (q.0 == k || q.1 == k);
            assert(ps1.contains(q));
        }
    }
    let o1 = engagement_outcome(u, ps1);
    let o2 = engagement_outcome(u, ps2);
    if single_foe(u) {
        assert forall|k: int| 0 <= k < u.len() implies o1[k] == o2[k] by {
            assert(same_but_engagement(o1[k], u[k]));
            assert(same_but_engagement(o2[k], u[k]));
        }
        assert(o1 =~= o2);
    }
}

/// After a full sweep, when no unit overlaps two units of the other side,
/// every two overlapping units of opposite sides are engaged with each other.
pub proof fn lemma_engagement_mutual(u: Seq<Unit>)
    requires
        u.len() <= usize::MAX,
        single_foe(u),
    ensures
        forall|a: int, b: int| 0 <= a < u.len() && 0 <= b < u.len() && #[trigger] clashes(u, a, b) ==> {
            &&& engagement_outcome(u, pair_order(u.len()))[a].fighter.fighting == Some(u[b].id)
            &&& engagement_outcome(u, pair_order(u.len()))[b].fighter.fighting == Some(u[a].id)
            &&& engagement_outcome(u, pair_order(u.len()))[a].id == u[a].id
            &&& engagement_outcome(u, pair_order(u.len()))[b].id == u[b].id
        },
{
    let n = u.len();
    let ps = pair_order(n);
    lemma_pair_order_contents(n);
    lemma_engagement_outcome(u, ps);
    let o = engagement_outcome(u, ps);
    assert forall|a: int, b: int| 0 <= a < n && 0 <= b < n && #[trigger] clashes(u, a, b) implies {
        &&& o[a].fighter.fighting == Some(u[b].id)
        &&& o[b].fighter.fighting == Some(u[a].id)
        &&& o[a].id == u[a].id
        &&& o[b].id == u[b].id
    } by {
        assert(clashes(u, b, a));
        assert(a != b);
        let q: (usize, usize) = if a < b { (a as usize, b as usize) } else { (b as usize, a as usize) };
        assert(ps.contains(q));
        assert(clashes(u, q.0 as int, q.1 as int));
        assert(clash_in(u, ps, a));
        assert(clash_in(u, ps, b));
        assert(foe(u, a) == b);
        assert(foe(u, b) == a);
        assert(same_but_engagement(o[a], u[a]));
        assert(same_but_engagement(o[b], u[b]));
    }
}

} // verus!
